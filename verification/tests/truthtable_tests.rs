use bitpit::truthtable::{pretty_format_io_function, IoTruthTable};

#[test]
fn canonical_tables_entries() {
    let yes = IoTruthTable::yes_unconditional();
    let no = IoTruthTable::no_unconditional();
    let input = IoTruthTable::input_conditional();
    let output = IoTruthTable::output_conditional();
    assert_eq!(yes.0, [[true, true], [true, true]]);
    assert_eq!(no.0, [[false, false], [false, false]]);
    assert_eq!(input.0, [[false, false], [true, true]]);
    assert_eq!(output.0, [[false, true], [false, true]]);
}

#[test]
fn pack_values() {
    assert_eq!(IoTruthTable::yes_unconditional().pack_bitfield().0, 0x0f);
    assert_eq!(IoTruthTable::no_unconditional().pack_bitfield().0, 0x00);
    assert_eq!(IoTruthTable::input_conditional().pack_bitfield().0, 0x0c);
    assert_eq!(IoTruthTable::output_conditional().pack_bitfield().0, 0x0a);
}

#[test]
fn pack_unpack_round_trip() {
    let tables = [
        IoTruthTable::yes_unconditional(),
        IoTruthTable::no_unconditional(),
        IoTruthTable::input_conditional(),
        IoTruthTable::output_conditional(),
    ];
    for t in tables {
        assert_eq!(t.pack_bitfield().unpack(), t);
    }
}

#[test]
fn bitwise_lookup_reads_packed_entries() {
    let packed = IoTruthTable::input_conditional().pack_bitfield();
    assert!(!packed.bitwise_lookup(false, false));
    assert!(!packed.bitwise_lookup(false, true));
    assert!(packed.bitwise_lookup(true, false));
    assert!(packed.bitwise_lookup(true, true));
}

#[test]
fn lookup_ignores_high_bits() {
    let packed = IoTruthTable(0xf0u8);
    assert!(!packed.bitwise_lookup(false, false));
    assert!(!packed.bitwise_lookup(true, true));
}

#[test]
fn imprint_keeps_existing_bits() {
    let mut field = IoTruthTable::input_conditional().pack_bitfield();
    field.bitwise_imprint(&IoTruthTable::output_conditional());
    assert_eq!(field.0, 0x0e);
}

#[test]
fn repack_from_overwrites() {
    let mut field = IoTruthTable::yes_unconditional().pack_bitfield();
    field.repack_from(&IoTruthTable::no_unconditional());
    assert_eq!(field.0, 0x00);
}

#[test]
fn zero_and_copy() {
    let mut field = IoTruthTable::yes_unconditional().pack_bitfield();
    field.bitwise_zero();
    assert_eq!(field.0, 0);
    field.copy_from(IoTruthTable(0x0au8));
    assert_eq!(field.0, 0x0a);
}

#[test]
fn pretty_format_lists_all_entries() {
    let table = IoTruthTable::input_conditional();
    assert_eq!(
        pretty_format_io_function(&table.0),
        "(i,o)={ (f,f):false (t,f):true (f,t):false (t,t):true }"
    );
}

#[test]
fn new_zeroed_bitfield_is_zero() {
    assert_eq!(IoTruthTable::new_zeroed_bitfield().0, 0u8);
}
