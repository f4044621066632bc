//! Truth tables over the two cell conditions, input and output.
//!
//! An [`IoTruthTable`] is a boolean function of the two booleans
//! `(input, output)`, held either unpacked as a 2x2 array (input selects
//! the outer row, output the inner column) or packed into the low four
//! bits of a byte, where the entry for `(input, output)` sits at bit
//! `output + input * 2`.  The high four bits of a packed table carry no
//! meaning and are ignored by lookups.

use vstd::prelude::*;
use vstd::string::StringExecFns;

verus! {

/// A boolean function of the `(input, output)` conditions, generic over
/// its representation: a 2x2 array or a packed byte.
#[derive(Copy, Clone, PartialEq, Eq, Structural, Debug)]
pub struct IoTruthTable<T>(pub T);

/// Unpacked table entries; input indexes the outer array, output the
/// inner one.
pub type TruthTableArray = [[bool; 2]; 2];

impl IoTruthTable<TruthTableArray> {
    /// The function this unpacked table computes.
    pub open spec fn spec_lookup(self, input: bool, output: bool) -> bool {
        self.0[input as int][output as int]
    }

    /// The table that is false everywhere.
    pub fn no_unconditional() -> (r: Self)
        ensures
            forall|i: bool, o: bool| r.spec_lookup(i, o) == false,
    {
        IoTruthTable([[false, false], [false, false]])
    }

    /// The table that is true everywhere.
    pub fn yes_unconditional() -> (r: Self)
        ensures
            forall|i: bool, o: bool| r.spec_lookup(i, o) == true,
    {
        IoTruthTable([[true, true], [true, true]])
    }

    /// The table that is true exactly when the input condition holds.
    pub fn input_conditional() -> (r: Self)
        ensures
            forall|i: bool, o: bool| r.spec_lookup(i, o) == i,
    {
        IoTruthTable([[false, false], [true, true]])
    }

    /// The table that is true exactly when the output condition holds.
    pub fn output_conditional() -> (r: Self)
        ensures
            forall|i: bool, o: bool| r.spec_lookup(i, o) == o,
    {
        IoTruthTable([[false, true], [false, true]])
    }

    /// Pack this table into the low four bits of a byte.
    pub fn pack_bitfield(&self) -> (r: IoTruthTable<u8>)
        ensures
            forall|i: bool, o: bool| r.spec_lookup(i, o) == self.spec_lookup(i, o),
            r.0 < 16,
    {
        let mut field = IoTruthTable::new_zeroed_bitfield();
        field.bitwise_imprint(&self);
        proof {
            let w = field.0;
            assert((w >> 4) == (0u8 >> 4) ==> w < 16) by (bit_vector);
        }
        field
    }
}

impl IoTruthTable<u8> {
    /// The function this packed table computes: the bit at
    /// `output + input * 2`, taken from the low four bits only.
    pub open spec fn spec_lookup(self, input: bool, output: bool) -> bool {
        if input {
            if output {
                (self.0 >> 3) & 1 == 1
            } else {
                (self.0 >> 2) & 1 == 1
            }
        } else {
            if output {
                (self.0 >> 1) & 1 == 1
            } else {
                self.0 & 1 == 1
            }
        }
    }

    /// A packed table with every bit clear, so false everywhere.
    pub fn new_zeroed_bitfield() -> (r: Self)
        ensures
            r.0 == 0,
            forall|i: bool, o: bool| r.spec_lookup(i, o) == false,
    {
        let r = IoTruthTable(0x00u8);
        proof {
            assert((0u8 & 1) != 1 && ((0u8 >> 1) & 1) != 1 && ((0u8 >> 2) & 1) != 1 && ((0u8 >> 3)
                & 1) != 1) by (bit_vector);
        }
        r
    }

    /// Read the entry for one `(input, output)` pair.
    pub fn bitwise_lookup(&self, input: bool, output: bool) -> (r: bool)
        ensures
            r == self.spec_lookup(input, output),
    {
        let shift: u8 = output as u8 + (input as u8 * 2);
        let mask: u8 = 1 << shift;
        let r = ((self.0 & mask) & 0x0F) != 0x00;
        proof {
            let w = self.0;
            assert((((w & (1u8 << 0)) & 0x0F) != 0) == (w & 1 == 1)) by (bit_vector);
            assert((((w & (1u8 << 1)) & 0x0F) != 0) == ((w >> 1) & 1 == 1)) by (bit_vector);
            assert((((w & (1u8 << 2)) & 0x0F) != 0) == ((w >> 2) & 1 == 1)) by (bit_vector);
            assert((((w & (1u8 << 3)) & 0x0F) != 0) == ((w >> 3) & 1 == 1)) by (bit_vector);
        }
        r
    }

    /// Unpack into the array representation, dropping the unused high
    /// bits.
    pub fn unpack(&self) -> (r: IoTruthTable<TruthTableArray>)
        ensures
            forall|i: bool, o: bool| r.spec_lookup(i, o) == self.spec_lookup(i, o),
    {
        IoTruthTable(
            [
                [self.bitwise_lookup(false, false), self.bitwise_lookup(false, true)],
                [self.bitwise_lookup(true, false), self.bitwise_lookup(true, true)],
            ],
        )
    }

    /// Clear every bit of the packed table.
    pub fn bitwise_zero(&mut self)
        ensures
            final(self).0 == 0,
            forall|i: bool, o: bool| final(self).spec_lookup(i, o) == false,
    {
        self.0 = 0;
        proof {
            assert((0u8 & 1) != 1 && ((0u8 >> 1) & 1) != 1 && ((0u8 >> 2) & 1) != 1 && ((0u8 >> 3)
                & 1) != 1) by (bit_vector);
        }
    }

    /// Set the bits of the entries that are true in `table`, leaving all
    /// other bits as they were.
    pub fn bitwise_imprint(&mut self, table: &IoTruthTable<TruthTableArray>)
        ensures
            forall|i: bool, o: bool|
                final(self).spec_lookup(i, o) == (old(self).spec_lookup(i, o)
                    || table.spec_lookup(i, o)),
            (final(self).0 >> 4) == (old(self).0 >> 4),
    {
        let ghost w0 = self.0;
        let b0 = table.0[0][0];
        let b1 = table.0[0][1];
        let b2 = table.0[1][0];
        let b3 = table.0[1][1];
        if b0 {
            self.0 = self.0 | 0x1;
        }
        if b1 {
            self.0 = self.0 | 0x2;
        }
        if b2 {
            self.0 = self.0 | 0x4;
        }
        if b3 {
            self.0 = self.0 | 0x8;
        }
        proof {
            let w1 = self.0;
            assert((w1 & 1 == 1) == ((w0 & 1 == 1) || b0) && ((w1 >> 1) & 1 == 1) == (((w0 >> 1) & 1
                == 1) || b1) && ((w1 >> 2) & 1 == 1) == (((w0 >> 2) & 1 == 1) || b2) && ((w1 >> 3)
                & 1 == 1) == (((w0 >> 3) & 1 == 1) || b3) && (w1 >> 4) == (w0 >> 4))
                by (bit_vector)
                requires
                    w1 == ({
                        let s0 = if b0 {
                            w0 | 0x1
                        } else {
                            w0
                        };
                        let s1 = if b1 {
                            s0 | 0x2
                        } else {
                            s0
                        };
                        let s2 = if b2 {
                            s1 | 0x4
                        } else {
                            s1
                        };
                        if b3 {
                            s2 | 0x8
                        } else {
                            s2
                        }
                    }),
            ;
        }
    }

    /// Clear the packed table, then imprint `table` onto it.
    pub fn repack_from(&mut self, table: &IoTruthTable<TruthTableArray>)
        ensures
            forall|i: bool, o: bool| final(self).spec_lookup(i, o) == table.spec_lookup(i, o),
            final(self).0 < 16,
    {
        self.bitwise_zero();
        self.bitwise_imprint(table);
        proof {
            let w = self.0;
            assert((w >> 4) == (0u8 >> 4) ==> w < 16) by (bit_vector);
        }
    }

    /// Overwrite this packed table with another.
    pub fn copy_from(&mut self, source: IoTruthTable<u8>)
        ensures
            final(self).0 == source.0,
    {
        self.0 = source.0;
    }
}

/// The rendering of one table entry.
pub open spec fn spec_bool_text(b: bool) -> Seq<char> {
    if b {
        "true"@
    } else {
        "false"@
    }
}

/// The rendering of an unpacked table, entry by entry.
pub open spec fn spec_pretty_io(table: IoTruthTable<TruthTableArray>) -> Seq<char> {
    "(i,o)={ (f,f):"@ + spec_bool_text(table.spec_lookup(false, false)) + " (t,f):"@
        + spec_bool_text(table.spec_lookup(true, false)) + " (f,t):"@ + spec_bool_text(
        table.spec_lookup(false, true),
    ) + " (t,t):"@ + spec_bool_text(table.spec_lookup(true, true)) + " }"@
}

fn bool_text(b: bool) -> (s: &'static str)
    ensures
        s@ == spec_bool_text(b),
{
    if b {
        "true"
    } else {
        "false"
    }
}

/// Render an unpacked table entry by entry, for diagnostics.
pub fn pretty_format_io_function(table: &TruthTableArray) -> (s: String)
    ensures
        s@ == spec_pretty_io(IoTruthTable(*table)),
{
    let t = IoTruthTable(*table);
    let mut s = String::from_str("(i,o)={ (f,f):");
    s.append(bool_text(table[0][0]));
    s.append(" (t,f):");
    s.append(bool_text(table[1][0]));
    s.append(" (f,t):");
    s.append(bool_text(table[0][1]));
    s.append(" (t,t):");
    s.append(bool_text(table[1][1]));
    s.append(" }");
    proof {
        assert(s@ =~= spec_pretty_io(t));
    }
    s
}

/// Two unpacked tables that compute the same function hold the same
/// entries: packing and unpacking a table therefore returns it exactly.
pub proof fn lemma_table_lookup_ext(a: IoTruthTable<TruthTableArray>, b: IoTruthTable<
    TruthTableArray,
>)
    requires
        forall|i: bool, o: bool| a.spec_lookup(i, o) == b.spec_lookup(i, o),
    ensures
        a == b,
{
    broadcast use vstd::array::group_array_axioms;

    assert(a.spec_lookup(false, false) == b.spec_lookup(false, false));
    assert(a.spec_lookup(false, true) == b.spec_lookup(false, true));
    assert(a.spec_lookup(true, false) == b.spec_lookup(true, false));
    assert(a.spec_lookup(true, true) == b.spec_lookup(true, true));
    assert(a.0[0int] =~= b.0[0int]);
    assert(a.0[1int] =~= b.0[1int]);
    assert(a.0 =~= b.0);
}

} // verus!
