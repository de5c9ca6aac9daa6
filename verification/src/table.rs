use vstd::prelude::*;
use crate::generator::{gstep, powstep};

verus! {

/// Gets the nth bit from a u8
pub fn nth_bit(num: u8, idx: u8) -> (r: u8)
    requires
        idx < 8,
    ensures
        r == (num >> idx) & 1,
{
    (num >> idx) & 1
}

/// Applies the {02} generator from GF(2^8) modded by x^8 + x^4 + x^3 + x^2 + 1
fn raid6_generator(num: u8) -> (r: u8)
    ensures
        r == gstep(num),
{
    let m: u8 = if nth_bit(num, 7) == 1 {
        0x1d
    } else {
        0
    };
    let r = (num << 1u8) ^ m;
    proof {
        assert((num << 1u8) ^ (if (num >> 7u8) & 1 == 1 { 0x1du8 } else { 0u8 }) == gstep(num))
            by (bit_vector);
    }
    r
}

/// Represents a table of repeated right multiplication by the generator {02}
/// in GF(2^8): row e, column g holds e multiplied by g^g.
pub struct MTable {
    table: Vec<Vec<u8>>,
}

impl MTable {
    /// The number of rows held.
    pub closed spec fn rows(self) -> int {
        self.table@.len() as int
    }

    /// The length of one row.
    pub closed spec fn row_len(self, e: int) -> int {
        self.table@[e]@.len() as int
    }

    /// The entry for element e under g applications of the generator.
    pub closed spec fn entry(self, e: int, g: int) -> u8 {
        self.table@[e]@[g]
    }

    /// A full table: every element of the field against every number of
    /// generator applications up to 255.
    pub open spec fn wf(self) -> bool {
        &&& self.rows() == 256
        &&& forall|e: int| 0 <= e < 256 ==> #[trigger] self.row_len(e) == 256
        &&& forall|e: int, g: int| 0 <= e < 256 && 0 <= g < 256
            ==> #[trigger] self.entry(e, g) == powstep(g as nat, e as u8)
    }

    /// Generates the table for the Galois Field used by raid6, GF(2^8)
    pub fn new() -> (r: Self)
        ensures
            r.wf(),
    {
        let mut table: Vec<Vec<u8>> = Vec::new();
        let mut e: usize = 0;
        while e < 256
            invariant
                e <= 256,
                table@.len() == e,
                forall|e2: int| 0 <= e2 < e ==> (#[trigger] table@[e2])@.len() == 256,
                forall|e2: int, g: int| 0 <= e2 < e && 0 <= g < 256
                    ==> #[trigger] table@[e2]@[g] == powstep(g as nat, e2 as u8),
            decreases 256 - e,
        {
            let mut row: Vec<u8> = Vec::new();
            row.push(e as u8);
            let mut g: usize = 1;
            while g < 256
                invariant
                    1 <= g <= 256,
                    e < 256,
                    row@.len() == g,
                    forall|j: int| 0 <= j < g ==> row@[j] == powstep(j as nat, e as u8),
                decreases 256 - g,
            {
                let prev = row[g - 1];
                row.push(raid6_generator(prev));
                g = g + 1;
            }
            table.push(row);
            e = e + 1;
        }
        MTable { table }
    }

    /// Applies the generator {02} to an input number
    pub fn apply(&self, input: u8) -> (r: u8)
        requires
            self.wf(),
        ensures
            r == gstep(input),
    {
        proof {
            assert(self.row_len(input as int) == 256);
            assert(self.entry(input as int, 1) == powstep(1, input));
            assert(powstep(1, input) == gstep(powstep(0, input)));
            assert(powstep(0, input) == input);
        }
        self.table[input as usize][1]
    }

    /// Applies the generator {02} to an input number n times
    pub fn applyn(&self, input: u8, n: usize) -> (r: u8)
        requires
            self.wf(),
            n < 256,
        ensures
            r == powstep(n as nat, input),
    {
        proof {
            assert(self.row_len(input as int) == 256);
            assert(self.entry(input as int, n as int) == powstep(n as nat, input));
        }
        self.table[input as usize][n]
    }
}

} // verus!
