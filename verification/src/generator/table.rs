use vstd::prelude::*;
use crate::generator::{gstep, gpow, log_val, lemma_antilog_log, lemma_gpow_injective, lemma_gpow_nonzero};

verus! {

/// Gets the nth bit from a u8
pub fn nth_bit(num: u8, idx: u8) -> (r: u8)
    requires
        idx < 8,
    ensures
        r == (num >> idx) & 1,
{
    (num >> idx) & 1
}

/// Applies the {02} generator from GF(2^8), what is effectively the element x,
/// modded by x^8 + x^4 + x^3 + x^2 + 1
pub fn raid6_generator(num: u8) -> (r: u8)
    ensures
        r == gstep(num),
{
    let m: u8 = if nth_bit(num, 7) == 1 {
        0x1d // Effectively x^4 + x^3 + x^2 + 1
    } else {
        0
    };
    let r = (num << 1u8) ^ m;
    proof {
        assert((num << 1u8) ^ (if (num >> 7u8) & 1 == 1 { 0x1du8 } else { 0u8 }) == gstep(num))
            by (bit_vector);
    }
    r
}

/// A table of repeated multiplication by the generator {02} in GF(2^8).
///
/// Since {02} generates every nonzero element of GF(2^8), the two tables map
/// n -> g^n and g^n -> n; a byte's discrete logarithm comes from the second.
pub struct MTable {
    pub n_to_gn: Vec<u8>,
    pub gn_to_n: Vec<u8>,
}

impl MTable {
    /// Both tables filled in and inverse to one another.
    pub open spec fn wf(self) -> bool {
        &&& self.n_to_gn@.len() == 255
        &&& self.gn_to_n@.len() == 256
        &&& forall|n: int| 0 <= n < 255 ==> self.n_to_gn@[n] == gpow(n as nat)
        &&& forall|v: int| 1 <= v < 256 ==> self.gn_to_n@[v] == log_val(v)
        &&& self.gn_to_n@[0] == 0
    }

    /// Generates the table for the Galois Field used by raid6, GF(2^8)
    pub fn new() -> (r: MTable)
        ensures
            r.wf(),
    {
        let mut n_to_gn: Vec<u8> = Vec::new();
        n_to_gn.push(1); // g^0 = e = 1
        let mut n: usize = 1;
        while n < 255
            invariant
                1 <= n <= 255,
                n_to_gn@.len() == n,
                forall|m: int| 0 <= m < n ==> n_to_gn@[m] == gpow(m as nat),
            decreases 255 - n,
        {
            let prev = n_to_gn[n - 1];
            n_to_gn.push(raid6_generator(prev)); // g^n = g * g^(n-1)
            n = n + 1;
        }
        let mut gn_to_n: Vec<u8> = Vec::new();
        let mut v: usize = 0;
        while v < 256
            invariant
                v <= 256,
                gn_to_n@.len() == v,
                forall|w: int| 0 <= w < v ==> gn_to_n@[w] == 0,
            decreases 256 - v,
        {
            gn_to_n.push(0);
            v = v + 1;
        }
        let mut i: usize = 0;
        while i < 255
            invariant
                i <= 255,
                n_to_gn@.len() == 255,
                gn_to_n@.len() == 256,
                forall|m: int| 0 <= m < 255 ==> n_to_gn@[m] == gpow(m as nat),
                forall|m: int| 0 <= m < i ==> gn_to_n@[#[trigger] gpow(m as nat) as int] == m,
                gn_to_n@[0] == 0,
            decreases 255 - i,
        {
            let e = n_to_gn[i];
            proof {
                lemma_gpow_nonzero(i as nat);
                assert forall|m: int| 0 <= m < i implies #[trigger] gpow(m as nat) != gpow(i as nat) by {
                    if gpow(m as nat) == gpow(i as nat) {
                        lemma_gpow_injective(m, i as int);
                    }
                }
            }
            gn_to_n[e as usize] = i as u8;
            i = i + 1;
        }
        proof {
            assert forall|w: int| 1 <= w < 256 implies gn_to_n@[w] == log_val(w) by {
                lemma_antilog_log(w);
                assert(gn_to_n@[gpow(log_val(w) as nat) as int] == log_val(w));
            }
        }
        MTable { n_to_gn, gn_to_n }
    }
}

} // verus!
