use vstd::prelude::*;
use crate::fixed::div_nn;
use crate::rng::UnitRandom;

verus! {

/// Spec: the byte `v` occurs among the first 256 entries of `s`.
pub open spec fn appears(s: Seq<u8>, v: u8) -> bool {
    exists|i: int| 0 <= i < 256 && s[i] == v
}

/// Spec: the first 256 entries of `s` are pairwise distinct.
pub open spec fn distinct_first_half(s: Seq<u8>) -> bool {
    forall|i: int, j: int| 0 <= i < j < 256 ==> s[i] != s[j]
}

/// A doubled permutation table: entries 0..256 hold every byte value exactly
/// once, and entries 256..512 repeat entries 0..256 element-wise, so that
/// double lookups `data[data[i] + j]` never need a wrap-around branch.
pub struct PermTable {
    pub data: Vec<u8>,
}

impl PermTable {
    /// Well-formedness: a true permutation in the first half, duplicated.
    pub open spec fn wf(self) -> bool {
        &&& self.data.len() == 512
        &&& distinct_first_half(self.data@)
        &&& forall|v: u8| #[trigger] appears(self.data@, v)
        &&& forall|i: int| 256 <= i < 512 ==> (#[trigger] self.data@[i]) == self.data@[i - 256]
    }
}

/// Build a fresh doubled permutation table: start from the identity over
/// 0..=255, apply an unbiased Fisher-Yates shuffle driven by `rng`, then
/// duplicate the shuffled half into the upper 256 entries.
pub fn generate_perm_table<R: UnitRandom>(rng: &mut R) -> (t: PermTable)
    ensures
        t.wf(),
{
    let mut perm: Vec<u8> = Vec::new();
    let mut k: usize = 0;
    while k < 256
        invariant
            perm.len() == k,
            k <= 256,
            forall|i: int| 0 <= i < k ==> perm@[i] == i as u8,
        decreases 256 - k,
    {
        perm.push(k as u8);
        k = k + 1;
    }
    proof {
        assert forall|v: u8| #[trigger] appears(perm@, v) by {
            assert(perm@[v as int] == v);
        }
    }
    let mut i: usize = 255;
    while i >= 1
        invariant
            i <= 255,
            perm.len() == 256,
            distinct_first_half(perm@),
            forall|v: u8| #[trigger] appears(perm@, v),
        decreases i,
    {
        let r = rng.next_unit();
        proof {
            assert(0 <= r as int * (i as int + 1) && r as int * (i as int + 1) < 65536 * (i as int
                + 1) && 65536 * (i as int + 1) <= 16777216) by (nonlinear_arith)
                requires
                    0 <= r < 65536,
                    0 <= i <= 255,
            ;
        }
        let ji = div_nn(r * ((i as i64) + 1), 65536);
        proof {
            vstd::arithmetic::div_mod::lemma_multiply_divide_lt(
                r as int * (i as int + 1),
                65536,
                i as int + 1,
            );
        }
        let j = ji as usize;
        let ghost before = perm@;
        let a = perm[i];
        let b = perm[j];
        perm.set(i, b);
        perm.set(j, a);
        proof {
            let after = perm@;
            assert forall|p: int, q: int| 0 <= p < q < 256 implies after[p] != after[q] by {
                let p0 = if p == i { j as int } else if p == j { i as int } else { p };
                let q0 = if q == i { j as int } else if q == j { i as int } else { q };
                assert(after[p] == before[p0]);
                assert(after[q] == before[q0]);
            }
            assert forall|v: u8| #[trigger] appears(after, v) by {
                assert(appears(before, v));
                let w = choose|w: int| 0 <= w < 256 && before[w] == v;
                let w2 = if w == i { j as int } else if w == j { i as int } else { w };
                assert(after[w2] == v);
            }
        }
        i = i - 1;
    }
    let mut data: Vec<u8> = Vec::new();
    let mut m: usize = 0;
    while m < 512
        invariant
            perm.len() == 256,
            data.len() == m,
            m <= 512,
            forall|p: int| 0 <= p < m && p < 256 ==> data@[p] == perm@[p],
            forall|p: int| 256 <= p < m ==> data@[p] == perm@[p - 256],
            distinct_first_half(perm@),
            forall|v: u8| #[trigger] appears(perm@, v),
        decreases 512 - m,
    {
        if m < 256 {
            data.push(perm[m]);
        } else {
            data.push(perm[m - 256]);
        }
        m = m + 1;
    }
    proof {
        assert forall|v: u8| #[trigger] appears(data@, v) by {
            assert(appears(perm@, v));
            let w = choose|w: int| 0 <= w < 256 && perm@[w] == v;
            assert(data@[w] == v);
        }
    }
    PermTable { data }
}

} // verus!
