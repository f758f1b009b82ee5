//! Random sampling: a trusted source of random words, and a verified
//! partial shuffle built on it. Whatever values the source yields, the
//! sampled indices are in range and pairwise distinct.

use vstd::prelude::*;

verus! {

/// Relies on rand::random::<u64>: a pseudo-random word from the thread-local
/// generator. Nothing is promised of the value.
#[verifier::external_body]
fn random_u64() -> u64 {
    rand::random::<u64>()
}

/// Draws `min(n, len)` pairwise distinct indices below `len`, by a partial
/// shuffle of the index range. Which indices come out, and in what order,
/// depends on the random source.
pub fn sample_indices(len: usize, n: usize) -> (r: Vec<usize>)
    ensures
        r@.len() == if n < len {
            n as int
        } else {
            len as int
        },
        forall|i: int| 0 <= i < r@.len() ==> (#[trigger] r@[i]) < len,
        forall|i: int, j: int| 0 <= i < j < r@.len() ==> r@[i] != r@[j],
{
    let mut idx: Vec<usize> = Vec::new();
    let mut i: usize = 0;
    while i < len
        invariant
            i <= len,
            idx@.len() == i,
            forall|a: int| 0 <= a < i ==> (#[trigger] idx@[a]) == a,
        decreases len - i,
    {
        idx.push(i);
        i = i + 1;
    }
    let k = if n < len {
        n
    } else {
        len
    };
    let mut t: usize = 0;
    while t < k
        invariant
            t <= k <= len,
            idx@.len() == len,
            forall|a: int| 0 <= a < len ==> (#[trigger] idx@[a]) < len,
            forall|a: int, b: int| 0 <= a < b < len ==> idx@[a] != idx@[b],
        decreases k - t,
    {
        let rnd = random_u64();
        let span = (len - t) as u64;
        let off = rnd % span;
        let pick = t + (off as usize);
        let ghost o = idx@;
        let a = idx[t];
        let b = idx[pick];
        idx.set(t, b);
        idx.set(pick, a);
        proof {
            assert(idx@ =~= o.update(t as int, o[pick as int]).update(pick as int, o[t as int]));
        }
        t = t + 1;
    }
    idx.truncate(k);
    idx
}

} // verus!
