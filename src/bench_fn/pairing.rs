use crate::heap::pairing::{lemma_seq_empty_multiset, PairingHeap};
use rand::Rng;
use vstd::multiset::Multiset;
use vstd::prelude::*;

verus! {

/// Relies on rand's `thread_rng` and `Rng::gen_range`: a value drawn from
/// the half-open range `lo..hi`, which must not be empty.
#[verifier::external_body]
fn random_in(lo: i32, hi: i32) -> (r: i32)
    requires
        lo < hi,
    ensures
        lo <= r < hi,
{
    rand::thread_rng().gen_range(lo..hi)
}

/// Sorts `values` by inserting them all into a pairing heap and then
/// removing the minimum as many times as there were values.
pub fn heapsort_values(values: &Vec<i64>) -> (r: Vec<i64>)
    ensures
        r@.to_multiset() =~= values@.to_multiset(),
        forall|i: int, j: int| 0 <= i <= j < r@.len() ==> r@[i] <= r@[j],
{
    let mut heap = PairingHeap::new();
    let mut i: usize = 0;
    proof {
        lemma_seq_empty_multiset(values@.subrange(0, 0));
    }
    while i < values.len()
        invariant
            0 <= i <= values.len(),
            heap.wf(),
            heap@ =~= values@.subrange(0, i as int).to_multiset(),
        decreases values.len() - i,
    {
        let ghost pre = values@.subrange(0, i as int);
        assert(values@.subrange(0, i as int + 1) =~= pre.push(values[i as int]));
        proof {
            pre.to_multiset_ensures();
        }
        assert(pre.push(values[i as int]).to_multiset() =~= pre.to_multiset().insert(values[i as int]));
        assert(pre.to_multiset().len() == i);
        heap.insert(values[i]);
        i = i + 1;
    }
    assert(values@.subrange(0, values.len() as int) =~= values@);
    proof {
        values@.to_multiset_ensures();
    }
    let n = heap.len();
    let mut out: Vec<i64> = Vec::new();
    let mut k: usize = 0;
    proof {
        lemma_seq_empty_multiset(out@);
    }
    while k < n
        invariant
            0 <= k <= n,
            n == values@.len(),
            heap.wf(),
            out@.len() == k,
            heap@.len() == n - k,
            out@.to_multiset().add(heap@) =~= values@.to_multiset(),
            forall|a: int, b: int| 0 <= a <= b < out@.len() ==> out@[a] <= out@[b],
            forall|a: int, x: i64| #![trigger out@[a], heap@.count(x)] 0 <= a < out@.len() && heap@.count(x) > 0 ==> out@[a] <= x,
        decreases n - k,
    {
        let ghost h0 = heap@;
        let ghost o0 = out@;
        let r = heap.delete_min();
        match r {
            None => {
                assert(false);
            },
            Some(m) => {
                out.push(m);
                assert(out@.drop_last() =~= o0);
                assert(out@ =~= o0.push(m));
                proof {
                    o0.to_multiset_ensures();
                }
                assert(o0.push(m).to_multiset() =~= o0.to_multiset().insert(m));
                assert(out@.to_multiset().add(heap@) =~= values@.to_multiset());
                assert forall|a: int, x: i64| #![trigger out@[a], heap@.count(x)] 0 <= a < out@.len() && heap@.count(x) > 0
                    implies out@[a] <= x by {
                    assert(h0.count(x) > 0);
                    if a < o0.len() {
                        assert(o0[a] == out@[a]);
                    }
                }
                assert forall|a: int, b: int| 0 <= a <= b < out@.len() implies out@[a] <= out@[b] by {
                    if b == o0.len() {
                        if a < b {
                            assert(o0[a] == out@[a]);
                            assert(h0.count(m) > 0);
                        }
                    } else {
                        assert(o0[a] == out@[a]);
                        assert(o0[b] == out@[b]);
                    }
                }
            },
        }
        k = k + 1;
    }
    out
}

/// Draws `len` values uniformly from `-100000000..100000000` and sorts them
/// with a pairing heap, discarding the result.
pub fn heapsort(len: usize) {
    let mut values: Vec<i64> = Vec::new();
    let mut i: usize = 0;
    while i < len
        invariant
            0 <= i <= len,
        decreases len - i,
    {
        let v = random_in(-100000000, 100000000);
        values.push(v as i64);
        i = i + 1;
    }
    let _sorted = heapsort_values(&values);
}

} // verus!
