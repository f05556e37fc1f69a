//! Addresses in ascending order.

use vstd::prelude::*;

verus! {

/// Ascending, so that no number occurs twice.
pub open spec fn ascending(s: Seq<u32>) -> bool {
    forall|i: int, j: int| 0 <= i < j < s.len() ==> s[i] < s[j]
}

/// How many of the numbers are less than `k`.
fn place_of(v: &Vec<u32>, k: u32) -> (at: usize)
    requires
        ascending(v@),
    ensures
        at <= v@.len(),
        forall|i: int| 0 <= i < at ==> v@[i] < k,
        forall|i: int| at <= i < v@.len() ==> k <= v@[i],
{
    let mut lo: usize = 0;
    let mut hi: usize = v.len();
    while lo < hi
        invariant
            ascending(v@),
            lo <= hi <= v@.len(),
            forall|i: int| 0 <= i < lo ==> v@[i] < k,
            forall|i: int| hi <= i < v@.len() ==> k <= v@[i],
        decreases hi - lo,
    {
        let mid: usize = lo + (hi - lo) / 2;
        if v[mid] < k {
            lo = mid + 1;
        } else {
            hi = mid;
        }
    }
    lo
}

/// Puts a number where it belongs, if it is not there.
pub fn add_key(v: &mut Vec<u32>, k: u32)
    requires
        ascending(old(v)@),
    ensures
        ascending(final(v)@),
        final(v)@.to_set() == old(v)@.to_set().insert(k),
{
    let ghost before = v@;
    let at: usize = place_of(v, k);
    if at < v.len() && v[at] == k {
        assert(before.to_set() =~= before.to_set().insert(k));
        return;
    }
    v.insert(at, k);
    let ghost after = before.insert(at as int, k);
    proof {
        assert forall|x: u32| after.to_set().contains(x) == before.to_set().insert(k).contains(x) by {
            if before.contains(x) {
                let i = before.index_of(x);
                assert(after[if i < at { i } else { i + 1 }] == x);
            }
            if after.contains(x) {
                let i = after.index_of(x);
                if i != at {
                    assert(before[if i < at { i } else { i - 1 }] == x);
                }
            }
            assert(after[at as int] == k);
        }
        assert(after.to_set() =~= before.to_set().insert(k));
    }
}

/// A number at the end adds that number to the set.
pub proof fn lemma_set_after_push(s: Seq<u32>, k: u32)
    ensures
        s.push(k).to_set() == s.to_set().insert(k),
{
    assert forall|x: u32| s.push(k).to_set().contains(x) == s.to_set().insert(k).contains(x) by {
        if s.contains(x) {
            assert(s.push(k)[s.index_of(x)] == x);
        }
        if s.push(k).contains(x) && x != k {
            assert(s[s.push(k).index_of(x)] == x);
        }
        assert(s.push(k)[s.len() as int] == k);
    }
    assert(s.push(k).to_set() =~= s.to_set().insert(k));
}

/// A set is listed in ascending order in one way only.
pub proof fn law_one_ascending_order(a: Seq<u32>, b: Seq<u32>)
    requires
        ascending(a),
        ascending(b),
        a.to_set() == b.to_set(),
    ensures
        a == b,
    decreases a.len(),
{
    if a.len() == 0 {
        if b.len() > 0 {
            assert(b.to_set().contains(b[0]));
            assert(a.contains(b[0]));
        }
        assert(a =~= b);
    } else {
        assert(a.to_set().contains(a[0]));
        assert(b.contains(a[0]));
        let j = b.index_of(a[0]);
        assert(b.to_set().contains(b[0]));
        assert(a.contains(b[0]));
        let i = a.index_of(b[0]);
        assert(a[0] == b[0]);
        let c = a.skip(1);
        let d = b.skip(1);
        assert forall|x: u32| c.to_set().contains(x) == d.to_set().contains(x) by {
            if c.contains(x) {
                let m = c.index_of(x);
                assert(a[m + 1] == x);
                assert(a.to_set().contains(x));
                assert(b.contains(x));
                let n = b.index_of(x);
                assert(d[n - 1] == x);
            }
            if d.contains(x) {
                let m = d.index_of(x);
                assert(b[m + 1] == x);
                assert(b.to_set().contains(x));
                assert(a.contains(x));
                let n = a.index_of(x);
                assert(c[n - 1] == x);
            }
        }
        assert(c.to_set() =~= d.to_set());
        law_one_ascending_order(c, d);
        assert(a =~= seq![a[0]] + c);
        assert(b =~= seq![b[0]] + d);
    }
}

} // verus!
