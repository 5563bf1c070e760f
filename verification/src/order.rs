//! Stable ordering of indices by an integer key.

use vstd::prelude::*;

verus! {

/// Index `a` comes before index `b`: by key, and by position where the keys are equal.
pub open spec fn before(keys: Seq<u32>, a: usize, b: usize) -> bool {
    keys[a as int] < keys[b as int] || (keys[a as int] == keys[b as int] && a < b)
}

/// `s` lists indices of `keys` in stable key order.
pub open spec fn ascending(keys: Seq<u32>, s: Seq<usize>) -> bool {
    &&& forall|i: int| 0 <= i < s.len() ==> (#[trigger] s[i]) < keys.len()
    &&& forall|i: int, j: int|
        0 <= i < j < s.len() ==> before(keys, #[trigger] s[i], #[trigger] s[j])
}

/// `s` is the stable sort of all indices of `keys`.
pub open spec fn is_stable_order(keys: Seq<u32>, s: Seq<usize>) -> bool {
    s.len() == keys.len() && ascending(keys, s)
}

/// The stable sort of all indices of `keys` (there is exactly one).
pub open spec fn stable_order(keys: Seq<u32>) -> Seq<usize> {
    choose|s: Seq<usize>| is_stable_order(keys, s)
}

/// A stable order holds every index.
pub proof fn lemma_order_covers(keys: Seq<u32>, s: Seq<usize>, x: usize)
    requires
        is_stable_order(keys, s),
        x < keys.len(),
    ensures
        s.contains(x),
{
    let t = s.map(|i: int, v: usize| v as int);
    assert(t.no_duplicates()) by {
        assert forall|i: int, j: int| 0 <= i < t.len() && 0 <= j < t.len() && i != j implies t[i]
            != t[j] by {
            if i < j {
                assert(before(keys, s[i], s[j]));
            } else {
                assert(before(keys, s[j], s[i]));
            }
        }
    }
    t.unique_seq_to_set();
    let all = vstd::set_lib::set_int_range(0, keys.len() as int);
    vstd::set_lib::lemma_int_range(0, keys.len() as int);
    assert(t.to_set().subset_of(all)) by {
        assert forall|v: int| t.to_set().contains(v) implies all.contains(v) by {
            let i = choose|i: int| 0 <= i < t.len() && t[i] == v;
            assert(s[i] < keys.len());
        }
    }
    vstd::set_lib::lemma_subset_equality(t.to_set(), all);
    assert(all.contains(x as int));
    assert(t.contains(x as int));
    let i = choose|i: int| 0 <= i < t.len() && t[i] == x as int;
    assert(s[i] == x);
}

/// There is only one stable order.
pub proof fn lemma_order_unique(keys: Seq<u32>, a: Seq<usize>, b: Seq<usize>)
    requires
        is_stable_order(keys, a),
        is_stable_order(keys, b),
    ensures
        a == b,
{
    lemma_order_prefix(keys, a, b, a.len() as int);
    assert(a =~= b);
}

proof fn lemma_order_prefix(keys: Seq<u32>, a: Seq<usize>, b: Seq<usize>, k: int)
    requires
        is_stable_order(keys, a),
        is_stable_order(keys, b),
        0 <= k <= a.len(),
    ensures
        forall|i: int| 0 <= i < k ==> #[trigger] a[i] == b[i],
    decreases k,
{
    if k > 0 {
        lemma_order_prefix(keys, a, b, k - 1);
        let i = k - 1;
        if a[i] != b[i] {
            lemma_order_covers(keys, b, a[i]);
            lemma_order_covers(keys, a, b[i]);
            let j = choose|j: int| 0 <= j < b.len() && b[j] == a[i];
            let l = choose|l: int| 0 <= l < a.len() && a[l] == b[i];
            if j < i {
                assert(a[j] == b[j]);
                assert(before(keys, a[j], a[i]));
            }
            if l < i {
                assert(a[l] == b[l]);
                assert(before(keys, b[l], b[i]));
            }
            assert(before(keys, b[i], b[j]));
            assert(before(keys, a[i], a[l]));
            assert(false);
        }
    }
}

/// Where an index with key `key` belongs among those of `s` that come before `n`.
proof fn lemma_slot(keys: Seq<u32>, s: Seq<usize>, key: u32, n: int) -> (p: int)
    requires
        ascending(keys, s),
        0 <= n <= s.len(),
    ensures
        0 <= p <= n,
        forall|i: int| 0 <= i < p ==> keys[#[trigger] s[i] as int] <= key,
        forall|i: int| p <= i < n ==> keys[#[trigger] s[i] as int] > key,
    decreases n,
{
    if n == 0 {
        0
    } else {
        let p = lemma_slot(keys, s, key, n - 1);
        if keys[s[n - 1] as int] <= key {
            assert forall|i: int| 0 <= i < n implies keys[#[trigger] s[i] as int] <= key by {
                if i < n - 1 {
                    assert(before(keys, s[i], s[n - 1]));
                }
            }
            n
        } else {
            p
        }
    }
}

/// There is a stable order.
pub proof fn lemma_order_exists(keys: Seq<u32>)
    requires
        keys.len() <= usize::MAX,
    ensures
        is_stable_order(keys, stable_order(keys)),
    decreases keys.len(),
{
    if keys.len() == 0 {
        assert(is_stable_order(keys, Seq::<usize>::empty()));
    } else {
        let n = keys.len() - 1;
        let fewer = keys.drop_last();
        lemma_order_exists(fewer);
        let s = stable_order(fewer);
        let p = lemma_slot(fewer, s, keys[n], s.len() as int);
        let t = s.insert(p, n as usize);
        assert forall|i: int| 0 <= i < t.len() implies (#[trigger] t[i]) < keys.len() by {
            if i < p {
                assert(t[i] == s[i]);
            } else if i > p {
                assert(t[i] == s[i - 1]);
            }
        }
        assert forall|i: int, j: int| 0 <= i < j < t.len() implies before(
            keys,
            #[trigger] t[i],
            #[trigger] t[j],
        ) by {
            let a = if i < p {
                i
            } else {
                i - 1
            };
            let b = if j < p {
                j
            } else {
                j - 1
            };
            assert(i != p ==> t[i] == s[a]);
            assert(j != p ==> t[j] == s[b]);
            if i != p && j != p {
                assert(before(fewer, s[a], s[b]));
            }
        }
        assert(is_stable_order(keys, t));
    }
}

/// Merges two stable runs, the indices of the first all smaller than those of the second.
fn merge(keys: &[u32], left: &Vec<usize>, right: &Vec<usize>) -> (out: Vec<usize>)
    requires
        ascending(keys@, left@),
        ascending(keys@, right@),
        left@.len() + right@.len() <= usize::MAX,
        forall|i: int, j: int|
            0 <= i < left@.len() && 0 <= j < right@.len() ==> #[trigger] left@[i] < #[trigger] right@[j],
    ensures
        ascending(keys@, out@),
        out@.len() == left@.len() + right@.len(),
        forall|k: int|
            0 <= k < out@.len() ==> left@.contains(#[trigger] out@[k]) || right@.contains(out@[k]),
{
    let mut out: Vec<usize> = Vec::new();
    let mut i: usize = 0;
    let mut j: usize = 0;
    while i < left.len() || j < right.len()
        invariant
            ascending(keys@, left@),
            ascending(keys@, right@),
            left@.len() + right@.len() <= usize::MAX,
            forall|i: int, j: int|
                0 <= i < left@.len() && 0 <= j < right@.len() ==> #[trigger] left@[i]
                    < #[trigger] right@[j],
            i <= left@.len(),
            j <= right@.len(),
            out@.len() == i + j,
            ascending(keys@, out@),
            forall|k: int|
                0 <= k < out@.len() ==> left@.contains(#[trigger] out@[k]) || right@.contains(
                    out@[k],
                ),
            forall|k: int, l: int|
                0 <= k < out@.len() && i <= l < left@.len() ==> before(
                    keys@,
                    #[trigger] out@[k],
                    #[trigger] left@[l],
                ),
            forall|k: int, l: int|
                0 <= k < out@.len() && j <= l < right@.len() ==> before(
                    keys@,
                    #[trigger] out@[k],
                    #[trigger] right@[l],
                ),
        decreases left@.len() + right@.len() - i - j,
    {
        let from_left: bool = if i == left.len() {
            false
        } else if j == right.len() {
            true
        } else {
            keys[left[i]] <= keys[right[j]]
        };
        if from_left {
            let v: usize = left[i];
            assert(forall|l: int|
                j <= l < right@.len() ==> before(keys@, left@[i as int], #[trigger] right@[l])) by {
                if j < right@.len() {
                    assert forall|l: int| j <= l < right@.len() implies before(
                        keys@,
                        left@[i as int],
                        #[trigger] right@[l],
                    ) by {
                        assert(left@[i as int] < right@[l]);
                        if l > j {
                            assert(before(keys@, right@[j as int], right@[l]));
                        }
                    }
                }
            }
            assert(left@.contains(v));
            out.push(v);
            i = i + 1;
        } else {
            let v: usize = right[j];
            assert(forall|l: int|
                i <= l < left@.len() ==> before(keys@, right@[j as int], #[trigger] left@[l])) by {
                if i < left@.len() {
                    assert forall|l: int| i <= l < left@.len() implies before(
                        keys@,
                        right@[j as int],
                        #[trigger] left@[l],
                    ) by {
                        if l > i {
                            assert(before(keys@, left@[i as int], left@[l]));
                        }
                    }
                }
            }
            assert(right@.contains(v));
            out.push(v);
            j = j + 1;
        }
    }
    out
}

/// The indices `lo..hi` of `keys`, stably sorted.
fn sort_range(keys: &[u32], lo: usize, hi: usize) -> (out: Vec<usize>)
    requires
        lo <= hi <= keys@.len(),
    ensures
        ascending(keys@, out@),
        out@.len() == hi - lo,
        forall|k: int| 0 <= k < out@.len() ==> lo <= #[trigger] out@[k] < hi,
    decreases hi - lo,
{
    let mut out: Vec<usize> = Vec::new();
    if hi - lo == 1 {
        out.push(lo);
    } else if hi - lo > 1 {
        let mid: usize = lo + (hi - lo) / 2;
        let left: Vec<usize> = sort_range(keys, lo, mid);
        let right: Vec<usize> = sort_range(keys, mid, hi);
        out = merge(keys, &left, &right);
        assert forall|k: int| 0 <= k < out@.len() implies lo <= #[trigger] out@[k] < hi by {
            if left@.contains(out@[k]) {
                let i = choose|i: int| 0 <= i < left@.len() && left@[i] == out@[k];
                assert(lo <= left@[i] < mid);
            } else {
                let i = choose|i: int| 0 <= i < right@.len() && right@[i] == out@[k];
                assert(mid <= right@[i] < hi);
            }
        }
    }
    out
}

/// The stable sort of the indices of `keys`, smallest key first.
pub fn sort_indices(keys: &[u32]) -> (out: Vec<usize>)
    ensures
        is_stable_order(keys@, out@),
        out@ == stable_order(keys@),
{
    let out: Vec<usize> = sort_range(keys, 0, keys.len());
    proof {
        assert(is_stable_order(keys@, out@));
        lemma_order_unique(keys@, out@, stable_order(keys@));
    }
    out
}

} // verus!
