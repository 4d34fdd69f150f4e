use vstd::prelude::*;

use super::mount::{mount_ids, mount_spec, mounted};
use super::patch::{element_target, patch_spec, patched, remove_dom_node, remove_node_ops};
use super::{
    advance, dom_nodes, dom_nodes_all, insert_op, push_insert, size, sizes, spec_dom_node, spec_key, spec_same_type, DomOp,
    NodeId, Plan, VNode,
};

verus! {

// ---------------------------------------------------------------------------
// Longest increasing subsequence: specification
// ---------------------------------------------------------------------------

/// `idx` lists positions of `arr`, in strictly increasing order, whose values
/// are strictly increasing.
pub open spec fn is_increasing_subsequence(arr: Seq<usize>, idx: Seq<usize>) -> bool {
    &&& forall|k: int| 0 <= k < idx.len() ==> #[trigger] idx[k] < arr.len()
    &&& forall|a: int, b: int|
        #![trigger idx[a], idx[b]]
        0 <= a < b < idx.len() ==> idx[a] < idx[b] && arr[idx[a] as int] < arr[idx[b] as int]
}

/// `idx` is an increasing subsequence of `arr` and none is longer.
pub open spec fn is_longest_increasing_subsequence(arr: Seq<usize>, idx: Seq<usize>) -> bool {
    &&& is_increasing_subsequence(arr, idx)
    &&& forall|s: Seq<usize>| #[trigger] is_increasing_subsequence(arr, s) ==> s.len() <= idx.len()
}

/// An increasing subsequence whose positions all lie below `bound`.
spec fn inc_below(arr: Seq<usize>, s: Seq<usize>, bound: int) -> bool {
    &&& is_increasing_subsequence(arr, s)
    &&& forall|k: int| 0 <= k < s.len() ==> #[trigger] s[k] < bound
}

/// The invariant of the patience-sorting loop after the first `i` elements.
spec fn patience_inv(
    arr: Seq<usize>,
    i: int,
    tails: Seq<usize>,
    prev: Seq<Option<usize>>,
    paths: Seq<Seq<usize>>,
) -> bool {
    &&& 0 <= i <= arr.len()
    &&& prev.len() == arr.len()
    &&& paths.len() == i
    &&& tails.len() <= i
    &&& forall|j: int| i <= j < arr.len() ==> #[trigger] prev[j] is None
    // every position seen so far ends an increasing subsequence reachable by `prev`
    &&& forall|j: int|
        0 <= j < i ==> {
            &&& #[trigger] inc_below(arr, paths[j], j + 1)
            &&& paths[j].len() >= 1
            &&& paths[j].last() == j
            &&& paths[j] == chain(prev, j)
            &&& match prev[j] {
                None => paths[j] == seq![j as usize],
                Some(p) => p < j && paths[j] == paths[p as int].push(j as usize),
            }
        }
    // the tails hold positions already seen, with strictly increasing values
    &&& forall|k: int| 0 <= k < tails.len() ==> #[trigger] tails[k] < i
    &&& forall|k: int| 0 <= k < tails.len() ==> #[trigger] paths[tails[k] as int].len() == k + 1
    &&& forall|a: int, b: int|
        #![trigger tails[a], tails[b]]
        0 <= a < b < tails.len() ==> arr[tails[a] as int] < arr[tails[b] as int]
    // no increasing subsequence of the prefix beats the tails
    &&& forall|s: Seq<usize>|
        #[trigger] inc_below(arr, s, i) && s.len() > 0 ==> s.len() <= tails.len() && arr[tails[s.len() - 1] as int] <= arr[s.last() as int]
}


// ---------------------------------------------------------------------------
// Longest increasing subsequence: the patience-sorting result
// ---------------------------------------------------------------------------

/// The first tail position, from `k` on, whose value is not below `val`.
pub open spec fn lower_bound(arr: Seq<usize>, tails: Seq<usize>, val: usize, k: int) -> int
    decreases tails.len() - k,
{
    if 0 <= k < tails.len() && arr[tails[k] as int] < val {
        lower_bound(arr, tails, val, k + 1)
    } else {
        k
    }
}

/// Patience sorting after the first `i` elements of `arr`: the tails (the
/// position ending the best subsequence of each length) and, per position,
/// the position preceding it in that subsequence.
pub open spec fn patience(arr: Seq<usize>, i: int) -> (Seq<usize>, Seq<Option<usize>>)
    decreases i,
{
    if i <= 0 {
        (Seq::empty(), Seq::new(arr.len(), |j: int| None::<usize>))
    } else {
        let (tails, prev) = patience(arr, i - 1);
        let pos = lower_bound(arr, tails, arr[i - 1], 0);
        let prev2 = if pos > 0 {
            prev.update(i - 1, Some(tails[pos - 1]))
        } else {
            prev
        };
        let tails2 = if pos == tails.len() {
            tails.push((i - 1) as usize)
        } else {
            tails.update(pos, (i - 1) as usize)
        };
        (tails2, prev2)
    }
}

/// The subsequence ending at `j`, read back through the predecessor links.
pub open spec fn chain(prev: Seq<Option<usize>>, j: int) -> Seq<usize>
    decreases j,
{
    if 0 <= j < prev.len() {
        match prev[j] {
            Some(p) => if p < j {
                chain(prev, p as int).push(j as usize)
            } else {
                seq![j as usize]
            },
            None => seq![j as usize],
        }
    } else {
        seq![j as usize]
    }
}

/// The subsequence that patience sorting reports: the one read back from the
/// last tail.
pub open spec fn lis_spec(arr: Seq<usize>) -> Seq<usize> {
    if arr.len() == 0 {
        Seq::empty()
    } else {
        let (tails, prev) = patience(arr, arr.len() as int);
        chain(prev, tails.last() as int)
    }
}

proof fn lemma_lower_bound(arr: Seq<usize>, tails: Seq<usize>, val: usize, pos: int, k: int)
    requires
        0 <= k <= pos <= tails.len(),
        forall|m: int| 0 <= m < pos ==> arr[#[trigger] tails[m] as int] < val,
        forall|m: int| pos <= m < tails.len() ==> arr[#[trigger] tails[m] as int] >= val,
    ensures
        lower_bound(arr, tails, val, k) == pos,
    decreases pos - k,
{
    if k < pos {
        lemma_lower_bound(arr, tails, val, pos, k + 1);
    } else if k < tails.len() {
        assert(arr[tails[k] as int] >= val);
    }
}

proof fn lemma_chain_frame(prev: Seq<Option<usize>>, i: int, v: Option<usize>, j: int)
    requires
        0 <= j < i < prev.len(),
    ensures
        chain(prev.update(i, v), j) == chain(prev, j),
    decreases j,
{
    let q = prev.update(i, v);
    assert(q[j] == prev[j]);
    match prev[j] {
        Some(p) => if p < j {
            lemma_chain_frame(prev, i, v, p as int);
        },
        None => {},
    }
}

// ---------------------------------------------------------------------------
// Longest increasing subsequence: implementation
// ---------------------------------------------------------------------------

/// Number of tails whose value is below `val` (the tails' values increase
/// strictly, so this is the first tail whose value is at least `val`).
fn tails_lower_bound(arr: &[usize], tails: &Vec<usize>, val: usize) -> (pos: usize)
    requires
        forall|k: int| 0 <= k < tails.len() ==> #[trigger] tails[k] < arr.len(),
        forall|a: int, b: int|
            #![trigger tails[a], tails[b]]
            0 <= a < b < tails.len() ==> arr@[tails[a] as int] < arr@[tails[b] as int],
    ensures
        pos <= tails.len(),
        forall|k: int| 0 <= k < pos ==> arr@[#[trigger] tails[k] as int] < val,
        forall|k: int| pos <= k < tails.len() ==> arr@[#[trigger] tails[k] as int] >= val,
{
    let mut lo: usize = 0;
    let mut hi: usize = tails.len();
    while lo < hi
        invariant
            lo <= hi <= tails.len(),
            forall|k: int| 0 <= k < tails.len() ==> #[trigger] tails[k] < arr.len(),
            forall|a: int, b: int|
                #![trigger tails[a], tails[b]]
                0 <= a < b < tails.len() ==> arr@[tails[a] as int] < arr@[tails[b] as int],
            forall|k: int| 0 <= k < lo ==> arr@[#[trigger] tails[k] as int] < val,
            forall|k: int| hi <= k < tails.len() ==> arr@[#[trigger] tails[k] as int] >= val,
        decreases hi - lo,
    {
        let mid = lo + (hi - lo) / 2;
        if arr[tails[mid]] < val {
            lo = mid + 1;
        } else {
            hi = mid;
        }
    }
    lo
}


/// One step of patience sorting keeps the loop invariant.
#[verifier::spinoff_prover]
#[verifier::rlimit(30)]
proof fn lemma_patience_step(
    arr: Seq<usize>,
    i: int,
    val: usize,
    pos: int,
    old_tails: Seq<usize>,
    old_prev: Seq<Option<usize>>,
    old_paths: Seq<Seq<usize>>,
    tails: Seq<usize>,
    prev: Seq<Option<usize>>,
)
    requires
        0 <= i < arr.len() <= usize::MAX,
        val == arr[i],
        patience_inv(arr, i, old_tails, old_prev, old_paths),
        0 <= pos <= old_tails.len(),
        forall|k: int| 0 <= k < pos ==> arr[#[trigger] old_tails[k] as int] < val,
        forall|k: int| pos <= k < old_tails.len() ==> arr[#[trigger] old_tails[k] as int] >= val,
        prev == (if pos > 0 { old_prev.update(i, Some(old_tails[pos - 1])) } else { old_prev }),
        tails == (if pos == old_tails.len() { old_tails.push(i as usize) } else { old_tails.update(pos, i as usize) }),
    ensures
        patience_inv(arr, i + 1, tails, prev, old_paths.push(
            if pos > 0 { old_paths[old_tails[pos - 1] as int].push(i as usize) } else { seq![i as usize] },
        )),
{
    let new_path: Seq<usize> = if pos > 0 { old_paths[old_tails[pos - 1] as int].push(i as usize) } else { seq![i as usize] };
    let paths = old_paths.push(new_path);
    let tails = tails;
            if pos > 0 {
                let p = old_tails[pos - 1];
                let pp = old_paths[p as int];
                assert(inc_below(arr, pp, p + 1));
                assert(pp.last() == p);
                assert forall|k: int| 0 <= k < pp.len() implies #[trigger] pp[k] <= p && arr[pp[k] as int] <= arr[p as int] by {
                    if k < pp.len() - 1 {
                        assert(pp[k] < pp[pp.len() - 1]);
                    }
                }
                assert(is_increasing_subsequence(arr, new_path)) by {
                    assert forall|a: int, b: int|
                        #![trigger new_path[a], new_path[b]]
                        0 <= a < b < new_path.len() implies new_path[a] < new_path[b] && arr[new_path[a] as int] < arr[new_path[b] as int] by {
                        if b == new_path.len() - 1 {
                            assert(new_path[a] == pp[a]);
                        } else {
                            assert(new_path[a] == pp[a]);
                            assert(new_path[b] == pp[b]);
                        }
                    }
                }
            }
            assert(inc_below(arr, new_path, i + 1));
            assert forall|j: int|
                0 <= j < i + 1 implies {
                    &&& #[trigger] inc_below(arr, paths[j], j + 1)
                    &&& paths[j].len() >= 1
                    &&& paths[j].last() == j
                    &&& paths[j] == chain(prev, j)
                    &&& match prev[j] {
                        None => paths[j] == seq![j as usize],
                        Some(p) => p < j && paths[j] == paths[p as int].push(j as usize),
                    }
                } by {
                if j == i {
                    if pos > 0 {
                        let p = old_tails[pos - 1];
                        assert(paths[p as int] == old_paths[p as int]);
                        lemma_chain_frame(old_prev, i as int, Some(p), p as int);
                    }
                } else {
                    assert(paths[j] == old_paths[j]);
                    if pos > 0 {
                        lemma_chain_frame(old_prev, i as int, Some(old_tails[pos - 1]), j);
                    }
                    assert(inc_below(arr, old_paths[j], j + 1));
                    match prev[j] {
                        None => {},
                        Some(p) => {
                            assert(paths[p as int] == old_paths[p as int]);
                        },
                    }
                }
            }
            assert forall|k: int| 0 <= k < tails.len() implies #[trigger] paths[tails[k] as int].len() == k + 1 by {
                if k != pos {
                    assert(tails[k] == old_tails[k]);
                    assert(old_tails[k] < i);
                    assert(paths[old_tails[k] as int] == old_paths[old_tails[k] as int]);
                }
            }
            assert forall|a: int, b: int|
                #![trigger tails[a], tails[b]]
                0 <= a < b < tails.len() implies arr[tails[a] as int] < arr[tails[b] as int] by {
                if a == pos {
                    assert(arr[old_tails[b] as int] > arr[old_tails[a] as int]);
                } else if b == pos {
                    assert(arr[old_tails[a] as int] < val);
                }
            }
            assert forall|s: Seq<usize>|
                #[trigger] inc_below(arr, s, i + 1) && s.len() > 0 implies s.len() <= tails.len()
                    && arr[tails[s.len() - 1] as int] <= arr[s.last() as int] by {
                let m = s.len();
                if s.last() == i {
                    if m > 1 {
                        let t = s.drop_last();
                        assert(s[m - 2] < s[m - 1]);
                        assert(forall|k: int| 0 <= k < t.len() ==> t[k] == s[k]);
                        assert forall|k: int| 0 <= k < t.len() implies #[trigger] t[k] < i by {
                            if k < m - 2 {
                                assert(s[k] < s[m - 2]);
                            }
                        }
                        assert(inc_below(arr, t, i as int));
                        assert(arr[old_tails[m - 2] as int] <= arr[t.last() as int]);
                        assert(arr[s[m - 2] as int] < arr[s[m - 1] as int]);
                    }
                } else {
                    assert forall|k: int| 0 <= k < s.len() implies #[trigger] s[k] < i by {
                        if k < m - 1 {
                            assert(s[k] < s[m - 1]);
                        }
                    }
                    assert(inc_below(arr, s, i as int));
                }
            }
}

/// Compute the longest increasing subsequence of an array, returning the
/// **indices** (into `arr`) of elements that form the LIS.
///
/// Uses patience sorting (O(n log n)) and then reconstructs the actual
/// subsequence from predecessor links.
pub fn longest_increasing_subsequence(arr: &[usize]) -> (result: Vec<usize>)
    ensures
        is_longest_increasing_subsequence(arr@, result@),
        result@ == lis_spec(arr@),
{
    let n = arr.len();
    if n == 0 {
        proof {
            assert forall|s: Seq<usize>| #[trigger]
                is_increasing_subsequence(arr@, s) implies s.len() <= 0 by {
                if s.len() > 0 {
                    assert(s[0] < arr.len());
                }
            }
        }
        return Vec::new();
    }
    let mut tails: Vec<usize> = Vec::new();
    let mut prev: Vec<Option<usize>> = Vec::new();
    let mut j: usize = 0;
    while j < n
        invariant
            j <= n,
            n == arr.len(),
            prev@.len() == j,
            forall|k: int| 0 <= k < j ==> prev@[k] is None,
        decreases n - j,
    {
        prev.push(None);
        j = j + 1;
    }
    let ghost mut paths: Seq<Seq<usize>> = Seq::empty();
    proof {
        assert(prev@ =~= patience(arr@, 0).1);
        assert forall|s: Seq<usize>|
            #[trigger] inc_below(arr@, s, 0) && s.len() > 0 implies s.len() <= tails@.len()
                && arr@[tails@[s.len() - 1] as int] <= arr@[s.last() as int] by {
            assert(s[0] < 0);
        }
    }
    let mut i: usize = 0;
    while i < n
        invariant
            n == arr.len(),
            patience_inv(arr@, i as int, tails@, prev@, paths),
            tails@ == patience(arr@, i as int).0,
            prev@ == patience(arr@, i as int).1,
        decreases n - i,
    {
        let val = arr[i];
        let pos = tails_lower_bound(arr, &tails, val);
        let ghost old_tails = tails@;
        let ghost old_paths = paths;
        let ghost old_prev = prev@;
        proof {
            lemma_lower_bound(arr@, old_tails, val, pos as int, 0);
        }
        let ghost new_path: Seq<usize> = if pos > 0 {
            paths[tails[pos - 1] as int].push(i)
        } else {
            seq![i]
        };
        if pos > 0 {
            let p = tails[pos - 1];
            prev.set(i, Some(p));
        }
        if pos == tails.len() {
            tails.push(i);
        } else {
            tails.set(pos, i);
        }
        proof {
            lemma_patience_step(arr@, i as int, val, pos as int, old_tails, old_prev, old_paths, tails@, prev@);
            paths = old_paths.push(new_path);
        }
        i = i + 1;
    }
    // Reconstruct the subsequence from the last tail by following `prev`.
    proof {
        let one = seq![0usize];
        assert(inc_below(arr@, one, n as int));
    }
    let ghost last_path = paths[tails@[tails.len() - 1] as int];
    let last = tails[tails.len() - 1];
    let mut backwards: Vec<usize> = Vec::new();
    let mut idx = last;
    loop
        invariant_except_break
            idx < n,
            last_path == paths[idx as int] + backwards@.reverse(),
        invariant
            n == arr.len(),
            patience_inv(arr@, n as int, tails@, prev@, paths),
            tails@ == patience(arr@, n as int).0,
            prev@ == patience(arr@, n as int).1,
            last == tails@[tails.len() - 1],
            tails.len() > 0,
            last_path == paths[last as int],
        ensures
            last_path == backwards@.reverse(),
        decreases idx,
    {
        proof {
            assert(inc_below(arr@, paths[idx as int], idx + 1));
        }
        backwards.push(idx);
        match prev[idx] {
            None => {
                assert(backwards@.reverse() == seq![idx].add(
                    backwards@.drop_last().reverse(),
                ));
                break;
            },
            Some(p) => {
                assert(backwards@.reverse() == seq![idx].add(
                    backwards@.drop_last().reverse(),
                ));
                idx = p;
            },
        }
    }
    let result = reversed(&backwards);
    proof {
        assert(inc_below(arr@, paths[last as int], last + 1));
        assert forall|s: Seq<usize>| #[trigger]
            is_increasing_subsequence(arr@, s) implies s.len() <= result@.len() by {
            if s.len() > 0 {
                assert forall|k: int| 0 <= k < s.len() implies #[trigger] s[k] < n by {}
                assert(inc_below(arr@, s, n as int));
            }
        }
    }
    result
}

/// A copy of `v` in reverse order.
fn reversed(v: &Vec<usize>) -> (r: Vec<usize>)
    ensures
        r@ == v@.reverse(),
{
    let mut r: Vec<usize> = Vec::new();
    let mut k = v.len();
    while k > 0
        invariant
            k <= v.len(),
            r@ == v@.subrange(k as int, v.len() as int).reverse(),
        decreases k,
    {
        k = k - 1;
        r.push(v[k]);
        assert(v@.subrange(k as int, v.len() as int).reverse() == v@.subrange(
            k + 1,
            v.len() as int,
        ).reverse().push(v@[k as int]));
    }
    assert(v@.subrange(0, v.len() as int) == v@);
    r
}

} // verus!

verus! {

/// `idx` lists positions of `arr` holding a value, in strictly increasing
/// order, whose values are strictly increasing.
pub open spec fn is_increasing_present_subsequence(arr: Seq<Option<usize>>, idx: Seq<usize>) -> bool {
    &&& forall|k: int| 0 <= k < idx.len() ==> #[trigger] idx[k] < arr.len() && arr[idx[k] as int] is Some
    &&& forall|a: int, b: int|
        #![trigger idx[a], idx[b]]
        0 <= a < b < idx.len() ==> idx[a] < idx[b] && arr[idx[a] as int]->0 < arr[idx[b] as int]->0
}

/// `idx` is an increasing subsequence of the present values of `arr`, and none
/// is longer.
pub open spec fn is_longest_increasing_present_subsequence(
    arr: Seq<Option<usize>>,
    idx: Seq<usize>,
) -> bool {
    &&& is_increasing_present_subsequence(arr, idx)
    &&& forall|s: Seq<usize>| #[trigger]
        is_increasing_present_subsequence(arr, s) ==> s.len() <= idx.len()
}

/// The positions of `arr` that hold a value, in order.
pub open spec fn present_positions(arr: Seq<Option<usize>>) -> Seq<usize>
    decreases arr.len(),
{
    if arr.len() == 0 {
        Seq::empty()
    } else {
        let rest = present_positions(arr.drop_last());
        if arr.last() is Some {
            rest.push((arr.len() - 1) as usize)
        } else {
            rest
        }
    }
}

/// The values that `arr` holds, in order.
pub open spec fn present_values(arr: Seq<Option<usize>>) -> Seq<usize>
    decreases arr.len(),
{
    if arr.len() == 0 {
        Seq::empty()
    } else {
        let rest = present_values(arr.drop_last());
        match arr.last() {
            Some(v) => rest.push(v),
            None => rest,
        }
    }
}

/// The patience-sorting subsequence of the present values, as positions of `arr`.
pub open spec fn lis_filtered_spec(arr: Seq<Option<usize>>) -> Seq<usize> {
    let positions = present_positions(arr);
    lis_spec(present_values(arr)).map_values(|k: usize| positions[k as int])
}

proof fn lemma_lower_bound_end(arr: Seq<usize>, tails: Seq<usize>, val: usize, k: int)
    requires
        0 <= k <= tails.len(),
        forall|m: int| k <= m < tails.len() ==> 0 <= #[trigger] tails[m] < arr.len() && arr[tails[m] as int] < val,
    ensures
        lower_bound(arr, tails, val, k) == tails.len(),
    decreases tails.len() - k,
{
    if k < tails.len() {
        lemma_lower_bound_end(arr, tails, val, k + 1);
    }
}

proof fn lemma_patience_in_order(arr: Seq<usize>, i: int)
    requires
        0 <= i <= arr.len() <= usize::MAX,
        forall|m: int| 0 <= m < arr.len() ==> #[trigger] arr[m] == m,
    ensures
        patience(arr, i).0.len() == i,
        forall|m: int| 0 <= m < i ==> #[trigger] patience(arr, i).0[m] == m,
        patience(arr, i).1.len() == arr.len(),
        forall|m: int|
            0 <= m < arr.len() ==> #[trigger] patience(arr, i).1[m] == if 1 <= m < i {
                Some((m - 1) as usize)
            } else {
                None
            },
    decreases i,
{
    if i > 0 {
        lemma_patience_in_order(arr, i - 1);
        let tails = patience(arr, i - 1).0;
        lemma_lower_bound_end(arr, tails, arr[i - 1], 0);
    }
}

proof fn lemma_chain_in_order(prev: Seq<Option<usize>>, j: int)
    requires
        0 <= j < prev.len() <= usize::MAX,
        forall|m: int| 0 <= m < prev.len() ==> #[trigger] prev[m] == if 1 <= m { Some((m - 1) as usize) } else { None },
    ensures
        chain(prev, j).len() == j + 1,
        forall|m: int| 0 <= m <= j ==> #[trigger] chain(prev, j)[m] == m,
    decreases j,
{
    if j > 0 {
        lemma_chain_in_order(prev, j - 1);
    }
}

proof fn lemma_present_in_order(arr: Seq<Option<usize>>)
    requires
        arr.len() <= usize::MAX,
        forall|m: int| 0 <= m < arr.len() ==> #[trigger] arr[m] == Some(m as usize),
    ensures
        present_positions(arr).len() == arr.len(),
        present_values(arr).len() == arr.len(),
        forall|m: int| 0 <= m < arr.len() ==> #[trigger] present_positions(arr)[m] == m,
        forall|m: int| 0 <= m < arr.len() ==> #[trigger] present_values(arr)[m] == m,
    decreases arr.len(),
{
    if arr.len() > 0 {
        let d = arr.drop_last();
        assert forall|m: int| 0 <= m < d.len() implies #[trigger] d[m] == Some(m as usize) by {
            assert(d[m] == arr[m]);
        }
        lemma_present_in_order(d);
        assert(arr.last() == Some((arr.len() - 1) as usize));
    }
}

/// Nothing in order moves: when every old child is reused at its own
/// position, the longest increasing run holds every old child.
pub proof fn lemma_in_order_all_stable(arr: Seq<Option<usize>>, i: int)
    requires
        arr.len() <= usize::MAX,
        forall|m: int| 0 <= m < arr.len() ==> #[trigger] arr[m] == Some(m as usize),
        0 <= i < arr.len(),
    ensures
        lis_filtered_spec(arr).contains(i as usize),
{
    lemma_present_in_order(arr);
    let vals = present_values(arr);
    let n = arr.len() as int;
    lemma_patience_in_order(vals, n);
    let (tails, prev) = patience(vals, n);
    assert(tails.last() == n - 1);
    assert forall|m: int| 0 <= m < prev.len() implies #[trigger] prev[m] == if 1 <= m { Some((m - 1) as usize) } else { None } by {
        assert(prev[m] == if 1 <= m < n { Some((m - 1) as usize) } else { None });
    }
    lemma_chain_in_order(prev, n - 1);
    let l = lis_spec(vals);
    assert(l == chain(prev, n - 1));
    let r = lis_filtered_spec(arr);
    assert(r[i] == present_positions(arr)[l[i] as int]);
    assert(r[i] == i as usize);
}

/// The lower bound of a value among tails of increasing values splits them:
/// those before it are below the value, the others are not.
proof fn lemma_lower_bound_splits(arr: Seq<usize>, tails: Seq<usize>, val: usize, k: int)
    requires
        0 <= k <= tails.len(),
        forall|m: int| 0 <= m < tails.len() ==> #[trigger] tails[m] < arr.len(),
        forall|a: int, b: int|
            #![trigger tails[a], tails[b]]
            0 <= a < b < tails.len() ==> arr[tails[a] as int] < arr[tails[b] as int],
    ensures
        k <= lower_bound(arr, tails, val, k) <= tails.len(),
        forall|m: int| k <= m < lower_bound(arr, tails, val, k) ==> arr[#[trigger] tails[m] as int] < val,
        forall|m: int| lower_bound(arr, tails, val, k) <= m < tails.len() ==> arr[#[trigger] tails[m] as int] >= val,
    decreases tails.len() - k,
{
    if k < tails.len() && arr[tails[k] as int] < val {
        lemma_lower_bound_splits(arr, tails, val, k + 1);
    } else if k < tails.len() {
        assert forall|m: int| k <= m < tails.len() implies arr[#[trigger] tails[m] as int] >= val by {
            if m > k {
                assert(arr[tails[k] as int] < arr[tails[m] as int]);
            }
        }
    }
}

/// Patience sorting keeps its invariant, with the subsequences read back
/// through the predecessor links.
proof fn lemma_patience_holds(arr: Seq<usize>, i: int)
    requires
        0 <= i <= arr.len() <= usize::MAX,
    ensures
        patience_inv(
            arr,
            i,
            patience(arr, i).0,
            patience(arr, i).1,
            Seq::new(i as nat, |j: int| chain(patience(arr, i).1, j)),
        ),
    decreases i,
{
    let paths = Seq::new(i as nat, |j: int| chain(patience(arr, i).1, j));
    if i == 0 {
        let (tails, prev) = patience(arr, 0);
        assert forall|s: Seq<usize>|
            #[trigger] inc_below(arr, s, 0) && s.len() > 0 implies s.len() <= tails.len() && arr[tails[s.len() - 1]
                as int] <= arr[s.last() as int] by {
            assert(s[0] < 0);
        }
    } else {
        lemma_patience_holds(arr, i - 1);
        let (old_tails, old_prev) = patience(arr, i - 1);
        let old_paths = Seq::new((i - 1) as nat, |j: int| chain(old_prev, j));
        let val = arr[i - 1];
        lemma_lower_bound_splits(arr, old_tails, val, 0);
        let pos = lower_bound(arr, old_tails, val, 0);
        let (tails, prev) = patience(arr, i);
        lemma_patience_step(arr, i - 1, val, pos, old_tails, old_prev, old_paths, tails, prev);
        let new_path: Seq<usize> = if pos > 0 {
            old_paths[old_tails[pos - 1] as int].push((i - 1) as usize)
        } else {
            seq![(i - 1) as usize]
        };
        let pp = old_paths.push(new_path);
        assert forall|j: int| 0 <= j < i implies pp[j] == paths[j] by {
            assert(inc_below(arr, pp[j], j + 1));
        }
        assert(pp =~= paths);
    }
}

/// The patience-sorting subsequence is increasing.
pub proof fn lemma_lis_increasing(arr: Seq<usize>)
    requires
        arr.len() <= usize::MAX,
    ensures
        is_increasing_subsequence(arr, lis_spec(arr)),
{
    if arr.len() > 0 {
        let n = arr.len() as int;
        lemma_patience_holds(arr, n);
        let (tails, prev) = patience(arr, n);
        let paths = Seq::new(n as nat, |j: int| chain(prev, j));
        let one = seq![0usize];
        assert(inc_below(arr, one, n));
        let last = tails[tails.len() - 1];
        assert(inc_below(arr, paths[last as int], last + 1));
    }
}

/// The positions holding a value increase, and each holds its value.
proof fn lemma_present(arr: Seq<Option<usize>>)
    requires
        arr.len() <= usize::MAX,
    ensures
        present_positions(arr).len() == present_values(arr).len() <= arr.len(),
        forall|k: int|
            0 <= k < present_positions(arr).len() ==> #[trigger] present_positions(arr)[k] < arr.len() && arr[present_positions(
                arr,
            )[k] as int] == Some(present_values(arr)[k]),
        forall|a: int, b: int|
            #![trigger present_positions(arr)[a], present_positions(arr)[b]]
            0 <= a < b < present_positions(arr).len() ==> present_positions(arr)[a] < present_positions(arr)[b],
    decreases arr.len(),
{
    if arr.len() > 0 {
        let d = arr.drop_last();
        lemma_present(d);
        let pd = present_positions(d);
        let vd = present_values(d);
        let pa = present_positions(arr);
        let va = present_values(arr);
        assert forall|k: int| 0 <= k < pd.len() implies arr[pd[k] as int] == d[pd[k] as int] by {}
        match arr.last() {
            Some(v) => {
                assert(pa == pd.push((arr.len() - 1) as usize));
                assert(va == vd.push(v));
                assert forall|k: int| 0 <= k < pa.len() implies #[trigger] pa[k] < arr.len() && arr[pa[k] as int] == Some(va[k]) by {
                    if k < pd.len() {
                        assert(pa[k] == pd[k]);
                        assert(va[k] == vd[k]);
                    }
                }
                assert forall|a: int, b: int| 0 <= a < b < pa.len() implies #[trigger] pa[a] < #[trigger] pa[b] by {
                    if b < pd.len() {
                        assert(pd[a] < pd[b]);
                    } else {
                        assert(pd[a] < d.len());
                    }
                }
            },
            None => {
                assert(pa == pd);
                assert(va == vd);
                assert forall|k: int| 0 <= k < pa.len() implies #[trigger] pa[k] < arr.len() && arr[pa[k] as int] == Some(va[k]) by {
                    assert(pd[k] < d.len());
                }
                assert forall|a: int, b: int| 0 <= a < b < pa.len() implies #[trigger] pa[a] < #[trigger] pa[b] by {
                    assert(pd[a] < pd[b]);
                }
            },
        }
    }
}

/// The stable run is increasing in positions and in values.
pub proof fn lemma_lis_filtered_increasing(arr: Seq<Option<usize>>)
    requires
        arr.len() <= usize::MAX,
    ensures
        is_increasing_present_subsequence(arr, lis_filtered_spec(arr)),
{
    lemma_present(arr);
    let pp = present_positions(arr);
    let pv = present_values(arr);
    lemma_lis_increasing(pv);
    let l = lis_spec(pv);
    let r = lis_filtered_spec(arr);
    assert forall|k: int| 0 <= k < r.len() implies #[trigger] r[k] < arr.len() && arr[r[k] as int] is Some by {
        assert(l[k] < pv.len());
        assert(r[k] == pp[l[k] as int]);
    }
    assert forall|a: int, b: int|
        #![trigger r[a], r[b]]
        0 <= a < b < r.len() implies r[a] < r[b] && arr[r[a] as int]->0 < arr[r[b] as int]->0 by {
        assert(l[a] < l[b]);
        assert(l[b] < pv.len());
        assert(r[a] == pp[l[a] as int]);
        assert(r[b] == pp[l[b] as int]);
        assert(pp[l[a] as int] < pp[l[b] as int]);
        assert(pv[l[a] as int] < pv[l[b] as int]);
    }
}

/// Compute the LIS over the entries of `arr` that hold a value, ignoring the
/// `None` entries. Returns the indices (into `arr`) of the LIS.
pub fn longest_increasing_subsequence_filtered(arr: &[Option<usize>]) -> (result: Vec<usize>)
    ensures
        is_longest_increasing_present_subsequence(arr@, result@),
        result@ == lis_filtered_spec(arr@),
{
    // Collect the positions and values of the `Some` entries.
    let mut positions: Vec<usize> = Vec::new();
    let mut values: Vec<usize> = Vec::new();
    let ghost mut rank: Seq<int> = Seq::empty();
    let mut i: usize = 0;
    while i < arr.len()
        invariant
            i <= arr.len(),
            positions@.len() == values@.len(),
            rank.len() == i,
            positions@ == present_positions(arr@.take(i as int)),
            values@ == present_values(arr@.take(i as int)),
            forall|k: int| 0 <= k < positions@.len() ==> #[trigger] positions@[k] < i,
            forall|k: int|
                0 <= k < positions@.len() ==> arr@[#[trigger] positions@[k] as int] == Some(
                    values@[k],
                ),
            forall|a: int, b: int|
                #![trigger positions@[a], positions@[b]]
                0 <= a < b < positions@.len() ==> positions@[a] < positions@[b],
            forall|j: int|
                0 <= j < i && arr@[j] is Some ==> 0 <= #[trigger] rank[j] < positions@.len()
                    && positions@[rank[j]] == j,
        decreases arr.len() - i,
    {
        let ghost r = positions@.len() as int;
        proof {
            assert(arr@.take(i + 1).drop_last() == arr@.take(i as int));
        }
        if let Some(v) = arr[i] {
            positions.push(i);
            values.push(v);
        }
        proof {
            rank = rank.push(r);
        }
        i = i + 1;
    }
    proof {
        assert(arr@.take(arr.len() as int) == arr@);
    }
    if positions.len() == 0 {
        proof {
            assert(lis_filtered_spec(arr@) =~= Seq::<usize>::empty());
            assert forall|s: Seq<usize>| #[trigger]
                is_increasing_present_subsequence(arr@, s) implies s.len() <= 0 by {
                if s.len() > 0 {
                    assert(s[0] < arr.len() && arr@[s[0] as int] is Some);
                    let r = rank[s[0] as int];
                }
            }
        }
        return Vec::new();
    }
    let lis = longest_increasing_subsequence(values.as_slice());
    // Map back to positions in `arr`.
    let mut result: Vec<usize> = Vec::new();
    let mut k: usize = 0;
    while k < lis.len()
        invariant
            k <= lis.len(),
            is_longest_increasing_subsequence(values@, lis@),
            positions@.len() == values@.len(),
            result@.len() == k,
            forall|m: int| 0 <= m < k ==> #[trigger] result@[m] == positions@[lis@[m] as int],
            lis@ == lis_spec(values@),
        decreases lis.len() - k,
    {
        assert(lis@[k as int] < values@.len());
        result.push(positions[lis[k]]);
        k = k + 1;
    }
    proof {
        assert(result@ =~= lis_filtered_spec(arr@));
        assert forall|m: int| 0 <= m < result@.len() implies #[trigger] result@[m] < arr@.len()
            && arr@[result@[m] as int] is Some by {
            assert(lis@[m] < values@.len());
            assert(arr@[positions@[lis@[m] as int] as int] == Some(values@[lis@[m] as int]));
        }
        assert forall|a: int, b: int|
            #![trigger result@[a], result@[b]]
            0 <= a < b < result@.len() implies result@[a] < result@[b] && arr@[result@[a] as int]->0
                < arr@[result@[b] as int]->0 by {
            assert(lis@[a] < lis@[b]);
            assert(lis@[a] < values@.len() && lis@[b] < values@.len());
            assert(arr@[positions@[lis@[a] as int] as int] == Some(values@[lis@[a] as int]));
            assert(arr@[positions@[lis@[b] as int] as int] == Some(values@[lis@[b] as int]));
        }
        assert forall|s: Seq<usize>| #[trigger]
            is_increasing_present_subsequence(arr@, s) implies s.len() <= result@.len() by {
            let t = Seq::new(s.len(), |m: int| rank[s[m] as int] as usize);
            assert forall|m: int| 0 <= m < t.len() implies #[trigger] t[m] < values@.len() by {
                assert(s[m] < arr.len() && arr@[s[m] as int] is Some);
            }
            assert forall|a: int, b: int|
                #![trigger t[a], t[b]]
                0 <= a < b < t.len() implies t[a] < t[b] && values@[t[a] as int] < values@[t[b] as int] by {
                assert(s[a] < arr.len() && arr@[s[a] as int] is Some);
                assert(s[b] < arr.len() && arr@[s[b] as int] is Some);
                let ra = rank[s[a] as int];
                let rb = rank[s[b] as int];
                assert(positions@[ra] == s[a]);
                assert(positions@[rb] == s[b]);
                assert(s[a] < s[b]);
                if rb <= ra {
                    if rb < ra {
                        assert(positions@[rb] < positions@[ra]);
                    }
                }
                assert(arr@[positions@[ra] as int] == Some(values@[ra]));
                assert(arr@[positions@[rb] as int] == Some(values@[rb]));
            }
            assert(is_increasing_subsequence(values@, t));
        }
    }
    result
}

} // verus!

verus! {

// ---------------------------------------------------------------------------
// Children reconciliation: specification
// ---------------------------------------------------------------------------

/// Some node of `cs` carries a key.
pub open spec fn has_keyed(cs: Seq<VNode>) -> bool {
    exists|i: int| 0 <= i < cs.len() && #[trigger] spec_key(cs[i]) is Some
}

/// The last position below `k` whose node carries `key`.
pub open spec fn last_key_index(cs: Seq<VNode>, key: Seq<char>, k: int) -> Option<int>
    decreases k,
{
    if k <= 0 || k > cs.len() {
        None
    } else if spec_key(cs[k - 1]) == Some(key) {
        Some(k - 1)
    } else {
        last_key_index(cs, key, k - 1)
    }
}

/// For an old child: the position of the new child with its key (the last
/// one carrying it), if any.
pub open spec fn reuse_entry(c: VNode, nc: Seq<VNode>) -> Option<usize> {
    match spec_key(c) {
        Some(k) => match last_key_index(nc, k, nc.len() as int) {
            Some(j) => Some(j as usize),
            None => None,
        },
        None => None,
    }
}

/// For each old child, the position of the new child that reuses it.
pub open spec fn reuse_map(oc: Seq<VNode>, nc: Seq<VNode>) -> Seq<Option<usize>> {
    Seq::new(oc.len(), |i: int| reuse_entry(oc[i], nc))
}


/// Remove the DOM nodes of the old children in `from..k`.
pub open spec fn remove_range_ops(oc: Seq<VNode>, from: int, k: int, parent: NodeId) -> Seq<DomOp>
    decreases k - from,
{
    if k <= from {
        Seq::empty()
    } else {
        remove_range_ops(oc, from, k - 1, parent) + remove_node_ops(parent, oc[k - 1])
    }
}

/// Mount the new children in `from..k` at the end of `parent`.
pub open spec fn mount_range_spec(nc: Seq<VNode>, from: int, k: int, parent: NodeId, next: u64) -> (
    Seq<DomOp>,
    u64,
)
    decreases k - from,
{
    if k <= from {
        (Seq::empty(), next)
    } else {
        let prev = mount_range_spec(nc, from, k - 1, parent, next);
        (
            prev.0 + mount_spec(nc[k - 1], parent, None, false, prev.1).0,
            advance(prev.1, mount_ids(nc[k - 1])),
        )
    }
}

/// The nodes of `outs` in `from..k` are the new children mounted one after the other.
pub open spec fn mounted_range(nc: Seq<VNode>, outs: Seq<VNode>, from: int, k: int, parent: NodeId, next: u64) -> bool
    decreases k - from,
{
    if k <= from {
        true
    } else {
        mounted_range(nc, outs, from, k - 1, parent, next) && mounted(
            nc[k - 1],
            outs[k - 1],
            false,
            mount_range_spec(nc, from, k - 1, parent, next).1,
        )
    }
}

/// Remove the DOM nodes of the first `k` old children that no new child reuses.
pub open spec fn keyed_removals(oc: Seq<VNode>, reuse: Seq<Option<usize>>, parent: NodeId, k: int) -> Seq<
    DomOp,
>
    decreases k,
{
    if k <= 0 {
        Seq::empty()
    } else {
        keyed_removals(oc, reuse, parent, k - 1) + if reuse[k - 1] is None {
            remove_node_ops(parent, oc[k - 1])
        } else {
            Seq::empty()
        }
    }
}

/// The first DOM node that the old children from position `k` on placed.
pub open spec fn first_dom_from(cs: Seq<VNode>, k: int) -> Option<NodeId>
    decreases cs.len() - k,
{
    if k < 0 || k >= cs.len() {
        None
    } else if dom_nodes(cs[k]).len() > 0 {
        Some(dom_nodes(cs[k])[0])
    } else {
        first_dom_from(cs, k + 1)
    }
}

/// Patch the first `k` pairs of old and new children, position by position;
/// a replaced child is placed before the DOM node the old children after it
/// start with.
pub open spec fn pairs_spec(oc: Seq<VNode>, nc: Seq<VNode>, parent: NodeId, next: u64, k: int) -> (
    Seq<DomOp>,
    u64,
)
    decreases sizes(oc, oc.len() as int) + sizes(nc, nc.len() as int) + 1, 2int, k,
{
    if k <= 0 || k > oc.len() || k > nc.len() {
        (Seq::empty(), next)
    } else {
        let prev = pairs_spec(oc, nc, parent, next, k - 1);
        proof {
            super::lemma_size_le_sizes(oc, k - 1);
            super::lemma_size_le_sizes(nc, k - 1);
        }
        let p = patch_spec(oc[k - 1], nc[k - 1], parent, first_dom_from(oc, k), prev.1);
        (prev.0 + p.0, p.1)
    }
}

/// The first `k` nodes of `outs` are the new children patched from the old
/// ones position by position.
pub open spec fn pairs_patched(
    oc: Seq<VNode>,
    nc: Seq<VNode>,
    outs: Seq<VNode>,
    parent: NodeId,
    next: u64,
    k: int,
) -> bool
    decreases sizes(oc, oc.len() as int) + sizes(nc, nc.len() as int) + 1, 2int, k,
{
    if k <= 0 || k > oc.len() || k > nc.len() {
        true
    } else {
        proof {
            super::lemma_size_le_sizes(oc, k - 1);
            super::lemma_size_le_sizes(nc, k - 1);
        }
        pairs_patched(oc, nc, outs, parent, next, k - 1) && patched(
            oc[k - 1],
            nc[k - 1],
            outs[k - 1],
            parent,
            first_dom_from(oc, k),
            pairs_spec(oc, nc, parent, next, k - 1).1,
        )
    }
}

/// The old child reused by new child `j`, if its key matches an old child's
/// (the last one carrying it).
pub open spec fn keyed_source(oc: Seq<VNode>, nc: Seq<VNode>, j: int) -> Option<int> {
    match spec_key(nc[j]) {
        Some(key) => last_key_index(oc, key, oc.len() as int),
        None => None,
    }
}

/// The DOM element that new child `new` keeps when patched from the same-tag
/// old child `old`.
pub open spec fn kept_element(old: VNode, new: VNode, parent: NodeId, anchor: Option<NodeId>, next: u64) -> Option<
    NodeId,
> {
    match old {
        VNode::Element(o) => match new {
            VNode::Element(n) => Some(element_target(o, n, parent, anchor, next).0),
            _ => None,
        },
        _ => None,
    }
}

/// Handle the new children from position `k` to the end, the last one
/// first, each placed before the DOM node its next sibling starts with (at
/// the end for the last one). A child whose key an old child carries is
/// patched from that old child and, when that old child is not stable, moved
/// into place; any other child is mounted in place. The result: the
/// operations, the next identifier, and the DOM node the children from `k`
/// on start with.
pub open spec fn keyed_steps(
    oc: Seq<VNode>,
    nc: Seq<VNode>,
    parent: NodeId,
    lis: Seq<usize>,
    next: u64,
    k: int,
) -> (Seq<DomOp>, u64, Option<NodeId>)
    decreases sizes(oc, oc.len() as int) + sizes(nc, nc.len() as int) + 1, 2int, nc.len() - k,
{
    if k < 0 || k >= nc.len() {
        (Seq::empty(), next, None)
    } else {
        let prev = keyed_steps(oc, nc, parent, lis, next, k + 1);
        let anchor = prev.2;
        match keyed_source(oc, nc, k) {
            Some(oi) => {
                proof {
                    lemma_last_key_index_bound(oc, spec_key(nc[k])->0, oc.len() as int);
                    super::lemma_size_le_sizes(oc, oi);
                    super::lemma_size_le_sizes(nc, k);
                }
                let p = patch_spec(oc[oi], nc[k], parent, anchor, prev.1);
                if spec_same_type(oc[oi], nc[k]) {
                    let root = kept_element(oc[oi], nc[k], parent, anchor, prev.1);
                    let mv = if lis.contains(oi as usize) || root is None {
                        Seq::<DomOp>::empty()
                    } else {
                        seq![insert_op(parent, root->0, anchor)]
                    };
                    (prev.0 + p.0 + mv, p.1, if root is Some { root } else { anchor })
                } else {
                    let r = mount_spec(nc[k], parent, anchor, false, prev.1).1;
                    (prev.0 + p.0, p.1, if r is Some { r } else { anchor })
                }
            },
            None => {
                let m = mount_spec(nc[k], parent, anchor, false, prev.1);
                (prev.0 + m.0, advance(prev.1, mount_ids(nc[k])), if m.1 is Some { m.1 } else { anchor })
            },
        }
    }
}

/// The nodes of `outs` from position `k` on are the new children handled as
/// [`keyed_steps`] plans.
pub open spec fn keyed_patched(
    oc: Seq<VNode>,
    nc: Seq<VNode>,
    outs: Seq<VNode>,
    parent: NodeId,
    lis: Seq<usize>,
    next: u64,
    k: int,
) -> bool
    decreases sizes(oc, oc.len() as int) + sizes(nc, nc.len() as int) + 1, 2int, nc.len() - k,
{
    if k < 0 || k >= nc.len() {
        true
    } else {
        let prev = keyed_steps(oc, nc, parent, lis, next, k + 1);
        keyed_patched(oc, nc, outs, parent, lis, next, k + 1) && match keyed_source(oc, nc, k) {
            Some(oi) => {
                proof {
                    lemma_last_key_index_bound(oc, spec_key(nc[k])->0, oc.len() as int);
                    super::lemma_size_le_sizes(oc, oi);
                    super::lemma_size_le_sizes(nc, k);
                }
                patched(oc[oi], nc[k], outs[k], parent, prev.2, prev.1)
            },
            None => mounted(nc[k], outs[k], false, prev.1),
        }
    }
}

/// The stable old children: those on the longest increasing run of reuse positions.
pub open spec fn stable_children(oc: Seq<VNode>, nc: Seq<VNode>) -> Seq<usize> {
    lis_filtered_spec(reuse_map(oc, nc))
}

/// The operations that reconcile the children `oc` into `nc` within
/// `parent`, and the next identifier: keyed when both lists carry keys,
/// position by position otherwise.
pub open spec fn children_spec(oc: Seq<VNode>, nc: Seq<VNode>, parent: NodeId, next: u64) -> (
    Seq<DomOp>,
    u64,
)
    decreases sizes(oc, oc.len() as int) + sizes(nc, nc.len() as int) + 1, 3int, 0int,
{
    if has_keyed(oc) && has_keyed(nc) {
        let st = keyed_steps(oc, nc, parent, stable_children(oc, nc), next, 0);
        (keyed_removals(oc, reuse_map(oc, nc), parent, oc.len() as int) + st.0, st.1)
    } else {
        let common = if oc.len() < nc.len() { oc.len() as int } else { nc.len() as int };
        let a = pairs_spec(oc, nc, parent, next, common);
        if nc.len() > oc.len() {
            let b = mount_range_spec(nc, oc.len() as int, nc.len() as int, parent, a.1);
            (a.0 + b.0, b.1)
        } else {
            (a.0 + remove_range_ops(oc, nc.len() as int, oc.len() as int, parent), a.1)
        }
    }
}

/// `outs` are the children `nc` as reconciled from `oc`.
pub open spec fn children_patched(oc: Seq<VNode>, nc: Seq<VNode>, outs: Seq<VNode>, parent: NodeId, next: u64) -> bool
    decreases sizes(oc, oc.len() as int) + sizes(nc, nc.len() as int) + 1, 3int, 0int,
{
    if has_keyed(oc) && has_keyed(nc) {
        keyed_patched(oc, nc, outs, parent, stable_children(oc, nc), next, 0)
    } else {
        let common = if oc.len() < nc.len() { oc.len() as int } else { nc.len() as int };
        &&& pairs_patched(oc, nc, outs, parent, next, common)
        &&& nc.len() > oc.len() ==> mounted_range(
            nc,
            outs,
            oc.len() as int,
            nc.len() as int,
            parent,
            pairs_spec(oc, nc, parent, next, common).1,
        )
    }
}

/// A position found for a key lies below the bound and carries the key.
pub proof fn lemma_last_key_index_bound(cs: Seq<VNode>, key: Seq<char>, k: int)
    ensures
        last_key_index(cs, key, k) matches Some(i) ==> 0 <= i < k && i < cs.len() && spec_key(cs[i])
            == Some(key),
    decreases k,
{
    if 0 < k <= cs.len() && spec_key(cs[k - 1]) != Some(key) {
        lemma_last_key_index_bound(cs, key, k - 1);
    }
}

pub(crate) proof fn lemma_keyed_patched_at(
    oc: Seq<VNode>,
    nc: Seq<VNode>,
    outs: Seq<VNode>,
    parent: NodeId,
    lis: Seq<usize>,
    next: u64,
    k: int,
    j: int,
)
    requires
        keyed_patched(oc, nc, outs, parent, lis, next, k),
        0 <= k <= j < nc.len(),
        keyed_source(oc, nc, j) is Some,
    ensures
        ({
            let oi = keyed_source(oc, nc, j)->0;
            let prev = keyed_steps(oc, nc, parent, lis, next, j + 1);
            patched(oc[oi], nc[j], outs[j], parent, prev.2, prev.1)
        }),
    decreases j - k,
{
    if k < j {
        lemma_keyed_patched_at(oc, nc, outs, parent, lis, next, k + 1, j);
    }
}

/// Keyed children reuse DOM nodes: when both child lists carry keys, a new
/// child whose key an old rendered element carries, with the same tag, takes
/// over that element's DOM node.
pub proof fn lemma_keyed_child_reuses_node(
    oc: Seq<VNode>,
    nc: Seq<VNode>,
    outs: Seq<VNode>,
    parent: NodeId,
    next: u64,
    j: int,
    oi: int,
    dom: NodeId,
)
    requires
        has_keyed(oc),
        has_keyed(nc),
        children_patched(oc, nc, outs, parent, next),
        0 <= j < nc.len(),
        keyed_source(oc, nc, j) == Some(oi),
        spec_dom_node(oc[oi]) == Some(dom),
        spec_same_type(oc[oi], nc[j]),
    ensures
        spec_dom_node(outs[j]) == Some(dom),
{
    let lis = stable_children(oc, nc);
    lemma_keyed_patched_at(oc, nc, outs, parent, lis, next, 0, j);
    lemma_last_key_index_bound(oc, spec_key(nc[j])->0, oc.len() as int);
}

proof fn lemma_keyed_removals_contain(
    oc: Seq<VNode>,
    reuse: Seq<Option<usize>>,
    parent: NodeId,
    k: int,
    i: int,
    dom: NodeId,
)
    requires
        0 <= i < k <= oc.len(),
        k <= reuse.len(),
        reuse[i] is None,
        spec_dom_node(oc[i]) == Some(dom),
    ensures
        keyed_removals(oc, reuse, parent, k).contains(DomOp::RemoveChild { parent, child: dom }),
    decreases k,
{
    let prev = keyed_removals(oc, reuse, parent, k - 1);
    let r = keyed_removals(oc, reuse, parent, k);
    if i < k - 1 {
        lemma_keyed_removals_contain(oc, reuse, parent, k - 1, i, dom);
        let w = choose|w: int| 0 <= w < prev.len() && prev[w] == DomOp::RemoveChild { parent, child: dom };
        assert(r[w] == prev[w]);
    } else {
        assert(r[prev.len() as int] == DomOp::RemoveChild { parent, child: dom });
    }
}

/// Keyed children that disappear are removed: when both child lists carry
/// keys, the DOM node of an old child whose key no new child carries is
/// removed from the parent.
pub proof fn lemma_keyed_child_removed(oc: Seq<VNode>, nc: Seq<VNode>, parent: NodeId, next: u64, i: int, dom: NodeId)
    requires
        has_keyed(oc),
        has_keyed(nc),
        0 <= i < oc.len(),
        reuse_entry(oc[i], nc) is None,
        spec_dom_node(oc[i]) == Some(dom),
    ensures
        children_spec(oc, nc, parent, next).0.contains(DomOp::RemoveChild { parent, child: dom }),
{
    let reuse = reuse_map(oc, nc);
    lemma_keyed_removals_contain(oc, reuse, parent, oc.len() as int, i, dom);
    let rm = keyed_removals(oc, reuse, parent, oc.len() as int);
    let st = keyed_steps(oc, nc, parent, stable_children(oc, nc), next, 0);
    let w = choose|w: int| 0 <= w < rm.len() && rm[w] == DomOp::RemoveChild { parent, child: dom };
    assert((rm + st.0)[w] == rm[w]);
}

pub(crate) proof fn lemma_pairs_patched_at(
    oc: Seq<VNode>,
    nc: Seq<VNode>,
    outs: Seq<VNode>,
    parent: NodeId,
    next: u64,
    k: int,
    i: int,
)
    requires
        pairs_patched(oc, nc, outs, parent, next, k),
        0 <= i < k <= oc.len(),
        k <= nc.len(),
    ensures
        patched(oc[i], nc[i], outs[i], parent, first_dom_from(oc, i + 1), pairs_spec(oc, nc, parent, next, i).1),
    decreases k,
{
    if i < k - 1 {
        lemma_pairs_patched_at(oc, nc, outs, parent, next, k - 1, i);
    }
}

/// Children without keys are matched by position: a new child at a position
/// that an old rendered element or text of the same type holds takes over
/// its DOM node.
pub proof fn lemma_unkeyed_child_reuses_node(
    oc: Seq<VNode>,
    nc: Seq<VNode>,
    outs: Seq<VNode>,
    parent: NodeId,
    next: u64,
    i: int,
    dom: NodeId,
)
    requires
        !(has_keyed(oc) && has_keyed(nc)),
        children_patched(oc, nc, outs, parent, next),
        0 <= i < oc.len(),
        i < nc.len(),
        oc[i] is Element || oc[i] is Text,
        spec_dom_node(oc[i]) == Some(dom),
        spec_same_type(oc[i], nc[i]),
    ensures
        spec_dom_node(outs[i]) == Some(dom),
{
    let common = if oc.len() < nc.len() { oc.len() as int } else { nc.len() as int };
    lemma_pairs_patched_at(oc, nc, outs, parent, next, common, i);
}

proof fn lemma_remove_range_contains(oc: Seq<VNode>, from: int, k: int, parent: NodeId, i: int, dom: NodeId)
    requires
        from <= i < k <= oc.len(),
        0 <= i,
        spec_dom_node(oc[i]) == Some(dom),
    ensures
        remove_range_ops(oc, from, k, parent).contains(DomOp::RemoveChild { parent, child: dom }),
    decreases k - from,
{
    let prev = remove_range_ops(oc, from, k - 1, parent);
    let r = remove_range_ops(oc, from, k, parent);
    if i < k - 1 {
        lemma_remove_range_contains(oc, from, k - 1, parent, i, dom);
        let w = choose|w: int| 0 <= w < prev.len() && prev[w] == DomOp::RemoveChild { parent, child: dom };
        assert(r[w] == prev[w]);
    } else {
        assert(r[prev.len() as int] == DomOp::RemoveChild { parent, child: dom });
    }
}

/// Children without keys beyond the new length are removed: the DOM node of
/// each old child past the end of the new children is removed from the parent.
pub proof fn lemma_unkeyed_extra_child_removed(
    oc: Seq<VNode>,
    nc: Seq<VNode>,
    parent: NodeId,
    next: u64,
    i: int,
    dom: NodeId,
)
    requires
        !(has_keyed(oc) && has_keyed(nc)),
        nc.len() <= i < oc.len(),
        spec_dom_node(oc[i]) == Some(dom),
    ensures
        children_spec(oc, nc, parent, next).0.contains(DomOp::RemoveChild { parent, child: dom }),
{
    let common = nc.len() as int;
    let a = pairs_spec(oc, nc, parent, next, common);
    let rm = remove_range_ops(oc, nc.len() as int, oc.len() as int, parent);
    lemma_remove_range_contains(oc, nc.len() as int, oc.len() as int, parent, i, dom);
    let w = choose|w: int| 0 <= w < rm.len() && rm[w] == DomOp::RemoveChild { parent, child: dom };
    assert((a.0 + rm)[a.0.len() + w] == rm[w]);
}

} // verus!

verus! {

// ---------------------------------------------------------------------------
// Frame lemmas
// ---------------------------------------------------------------------------

proof fn lemma_pairs_patched_frame(
    oc: Seq<VNode>,
    nc: Seq<VNode>,
    outs: Seq<VNode>,
    outs2: Seq<VNode>,
    parent: NodeId,
    next: u64,
    k: int,
)
    requires
        forall|j: int| 0 <= j < k ==> outs[j] == outs2[j],
    ensures
        pairs_patched(oc, nc, outs, parent, next, k) == pairs_patched(oc, nc, outs2, parent, next, k),
    decreases k,
{
    if 0 < k && k <= oc.len() && k <= nc.len() {
        lemma_pairs_patched_frame(oc, nc, outs, outs2, parent, next, k - 1);
    }
}

proof fn lemma_mounted_range_frame(
    nc: Seq<VNode>,
    outs: Seq<VNode>,
    outs2: Seq<VNode>,
    from: int,
    k: int,
    parent: NodeId,
    next: u64,
)
    requires
        forall|j: int| from <= j < k ==> outs[j] == outs2[j],
    ensures
        mounted_range(nc, outs, from, k, parent, next) == mounted_range(nc, outs2, from, k, parent, next),
    decreases k - from,
{
    if k > from {
        lemma_mounted_range_frame(nc, outs, outs2, from, k - 1, parent, next);
    }
}

proof fn lemma_keyed_patched_frame(
    oc: Seq<VNode>,
    nc: Seq<VNode>,
    outs: Seq<VNode>,
    outs2: Seq<VNode>,
    parent: NodeId,
    lis: Seq<usize>,
    next: u64,
    k: int,
)
    requires
        0 <= k,
        forall|j: int| k <= j < nc.len() ==> outs[j] == outs2[j],
    ensures
        keyed_patched(oc, nc, outs, parent, lis, next, k) == keyed_patched(oc, nc, outs2, parent, lis, next, k),
    decreases nc.len() - k,
{
    if k < nc.len() {
        lemma_keyed_patched_frame(oc, nc, outs, outs2, parent, lis, next, k + 1);
    }
}

// ---------------------------------------------------------------------------
// Children reconciliation
// ---------------------------------------------------------------------------

/// The first of the DOM nodes placed by the first `k` nodes of `cs` is the
/// first DOM node that `cs` places from its start.
proof fn lemma_first_dom_all(cs: Seq<VNode>, k: int)
    requires
        0 <= k <= cs.len(),
    ensures
        dom_nodes_all(cs, k).len() > 0 ==> first_dom_from(cs, 0) == Some(dom_nodes_all(cs, k)[0]),
        dom_nodes_all(cs, k).len() == 0 ==> first_dom_from(cs, 0) == first_dom_from(cs, k),
    decreases k,
{
    if k > 0 {
        lemma_first_dom_all(cs, k - 1);
        assert(sizes(cs, k) == sizes(cs, k - 1) + size(cs[k - 1]));
        let d0 = dom_nodes_all(cs, k - 1);
        let d1 = dom_nodes(cs[k - 1]);
        assert(dom_nodes_all(cs, k) == d0 + d1);
        if d0.len() > 0 {
            assert((d0 + d1)[0] == d0[0]);
        } else if d1.len() > 0 {
            assert((d0 + d1)[0] == d1[0]);
        }
    }
}

/// The first DOM node that `v` placed in its parent, if any.
fn first_dom_node(v: &VNode) -> (r: Option<NodeId>)
    ensures
        r == (if dom_nodes(*v).len() > 0 {
            Some(dom_nodes(*v)[0])
        } else {
            None
        }),
    decreases size(*v),
{
    match v {
        VNode::Fragment(cs) => {
            let mut i: usize = 0;
            while i < cs.len()
                invariant
                    i <= cs@.len(),
                    *v == VNode::Fragment(*cs),
                    first_dom_from(cs@, 0) == first_dom_from(cs@, i as int),
                decreases cs@.len() - i,
            {
                proof {
                    super::lemma_size_le_sizes(cs@, i as int);
                }
                let r = first_dom_node(&cs[i]);
                if r.is_some() {
                    proof {
                        lemma_first_dom_all(cs@, cs@.len() as int);
                        assert(dom_nodes(*v) == dom_nodes_all(cs@, cs@.len() as int));
                    }
                    return r;
                }
                i = i + 1;
            }
            proof {
                lemma_first_dom_all(cs@, cs@.len() as int);
                assert(dom_nodes(*v) == dom_nodes_all(cs@, cs@.len() as int));
            }
            None
        },
        VNode::Element(el) => el.dom_ref,
        VNode::Text(_, d) => *d,
        VNode::Dynamic(_, d) => *d,
        VNode::Empty => None,
    }
}

/// The first DOM node that the nodes of `cs` from position `k` on placed.
fn first_dom_node_from(cs: &Vec<VNode>, k: usize) -> (r: Option<NodeId>)
    ensures
        r == first_dom_from(cs@, k as int),
{
    let mut j: usize = k;
    while j < cs.len()
        invariant
            k <= j,
            first_dom_from(cs@, k as int) == first_dom_from(cs@, j as int),
        decreases cs@.len() - j,
    {
        let r = first_dom_node(&cs[j]);
        if r.is_some() {
            return r;
        }
        j = j + 1;
    }
    None
}

/// The key of a node, as the node's own string.
fn key_string(v: &VNode) -> (r: Option<&String>)
    ensures
        r is Some == spec_key(*v) is Some,
        r matches Some(k) ==> spec_key(*v) == Some(k@),
{
    match v {
        VNode::Element(el) => match &el.key {
            Some(k) => Some(k),
            None => None,
        },
        _ => None,
    }
}

/// Whether some child carries a key.
fn any_keyed(cs: &Vec<VNode>) -> (b: bool)
    ensures
        b == has_keyed(cs@),
{
    let mut i: usize = 0;
    while i < cs.len()
        invariant
            i <= cs@.len(),
            forall|m: int| 0 <= m < i ==> !(#[trigger] spec_key(cs@[m]) is Some),
        decreases cs@.len() - i,
    {
        if key_string(&cs[i]).is_some() {
            return true;
        }
        i = i + 1;
    }
    false
}

/// The position of the last child carrying `key`.
fn last_key_position(cs: &Vec<VNode>, key: &String) -> (r: Option<usize>)
    ensures
        r is Some == last_key_index(cs@, key@, cs@.len() as int) is Some,
        r matches Some(i) ==> last_key_index(cs@, key@, cs@.len() as int) == Some(i as int),
{
    let mut i = cs.len();
    while i > 0
        invariant
            i <= cs@.len(),
            last_key_index(cs@, key@, cs@.len() as int) == last_key_index(cs@, key@, i as int),
        decreases i,
    {
        let found = match key_string(&cs[i - 1]) {
            Some(k) => *k == *key,
            None => false,
        };
        if found {
            return Some(i - 1);
        }
        i = i - 1;
    }
    None
}

/// Patch the children list of a DOM node.
///
/// Decides whether to use keyed or un-keyed reconciliation based on whether
/// the children have keys.
pub fn patch_children(
    old_children: &Vec<VNode>,
    new_children: &mut Vec<VNode>,
    parent: NodeId,
    plan: &mut Plan,
)
    ensures
        final(plan).ops@ == old(plan).ops@ + children_spec(
            old_children@,
            old(new_children)@,
            parent,
            old(plan).next_id,
        ).0,
        final(plan).next_id == children_spec(old_children@, old(new_children)@, parent, old(plan).next_id).1,
        final(new_children)@.len() == old(new_children)@.len(),
        children_patched(old_children@, old(new_children)@, final(new_children)@, parent, old(plan).next_id),
    decreases sizes(old_children@, old_children@.len() as int) + sizes(
        old(new_children)@,
        old(new_children)@.len() as int,
    ) + 1, 3int, 0int,
{
    let old_has_keys = any_keyed(old_children);
    let new_has_keys = any_keyed(new_children);
    if old_has_keys && new_has_keys {
        patch_keyed_children(old_children, new_children, parent, plan);
    } else {
        patch_unkeyed_children(old_children, new_children, parent, plan);
    }
}

/// Patch children by position — simpler but less efficient for reordering.
fn patch_unkeyed_children(
    old_children: &Vec<VNode>,
    new_children: &mut Vec<VNode>,
    parent: NodeId,
    plan: &mut Plan,
)
    requires
        !(has_keyed(old_children@) && has_keyed(old(new_children)@)),
    ensures
        final(plan).ops@ == old(plan).ops@ + children_spec(
            old_children@,
            old(new_children)@,
            parent,
            old(plan).next_id,
        ).0,
        final(plan).next_id == children_spec(old_children@, old(new_children)@, parent, old(plan).next_id).1,
        final(new_children)@.len() == old(new_children)@.len(),
        children_patched(old_children@, old(new_children)@, final(new_children)@, parent, old(plan).next_id),
    decreases sizes(old_children@, old_children@.len() as int) + sizes(
        old(new_children)@,
        old(new_children)@.len() as int,
    ) + 1, 2int, 0int,
{
    let ghost oc = old_children@;
    let ghost nc = new_children@;
    let ghost start = plan.next_id;
    let ghost ops0 = plan.ops@;
    let old_len = old_children.len();
    let new_len = new_children.len();
    let common_len = if old_len < new_len {
        old_len
    } else {
        new_len
    };
    // Patch the common prefix
    let mut i: usize = 0;
    while i < common_len
        invariant
            i <= common_len,
            common_len <= old_len == oc.len(),
            common_len <= new_len == nc.len(),
            common_len == oc.len() || common_len == nc.len(),
            old_children@ == oc,
            new_children@.len() == nc.len(),
            forall|m: int| i <= m < nc.len() ==> new_children@[m] == nc[m],
            plan.ops@ == ops0 + pairs_spec(oc, nc, parent, start, i as int).0,
            plan.next_id == pairs_spec(oc, nc, parent, start, i as int).1,
            pairs_patched(oc, nc, new_children@, parent, start, i as int),
            sizes(old(new_children)@, old(new_children)@.len() as int) == sizes(nc, nc.len() as int),
            old(new_children)@ == nc,
        decreases common_len - i,
    {
        proof {
            super::lemma_size_le_sizes(oc, i as int);
            super::lemma_size_le_sizes(nc, i as int);
        }
        let ghost before = new_children@;
        // A replaced child goes before the nodes of the old children after it.
        let anchor = first_dom_node_from(old_children, i + 1);
        let child = &mut new_children[i];
        super::patch::patch_node(&old_children[i], child, parent, anchor, plan);
        proof {
            lemma_pairs_patched_frame(oc, nc, before, new_children@, parent, start, i as int);
        }
        i = i + 1;
    }
    let ghost a = pairs_spec(oc, nc, parent, start, common_len as int);
    if new_len > old_len {
        // Add new children at the end
        let ghost ops1 = plan.ops@;
        let mut j: usize = old_len;
        while j < new_len
            invariant
                old_len <= j <= new_len,
                old_len == oc.len() == common_len,
                new_len == nc.len(),
                old_children@ == oc,
                new_children@.len() == nc.len(),
                forall|m: int| j <= m < nc.len() ==> new_children@[m] == nc[m],
                plan.ops@ == ops1 + mount_range_spec(nc, old_len as int, j as int, parent, a.1).0,
                plan.next_id == mount_range_spec(nc, old_len as int, j as int, parent, a.1).1,
                pairs_patched(oc, nc, new_children@, parent, start, common_len as int),
                mounted_range(nc, new_children@, old_len as int, j as int, parent, a.1),
            decreases new_len - j,
        {
            let ghost before = new_children@;
            let child = &mut new_children[j];
            super::mount::mount_to_dom(child, parent, None, plan);
            proof {
                lemma_pairs_patched_frame(oc, nc, before, new_children@, parent, start, common_len as int);
                lemma_mounted_range_frame(nc, before, new_children@, old_len as int, j as int, parent, a.1);
                assert(plan.ops@ =~= ops1 + mount_range_spec(nc, old_len as int, j + 1, parent, a.1).0);
            }
            j = j + 1;
        }
        proof {
            assert(plan.ops@ =~= ops0 + children_spec(oc, nc, parent, start).0);
        }
    } else {
        // Remove extra old children
        let ghost ops1 = plan.ops@;
        let mut j: usize = new_len;
        while j < old_len
            invariant
                new_len <= j <= old_len,
                old_len == oc.len(),
                new_len == nc.len(),
                old_children@ == oc,
                plan.ops@ == ops1 + remove_range_ops(oc, new_len as int, j as int, parent),
                plan.next_id == a.1,
            decreases old_len - j,
        {
            remove_dom_node(&old_children[j], parent, plan);
            proof {
                assert(plan.ops@ =~= ops1 + remove_range_ops(oc, new_len as int, j + 1, parent));
            }
            j = j + 1;
        }
        proof {
            assert(plan.ops@ =~= ops0 + children_spec(oc, nc, parent, start).0);
        }
    }
}

/// Patch children using keys for optimal reordering.
///
/// Algorithm (inspired by Vue 3):
/// 1. For each old child, find the new child with its key
/// 2. Compute the longest increasing subsequence of those new positions
///    → these old children stay in place
/// 3. Remove old children no new child reuses
/// 4. In new order, patch each reused child (moving the unstable ones) and
///    mount each new one
fn patch_keyed_children(
    old_children: &Vec<VNode>,
    new_children: &mut Vec<VNode>,
    parent: NodeId,
    plan: &mut Plan,
)
    requires
        has_keyed(old_children@) && has_keyed(old(new_children)@),
    ensures
        final(plan).ops@ == old(plan).ops@ + children_spec(
            old_children@,
            old(new_children)@,
            parent,
            old(plan).next_id,
        ).0,
        final(plan).next_id == children_spec(old_children@, old(new_children)@, parent, old(plan).next_id).1,
        final(new_children)@.len() == old(new_children)@.len(),
        children_patched(old_children@, old(new_children)@, final(new_children)@, parent, old(plan).next_id),
    decreases sizes(old_children@, old_children@.len() as int) + sizes(
        old(new_children)@,
        old(new_children)@.len() as int,
    ) + 1, 2int, 0int,
{
    let ghost oc = old_children@;
    let ghost nc = new_children@;
    let ghost start = plan.next_id;
    let ghost ops0 = plan.ops@;
    // Phase 1: for each old child, the new position that reuses it.
    let mut new_idx_for_old: Vec<Option<usize>> = Vec::new();
    let mut i: usize = 0;
    while i < old_children.len()
        invariant
            i <= oc.len(),
            old_children@ == oc,
            new_children@ == nc,
            new_idx_for_old@.len() == i,
            forall|m: int| 0 <= m < i ==> new_idx_for_old@[m] == #[trigger] reuse_entry(oc[m], nc),
        decreases oc.len() - i,
    {
        let entry = match key_string(&old_children[i]) {
            Some(key) => last_key_position(new_children, key),
            None => None,
        };
        new_idx_for_old.push(entry);
        i = i + 1;
    }
    proof {
        assert(new_idx_for_old@ =~= reuse_map(oc, nc));
    }
    // Phase 2: the longest increasing subsequence of reuse positions — these
    // old children keep their relative positions.
    let lis_indices = longest_increasing_subsequence_filtered(new_idx_for_old.as_slice());
    let ghost lis = lis_indices@;
    assert(oc.len() == old_children.len());
    let mut lis_set: Vec<bool> = Vec::new();
    let mut m: usize = 0;
    while m < old_children.len()
        invariant
            m <= oc.len(),
            old_children@ == oc,
            lis_set@.len() == m,
            forall|x: int| 0 <= x < m ==> !lis_set@[x],
        decreases oc.len() - m,
    {
        lis_set.push(false);
        m = m + 1;
    }
    let mut q: usize = 0;
    while q < lis_indices.len()
        invariant
            q <= lis.len(),
            lis_indices@ == lis,
            oc.len() <= usize::MAX,
            is_increasing_present_subsequence(reuse_map(oc, nc), lis),
            reuse_map(oc, nc).len() == oc.len(),
            lis_set@.len() == oc.len(),
            forall|x: int| 0 <= x < oc.len() ==> lis_set@[x] == lis.take(q as int).contains(x as usize),
        decreases lis.len() - q,
    {
        let idx = lis_indices[q];
        lis_set.set(idx, true);
        proof {
            assert forall|x: int| 0 <= x < oc.len() implies lis_set@[x] == lis.take(q + 1).contains(
                x as usize,
            ) by {
                let t1 = lis.take(q + 1);
                let t0 = lis.take(q as int);
                assert(t1 =~= t0.push(idx));
                if x == idx as int {
                    assert(t1[q as int] == idx);
                } else {
                    if t1.contains(x as usize) {
                        let w = choose|w: int| 0 <= w < t1.len() && t1[w] == x as usize;
                        assert(t0[w] == x as usize);
                    }
                    if t0.contains(x as usize) {
                        let w = choose|w: int| 0 <= w < t0.len() && t0[w] == x as usize;
                        assert(t1[w] == x as usize);
                    }
                }
            }
        }
        q = q + 1;
    }
    proof {
        assert(lis.take(lis.len() as int) =~= lis);
    }
    // Phase 3: remove children that no longer exist in new
    let mut r: usize = 0;
    while r < old_children.len()
        invariant
            r <= oc.len(),
            old_children@ == oc,
            new_idx_for_old@ == reuse_map(oc, nc),
            plan.ops@ == ops0 + keyed_removals(oc, reuse_map(oc, nc), parent, r as int),
            plan.next_id == start,
        decreases oc.len() - r,
    {
        if new_idx_for_old[r].is_none() {
            remove_dom_node(&old_children[r], parent, plan);
        }
        proof {
            assert(plan.ops@ =~= ops0 + keyed_removals(oc, reuse_map(oc, nc), parent, r + 1));
        }
        r = r + 1;
    }
    let ghost ops1 = plan.ops@;
    // Phase 4: process the new children from the last one back, each placed
    // before the DOM node its next sibling starts with.
    let mut anchor: Option<NodeId> = None;
    let mut j: usize = new_children.len();
    while j > 0
        invariant
            j <= nc.len(),
            old_children@ == oc,
            new_children@.len() == nc.len(),
            forall|x: int| 0 <= x < j ==> new_children@[x] == nc[x],
            lis == stable_children(oc, nc),
            oc.len() <= usize::MAX,
            lis_set@.len() == oc.len(),
            forall|x: int| 0 <= x < oc.len() ==> lis_set@[x] == lis.contains(x as usize),
            plan.ops@ == ops1 + keyed_steps(oc, nc, parent, lis, start, j as int).0,
            plan.next_id == keyed_steps(oc, nc, parent, lis, start, j as int).1,
            anchor == keyed_steps(oc, nc, parent, lis, start, j as int).2,
            keyed_patched(oc, nc, new_children@, parent, lis, start, j as int),
            sizes(old(new_children)@, old(new_children)@.len() as int) == sizes(nc, nc.len() as int),
            old(new_children)@ == nc,
        decreases j,
    {
        let k = j - 1;
        let ghost before = new_children@;
        let ghost ops_k = plan.ops@;
        let key = match key_string(&new_children[k]) {
            Some(kk) => Some(kk.clone()),
            None => None,
        };
        let source = match &key {
            Some(kk) => last_key_position(old_children, kk),
            None => None,
        };
        match source {
            Some(old_idx) => {
                proof {
                    lemma_last_key_index_bound(oc, spec_key(nc[k as int])->0, oc.len() as int);
                    super::lemma_size_le_sizes(oc, old_idx as int);
                    super::lemma_size_le_sizes(nc, k as int);
                }
                // This child existed in old: patch it, then move it into
                // place unless it is on the stable run.
                let same = old_children[old_idx].same_type(&new_children[k]);
                let is_stable = lis_set[old_idx];
                let child = &mut new_children[k];
                let root = super::patch::patch_node(&old_children[old_idx], child, parent, anchor, plan);
                if same {
                    if !is_stable {
                        if let Some(node) = root {
                            push_insert(plan, parent, node, anchor);
                        }
                    }
                    if root.is_some() {
                        anchor = root;
                    }
                } else if root.is_some() {
                    anchor = root;
                }
            },
            None => {
                // Brand new child (or no key): mount it in place
                let child = &mut new_children[k];
                let root = super::mount::mount_to_dom(child, parent, anchor, plan);
                if root.is_some() {
                    anchor = root;
                }
            },
        }
        proof {
            lemma_keyed_patched_frame(oc, nc, before, new_children@, parent, lis, start, j as int);
            assert(plan.ops@ =~= ops1 + keyed_steps(oc, nc, parent, lis, start, k as int).0);
        }
        j = k;
    }
    proof {
        assert(plan.ops@ =~= ops0 + children_spec(oc, nc, parent, start).0);
    }
}

} // verus!
