//! Stable sorting by an arbitrary ranking of positions.
//!
//! The sort returns a permutation of the positions of a collection instead
//! of moving its items, so that one merge sort serves every ordering
//! strategy and stability can be stated over the positions themselves.
use vstd::prelude::*;
use vstd::set_lib::{lemma_int_range, lemma_subset_equality, set_int_range};

verus! {

/// A ranking of the positions `0..size()` of some collection.
pub trait Ranking {
    /// How many positions are ranked.
    spec fn size(&self) -> nat;

    /// The relation "the item at `i` may stand before the item at `j`".
    spec fn relation(&self) -> spec_fn(int, int) -> bool;

    /// The number of positions.
    fn count(&self) -> (n: usize)
        ensures
            n == self.size(),
    ;

    /// Decides the relation for two positions.
    fn precedes(&self, i: usize, j: usize) -> (b: bool)
        requires
            i < self.size(),
            j < self.size(),
        ensures
            b == (self.relation())(i as int, j as int),
    ;
}

/// Whether `rel` is total and transitive on the positions `0..n`, which
/// makes it a total preorder there.
pub open spec fn total_preorder(rel: spec_fn(int, int) -> bool, n: nat) -> bool {
    &&& forall|i: int, j: int| 0 <= i < n && 0 <= j < n ==> #[trigger] rel(i, j) || rel(j, i)
    &&& forall|i: int, j: int, k: int|
        0 <= i < n && 0 <= j < n && 0 <= k < n && #[trigger] rel(i, j) && #[trigger] rel(j, k)
            ==> rel(i, k)
}

/// Whether position `x` must stand before position `y` in a stable sort:
/// `x` ranks no later than `y`, and on a tie `x` is the earlier position.
pub open spec fn ahead(rel: spec_fn(int, int) -> bool, x: int, y: int) -> bool {
    rel(x, y) && (rel(y, x) ==> x < y)
}

/// Whether `p` lists positions in stably sorted order.
pub open spec fn stably_sorted(rel: spec_fn(int, int) -> bool, p: Seq<usize>) -> bool {
    forall|a: int, b: int|
        0 <= a < b < p.len() ==> ahead(rel, #[trigger] p[a] as int, #[trigger] p[b] as int)
}

/// Whether `p` lists each position of `lo..hi` at most once and nothing
/// else, and has as many entries as there are positions.
pub open spec fn lists_range(p: Seq<usize>, lo: int, hi: int) -> bool {
    &&& p.len() == hi - lo
    &&& forall|k: int| 0 <= k < p.len() ==> lo <= #[trigger] p[k] < hi
    &&& forall|a: int, b: int| 0 <= a < b < p.len() ==> #[trigger] p[a] != #[trigger] p[b]
}

/// Whether `p` is a permutation of the positions `0..n`.
pub open spec fn is_permutation(p: Seq<usize>, n: nat) -> bool {
    lists_range(p, 0, n as int)
}

/// The items of `input` in the order that `p` lists their positions.
pub open spec fn reordered<T>(input: Seq<T>, p: Seq<usize>) -> Seq<T> {
    Seq::new(p.len(), |k: int| input[p[k] as int])
}

/// Whether `out` holds the items of `input` in another order.
pub open spec fn permutation_of<T>(out: Seq<T>, input: Seq<T>) -> bool {
    exists|p: Seq<usize>| #[trigger] is_permutation(p, input.len()) && out == reordered(input, p)
}

/// Whether `out` is the stable sort of `input` by `rel`, a relation on the
/// positions of `input`: `out` holds the items of `input` in another order,
/// and whenever `rel` is a total preorder that order is the rank order, with
/// ties in the order of the input.
pub open spec fn stable_sort_of<T>(
    out: Seq<T>,
    input: Seq<T>,
    rel: spec_fn(int, int) -> bool,
) -> bool {
    exists|p: Seq<usize>|
        #[trigger] is_permutation(p, input.len()) && out == reordered(input, p) && (total_preorder(
            rel,
            input.len(),
        ) ==> stably_sorted(rel, p))
}

/// A permutation `p` that sorts whenever `rel` is a total preorder shows that
/// `reordered(input, p)` is the stable sort of `input`.
pub proof fn stable_sort_by_witness<T>(
    out: Seq<T>,
    input: Seq<T>,
    rel: spec_fn(int, int) -> bool,
    p: Seq<usize>,
)
    requires
        is_permutation(p, input.len()),
        out == reordered(input, p),
        total_preorder(rel, input.len()) ==> stably_sorted(rel, p),
    ensures
        stable_sort_of(out, input, rel),
        permutation_of(out, input),
{
}

/// A stable sort is a rearrangement.
pub proof fn stable_sort_rearranges<T>(out: Seq<T>, input: Seq<T>, rel: spec_fn(int, int) -> bool)
    requires
        stable_sort_of(out, input, rel),
    ensures
        permutation_of(out, input),
{
    let p = choose|p: Seq<usize>|
        #[trigger] is_permutation(p, input.len()) && out == reordered(input, p) && (
        total_preorder(rel, input.len()) ==> stably_sorted(rel, p));
    assert(is_permutation(p, input.len()) && out == reordered(input, p));
}

/// A rearrangement of a rearrangement is a rearrangement.
pub proof fn rearrangements_compose<T>(last: Seq<T>, middle: Seq<T>, first: Seq<T>)
    requires
        permutation_of(middle, first),
        permutation_of(last, middle),
    ensures
        permutation_of(last, first),
{
    let p = choose|p: Seq<usize>|
        #[trigger] is_permutation(p, first.len()) && middle == reordered(first, p);
    let q = choose|q: Seq<usize>|
        #[trigger] is_permutation(q, middle.len()) && last == reordered(middle, q);
    let both = Seq::new(q.len(), |k: int| p[q[k] as int]);
    assert forall|k: int| 0 <= k < both.len() implies 0 <= #[trigger] both[k] < first.len() by {
        assert(0 <= q[k] < p.len());
        assert(0 <= p[q[k] as int] < first.len());
    }
    assert forall|a: int, b: int| 0 <= a < b < both.len() implies #[trigger] both[a]
        != #[trigger] both[b] by {
        assert(q[a] != q[b]);
        assert(0 <= q[a] < p.len() && 0 <= q[b] < p.len());
        if q[a] < q[b] {
            assert(p[q[a] as int] != p[q[b] as int]);
        } else {
            assert(p[q[b] as int] != p[q[a] as int]);
        }
    }
    assert(is_permutation(both, first.len()));
    assert(last =~= reordered(first, both)) by {
        assert forall|k: int| 0 <= k < last.len() implies last[k] == first[both[k] as int] by {
            assert(0 <= q[k] < p.len());
        }
    }
}

/// A rearrangement neither loses nor invents nor repeats an item: it has
/// the length of its input and the same members, and where the input holds
/// no item twice neither does the rearrangement.
pub proof fn permutation_keeps_items<T>(out: Seq<T>, input: Seq<T>)
    requires
        permutation_of(out, input),
    ensures
        out.len() == input.len(),
        forall|x: T| out.contains(x) <==> input.contains(x),
        input.no_duplicates() ==> out.no_duplicates(),
{
    let p = choose|p: Seq<usize>|
        #[trigger] is_permutation(p, input.len()) && out == reordered(input, p);
    assert forall|x: T| out.contains(x) <==> input.contains(x) by {
        if out.contains(x) {
            let k = choose|k: int| 0 <= k < out.len() && out[k] == x;
            assert(0 <= p[k] < input.len());
            assert(input[p[k] as int] == x);
        }
        if input.contains(x) {
            let i = choose|i: int| 0 <= i < input.len() && input[i] == x;
            permutation_covers(p, input.len(), i);
            let k = choose|k: int| 0 <= k < input.len() && #[trigger] p[k] == i;
            assert(out[k] == x);
        }
    }
    if input.no_duplicates() {
        assert forall|a: int, b: int|
            0 <= a < out.len() && 0 <= b < out.len() && a != b implies out[a] != out[b] by {
            assert(0 <= p[a] < input.len() && 0 <= p[b] < input.len());
            if a < b {
                assert(p[a] != p[b]);
            } else {
                assert(p[b] != p[a]);
            }
        }
    }
}

/// A permutation of `0..n` reaches every position: for each `x` below `n`
/// some entry of `p` is `x`.
pub proof fn permutation_covers(p: Seq<usize>, n: nat, x: int)
    requires
        is_permutation(p, n),
        0 <= x < n,
    ensures
        exists|k: int| 0 <= k < n && #[trigger] p[k] == x,
{
    let q = p.map_values(|v: usize| v as int);
    assert(q.no_duplicates()) by {
        assert forall|a: int, b: int| 0 <= a < q.len() && 0 <= b < q.len() && a != b implies q[a]
            != q[b] by {
            if a < b {
                assert(p[a] != p[b]);
            } else {
                assert(p[b] != p[a]);
            }
        }
    }
    q.unique_seq_to_set();
    lemma_int_range(0, n as int);
    let range = set_int_range(0, n as int);
    assert(q.to_set().subset_of(range)) by {
        assert forall|v: int| q.to_set().contains(v) implies range.contains(v) by {
            let k = choose|k: int| 0 <= k < q.len() && q[k] == v;
            assert(0 <= p[k] < n);
        }
    }
    vstd::seq_lib::seq_to_set_is_finite(q);
    lemma_subset_equality(q.to_set(), range);
    assert(range.contains(x));
    assert(q.to_set().contains(x));
    let k = choose|k: int| 0 <= k < q.len() && q[k] == x;
    assert(p[k] == x);
}

/// Two stably sorted permutations of the same positions agree on their
/// first `k` entries.
proof fn sorted_permutations_agree(
    rel: spec_fn(int, int) -> bool,
    n: nat,
    p: Seq<usize>,
    q: Seq<usize>,
    k: int,
)
    requires
        is_permutation(p, n),
        is_permutation(q, n),
        stably_sorted(rel, p),
        stably_sorted(rel, q),
        0 <= k <= n,
    ensures
        forall|j: int| 0 <= j < k ==> p[j] == q[j],
    decreases k,
{
    if k > 0 {
        sorted_permutations_agree(rel, n, p, q, k - 1);
        let x = p[k - 1];
        let y = q[k - 1];
        if x != y {
            assert(0 <= x < n && 0 <= y < n);
            permutation_covers(q, n, x as int);
            let m = choose|m: int| 0 <= m < n && #[trigger] q[m] == x;
            if m < k - 1 {
                assert(p[m] == q[m]);
                assert(p[m] != p[k - 1]);
            }
            assert(ahead(rel, q[k - 1] as int, q[m] as int));
            permutation_covers(p, n, y as int);
            let l = choose|l: int| 0 <= l < n && #[trigger] p[l] == y;
            if l < k - 1 {
                assert(p[l] == q[l]);
                assert(q[l] != q[k - 1]);
            }
            assert(ahead(rel, p[k - 1] as int, p[l] as int));
        }
    }
}

/// The stable sort is unique: where `rel` is a total preorder on the
/// positions of `input`, any two sequences that are the stable sort of
/// `input` by `rel` are the same sequence.
pub proof fn stable_sort_is_unique<T>(
    first: Seq<T>,
    second: Seq<T>,
    input: Seq<T>,
    rel: spec_fn(int, int) -> bool,
)
    requires
        stable_sort_of(first, input, rel),
        stable_sort_of(second, input, rel),
        total_preorder(rel, input.len()),
    ensures
        first == second,
{
    let p = choose|p: Seq<usize>|
        #[trigger] is_permutation(p, input.len()) && first == reordered(input, p) && (
        total_preorder(rel, input.len()) ==> stably_sorted(rel, p));
    let q = choose|q: Seq<usize>|
        #[trigger] is_permutation(q, input.len()) && second == reordered(input, q) && (
        total_preorder(rel, input.len()) ==> stably_sorted(rel, q));
    sorted_permutations_agree(rel, input.len(), p, q, input.len() as int);
    assert(p =~= q);
}

/// Whether the ranking `r` is a total preorder on its positions.
pub open spec fn preordered<R: Ranking>(r: &R) -> bool {
    total_preorder(r.relation(), r.size())
}

/// Whether `r` ranks position `x` no later than position `y`.
pub open spec fn ranks<R: Ranking>(r: &R, x: int, y: int) -> bool {
    (r.relation())(x, y)
}

/// Whether `x` must stand before `y` in a stable sort by `r`.
pub open spec fn leads<R: Ranking>(r: &R, x: int, y: int) -> bool {
    ahead(r.relation(), x, y)
}

/// Whether `p` is stably sorted by `r`, as far as `r` is a total preorder.
pub open spec fn sorts<R: Ranking>(r: &R, p: Seq<usize>) -> bool {
    preordered(r) ==> stably_sorted(r.relation(), p)
}

fn merge<R: Ranking>(
    r: &R,
    left: &Vec<usize>,
    right: &Vec<usize>,
    Ghost(lo): Ghost<int>,
    Ghost(mid): Ghost<int>,
    Ghost(hi): Ghost<int>,
) -> (out: Vec<usize>)
    requires
        0 <= lo <= mid <= hi <= r.size(),
        lists_range(left@, lo, mid),
        lists_range(right@, mid, hi),
        sorts(r, left@) && sorts(r, right@),
    ensures
        lists_range(out@, lo, hi),
        sorts(r, out@),
{
    let nl = left.len();
    let nr = right.len();
    let mut out: Vec<usize> = Vec::new();
    let mut i: usize = 0;
    let mut j: usize = 0;
    while i < nl || j < nr
        invariant
            0 <= lo <= mid <= hi <= r.size(),
            lists_range(left@, lo, mid),
            lists_range(right@, mid, hi),
            sorts(r, left@) && sorts(r, right@),
            nl == left.len(),
            nr == right.len(),
            i <= nl,
            j <= nr,
            out.len() == i + j,
            forall|k: int| 0 <= k < out.len() ==> lo <= #[trigger] out[k] < hi,
            forall|a: int, b: int|
                0 <= a < b < out.len() ==> #[trigger] out[a] != #[trigger] out[b],
            forall|k: int, a: int|
                0 <= k < out.len() && i <= a < nl ==> #[trigger] out[k] != #[trigger] left[a],
            forall|k: int, b: int|
                0 <= k < out.len() && j <= b < nr ==> #[trigger] out[k] != #[trigger] right[b],
            sorts(r, out@),
            preordered(r) ==> forall|k: int, a: int|
                0 <= k < out.len() && i <= a < nl ==>
                    leads(r, #[trigger] out[k] as int, #[trigger] left[a] as int),
            preordered(r) ==> forall|k: int, b: int|
                0 <= k < out.len() && j <= b < nr ==>
                    leads(r, #[trigger] out[k] as int, #[trigger] right[b] as int),
        decreases (nl - i) + (nr - j),
    {
        let ghost prev = out@;
        let take_left: bool = if i >= nl {
            false
        } else if j >= nr {
            true
        } else {
            assert(lo <= left[i as int] < mid && mid <= right[j as int] < hi);
            r.precedes(left[i], right[j])
        };
        if take_left {
            let x = left[i];
            assert(lo <= left[i as int] < mid);
            out.push(x);
            proof {
                assert forall|k: int, b: int| 0 <= k < out.len() && j <= b < nr implies out[k]
                    != right[b] by {
                    if k == prev.len() {
                        assert(mid <= right[b]);
                    } else {
                        assert(out[k] == prev[k]);
                    }
                }
                assert forall|a: int, b: int| 0 <= a < b < out.len() implies out[a]
                    != out[b] by {
                    if b == prev.len() {
                        assert(out[a] == prev[a]);
                        assert(prev[a] != left[i as int]);
                    } else {
                        assert(out[a] == prev[a] && out[b] == prev[b]);
                    }
                }
                assert forall|k: int, a: int| 0 <= k < out.len() && i + 1 <= a < nl implies out[k]
                    != left[a] by {
                    if k == prev.len() {
                        assert(left[i as int] != left[a]);
                    } else {
                        assert(out[k] == prev[k]);
                    }
                }
                if preordered(r) {
                    assert forall|a: int, b: int|
                        0 <= a < b < out.len() implies
                        leads(r, #[trigger] out[a] as int, #[trigger] out[b] as int) by {
                        if b == prev.len() {
                            assert(out[a] == prev[a]);
                            assert(leads(r, prev[a] as int, left[i as int] as int));
                        } else {
                            assert(out[a] == prev[a] && out[b] == prev[b]);
                            assert(leads(r, prev[a] as int, prev[b] as int));
                        }
                    }
                    assert forall|k: int, a: int|
                        0 <= k < out.len() && i + 1 <= a < nl implies
                        leads(r, #[trigger] out[k] as int, #[trigger] left[a] as int) by {
                        if k == prev.len() {
                            assert(leads(r, left[i as int] as int, left[a] as int));
                        } else {
                            assert(out[k] == prev[k]);
                        }
                    }
                    assert forall|k: int, b: int|
                        0 <= k < out.len() && j <= b < nr implies
                        leads(r, #[trigger] out[k] as int, #[trigger] right[b] as int) by {
                        if k == prev.len() {
                            let x = left[i as int] as int;
                            let y = right[j as int] as int;
                            let z = right[b] as int;
                            assert(0 <= y < r.size() && 0 <= z < r.size());
                            assert(ranks(r, x, y));
                            if b > j {
                                assert(leads(r, right[j as int] as int, right[b] as int));
                                assert(ranks(r, y, z));
                                assert(ranks(r, x, z));
                            }
                            assert(x < mid <= z);
                        } else {
                            assert(out[k] == prev[k]);
                        }
                    }
                }
            }
            i += 1;
        } else {
            let y = right[j];
            assert(mid <= right[j as int] < hi);
            out.push(y);
            proof {
                assert forall|k: int, a: int| 0 <= k < out.len() && i <= a < nl implies out[k]
                    != left[a] by {
                    if k == prev.len() {
                        assert(left[a] < mid);
                    } else {
                        assert(out[k] == prev[k]);
                    }
                }
                assert forall|a: int, b: int| 0 <= a < b < out.len() implies out[a]
                    != out[b] by {
                    if b == prev.len() {
                        assert(out[a] == prev[a]);
                        assert(prev[a] != right[j as int]);
                    } else {
                        assert(out[a] == prev[a] && out[b] == prev[b]);
                    }
                }
                assert forall|k: int, b: int| 0 <= k < out.len() && j + 1 <= b < nr implies out[k]
                    != right[b] by {
                    if k == prev.len() {
                        assert(right[j as int] != right[b]);
                    } else {
                        assert(out[k] == prev[k]);
                    }
                }
                if preordered(r) {
                    assert forall|a: int, b: int|
                        0 <= a < b < out.len() implies
                        leads(r, #[trigger] out[a] as int, #[trigger] out[b] as int) by {
                        if b == prev.len() {
                            assert(out[a] == prev[a]);
                            assert(leads(r, prev[a] as int, right[j as int] as int));
                        } else {
                            assert(out[a] == prev[a] && out[b] == prev[b]);
                            assert(leads(r, prev[a] as int, prev[b] as int));
                        }
                    }
                    assert forall|k: int, b: int|
                        0 <= k < out.len() && j + 1 <= b < nr implies
                        leads(r, #[trigger] out[k] as int, #[trigger] right[b] as int) by {
                        if k == prev.len() {
                            assert(leads(r, right[j as int] as int, right[b] as int));
                        } else {
                            assert(out[k] == prev[k]);
                        }
                    }
                    assert forall|k: int, a: int|
                        0 <= k < out.len() && i <= a < nl implies
                        leads(r, #[trigger] out[k] as int, #[trigger] left[a] as int) by {
                        if k == prev.len() {
                            let x = left[i as int] as int;
                            let y = right[j as int] as int;
                            let z = left[a] as int;
                            assert(0 <= x < r.size() && 0 <= z < r.size() && 0 <= y < r.size());
                            assert(!ranks(r, x, y));
                            if a > i {
                                assert(leads(r, left[i as int] as int, left[a] as int));
                                assert(ranks(r, x, z));
                            }
                            if ranks(r, z, y) {
                                if a > i {
                                    assert(ranks(r, x, y));
                                }
                                assert(false);
                            }
                            assert(ranks(r, z, y) || ranks(r, y, z));
                        } else {
                            assert(out[k] == prev[k]);
                        }
                    }
                }
            }
            j += 1;
        }
    }
    out
}

fn sort_range<R: Ranking>(r: &R, lo: usize, hi: usize) -> (out: Vec<usize>)
    requires
        lo <= hi <= r.size(),
    ensures
        lists_range(out@, lo as int, hi as int),
        sorts(r, out@),
    decreases hi - lo,
{
    if hi - lo == 0 {
        Vec::new()
    } else if hi - lo == 1 {
        let mut out: Vec<usize> = Vec::new();
        out.push(lo);
        out
    } else {
        let mid: usize = lo + (hi - lo) / 2;
        let left = sort_range(r, lo, mid);
        let right = sort_range(r, mid, hi);
        merge(r, &left, &right, Ghost(lo as int), Ghost(mid as int), Ghost(hi as int))
    }
}

/// The stable sort of the ranked positions: a permutation of `0..size()`
/// which, whenever the ranking is a total preorder, lists the positions in
/// rank order with ties in the order of the input.
pub fn stable_order<R: Ranking>(r: &R) -> (p: Vec<usize>)
    ensures
        is_permutation(p@, r.size()),
        total_preorder(r.relation(), r.size()) ==> stably_sorted(r.relation(), p@),
{
    let n = r.count();
    sort_range(r, 0, n)
}

} // verus!
