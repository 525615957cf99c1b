//! The index side of the broadphase: which body pairs a leaf hit of the
//! bounding-volume tree yields, which pairs infinite planes add, and the
//! sorted pair list that the narrowphase consumes.

use vstd::prelude::*;

verus! {

broadcast use vstd::seq_lib::group_to_multiset_ensures;

/// Lexicographic order on index pairs (the order of `(usize, usize)`).
pub open spec fn pair_le(p: (usize, usize), q: (usize, usize)) -> bool {
    p.0 < q.0 || (p.0 == q.0 && p.1 <= q.1)
}

/// Whether `s` is in nondecreasing lexicographic order.
pub open spec fn sorted_pairs(s: Seq<(usize, usize)>) -> bool {
    forall|i: int, j: int| 0 <= i < j < s.len() ==> pair_le(#[trigger] s[i], #[trigger] s[j])
}

/// The pair that a leaf of the tree reports when body `query`'s box overlaps
/// body `other`'s box: each unordered pair once (from its smaller index), and
/// none for a body with itself or for two static bodies.
pub open spec fn leaf_pair_spec(query: usize, other: usize, query_static: bool, other_static: bool) -> Option<
    (usize, usize),
> {
    if query < other && !(query_static && other_static) {
        Some((query, other))
    } else {
        None
    }
}

/// The pair a tree leaf yields for an overlapping `query` and `other`.
pub fn leaf_pair(query: usize, other: usize, query_static: bool, other_static: bool) -> (pair: Option<
    (usize, usize),
>)
    ensures
        pair == leaf_pair_spec(query, other, query_static, other_static),
        query < other && !(query_static && other_static) ==> pair == Some((query, other)),
        !(query < other && !(query_static && other_static)) ==> pair is None,
{
    if query == other {
        return None;
    }
    if query_static && other_static {
        return None;
    }
    if query < other {
        Some((query, other))
    } else {
        None
    }
}

/// The pairs plane `p` forms with the bodies `0..n`, in index order, smaller
/// index first: every other body except static ones when the plane is static,
/// and except planes of smaller index (those already reported the pair).
pub open spec fn plane_row(is_plane: Seq<bool>, is_static: Seq<bool>, p: int, n: int) -> Seq<(usize, usize)>
    decreases n,
{
    if n <= 0 {
        Seq::empty()
    } else {
        let k: int = n - 1;
        let rest = plane_row(is_plane, is_static, p, k);
        if k == p || (is_static[p] && is_static[k]) || (is_plane[k] && k < p) {
            rest
        } else if p < k {
            rest.push((p as usize, k as usize))
        } else {
            rest.push((k as usize, p as usize))
        }
    }
}

/// The pairs that the planes among bodies `0..m` add, plane by plane in index order.
pub open spec fn plane_pairs_upto(is_plane: Seq<bool>, is_static: Seq<bool>, m: int) -> Seq<(usize, usize)>
    decreases m,
{
    if m <= 0 {
        Seq::empty()
    } else {
        let rest = plane_pairs_upto(is_plane, is_static, m - 1);
        if is_plane[m - 1] {
            rest + plane_row(is_plane, is_static, m - 1, is_static.len() as int)
        } else {
            rest
        }
    }
}

/// Pairs every infinite plane with every other body (planes take no part in
/// box overlap tests), skipping pairs of two static bodies; a pair of two
/// planes is reported once, by the plane of smaller index.
pub fn plane_pairs(is_plane: &Vec<bool>, is_static: &Vec<bool>) -> (pairs: Vec<(usize, usize)>)
    requires
        is_plane.len() == is_static.len(),
    ensures
        pairs@ == plane_pairs_upto(is_plane@, is_static@, is_plane@.len() as int),
        pairs@.no_duplicates(),
{
    let n: usize = is_plane.len();
    let mut pairs: Vec<(usize, usize)> = Vec::new();
    let mut p: usize = 0;
    while p < n
        invariant
            n == is_plane.len(),
            n == is_static.len(),
            p <= n,
            pairs@ == plane_pairs_upto(is_plane@, is_static@, p as int),
        decreases n - p,
    {
        if is_plane[p] {
            let ghost before = pairs@;
            let mut k: usize = 0;
            while k < n
                invariant
                    n == is_plane.len(),
                    n == is_static.len(),
                    p < n,
                    k <= n,
                    pairs@ == before + plane_row(is_plane@, is_static@, p as int, k as int),
                decreases n - k,
            {
                if k == p || (is_static[p] && is_static[k]) || (is_plane[k] && k < p) {
                } else if p < k {
                    pairs.push((p, k));
                } else {
                    pairs.push((k, p));
                }
                proof {
                    assert(pairs@ =~= before + plane_row(is_plane@, is_static@, p as int, k + 1));
                }
                k = k + 1;
            }
        }
        p = p + 1;
    }
    proof {
        lemma_plane_pairs_no_duplicates(is_plane@, is_static@, n as int);
    }
    pairs
}

/// `(i, j)` is a pair the planes add exactly when `i < j`, one of the two is a
/// plane, and not both are static.
pub proof fn lemma_plane_pairs_members(is_plane: Seq<bool>, is_static: Seq<bool>, i: usize, j: usize)
    requires
        is_plane.len() == is_static.len(),
        is_plane.len() <= usize::MAX,
    ensures
        plane_pairs_upto(is_plane, is_static, is_plane.len() as int).contains((i, j)) <==> (i < j
            < is_plane.len() && (is_plane[i as int] || is_plane[j as int]) && !(is_static[i as int]
            && is_static[j as int])),
{
    let n: int = is_plane.len() as int;
    lemma_plane_pairs_upto_members(is_plane, is_static, n, i, j);
}

proof fn lemma_plane_row_members(is_plane: Seq<bool>, is_static: Seq<bool>, p: int, n: int, i: usize, j: usize)
    requires
        is_plane.len() == is_static.len(),
        0 <= p < is_static.len(),
        n <= is_static.len(),
        is_static.len() <= usize::MAX,
    ensures
        plane_row(is_plane, is_static, p, n).contains((i, j)) <==> (i < j && ((i == p && j < n) || (j
            == p && i < n && !is_plane[i as int])) && !(is_static[i as int] && is_static[j as int])),
    decreases n,
{
    if n > 0 {
        let k: int = n - 1;
        lemma_plane_row_members(is_plane, is_static, p, k, i, j);
        let rest = plane_row(is_plane, is_static, p, k);
        if k == p || (is_static[p] && is_static[k]) || (is_plane[k] && k < p) {
        } else if p < k {
            lemma_push_contains(rest, (p as usize, k as usize), (i, j));
        } else {
            lemma_push_contains(rest, (k as usize, p as usize), (i, j));
        }
    }
}

proof fn lemma_push_contains<A>(s: Seq<A>, a: A, x: A)
    ensures
        s.push(a).contains(x) <==> s.contains(x) || x == a,
{
    lemma_concat_contains(s, seq![a], x);
    assert(s.push(a) =~= s + seq![a]);
    if seq![a].contains(x) {
        let k: int = choose|k: int| 0 <= k < 1 && #[trigger] seq![a][k] == x;
    }
    if x == a {
        assert(seq![a][0] == x);
    }
}

proof fn lemma_concat_contains<A>(a: Seq<A>, b: Seq<A>, x: A)
    ensures
        (a + b).contains(x) <==> a.contains(x) || b.contains(x),
{
    if (a + b).contains(x) {
        let k: int = choose|k: int| 0 <= k < (a + b).len() && #[trigger] (a + b)[k] == x;
        if k < a.len() {
            assert(a[k] == x);
        } else {
            assert(b[k - a.len()] == x);
        }
    }
    if a.contains(x) {
        let k: int = choose|k: int| 0 <= k < a.len() && #[trigger] a[k] == x;
        assert((a + b)[k] == x);
    }
    if b.contains(x) {
        let k: int = choose|k: int| 0 <= k < b.len() && #[trigger] b[k] == x;
        assert((a + b)[a.len() + k] == x);
    }
}

proof fn lemma_plane_pairs_upto_members(
    is_plane: Seq<bool>,
    is_static: Seq<bool>,
    m: int,
    i: usize,
    j: usize,
)
    requires
        is_plane.len() == is_static.len(),
        is_plane.len() <= usize::MAX,
        m <= is_plane.len(),
    ensures
        plane_pairs_upto(is_plane, is_static, m).contains((i, j)) <==> (i < j < is_plane.len() && ((
        is_plane[i as int] && i < m) || (is_plane[j as int] && j < m && !is_plane[i as int])) && !(
        is_static[i as int] && is_static[j as int])),
    decreases m,
{
    let n: int = is_plane.len() as int;
    if m > 0 {
        lemma_plane_pairs_upto_members(is_plane, is_static, m - 1, i, j);
        if is_plane[m - 1] {
            lemma_plane_row_members(is_plane, is_static, m - 1, n, i, j);
            lemma_concat_contains(
                plane_pairs_upto(is_plane, is_static, m - 1),
                plane_row(is_plane, is_static, m - 1, n),
                (i, j),
            );
        }
    }
}

fn copy_range(v: &Vec<(usize, usize)>, lo: usize, hi: usize) -> (out: Vec<(usize, usize)>)
    requires
        lo <= hi <= v.len(),
    ensures
        out@ == v@.subrange(lo as int, hi as int),
{
    let mut out: Vec<(usize, usize)> = Vec::new();
    let mut i: usize = lo;
    while i < hi
        invariant
            lo <= i <= hi <= v.len(),
            out@ == v@.subrange(lo as int, i as int),
        decreases hi - i,
    {
        out.push(v[i]);
        proof {
            assert(out@ =~= v@.subrange(lo as int, i + 1));
        }
        i = i + 1;
    }
    out
}

fn merge(left: &Vec<(usize, usize)>, right: &Vec<(usize, usize)>) -> (out: Vec<(usize, usize)>)
    requires
        sorted_pairs(left@),
        sorted_pairs(right@),
    ensures
        sorted_pairs(out@),
        out@.to_multiset() == left@.to_multiset().add(right@.to_multiset()),
{
    broadcast use vstd::multiset::group_multiset_axioms;

    let mut out: Vec<(usize, usize)> = Vec::new();
    let mut i: usize = 0;
    let mut j: usize = 0;
    while i < left.len() || j < right.len()
        invariant
            sorted_pairs(left@),
            sorted_pairs(right@),
            i <= left.len(),
            j <= right.len(),
            out.len() == i + j,
            sorted_pairs(out@),
            out@.to_multiset() == left@.take(i as int).to_multiset().add(
                right@.take(j as int).to_multiset(),
            ),
            forall|k: int, l: int|
                0 <= k < out.len() && i <= l < left.len() ==> pair_le(#[trigger] out@[k], #[trigger] left@[l]),
            forall|k: int, l: int|
                0 <= k < out.len() && j <= l < right.len() ==> pair_le(#[trigger] out@[k], #[trigger] right@[l]),
        decreases left.len() + right.len() - i - j,
    {
        let take_left = if i < left.len() && j < right.len() {
            let a = left[i];
            let b = right[j];
            a.0 < b.0 || (a.0 == b.0 && a.1 <= b.1)
        } else {
            i < left.len()
        };
        let ghost old_out = out@;
        if take_left {
            let x = left[i];
            out.push(x);
            proof {
                assert(left@.take(i + 1) =~= left@.take(i as int).push(x));
                assert(out@ =~= old_out.push(x));
                assert forall|k: int, l: int| 0 <= k < out.len() && i + 1 <= l < left.len() implies pair_le(
                    #[trigger] out@[k],
                    #[trigger] left@[l],
                ) by {
                    if k < old_out.len() {
                        assert(pair_le(old_out[k], left@[l]));
                    } else {
                        assert(pair_le(left@[i as int], left@[l]));
                    }
                }
                assert forall|k: int, l: int| 0 <= k < out.len() && j <= l < right.len() implies pair_le(
                    #[trigger] out@[k],
                    #[trigger] right@[l],
                ) by {
                    if k < old_out.len() {
                        assert(pair_le(old_out[k], right@[l]));
                    } else {
                        assert(pair_le(right@[j as int], right@[l]));
                    }
                }
                assert forall|a: int, b: int| 0 <= a < b < out@.len() implies pair_le(
                    #[trigger] out@[a],
                    #[trigger] out@[b],
                ) by {
                    if b < old_out.len() {
                        assert(pair_le(old_out[a], old_out[b]));
                    } else {
                        assert(pair_le(old_out[a], left@[i as int]));
                    }
                }
                assert(out@.to_multiset() =~= left@.take(i + 1).to_multiset().add(
                    right@.take(j as int).to_multiset(),
                ));
            }
            i = i + 1;
        } else {
            let x = right[j];
            out.push(x);
            proof {
                assert(right@.take(j + 1) =~= right@.take(j as int).push(x));
                assert(out@ =~= old_out.push(x));
                assert forall|k: int, l: int| 0 <= k < out.len() && i <= l < left.len() implies pair_le(
                    #[trigger] out@[k],
                    #[trigger] left@[l],
                ) by {
                    if k < old_out.len() {
                        assert(pair_le(old_out[k], left@[l]));
                    } else {
                        assert(pair_le(left@[i as int], left@[l]));
                    }
                }
                assert forall|k: int, l: int| 0 <= k < out.len() && j + 1 <= l < right.len() implies pair_le(
                    #[trigger] out@[k],
                    #[trigger] right@[l],
                ) by {
                    if k < old_out.len() {
                        assert(pair_le(old_out[k], right@[l]));
                    } else {
                        assert(pair_le(right@[j as int], right@[l]));
                    }
                }
                assert forall|a: int, b: int| 0 <= a < b < out@.len() implies pair_le(
                    #[trigger] out@[a],
                    #[trigger] out@[b],
                ) by {
                    if b < old_out.len() {
                        assert(pair_le(old_out[a], old_out[b]));
                    } else {
                        assert(pair_le(old_out[a], right@[j as int]));
                    }
                }
                assert(out@.to_multiset() =~= left@.take(i as int).to_multiset().add(
                    right@.take(j + 1).to_multiset(),
                ));
            }
            j = j + 1;
        }
    }
    assert(left@.take(left.len() as int) =~= left@);
    assert(right@.take(right.len() as int) =~= right@);
    out
}

/// Sorts index pairs into lexicographic order (the order of `(usize, usize)`),
/// keeping every pair as often as it occurs.
pub fn sort_pairs(pairs: &Vec<(usize, usize)>) -> (sorted: Vec<(usize, usize)>)
    ensures
        sorted_pairs(sorted@),
        sorted@.to_multiset() == pairs@.to_multiset(),
    decreases pairs.len(),
{
    let n: usize = pairs.len();
    if n <= 1 {
        let out = copy_range(pairs, 0, n);
        assert(out@ =~= pairs@);
        return out;
    }
    let mid: usize = n / 2;
    let left = copy_range(pairs, 0, mid);
    let right = copy_range(pairs, mid, n);
    proof {
        assert(pairs@ =~= left@ + right@);
        vstd::seq_lib::lemma_multiset_commutative(left@, right@);
    }
    let left_sorted = sort_pairs(&left);
    let right_sorted = sort_pairs(&right);
    merge(&left_sorted, &right_sorted)
}

/// The broadphase pair list: the pairs the tree reported and the pairs the
/// planes add, together, in lexicographic order.
pub fn assemble_pairs(tree_pairs: &Vec<(usize, usize)>, is_plane: &Vec<bool>, is_static: &Vec<bool>) -> (pairs:
    Vec<(usize, usize)>)
    requires
        is_plane.len() == is_static.len(),
    ensures
        sorted_pairs(pairs@),
        pairs@.to_multiset() == tree_pairs@.to_multiset().add(
            plane_pairs_upto(is_plane@, is_static@, is_plane@.len() as int).to_multiset(),
        ),
{
    let planes = plane_pairs(is_plane, is_static);
    let mut all = copy_range(tree_pairs, 0, tree_pairs.len());
    let mut k: usize = 0;
    while k < planes.len()
        invariant
            all@ == tree_pairs@.subrange(0, tree_pairs.len() as int) + planes@.take(k as int),
            k <= planes.len(),
        decreases planes.len() - k,
    {
        all.push(planes[k]);
        proof {
            assert(all@ =~= tree_pairs@.subrange(0, tree_pairs.len() as int) + planes@.take(k + 1));
        }
        k = k + 1;
    }
    proof {
        assert(all@ =~= tree_pairs@ + planes@);
        vstd::seq_lib::lemma_multiset_commutative(tree_pairs@, planes@);
    }
    sort_pairs(&all)
}

/// Whether every pair of `s` names two distinct bodies among `0..n`, smaller
/// index first, that are not both static.
pub open spec fn proper_pairs(s: Seq<(usize, usize)>, is_static: Seq<bool>) -> bool {
    forall|k: int|
        0 <= k < s.len() ==> {
            let p = #[trigger] s[k];
            p.0 < p.1 < is_static.len() && !(is_static[p.0 as int] && is_static[p.1 as int])
        }
}

/// When the tree reports only proper pairs, so does the assembled list: each
/// pair names two distinct bodies, smaller index first, not both static.
pub proof fn lemma_assembled_pairs_proper(
    tree_pairs: Seq<(usize, usize)>,
    is_plane: Seq<bool>,
    is_static: Seq<bool>,
    pairs: Seq<(usize, usize)>,
)
    requires
        is_plane.len() == is_static.len(),
        is_plane.len() <= usize::MAX,
        proper_pairs(tree_pairs, is_static),
        pairs.to_multiset() == tree_pairs.to_multiset().add(
            plane_pairs_upto(is_plane, is_static, is_plane.len() as int).to_multiset(),
        ),
    ensures
        proper_pairs(pairs, is_static),
{
    broadcast use vstd::multiset::group_multiset_axioms;

    let planes = plane_pairs_upto(is_plane, is_static, is_plane.len() as int);
    assert forall|k: int| 0 <= k < pairs.len() implies {
        let p = #[trigger] pairs[k];
        p.0 < p.1 < is_static.len() && !(is_static[p.0 as int] && is_static[p.1 as int])
    } by {
        let p = pairs[k];
        assert(pairs.contains(p));
        assert(pairs.to_multiset().count(p) > 0);
        if tree_pairs.to_multiset().count(p) > 0 {
            assert(tree_pairs.contains(p));
            let x: int = choose|x: int| 0 <= x < tree_pairs.len() && tree_pairs[x] == p;
            assert(tree_pairs[x] == p);
        } else {
            assert(planes.to_multiset().count(p) > 0);
            assert(planes.contains(p));
            lemma_plane_pairs_members(is_plane, is_static, p.0, p.1);
        }
    }
}

proof fn lemma_plane_row_no_duplicates(is_plane: Seq<bool>, is_static: Seq<bool>, p: int, n: int)
    requires
        is_plane.len() == is_static.len(),
        0 <= p < is_static.len(),
        n <= is_static.len(),
        is_static.len() <= usize::MAX,
    ensures
        plane_row(is_plane, is_static, p, n).no_duplicates(),
    decreases n,
{
    if n > 0 {
        let k: int = n - 1;
        lemma_plane_row_no_duplicates(is_plane, is_static, p, k);
        let rest = plane_row(is_plane, is_static, p, k);
        if k == p || (is_static[p] && is_static[k]) || (is_plane[k] && k < p) {
        } else {
            let x = if p < k {
                (p as usize, k as usize)
            } else {
                (k as usize, p as usize)
            };
            lemma_plane_row_members(is_plane, is_static, p, k, x.0, x.1);
            assert(!rest.contains(x));
            assert(plane_row(is_plane, is_static, p, n) == rest.push(x));
            assert forall|a: int, b: int|
                0 <= a < rest.len() + 1 && 0 <= b < rest.len() + 1 && a != b implies rest.push(x)[a]
                != rest.push(x)[b] by {
                if a < rest.len() && b < rest.len() {
                } else if a < rest.len() {
                    assert(rest[a] != x);
                } else {
                    assert(rest[b] != x);
                }
            }
        }
    }
}

proof fn lemma_concat_no_duplicates<A>(a: Seq<A>, b: Seq<A>)
    requires
        a.no_duplicates(),
        b.no_duplicates(),
        forall|x: A| a.contains(x) ==> !b.contains(x),
    ensures
        (a + b).no_duplicates(),
{
    assert forall|i: int, j: int| 0 <= i < (a + b).len() && 0 <= j < (a + b).len() && i != j implies (a
        + b)[i] != (a + b)[j] by {
        if i < a.len() && j >= a.len() {
            assert(a.contains(a[i]));
            assert(b[j - a.len()] == (a + b)[j]);
        } else if j < a.len() && i >= a.len() {
            assert(a.contains(a[j]));
            assert(b[i - a.len()] == (a + b)[i]);
        }
    }
}

proof fn lemma_plane_pairs_no_duplicates(is_plane: Seq<bool>, is_static: Seq<bool>, m: int)
    requires
        is_plane.len() == is_static.len(),
        is_plane.len() <= usize::MAX,
        m <= is_plane.len(),
    ensures
        plane_pairs_upto(is_plane, is_static, m).no_duplicates(),
    decreases m,
{
    let n: int = is_plane.len() as int;
    if m > 0 {
        lemma_plane_pairs_no_duplicates(is_plane, is_static, m - 1);
        if is_plane[m - 1] {
            let rest = plane_pairs_upto(is_plane, is_static, m - 1);
            let row = plane_row(is_plane, is_static, m - 1, n);
            lemma_plane_row_no_duplicates(is_plane, is_static, m - 1, n);
            assert forall|x: (usize, usize)| rest.contains(x) implies !row.contains(x) by {
                lemma_plane_pairs_upto_members(is_plane, is_static, m - 1, x.0, x.1);
                lemma_plane_row_members(is_plane, is_static, m - 1, n, x.0, x.1);
            }
            lemma_concat_no_duplicates(rest, row);
        }
    }
}

/// Strict lexicographic order on index pairs.
pub open spec fn pair_lt(p: (usize, usize), q: (usize, usize)) -> bool {
    p.0 < q.0 || (p.0 == q.0 && p.1 < q.1)
}

/// The assembled list is the brute-force pair list: strictly increasing, and
/// holding `(i, j)` exactly when `i < j`, the two bodies are not both static,
/// and one of them is a plane or their boxes overlap, whenever the tree
/// reports each overlapping pair of non-plane bodies once and nothing else.
pub proof fn lemma_assembled_pairs_match_brute_force(
    tree_pairs: Seq<(usize, usize)>,
    is_plane: Seq<bool>,
    is_static: Seq<bool>,
    overlap: spec_fn(usize, usize) -> bool,
    pairs: Seq<(usize, usize)>,
)
    requires
        is_plane.len() == is_static.len(),
        is_plane.len() <= usize::MAX,
        tree_pairs.no_duplicates(),
        forall|k: int|
            0 <= k < tree_pairs.len() ==> {
                let p = #[trigger] tree_pairs[k];
                &&& p.0 < p.1 < is_plane.len()
                &&& !is_plane[p.0 as int] && !is_plane[p.1 as int]
                &&& !(is_static[p.0 as int] && is_static[p.1 as int])
                &&& overlap(p.0, p.1)
            },
        forall|i: usize, j: usize|
            i < j < is_plane.len() && !is_plane[i as int] && !is_plane[j as int] && !(is_static[i as int]
                && is_static[j as int]) && #[trigger] overlap(i, j) ==> tree_pairs.contains((i, j)),
        sorted_pairs(pairs),
        pairs.to_multiset() == tree_pairs.to_multiset().add(
            plane_pairs_upto(is_plane, is_static, is_plane.len() as int).to_multiset(),
        ),
    ensures
        forall|a: int, b: int| 0 <= a < b < pairs.len() ==> pair_lt(#[trigger] pairs[a], #[trigger] pairs[b]),
        forall|i: usize, j: usize|
            #[trigger] pairs.contains((i, j)) <==> (i < j < is_plane.len() && !(is_static[i as int]
                && is_static[j as int]) && (is_plane[i as int] || is_plane[j as int] || overlap(i, j))),
{
    broadcast use vstd::multiset::group_multiset_axioms;

    let n: int = is_plane.len() as int;
    let planes = plane_pairs_upto(is_plane, is_static, n);
    lemma_plane_pairs_no_duplicates(is_plane, is_static, n);
    tree_pairs.lemma_multiset_has_no_duplicates();
    planes.lemma_multiset_has_no_duplicates();
    assert forall|x: (usize, usize)| pairs.to_multiset().contains(x) implies pairs.to_multiset().count(x)
        == 1 by {
        if tree_pairs.to_multiset().count(x) > 0 {
            assert(tree_pairs.contains(x));
            let k: int = choose|k: int| 0 <= k < tree_pairs.len() && tree_pairs[k] == x;
            assert(tree_pairs[k] == x);
            lemma_plane_pairs_members(is_plane, is_static, x.0, x.1);
            assert(!planes.contains(x));
        }
    }
    pairs.lemma_multiset_has_no_duplicates_conv();
    assert forall|a: int, b: int| 0 <= a < b < pairs.len() implies pair_lt(
        #[trigger] pairs[a],
        #[trigger] pairs[b],
    ) by {
        assert(pair_le(pairs[a], pairs[b]));
        assert(pairs[a] != pairs[b]);
    }
    assert forall|i: usize, j: usize|
        #[trigger] pairs.contains((i, j)) <==> (i < j < is_plane.len() && !(is_static[i as int]
            && is_static[j as int]) && (is_plane[i as int] || is_plane[j as int] || overlap(i, j))) by {
        lemma_plane_pairs_members(is_plane, is_static, i, j);
        assert(pairs.contains((i, j)) <==> pairs.to_multiset().count((i, j)) > 0);
        assert(tree_pairs.contains((i, j)) <==> tree_pairs.to_multiset().count((i, j)) > 0);
        assert(planes.contains((i, j)) <==> planes.to_multiset().count((i, j)) > 0);
        if tree_pairs.contains((i, j)) {
            let k: int = choose|k: int| 0 <= k < tree_pairs.len() && tree_pairs[k] == (i, j);
            assert(tree_pairs[k] == (i, j));
        }
    }
}

/// Each pair of distinct bodies that are not both static is reported by
/// exactly one of its two leaf hits (from the smaller index), as
/// `(smaller, larger)`; a body with itself and two static bodies never are.
pub proof fn lemma_leaf_pair_reports_each_pair_once(q: usize, o: usize, q_static: bool, o_static: bool)
    ensures
        q != o && !(q_static && o_static) ==> {
            let lo = if q < o { q } else { o };
            let hi = if q < o { o } else { q };
            ||| leaf_pair_spec(q, o, q_static, o_static) == Some((lo, hi)) && leaf_pair_spec(
                o,
                q,
                o_static,
                q_static,
            ) is None
            ||| leaf_pair_spec(o, q, o_static, q_static) == Some((lo, hi)) && leaf_pair_spec(
                q,
                o,
                q_static,
                o_static,
            ) is None
        },
        (q == o || (q_static && o_static)) ==> leaf_pair_spec(q, o, q_static, o_static) is None,
{
}

} // verus!
