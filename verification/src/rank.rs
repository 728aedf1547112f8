//! Ranking measured directories by size.
//!
//! The ranking of a collection of results lists them by size, largest
//! first; results of one size keep the order in which they were collected.

use vstd::prelude::*;

verus! {

/// A directory and the bytes that its subtree holds.
#[derive(Debug, PartialEq, Eq)]
pub struct SizeResult {
    pub path: String,
    pub size: u64,
}

/// A [`SizeResult`] as a mathematical value.
pub struct SizeResultView {
    pub path: Seq<char>,
    pub size: u64,
}

impl View for SizeResult {
    type V = SizeResultView;

    open spec fn view(&self) -> SizeResultView {
        SizeResultView { path: self.path@, size: self.size }
    }
}

impl DeepView for SizeResult {
    type V = SizeResultView;

    open spec fn deep_view(&self) -> SizeResultView {
        self@
    }
}

impl Clone for SizeResult {
    fn clone(&self) -> (copy: SizeResult)
        ensures
            copy@ == self@,
    {
        SizeResult { path: self.path.clone(), size: self.size }
    }
}

impl SizeResult {
    /// The result that says that the subtree of `path` holds `size` bytes.
    pub fn new(path: String, size: u64) -> (result: SizeResult)
        ensures
            result@ == (SizeResultView { path: path@, size }),
    {
        SizeResult { path, size }
    }
}

/// The sizes never grow from one result to the next.
pub open spec fn descends(s: Seq<SizeResultView>) -> bool {
    forall|i: int, j: int| 0 <= i < j < s.len() ==> s[i].size >= s[j].size
}

/// The results of `s` whose size is `size`, in their order in `s`.
pub open spec fn of_size(s: Seq<SizeResultView>, size: u64) -> Seq<SizeResultView> {
    s.filter(|r: SizeResultView| r.size == size)
}

/// `a` and `b` hold, for every size, the same results of that size in the
/// same order.
pub open spec fn same_groups(a: Seq<SizeResultView>, b: Seq<SizeResultView>) -> bool {
    forall|size: u64| #[trigger] of_size(a, size) == of_size(b, size)
}

/// `r` lists what `s` holds, largest first, results of one size in the
/// order that they have in `s`.
pub open spec fn is_ranking_of(r: Seq<SizeResultView>, s: Seq<SizeResultView>) -> bool {
    descends(r) && same_groups(r, s)
}

/// Where a result of `size` goes into the ranking `r`: behind the last
/// result that is at least as large.
pub open spec fn slot(r: Seq<SizeResultView>, size: u64) -> int
    decreases r.len(),
{
    if r.len() == 0 || r.last().size >= size {
        r.len() as int
    } else {
        slot(r.drop_last(), size)
    }
}

/// The ranking `r` with `x` in its slot.
pub open spec fn place(r: Seq<SizeResultView>, x: SizeResultView) -> Seq<SizeResultView> {
    r.insert(slot(r, x.size), x)
}

/// The ranking of `s`: each result of `s` in turn takes its slot among
/// those before it.
pub open spec fn ranking(s: Seq<SizeResultView>) -> Seq<SizeResultView>
    decreases s.len(),
{
    if s.len() == 0 {
        s
    } else {
        place(ranking(s.drop_last()), s.last())
    }
}

/// The sizes of `s`, in order.
pub open spec fn sizes(s: Seq<SizeResultView>) -> Seq<u64> {
    s.map_values(|r: SizeResultView| r.size)
}

/// No two results of `s` have the same size.
pub open spec fn sizes_differ(s: Seq<SizeResultView>) -> bool {
    forall|i: int, j: int| 0 <= i < j < s.len() ==> s[i].size != s[j].size
}

/// The group of a size gains a result of that size that is appended, and
/// no other.
pub proof fn lemma_of_size_push(s: Seq<SizeResultView>, x: SizeResultView, size: u64)
    ensures
        of_size(s.push(x), size) == if x.size == size {
            of_size(s, size).push(x)
        } else {
            of_size(s, size)
        },
{
    reveal(Seq::filter);
    assert(s.push(x).drop_last() =~= s);
}

/// The groups of a concatenation are the concatenated groups.
pub proof fn lemma_of_size_add(a: Seq<SizeResultView>, b: Seq<SizeResultView>, size: u64)
    ensures
        of_size(a + b, size) == of_size(a, size) + of_size(b, size),
{
    Seq::filter_distributes_over_add(a, b, |r: SizeResultView| r.size == size);
}

/// A size that no result has is an empty group, and the other way round.
pub proof fn lemma_of_size_empty(s: Seq<SizeResultView>, size: u64)
    ensures
        of_size(s, size).len() == 0 <==> (forall|i: int| 0 <= i < s.len() ==> s[i].size != size),
    decreases s.len(),
{
    reveal(Seq::filter);
    if s.len() > 0 {
        lemma_of_size_empty(s.drop_last(), size);
        if of_size(s, size).len() == 0 {
            assert forall|i: int| 0 <= i < s.len() implies s[i].size != size by {
                if i < s.len() - 1 {
                    assert(s.drop_last()[i] == s[i]);
                }
            }
        }
        if forall|i: int| 0 <= i < s.len() ==> s[i].size != size {
            assert forall|i: int| 0 <= i < s.drop_last().len() implies s.drop_last()[i].size
                != size by {
                assert(s.drop_last()[i] == s[i]);
            }
        }
    }
}

/// The slot of a size lies within the ranking; in front of it stand the
/// results that are at least as large, behind it the smaller ones.
pub proof fn lemma_slot_divides(r: Seq<SizeResultView>, size: u64)
    requires
        descends(r),
    ensures
        0 <= slot(r, size) <= r.len(),
        forall|i: int| 0 <= i < slot(r, size) ==> r[i].size >= size,
        forall|i: int| slot(r, size) <= i < r.len() ==> r[i].size < size,
    decreases r.len(),
{
    if r.len() == 0 || r.last().size >= size {
    } else {
        let front = r.drop_last();
        assert(descends(front)) by {
            assert forall|i: int, j: int| 0 <= i < j < front.len() implies front[i].size
                >= front[j].size by {
                assert(front[i] == r[i] && front[j] == r[j]);
            }
        }
        lemma_slot_divides(front, size);
        assert forall|i: int| 0 <= i < slot(r, size) implies r[i].size >= size by {
            assert(front[i] == r[i]);
        }
        assert forall|i: int| slot(r, size) <= i < r.len() implies r[i].size < size by {
            if i < front.len() {
                assert(front[i] == r[i]);
            }
        }
    }
}

/// Placing a result keeps a ranking descending, and adds the result at the
/// end of the group of its size.
pub proof fn lemma_place(r: Seq<SizeResultView>, x: SizeResultView)
    requires
        descends(r),
    ensures
        descends(place(r, x)),
        place(r, x).len() == r.len() + 1,
        forall|size: u64| #[trigger]
            of_size(place(r, x), size) == of_size(r.push(x), size),
{
    let k = slot(r, x.size);
    lemma_slot_divides(r, x.size);
    let front = r.subrange(0, k);
    let back = r.subrange(k, r.len() as int);
    let placed = place(r, x);
    assert(placed =~= front.push(x) + back);
    assert(r =~= front + back);
    assert forall|i: int, j: int| 0 <= i < j < placed.len() implies placed[i].size
        >= placed[j].size by {
        if i < k {
            assert(placed[i] == r[i]);
        } else if i > k {
            assert(placed[i] == r[i - 1]);
        }
        if j < k {
            assert(placed[j] == r[j]);
        } else if j > k {
            assert(placed[j] == r[j - 1]);
        }
    }
    assert forall|size: u64| #[trigger]
        of_size(placed, size) == of_size(r.push(x), size) by {
        lemma_of_size_add(front.push(x), back, size);
        lemma_of_size_add(front, back, size);
        lemma_of_size_push(front, x, size);
        lemma_of_size_push(r, x, size);
        if x.size == size {
            lemma_of_size_empty(back, size);
            assert(of_size(back, size) =~= Seq::empty());
            assert(of_size(placed, size) =~= of_size(front, size).push(x));
            assert(of_size(r, size) =~= of_size(front, size));
        }
    }
}

/// The ranking of a collection descends, and holds for every size the
/// results of that size in the order in which they were collected.
pub proof fn lemma_ranking_is_ranking(s: Seq<SizeResultView>)
    ensures
        is_ranking_of(ranking(s), s),
        ranking(s).len() == s.len(),
    decreases s.len(),
{
    if s.len() > 0 {
        let front = s.drop_last();
        lemma_ranking_is_ranking(front);
        lemma_place(ranking(front), s.last());
        assert(s =~= front.push(s.last()));
        assert forall|size: u64| #[trigger]
            of_size(ranking(s), size) == of_size(s, size) by {
            lemma_of_size_push(ranking(front), s.last(), size);
            lemma_of_size_push(front, s.last(), size);
            assert(of_size(ranking(front), size) == of_size(front, size));
        }
    }
}

/// Two descending sequences with the same groups are the same sequence.
pub proof fn lemma_descending_groups_unique(a: Seq<SizeResultView>, b: Seq<SizeResultView>)
    requires
        descends(a),
        descends(b),
        same_groups(a, b),
    ensures
        a == b,
    decreases a.len(),
{
    if a.len() == 0 {
        if b.len() > 0 {
            lemma_of_size_empty(a, b[0].size);
            lemma_of_size_empty(b, b[0].size);
            assert(of_size(a, b[0].size) == of_size(b, b[0].size));
        }
        assert(a =~= b);
    } else {
        let x = a.last();
        lemma_of_size_empty(a, x.size);
        lemma_of_size_empty(b, x.size);
        assert(of_size(a, x.size) == of_size(b, x.size));
        let y = b.last();
        lemma_of_size_empty(a, y.size);
        lemma_of_size_empty(b, y.size);
        assert(of_size(a, y.size) == of_size(b, y.size));
        assert(x.size == y.size);
        let a0 = a.drop_last();
        let b0 = b.drop_last();
        assert(a =~= a0.push(x));
        assert(b =~= b0.push(y));
        lemma_of_size_push(a0, x, x.size);
        lemma_of_size_push(b0, y, x.size);
        assert(of_size(a0, x.size).push(x) == of_size(b0, x.size).push(y));
        assert(of_size(a0, x.size).push(x).last() == x);
        assert(of_size(b0, x.size).push(y).last() == y);
        assert(x == y);
        assert forall|size: u64| #[trigger] of_size(a0, size) == of_size(b0, size) by {
            lemma_of_size_push(a0, x, size);
            lemma_of_size_push(b0, y, size);
            assert(of_size(a, size) == of_size(b, size));
            if size == x.size {
                assert(of_size(a0, size) =~= of_size(a0, size).push(x).drop_last());
                assert(of_size(b0, size) =~= of_size(b0, size).push(y).drop_last());
            }
        }
        assert(descends(a0)) by {
            assert forall|i: int, j: int| 0 <= i < j < a0.len() implies a0[i].size
                >= a0[j].size by {
                assert(a0[i] == a[i] && a0[j] == a[j]);
            }
        }
        assert(descends(b0)) by {
            assert forall|i: int, j: int| 0 <= i < j < b0.len() implies b0[i].size
                >= b0[j].size by {
                assert(b0[i] == b[i] && b0[j] == b[j]);
            }
        }
        lemma_descending_groups_unique(a0, b0);
    }
}

/// Only the ranking of `s` lists what `s` holds largest first with equal
/// sizes in collected order.
pub proof fn lemma_ranking_unique(r: Seq<SizeResultView>, s: Seq<SizeResultView>)
    requires
        is_ranking_of(r, s),
    ensures
        r == ranking(s),
{
    lemma_ranking_is_ranking(s);
    assert forall|size: u64| #[trigger] of_size(r, size) == of_size(ranking(s), size) by {
        assert(of_size(r, size) == of_size(s, size));
        assert(of_size(ranking(s), size) == of_size(s, size));
    }
    lemma_descending_groups_unique(r, ranking(s));
}

/// Ranking what is ranked already changes nothing.
pub proof fn lemma_ranking_idempotent(s: Seq<SizeResultView>)
    ensures
        ranking(ranking(s)) == ranking(s),
{
    lemma_ranking_is_ranking(s);
    lemma_ranking_unique(ranking(s), ranking(s));
}

/// Two collections that hold the same results, those of one size in the
/// same order, have the same ranking: the order in which results of
/// different sizes were collected does not show in it.
pub proof fn lemma_ranking_by_groups(a: Seq<SizeResultView>, b: Seq<SizeResultView>)
    requires
        same_groups(a, b),
    ensures
        ranking(a) == ranking(b),
{
    lemma_ranking_is_ranking(a);
    assert forall|size: u64| #[trigger] of_size(ranking(a), size) == of_size(b, size) by {
        assert(of_size(ranking(a), size) == of_size(a, size));
        assert(of_size(a, size) == of_size(b, size));
    }
    lemma_ranking_unique(ranking(a), b);
}

/// In a ranking, a larger result stands before a smaller one.
pub proof fn lemma_larger_first(s: Seq<SizeResultView>, i: int, j: int)
    requires
        0 <= i < s.len(),
        0 <= j < s.len(),
        ranking(s)[i].size > ranking(s)[j].size,
    ensures
        i < j,
{
    lemma_ranking_is_ranking(s);
}

/// The group of a size, as a multiset, is what the collection as a
/// multiset holds of that size.
pub proof fn lemma_of_size_to_multiset(s: Seq<SizeResultView>, size: u64)
    ensures
        of_size(s, size).to_multiset() == s.to_multiset().filter(
            |r: SizeResultView| r.size == size,
        ),
    decreases s.len(),
{
    broadcast use vstd::multiset::group_multiset_axioms;

    let pred = |r: SizeResultView| r.size == size;
    if s.len() == 0 {
        lemma_of_size_empty(s, size);
        assert(of_size(s, size) =~= Seq::empty());
        Seq::<SizeResultView>::empty().to_multiset_ensures();
        s.to_multiset_ensures();
        assert(s.to_multiset().len() == 0);
        assert(forall|r: SizeResultView| s.to_multiset().count(r) == 0);
        assert(of_size(s, size).to_multiset() =~= s.to_multiset().filter(pred));
    } else {
        let front = s.drop_last();
        let x = s.last();
        lemma_of_size_to_multiset(front, size);
        assert(s =~= front.push(x));
        lemma_of_size_push(front, x, size);
        vstd::seq_lib::to_multiset_build(front, x);
        vstd::seq_lib::to_multiset_build(of_size(front, size), x);
        assert(of_size(s, size).to_multiset() =~= s.to_multiset().filter(pred));
    }
}

/// The ranking of a collection holds what the collection holds, each
/// result as often.
pub proof fn lemma_ranking_permutes(s: Seq<SizeResultView>)
    ensures
        ranking(s).to_multiset() == s.to_multiset(),
    decreases s.len(),
{
    broadcast use vstd::multiset::group_multiset_axioms;

    if s.len() > 0 {
        let front = s.drop_last();
        let x = s.last();
        let r = ranking(front);
        lemma_ranking_permutes(front);
        lemma_ranking_is_ranking(front);
        lemma_slot_divides(r, x.size);
        let k = slot(r, x.size);
        let placed = place(r, x);
        assert(placed[k] == x);
        assert(placed.remove(k) =~= r);
        placed.to_multiset_ensures();
        assert(r.to_multiset() =~= placed.to_multiset().remove(x));
        assert(placed.contains(x));
        assert(placed.to_multiset().count(x) > 0);
        assert(s =~= front.push(x));
        vstd::seq_lib::to_multiset_build(front, x);
        assert(placed.to_multiset() =~= s.to_multiset());
    }
}

/// Two descending sequences that hold equally many results of every size
/// show the same sizes, position by position.
pub proof fn lemma_descending_counts_unique(a: Seq<SizeResultView>, b: Seq<SizeResultView>)
    requires
        descends(a),
        descends(b),
        forall|size: u64| #[trigger] of_size(a, size).len() == of_size(b, size).len(),
    ensures
        sizes(a) == sizes(b),
    decreases a.len(),
{
    if a.len() == 0 {
        if b.len() > 0 {
            lemma_of_size_empty(a, b[0].size);
            lemma_of_size_empty(b, b[0].size);
            assert(of_size(a, b[0].size).len() == of_size(b, b[0].size).len());
        }
        assert(sizes(a) =~= sizes(b));
    } else {
        let x = a.last();
        lemma_of_size_empty(a, x.size);
        lemma_of_size_empty(b, x.size);
        assert(of_size(a, x.size).len() == of_size(b, x.size).len());
        let y = b.last();
        lemma_of_size_empty(a, y.size);
        lemma_of_size_empty(b, y.size);
        assert(of_size(a, y.size).len() == of_size(b, y.size).len());
        assert(x.size == y.size);
        let a0 = a.drop_last();
        let b0 = b.drop_last();
        assert(a =~= a0.push(x));
        assert(b =~= b0.push(y));
        assert forall|size: u64| #[trigger] of_size(a0, size).len() == of_size(b0, size).len() by {
            lemma_of_size_push(a0, x, size);
            lemma_of_size_push(b0, y, size);
            assert(of_size(a, size).len() == of_size(b, size).len());
        }
        assert(descends(a0)) by {
            assert forall|i: int, j: int| 0 <= i < j < a0.len() implies a0[i].size
                >= a0[j].size by {
                assert(a0[i] == a[i] && a0[j] == a[j]);
            }
        }
        assert(descends(b0)) by {
            assert forall|i: int, j: int| 0 <= i < j < b0.len() implies b0[i].size
                >= b0[j].size by {
                assert(b0[i] == b[i] && b0[j] == b[j]);
            }
        }
        lemma_descending_counts_unique(a0, b0);
        assert(sizes(a) =~= sizes(a0).push(x.size));
        assert(sizes(b) =~= sizes(b0).push(y.size));
    }
}

/// Two collections that hold the same results, in whatever order they
/// were collected, show the same sizes in every position of their
/// rankings.
pub proof fn lemma_ranking_sizes_of_permutation(a: Seq<SizeResultView>, b: Seq<SizeResultView>)
    requires
        a.to_multiset() == b.to_multiset(),
    ensures
        sizes(ranking(a)) == sizes(ranking(b)),
{
    lemma_ranking_is_ranking(a);
    lemma_ranking_is_ranking(b);
    assert forall|size: u64| #[trigger]
        of_size(ranking(a), size).len() == of_size(ranking(b), size).len() by {
        lemma_of_size_to_multiset(a, size);
        lemma_of_size_to_multiset(b, size);
        of_size(a, size).to_multiset_ensures();
        of_size(b, size).to_multiset_ensures();
        assert(of_size(ranking(a), size) == of_size(a, size));
        assert(of_size(ranking(b), size) == of_size(b, size));
    }
    lemma_descending_counts_unique(ranking(a), ranking(b));
}

/// Where no two results have the same size, a group holds one result at
/// most.
pub proof fn lemma_of_size_single(s: Seq<SizeResultView>, size: u64)
    requires
        sizes_differ(s),
    ensures
        of_size(s, size).len() <= 1,
    decreases s.len(),
{
    if s.len() > 0 {
        let front = s.drop_last();
        let x = s.last();
        assert(sizes_differ(front)) by {
            assert forall|i: int, j: int| 0 <= i < j < front.len() implies front[i].size
                != front[j].size by {
                assert(front[i] == s[i] && front[j] == s[j]);
            }
        }
        lemma_of_size_single(front, size);
        assert(s =~= front.push(x));
        lemma_of_size_push(front, x, size);
        if x.size == size {
            lemma_of_size_empty(front, size);
            assert forall|i: int| 0 <= i < front.len() implies front[i].size != size by {
                assert(front[i] == s[i]);
            }
        }
    } else {
        lemma_of_size_empty(s, size);
    }
}

/// Where two results have the same size, the group of that size holds two
/// results at least.
pub proof fn lemma_of_size_pair(s: Seq<SizeResultView>, i: int, j: int)
    requires
        0 <= i < j < s.len(),
        s[i].size == s[j].size,
    ensures
        of_size(s, s[i].size).len() >= 2,
    decreases s.len(),
{
    let size = s[i].size;
    let front = s.drop_last();
    assert(s =~= front.push(s.last()));
    lemma_of_size_push(front, s.last(), size);
    assert(front[i] == s[i]);
    if j == s.len() - 1 {
        lemma_of_size_empty(front, size);
    } else {
        assert(front[j] == s[j]);
        lemma_of_size_pair(front, i, j);
    }
}

/// A collection that holds the same results as one in which no two have
/// the same size has no two of the same size either.
pub proof fn lemma_sizes_differ_of_permutation(a: Seq<SizeResultView>, b: Seq<SizeResultView>)
    requires
        a.to_multiset() == b.to_multiset(),
        sizes_differ(a),
    ensures
        sizes_differ(b),
{
    assert forall|i: int, j: int| 0 <= i < j < b.len() implies b[i].size != b[j].size by {
        if b[i].size == b[j].size {
            let size = b[i].size;
            lemma_of_size_pair(b, i, j);
            lemma_of_size_single(a, size);
            lemma_of_size_to_multiset(a, size);
            lemma_of_size_to_multiset(b, size);
            of_size(a, size).to_multiset_ensures();
            of_size(b, size).to_multiset_ensures();
        }
    }
}

/// Two collections that hold the same results, no two of one size, have
/// the same ranking, in whatever order the results were collected.
pub proof fn lemma_ranking_of_permutation(a: Seq<SizeResultView>, b: Seq<SizeResultView>)
    requires
        a.to_multiset() == b.to_multiset(),
        sizes_differ(a),
    ensures
        ranking(a) == ranking(b),
{
    lemma_sizes_differ_of_permutation(a, b);
    assert forall|size: u64| #[trigger] of_size(a, size) == of_size(b, size) by {
        let p = of_size(a, size);
        let q = of_size(b, size);
        lemma_of_size_to_multiset(a, size);
        lemma_of_size_to_multiset(b, size);
        lemma_of_size_single(a, size);
        lemma_of_size_single(b, size);
        p.to_multiset_ensures();
        q.to_multiset_ensures();
        assert(p.len() == q.len());
        if p.len() == 1 {
            assert(p.contains(p[0]));
            assert(q.to_multiset().count(p[0]) > 0);
            assert(q.contains(p[0]));
            assert(q[0] == p[0]);
        }
        assert(p =~= q);
    }
    lemma_ranking_by_groups(a, b);
}

/// Merges two rankings into one: the larger head goes first, and between
/// equal heads the one of `first`.
fn merge(first: &Vec<SizeResult>, second: &Vec<SizeResult>) -> (merged: Vec<SizeResult>)
    requires
        descends(first.deep_view()),
        descends(second.deep_view()),
        first.len() + second.len() <= usize::MAX,
    ensures
        is_ranking_of(merged.deep_view(), first.deep_view() + second.deep_view()),
{
    let ghost a = first.deep_view();
    let ghost b = second.deep_view();
    let mut merged: Vec<SizeResult> = Vec::new();
    let mut i: usize = 0;
    let mut j: usize = 0;
    proof {
        assert(merged.deep_view() =~= Seq::empty());
        assert(a.take(0) =~= Seq::empty());
        assert(b.take(0) =~= Seq::empty());
        assert forall|size: u64| #[trigger]
            of_size(merged.deep_view(), size) == of_size(a.take(0), size) + of_size(
                b.take(0),
                size,
            ) by {
            lemma_of_size_empty(Seq::<SizeResultView>::empty(), size);
            assert(of_size(Seq::<SizeResultView>::empty(), size) =~= Seq::empty());
        }
    }
    while i < first.len() || j < second.len()
        invariant
            a == first.deep_view(),
            b == second.deep_view(),
            descends(a),
            descends(b),
            i <= first.len(),
            j <= second.len(),
            merged.len() == i + j,
            descends(merged.deep_view()),
            forall|k: int, m: int|
                0 <= k < merged.len() && i <= m < a.len() ==> merged.deep_view()[k].size
                    >= a[m].size,
            forall|k: int, m: int|
                0 <= k < merged.len() && j <= m < b.len() ==> merged.deep_view()[k].size
                    >= b[m].size,
            forall|k: int, m: int| 0 <= k < j && i <= m < a.len() ==> b[k].size > a[m].size,
            forall|size: u64| #[trigger]
                of_size(merged.deep_view(), size) == of_size(a.take(i as int), size) + of_size(
                    b.take(j as int),
                    size,
                ),
        decreases first.len() - i + second.len() - j,
    {
        let ghost before = merged.deep_view();
        let from_first = if i < first.len() && j < second.len() {
            first[i].size >= second[j].size
        } else {
            i < first.len()
        };
        if from_first {
            let ghost x = a[i as int];
            merged.push(first[i].clone());
            proof {
                assert(merged.deep_view() =~= before.push(x));
                assert(a.take(i + 1) =~= a.take(i as int).push(x));
                assert forall|size: u64| #[trigger]
                    of_size(merged.deep_view(), size) == of_size(a.take(i + 1), size) + of_size(
                        b.take(j as int),
                        size,
                    ) by {
                    lemma_of_size_push(before, x, size);
                    lemma_of_size_push(a.take(i as int), x, size);
                    assert(of_size(before, size) == of_size(a.take(i as int), size) + of_size(
                        b.take(j as int),
                        size,
                    ));
                    if x.size == size {
                        lemma_of_size_empty(b.take(j as int), size);
                        assert(of_size(b.take(j as int), size) =~= Seq::empty());
                        assert(of_size(merged.deep_view(), size) =~= of_size(a.take(i + 1), size)
                            + of_size(b.take(j as int), size));
                    }
                }
            }
            i += 1;
        } else {
            let ghost y = b[j as int];
            merged.push(second[j].clone());
            proof {
                assert(merged.deep_view() =~= before.push(y));
                assert(b.take(j + 1) =~= b.take(j as int).push(y));
                assert forall|size: u64| #[trigger]
                    of_size(merged.deep_view(), size) == of_size(a.take(i as int), size) + of_size(
                        b.take(j + 1),
                        size,
                    ) by {
                    lemma_of_size_push(before, y, size);
                    lemma_of_size_push(b.take(j as int), y, size);
                    assert(of_size(before, size) == of_size(a.take(i as int), size) + of_size(
                        b.take(j as int),
                        size,
                    ));
                    assert(of_size(merged.deep_view(), size) =~= of_size(a.take(i as int), size)
                        + of_size(b.take(j + 1), size));
                }
            }
            j += 1;
        }
    }
    proof {
        assert(a.take(i as int) =~= a);
        assert(b.take(j as int) =~= b);
        assert forall|size: u64| #[trigger]
            of_size(merged.deep_view(), size) == of_size(a + b, size) by {
            lemma_of_size_add(a, b, size);
            assert(of_size(merged.deep_view(), size) == of_size(a.take(i as int), size) + of_size(
                b.take(j as int),
                size,
            ));
        }
    }
    merged
}

/// Ranks the results from index `from` up to index `to`.
fn rank_range(results: &Vec<SizeResult>, from: usize, to: usize) -> (ranked: Vec<SizeResult>)
    requires
        from <= to <= results.len(),
    ensures
        ranked.len() == to - from,
        ranked.deep_view() == ranking(results.deep_view().subrange(from as int, to as int)),
    decreases to - from,
{
    let ghost part = results.deep_view().subrange(from as int, to as int);
    if to - from == 0 {
        let ranked: Vec<SizeResult> = Vec::new();
        assert(ranked.deep_view() =~= ranking(part));
        ranked
    } else if to - from == 1 {
        let mut ranked: Vec<SizeResult> = Vec::new();
        ranked.push(results[from].clone());
        proof {
            assert(ranked.deep_view() =~= part);
            assert(descends(part));
            lemma_ranking_unique(part, part);
        }
        ranked
    } else {
        let middle = from + (to - from) / 2;
        let first = rank_range(results, from, middle);
        let second = rank_range(results, middle, to);
        proof {
            lemma_ranking_is_ranking(results.deep_view().subrange(from as int, middle as int));
            lemma_ranking_is_ranking(results.deep_view().subrange(middle as int, to as int));
        }
        let ranked = merge(&first, &second);
        proof {
            let lower = results.deep_view().subrange(from as int, middle as int);
            let upper = results.deep_view().subrange(middle as int, to as int);
            assert(part =~= lower + upper);
            assert forall|size: u64| #[trigger]
                of_size(ranked.deep_view(), size) == of_size(part, size) by {
                lemma_of_size_add(first.deep_view(), second.deep_view(), size);
                lemma_of_size_add(lower, upper, size);
                assert(of_size(first.deep_view(), size) == of_size(lower, size));
                assert(of_size(second.deep_view(), size) == of_size(upper, size));
                assert(of_size(ranked.deep_view(), size) == of_size(
                    first.deep_view() + second.deep_view(),
                    size,
                ));
            }
            lemma_ranking_unique(ranked.deep_view(), part);
            lemma_ranking_is_ranking(part);
        }
        ranked
    }
}

/// Ranks the collected results: largest first, results of one size in the
/// order in which they were collected.
pub fn rank(results: &Vec<SizeResult>) -> (ranked: Vec<SizeResult>)
    ensures
        ranked.deep_view() == ranking(results.deep_view()),
        is_ranking_of(ranked.deep_view(), results.deep_view()),
        ranked.len() == results.len(),
{
    let ranked = rank_range(results, 0, results.len());
    proof {
        assert(results.deep_view().subrange(0, results.len() as int) =~= results.deep_view());
        lemma_ranking_is_ranking(results.deep_view());
    }
    ranked
}

} // verus!
