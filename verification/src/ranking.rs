//! The order in which individuals are ranked by fitness, and a stable sort
//! that follows it.
use vstd::prelude::*;
use crate::population::{Individual, IndividualView, WORST_RANK};

verus! {

broadcast use vstd::seq_lib::group_to_multiset_ensures;

/// The values of a sequence of individuals.
pub open spec fn views(s: Seq<Individual>) -> Seq<IndividualView> {
    s.map_values(|x: Individual| x@)
}

/// The individual has a fitness.
pub open spec fn has_fitness(v: IndividualView) -> bool {
    v.fitness is Some
}

/// The individual can take part in a comparison of fitness: it has no
/// fitness (which counts as positive infinity) or a fitness with a rank.
pub open spec fn is_ranked(v: IndividualView) -> bool {
    match v.fitness {
        Some(f) => f.rank is Some,
        None => true,
    }
}

/// The key by which individuals are ordered: the rank of the fitness, or
/// `WORST_RANK` for an individual without one.
pub open spec fn rank_of(v: IndividualView) -> int {
    match v.fitness {
        Some(f) => match f.rank {
            Some(r) => r as int,
            None => WORST_RANK as int,
        },
        None => WORST_RANK as int,
    }
}

/// Every element of `s` can be compared with every other one; this is
/// what a sort of `s` needs, since it compares each element when there
/// are two or more.
pub open spec fn sortable(s: Seq<IndividualView>) -> bool {
    s.len() >= 2 ==> forall|i: int| 0 <= i < s.len() ==> #[trigger] is_ranked(s[i])
}

/// Every individual with a fitness can be compared with every other one
/// that has a fitness, as soon as there are two of them.
pub open spec fn fitness_comparable(s: Seq<IndividualView>) -> bool {
    (exists|i: int, j: int|
        0 <= i < s.len() && 0 <= j < s.len() && i != j && has_fitness(#[trigger] s[i])
            && has_fitness(#[trigger] s[j]))
        ==> forall|i: int| 0 <= i < s.len() && has_fitness(s[i]) ==> #[trigger] is_ranked(s[i])
}

/// The individuals of `s` that have a fitness, in their order.
pub open spec fn with_fitness(s: Seq<IndividualView>) -> Seq<IndividualView> {
    s.filter(|v: IndividualView| has_fitness(v))
}

/// Where a stable sort puts an element of rank `k` into the sorted `s`:
/// before the first element whose rank exceeds `k`.
pub open spec fn insertion_point(s: Seq<IndividualView>, k: int) -> nat
    decreases s.len(),
{
    if s.len() == 0 {
        0
    } else if k < rank_of(s[0]) {
        0
    } else {
        1 + insertion_point(s.drop_first(), k)
    }
}

/// `s` stably sorted by rank, ascending: each element in turn is placed
/// after every earlier element whose rank is not greater.
pub open spec fn sort_by_rank(s: Seq<IndividualView>) -> Seq<IndividualView>
    decreases s.len(),
{
    if s.len() == 0 {
        s
    } else {
        let sorted = sort_by_rank(s.drop_last());
        sorted.insert(insertion_point(sorted, rank_of(s.last())) as int, s.last())
    }
}

/// Ranks never decrease along `s`.
pub open spec fn is_sorted_by_rank(s: Seq<IndividualView>) -> bool {
    forall|i: int, j: int| 0 <= i <= j < s.len() ==> rank_of(s[i]) <= rank_of(s[j])
}

/// The key of an individual is the rank of its fitness itself, and
/// positive infinity (`WORST_RANK`) for one without fitness.
pub proof fn lemma_rank_of_is_fitness_rank(v: IndividualView)
    ensures
        v.fitness is Some && v.fitness.unwrap().rank is Some ==> rank_of(v) == v.fitness.unwrap().rank.unwrap(),
        v.fitness is None ==> rank_of(v) == WORST_RANK,
{
}

/// After the sort, a strictly lower fitness always comes strictly earlier,
/// and every fitness below positive infinity comes before every
/// individual without fitness.
pub proof fn lemma_sort_orders_by_fitness(s: Seq<IndividualView>)
    ensures
        forall|i: int, j: int|
            0 <= i < sort_by_rank(s).len() && 0 <= j < sort_by_rank(s).len()
                && (#[trigger] sort_by_rank(s)[i]).fitness is Some
                && sort_by_rank(s)[i].fitness.unwrap().rank is Some
                && (#[trigger] sort_by_rank(s)[j]).fitness is Some
                && sort_by_rank(s)[j].fitness.unwrap().rank is Some
                && sort_by_rank(s)[i].fitness.unwrap().rank.unwrap() < sort_by_rank(s)[j].fitness.unwrap().rank.unwrap()
                ==> i < j,
        forall|i: int, j: int|
            0 <= i < sort_by_rank(s).len() && 0 <= j < sort_by_rank(s).len()
                && (#[trigger] sort_by_rank(s)[i]).fitness is Some
                && sort_by_rank(s)[i].fitness.unwrap().rank is Some
                && sort_by_rank(s)[i].fitness.unwrap().rank.unwrap() < WORST_RANK
                && (#[trigger] sort_by_rank(s)[j]).fitness is None
                ==> i < j,
{
    lemma_sort_by_rank(s);
    let r = sort_by_rank(s);
    assert forall|i: int, j: int|
        0 <= i < r.len() && 0 <= j < r.len() && (#[trigger] r[i]).fitness is Some && r[i].fitness.unwrap().rank is Some
            && (#[trigger] r[j]).fitness is Some && r[j].fitness.unwrap().rank is Some
            && r[i].fitness.unwrap().rank.unwrap() < r[j].fitness.unwrap().rank.unwrap()
        implies i < j by {
        if j <= i {
            assert(rank_of(r[j]) <= rank_of(r[i]));
        }
    }
    assert forall|i: int, j: int|
        0 <= i < r.len() && 0 <= j < r.len() && (#[trigger] r[i]).fitness is Some && r[i].fitness.unwrap().rank is Some
            && r[i].fitness.unwrap().rank.unwrap() < WORST_RANK && (#[trigger] r[j]).fitness is None
        implies i < j by {
        if j <= i {
            assert(rank_of(r[j]) <= rank_of(r[i]));
        }
    }
}

proof fn lemma_insertion_point(s: Seq<IndividualView>, k: int)
    ensures
        insertion_point(s, k) <= s.len(),
        forall|i: int| 0 <= i < insertion_point(s, k) ==> rank_of(#[trigger] s[i]) <= k,
        insertion_point(s, k) < s.len() ==> k < rank_of(s[insertion_point(s, k) as int]),
    decreases s.len(),
{
    if s.len() > 0 && k >= rank_of(s[0]) {
        let t = s.drop_first();
        lemma_insertion_point(t, k);
        assert forall|i: int| 0 <= i < insertion_point(s, k) implies rank_of(#[trigger] s[i]) <= k by {
            if i > 0 {
                assert(s[i] == t[i - 1]);
            }
        }
    }
}

/// A stable sort by rank keeps the elements, and puts them in order of rank.
pub proof fn lemma_sort_by_rank(s: Seq<IndividualView>)
    ensures
        sort_by_rank(s).len() == s.len(),
        sort_by_rank(s).to_multiset() == s.to_multiset(),
        is_sorted_by_rank(sort_by_rank(s)),
    decreases s.len(),
{
    if s.len() > 0 {
        let prefix = s.drop_last();
        let x = s.last();
        let sorted = sort_by_rank(prefix);
        lemma_sort_by_rank(prefix);
        let k = rank_of(x);
        let p = insertion_point(sorted, k) as int;
        lemma_insertion_point(sorted, k);
        let r = sorted.insert(p, x);
        assert(r == sort_by_rank(s));
        sorted.insert_ensures(p, x);
        assert(prefix.push(x) =~= s);
        assert(r.to_multiset() == s.to_multiset());
        assert forall|i: int, j: int| 0 <= i <= j < r.len() implies rank_of(r[i]) <= rank_of(r[j]) by {
            if i < p {
                assert(r[i] == sorted[i]);
                if j < p {
                    assert(r[j] == sorted[j]);
                } else if j > p {
                    assert(r[j] == sorted[j - 1]);
                }
            } else if i == p {
                if j > p {
                    assert(r[j] == sorted[j - 1]);
                    assert(rank_of(sorted[p]) <= rank_of(sorted[j - 1]));
                }
            } else {
                assert(r[i] == sorted[i - 1]);
                assert(r[j] == sorted[j - 1]);
            }
        }
    }
}

/// Whether an individual has rank `k`.
pub open spec fn ranked_at(k: int) -> spec_fn(IndividualView) -> bool {
    |v: IndividualView| rank_of(v) == k
}

pub(crate) proof fn lemma_filter_none(s: Seq<IndividualView>, pred: spec_fn(IndividualView) -> bool)
    requires
        forall|i: int| 0 <= i < s.len() ==> !pred(#[trigger] s[i]),
    ensures
        s.filter(pred) == Seq::<IndividualView>::empty(),
    decreases s.len(),
{
    reveal(Seq::filter);
    if s.len() > 0 {
        lemma_filter_none(s.drop_last(), pred);
        assert(!pred(s[s.len() - 1]));
    }
    assert(s.filter(pred) =~= Seq::<IndividualView>::empty());
}

/// The first element of a filter is the first element that passes it.
pub(crate) proof fn lemma_filter_first(s: Seq<IndividualView>, pred: spec_fn(IndividualView) -> bool, m: int)
    requires
        0 <= m < s.len(),
        pred(s[m]),
        forall|j: int| 0 <= j < m ==> !pred(#[trigger] s[j]),
    ensures
        s.filter(pred).len() > 0,
        s.filter(pred)[0] == s[m],
{
    broadcast use vstd::seq::Seq::filter_distributes_over_add;
    let head = s.take(m);
    let one = seq![s[m]];
    let tail = s.skip(m + 1);
    assert(s =~= head + (one + tail));
    lemma_filter_none(head, pred);
    reveal(Seq::filter);
    assert(one.drop_last() =~= Seq::<IndividualView>::empty());
    assert(one.filter(pred) =~= one);
    assert(s.filter(pred) == head.filter(pred) + (one.filter(pred) + tail.filter(pred)));
    assert(s.filter(pred) =~= one + tail.filter(pred));
}

/// The stable sort keeps the order of individuals of equal rank: for
/// every rank, the individuals of that rank come in the same order before
/// and after sorting.
pub proof fn lemma_sort_by_rank_stable(s: Seq<IndividualView>, k: int)
    ensures
        sort_by_rank(s).filter(ranked_at(k)) == s.filter(ranked_at(k)),
    decreases s.len(),
{
    broadcast use vstd::seq::Seq::filter_distributes_over_add;
    if s.len() > 0 {
        let pred = ranked_at(k);
        let prefix = s.drop_last();
        let x = s.last();
        let sorted = sort_by_rank(prefix);
        lemma_sort_by_rank_stable(prefix, k);
        lemma_sort_by_rank(prefix);
        let p = insertion_point(sorted, rank_of(x)) as int;
        lemma_insertion_point(sorted, rank_of(x));
        let head = sorted.take(p);
        let tail = sorted.skip(p);
        assert(sorted =~= head + tail);
        assert(sort_by_rank(s) =~= head.push(x) + tail);
        reveal(Seq::filter);
        assert(head.push(x).drop_last() =~= head);
        assert(s.filter(pred) == if pred(x) { prefix.filter(pred).push(x) } else { prefix.filter(pred) });
        if pred(x) {
            assert forall|i: int| 0 <= i < tail.len() implies !pred(#[trigger] tail[i]) by {
                assert(tail[i] == sorted[p + i]);
                assert(rank_of(sorted[p]) <= rank_of(sorted[p + i]));
            }
            lemma_filter_none(tail, pred);
            assert(sorted.filter(pred) == head.filter(pred) + tail.filter(pred));
            assert(sorted.filter(pred) =~= head.filter(pred));
            assert(sort_by_rank(s).filter(pred) =~= head.filter(pred).push(x));
        } else {
            assert(head.push(x).filter(pred) == head.filter(pred));
            assert(sort_by_rank(s).filter(pred) == head.filter(pred) + tail.filter(pred));
        }
    }
}

/// The rank by which an individual is ordered.
pub(crate) fn rank_key(ind: &Individual) -> (r: i64)
    ensures
        r as int == rank_of(ind@),
{
    match ind.fitness {
        Some(f) => match f.rank {
            Some(r) => r,
            None => WORST_RANK,
        },
        None => WORST_RANK,
    }
}

fn insertion_index(out: &Vec<Individual>, k: i64) -> (p: usize)
    ensures
        p as int == insertion_point(views(out@), k as int),
{
    let ghost s = views(out@);
    let mut j: usize = 0;
    assert(s.skip(0) =~= s);
    while j < out.len() && rank_key(&out[j]) <= k
        invariant
            j <= out.len(),
            s == views(out@),
            insertion_point(s, k as int) == j + insertion_point(s.skip(j as int), k as int),
        decreases out.len() - j,
    {
        proof {
            let t = s.skip(j as int);
            assert(t[0] == out@[j as int]@);
            assert(t.drop_first() =~= s.skip(j + 1));
        }
        j = j + 1;
    }
    proof {
        let t = s.skip(j as int);
        if j < out.len() {
            assert(t[0] == out@[j as int]@);
        }
    }
    j
}

/// Sorts individuals by rank, ascending, keeping the order of equal ranks.
pub(crate) fn sort_individuals(v: Vec<Individual>) -> (r: Vec<Individual>)
    ensures
        views(r@) == sort_by_rank(views(v@)),
{
    let ghost orig = views(v@);
    let mut rest = v;
    let mut out: Vec<Individual> = Vec::new();
    let ghost mut n: int = 0;
    assert(orig.skip(0) =~= orig);
    assert(views(out@) =~= sort_by_rank(orig.take(0)));
    while rest.len() > 0
        invariant
            0 <= n <= orig.len(),
            views(rest@) == orig.skip(n),
            views(out@) == sort_by_rank(orig.take(n)),
        decreases rest.len(),
    {
        let ghost before = out@;
        let ghost rest_before = rest@;
        let x = rest.remove(0);
        let k = rank_key(&x);
        let p = insertion_index(&out, k);
        proof {
            lemma_insertion_point(views(before), k as int);
        }
        out.insert(p, x);
        proof {
            assert(views(rest_before).len() == rest_before.len());
            assert(orig.skip(n).len() == orig.len() - n);
            assert(views(rest_before)[0] == x@);
            assert(orig.skip(n)[0] == orig[n]);
            assert(x@ == orig[n]);
            assert forall|i: int| 0 <= i < rest@.len() implies views(rest@)[i] == orig.skip(n + 1)[i] by {
                assert(rest@[i] == rest_before[i + 1]);
                assert(views(rest_before)[i + 1] == orig.skip(n)[i + 1]);
            }
            assert(views(rest@) =~= orig.skip(n + 1));
            assert(views(out@) =~= views(before).insert(p as int, x@));
            assert(orig.take(n + 1).drop_last() =~= orig.take(n));
            assert(orig.take(n + 1).last() == orig[n]);
            n = n + 1;
        }
    }
    assert(orig.take(n) =~= orig);
    out
}

} // verus!
