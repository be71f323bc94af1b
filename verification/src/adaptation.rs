//! Self-adaptation of step sizes: counting successful offspring.
use vstd::prelude::*;
use crate::population::{Individual, IndividualView, WORST_RANK};
use crate::ranking::views;

verus! {

/// The lowest rank among the individuals whose fitness has one, or
/// `WORST_RANK` (positive infinity) when there is none; a fitness that is
/// not a number is passed over.
pub open spec fn best_rank(s: Seq<IndividualView>) -> int
    decreases s.len(),
{
    if s.len() == 0 {
        WORST_RANK as int
    } else {
        let b = best_rank(s.drop_last());
        match s.last().fitness {
            Some(f) => match f.rank {
                Some(r) => if (r as int) < b { r as int } else { b },
                None => b,
            },
            None => b,
        }
    }
}

/// The individual has a fitness strictly better than `bound`.
pub open spec fn beats(v: IndividualView, bound: int) -> bool {
    match v.fitness {
        Some(f) => match f.rank {
            Some(r) => (r as int) < bound,
            None => false,
        },
        None => false,
    }
}

/// How many of `offspring` are better than the best of `parents`.
pub open spec fn improvements(parents: Seq<IndividualView>, offspring: Seq<IndividualView>) -> nat {
    offspring.filter(|v: IndividualView| beats(v, best_rank(parents))).len()
}

/// The best rank is no higher than any rank in the sequence.
pub proof fn lemma_best_rank_is_lowest(s: Seq<IndividualView>)
    ensures
        best_rank(s) <= WORST_RANK,
        forall|i: int| 0 <= i < s.len() ==> !beats(#[trigger] s[i], best_rank(s)),
    decreases s.len(),
{
    if s.len() > 0 {
        let prefix = s.drop_last();
        lemma_best_rank_is_lowest(prefix);
        assert forall|i: int| 0 <= i < s.len() implies !beats(#[trigger] s[i], best_rank(s)) by {
            if i < s.len() - 1 {
                assert(s[i] == prefix[i]);
                assert(!beats(prefix[i], best_rank(prefix)));
            }
        }
    }
}

/// The best rank is the lowest of the ranked fitness values: no ranked
/// fitness is below it, and unless it is `WORST_RANK` (positive infinity)
/// some individual has exactly that rank.
pub proof fn lemma_best_rank_is_minimum(s: Seq<IndividualView>)
    ensures
        best_rank(s) <= WORST_RANK,
        forall|i: int|
            0 <= i < s.len() && (#[trigger] s[i]).fitness is Some && s[i].fitness.unwrap().rank is Some
                ==> best_rank(s) <= s[i].fitness.unwrap().rank.unwrap(),
        best_rank(s) == WORST_RANK || exists|i: int|
            0 <= i < s.len() && (#[trigger] s[i]).fitness is Some && s[i].fitness.unwrap().rank is Some
                && best_rank(s) == s[i].fitness.unwrap().rank.unwrap(),
    decreases s.len(),
{
    if s.len() > 0 {
        let prefix = s.drop_last();
        lemma_best_rank_is_minimum(prefix);
        assert forall|i: int|
            0 <= i < s.len() && (#[trigger] s[i]).fitness is Some && s[i].fitness.unwrap().rank is Some
                implies best_rank(s) <= s[i].fitness.unwrap().rank.unwrap() by {
            if i < s.len() - 1 {
                assert(s[i] == prefix[i]);
            }
        }
        if best_rank(s) != WORST_RANK {
            if best_rank(s) == best_rank(prefix) {
                let i = choose|i: int|
                    0 <= i < prefix.len() && (#[trigger] prefix[i]).fitness is Some
                        && prefix[i].fitness.unwrap().rank is Some
                        && best_rank(prefix) == prefix[i].fitness.unwrap().rank.unwrap();
                assert(s[i] == prefix[i]);
            } else {
                assert(s[s.len() - 1] == s.last());
            }
        }
    }
}

/// An offspring is an improvement exactly when its fitness has a rank
/// below positive infinity and below the rank of every parent's fitness.
pub proof fn lemma_improvement_beats_every_parent(parents: Seq<IndividualView>, v: IndividualView)
    ensures
        beats(v, best_rank(parents)) <==> {
            &&& v.fitness is Some
            &&& v.fitness.unwrap().rank is Some
            &&& v.fitness.unwrap().rank.unwrap() < WORST_RANK
            &&& forall|j: int|
                0 <= j < parents.len() && (#[trigger] parents[j]).fitness is Some
                    && parents[j].fitness.unwrap().rank is Some
                    ==> v.fitness.unwrap().rank.unwrap() < parents[j].fitness.unwrap().rank.unwrap()
        },
{
    lemma_best_rank_is_minimum(parents);
}

/// The improvements are counted over the offspring whose fitness beats
/// the fitness of every parent (and is below positive infinity).
pub proof fn lemma_improvements_count_offspring_beating_every_parent(
    parents: Seq<IndividualView>,
    offspring: Seq<IndividualView>,
)
    ensures
        improvements(parents, offspring) == offspring.filter(
            |v: IndividualView|
                {
                    &&& v.fitness is Some
                    &&& v.fitness.unwrap().rank is Some
                    &&& v.fitness.unwrap().rank.unwrap() < WORST_RANK
                    &&& forall|j: int|
                        0 <= j < parents.len() && (#[trigger] parents[j]).fitness is Some
                            && parents[j].fitness.unwrap().rank is Some
                            ==> v.fitness.unwrap().rank.unwrap() < parents[j].fitness.unwrap().rank.unwrap()
                },
        ).len(),
{
    let p1 = |v: IndividualView| beats(v, best_rank(parents));
    let p2 = |v: IndividualView|
        {
            &&& v.fitness is Some
            &&& v.fitness.unwrap().rank is Some
            &&& v.fitness.unwrap().rank.unwrap() < WORST_RANK
            &&& forall|j: int|
                0 <= j < parents.len() && (#[trigger] parents[j]).fitness is Some
                    && parents[j].fitness.unwrap().rank is Some
                    ==> v.fitness.unwrap().rank.unwrap() < parents[j].fitness.unwrap().rank.unwrap()
        };
    assert forall|v: IndividualView| #[trigger] p1(v) == p2(v) by {
        lemma_improvement_beats_every_parent(parents, v);
    }
    assert(p1 =~= p2);
}

/// The count of improvements is at most the number of offspring.
pub proof fn lemma_improvements_bounded(parents: Seq<IndividualView>, offspring: Seq<IndividualView>)
    ensures
        improvements(parents, offspring) <= offspring.len(),
{
    broadcast use vstd::seq_lib::group_filter_ensures;
}

/// No individual improves on the best of its own population: offspring
/// identical to their parents count no improvement.
pub proof fn lemma_no_improvement_on_itself(population: Seq<IndividualView>)
    ensures
        improvements(population, population) == 0,
{
    lemma_best_rank_is_lowest(population);
    crate::ranking::lemma_filter_none(population, |v: IndividualView| beats(v, best_rank(population)));
}

fn parents_best_rank(parents: &[Individual]) -> (r: i64)
    ensures
        r as int == best_rank(views(parents@)),
{
    let ghost s = views(parents@);
    let mut best: i64 = WORST_RANK;
    let mut i: usize = 0;
    while i < parents.len()
        invariant
            i <= parents.len(),
            s == views(parents@),
            best as int == best_rank(s.take(i as int)),
        decreases parents.len() - i,
    {
        match parents[i].fitness {
            Some(f) => match f.rank {
                Some(r) => {
                    if r < best {
                        best = r;
                    }
                },
                None => {},
            },
            None => {},
        }
        proof {
            let t = s.take(i + 1);
            assert(t.drop_last() =~= s.take(i as int));
            assert(t.last() == parents@[i as int]@);
        }
        i = i + 1;
    }
    assert(s.take(parents.len() as int) =~= s);
    best
}

/// Count how many offspring are better than the best parent.
pub fn count_improvements(parents: &[Individual], offspring: &[Individual]) -> (r: usize)
    ensures
        r == improvements(views(parents@), views(offspring@)),
{
    let best = parents_best_rank(parents);
    let ghost s = views(offspring@);
    let ghost pred = |v: IndividualView| beats(v, best as int);
    let mut count: usize = 0;
    let mut i: usize = 0;
    while i < offspring.len()
        invariant
            i <= offspring.len(),
            s == views(offspring@),
            pred == (|v: IndividualView| beats(v, best as int)),
            count == s.take(i as int).filter(pred).len(),
            count <= i,
        decreases offspring.len() - i,
    {
        let better = match offspring[i].fitness {
            Some(f) => match f.rank {
                Some(r) => r < best,
                None => false,
            },
            None => false,
        };
        proof {
            reveal(Seq::filter);
            let t = s.take(i + 1);
            assert(t.drop_last() =~= s.take(i as int));
            assert(t.last() == offspring@[i as int]@);
            assert(better == pred(t.last()));
        }
        if better {
            count = count + 1;
        }
        i = i + 1;
    }
    assert(s.take(offspring.len() as int) =~= s);
    count
}

} // verus!
