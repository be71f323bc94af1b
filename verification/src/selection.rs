//! Selection: comma and plus strategies.
use vstd::prelude::*;
use crate::population::{Individual, IndividualView, Population};
use crate::ranking::{
    views, has_fitness, fitness_comparable, sortable, with_fitness, sort_by_rank,
    sort_individuals, rank_of, is_sorted_by_rank, lemma_sort_by_rank,
};

verus! {

/// Selection strategy.
#[derive(Clone, Copy, Debug, PartialEq, Eq, Structural)]
pub enum SelectionStrategy {
    /// Only offspring compete for survival.
    Comma,
    /// Parents and offspring compete for survival.
    Plus,
}

/// The first `mu` elements of `s`, or all of them when there are fewer.
pub open spec fn first(s: Seq<IndividualView>, mu: nat) -> Seq<IndividualView> {
    if mu < s.len() {
        s.take(mu as int)
    } else {
        s
    }
}

/// The `mu` best of the candidates that have a fitness, best first; among
/// equal fitness the earlier candidate comes first.
pub open spec fn mu_best(candidates: Seq<IndividualView>, mu: nat) -> Seq<IndividualView> {
    first(sort_by_rank(with_fitness(candidates)), mu)
}

/// The `mu` best of parents and offspring together, best first, a missing
/// fitness counting as infinitely bad; among equal fitness the parents
/// come before the offspring and each keeps its order.
pub open spec fn plus_best(
    parents: Seq<IndividualView>,
    offspring: Seq<IndividualView>,
    mu: nat,
) -> Seq<IndividualView> {
    first(sort_by_rank(parents + offspring), mu)
}

/// The individuals that a strategy keeps.
pub open spec fn survivors(
    strategy: SelectionStrategy,
    parents: Seq<IndividualView>,
    offspring: Seq<IndividualView>,
    mu: nat,
) -> Seq<IndividualView> {
    match strategy {
        SelectionStrategy::Comma => mu_best(offspring, mu),
        SelectionStrategy::Plus => plus_best(parents, offspring, mu),
    }
}

/// Cutting a sorted sequence after `mu` elements leaves nothing in the
/// rest that is better than what was kept.
proof fn lemma_first_of_sorted(s: Seq<IndividualView>, mu: nat)
    requires
        is_sorted_by_rank(s),
    ensures
        first(s, mu).len() == (if mu < s.len() { mu as int } else { s.len() as int }),
        is_sorted_by_rank(first(s, mu)),
        first(s, mu) + (if mu < s.len() { s.skip(mu as int) } else { Seq::<IndividualView>::empty() }) == s,
        forall|i: int, j: int|
            0 <= i < first(s, mu).len() && mu <= j < s.len() ==> rank_of(#[trigger] first(s, mu)[i]) <= rank_of(
                #[trigger] s[j],
            ),
{
    if mu < s.len() {
        assert(s.take(mu as int) + s.skip(mu as int) =~= s);
    } else {
        assert(s + Seq::<IndividualView>::empty() =~= s);
    }
}

/// Truncation selection keeps the best: the survivors are as many as `mu`
/// allows, all have a fitness, come best first, and, followed by the
/// candidates left out, are the candidates with a fitness rearranged;
/// no candidate left out is better than a survivor.
pub proof fn lemma_mu_best_keeps_the_best(candidates: Seq<IndividualView>, mu: nat)
    ensures
        mu_best(candidates, mu).len() == (if mu < with_fitness(candidates).len() {
            mu as int
        } else {
            with_fitness(candidates).len() as int
        }),
        forall|i: int| 0 <= i < mu_best(candidates, mu).len() ==> has_fitness(#[trigger] mu_best(candidates, mu)[i]),
        is_sorted_by_rank(mu_best(candidates, mu)),
        exists|rest: Seq<IndividualView>|
            {
                &&& (mu_best(candidates, mu) + rest).to_multiset() == with_fitness(candidates).to_multiset()
                &&& forall|i: int, j: int|
                    0 <= i < mu_best(candidates, mu).len() && 0 <= j < rest.len() ==> rank_of(
                        #[trigger] mu_best(candidates, mu)[i],
                    ) <= rank_of(#[trigger] rest[j])
            },
{
    broadcast use vstd::seq_lib::group_filter_ensures;
    broadcast use vstd::seq_lib::group_to_multiset_ensures;
    let wf = with_fitness(candidates);
    let sorted = sort_by_rank(wf);
    lemma_sort_by_rank(wf);
    lemma_first_of_sorted(sorted, mu);
    let kept = mu_best(candidates, mu);
    let rest = if mu < sorted.len() { sorted.skip(mu as int) } else { Seq::<IndividualView>::empty() };
    assert forall|i: int| 0 <= i < kept.len() implies has_fitness(#[trigger] kept[i]) by {
        assert(kept[i] == sorted[i]);
        assert(sorted.to_multiset().count(sorted[i]) > 0);
        assert(wf.contains(sorted[i]));
        let j = choose|j: int| 0 <= j < wf.len() && wf[j] == sorted[i];
        assert(has_fitness(wf[j]));
    }
    assert forall|i: int, j: int| 0 <= i < kept.len() && 0 <= j < rest.len() implies rank_of(
        #[trigger] kept[i],
    ) <= rank_of(#[trigger] rest[j]) by {
        assert(rest[j] == sorted[mu + j]);
    }
    assert((kept + rest).to_multiset() == wf.to_multiset());
}

/// Plus selection keeps the best of parents and offspring together: the
/// survivors are as many as `mu` allows, come best first, and, followed by
/// the individuals left out, are the parents and offspring rearranged; no
/// individual left out is better than a survivor.
pub proof fn lemma_plus_best_keeps_the_best(
    parents: Seq<IndividualView>,
    offspring: Seq<IndividualView>,
    mu: nat,
)
    ensures
        plus_best(parents, offspring, mu).len() == (if mu < parents.len() + offspring.len() {
            mu as int
        } else {
            (parents.len() + offspring.len()) as int
        }),
        is_sorted_by_rank(plus_best(parents, offspring, mu)),
        exists|rest: Seq<IndividualView>|
            {
                &&& (plus_best(parents, offspring, mu) + rest).to_multiset() == (parents
                    + offspring).to_multiset()
                &&& forall|i: int, j: int|
                    0 <= i < plus_best(parents, offspring, mu).len() && 0 <= j < rest.len()
                        ==> rank_of(#[trigger] plus_best(parents, offspring, mu)[i]) <= rank_of(
                        #[trigger] rest[j],
                    )
            },
{
    let all = parents + offspring;
    let sorted = sort_by_rank(all);
    lemma_sort_by_rank(all);
    lemma_first_of_sorted(sorted, mu);
    let kept = plus_best(parents, offspring, mu);
    let rest = if mu < sorted.len() { sorted.skip(mu as int) } else { Seq::<IndividualView>::empty() };
    assert forall|i: int, j: int| 0 <= i < kept.len() && 0 <= j < rest.len() implies rank_of(
        #[trigger] kept[i],
    ) <= rank_of(#[trigger] rest[j]) by {
        assert(rest[j] == sorted[mu + j]);
    }
    assert((kept + rest).to_multiset() == all.to_multiset());
}

/// Plus selection is elitist: when at least one survives, the first
/// survivor is no worse than any parent (nor any offspring).
pub proof fn lemma_plus_keeps_best_parent(
    parents: Seq<IndividualView>,
    offspring: Seq<IndividualView>,
    mu: nat,
)
    requires
        mu > 0,
        parents.len() > 0,
    ensures
        plus_best(parents, offspring, mu).len() > 0,
        forall|i: int| 0 <= i < parents.len() ==> rank_of(plus_best(parents, offspring, mu)[0]) <= rank_of(
            #[trigger] parents[i],
        ),
        forall|i: int| 0 <= i < offspring.len() ==> rank_of(plus_best(parents, offspring, mu)[0]) <= rank_of(
            #[trigger] offspring[i],
        ),
{
    broadcast use vstd::seq_lib::group_to_multiset_ensures;
    let all = parents + offspring;
    let sorted = sort_by_rank(all);
    lemma_sort_by_rank(all);
    lemma_first_of_sorted(sorted, mu);
    assert forall|i: int| 0 <= i < all.len() implies rank_of(sorted[0]) <= rank_of(#[trigger] all[i]) by {
        assert(all.contains(all[i]));
        assert(all.to_multiset().count(all[i]) > 0);
        assert(sorted.contains(all[i]));
        let j = choose|j: int| 0 <= j < sorted.len() && sorted[j] == all[i];
    }
    assert forall|i: int| 0 <= i < parents.len() implies rank_of(sorted[0]) <= rank_of(#[trigger] parents[i]) by {
        assert(all[i] == parents[i]);
    }
    assert forall|i: int| 0 <= i < offspring.len() implies rank_of(sorted[0]) <= rank_of(#[trigger] offspring[i]) by {
        assert(all[parents.len() + i] == offspring[i]);
    }
}

/// Comma selection ignores the parents: whatever they are, the same
/// offspring give the same survivors.
pub proof fn lemma_comma_ignores_parents(
    parents: Seq<IndividualView>,
    other_parents: Seq<IndividualView>,
    offspring: Seq<IndividualView>,
    mu: nat,
)
    ensures
        survivors(SelectionStrategy::Comma, parents, offspring, mu) == survivors(
            SelectionStrategy::Comma,
            other_parents,
            offspring,
            mu,
        ),
{
}

fn copy_all(v: &[Individual], out: &mut Vec<Individual>)
    ensures
        views(final(out)@) == views(old(out)@) + views(v@),
{
    let ghost start = views(out@);
    let mut i: usize = 0;
    while i < v.len()
        invariant
            i <= v.len(),
            views(out@) == start + views(v@).take(i as int),
        decreases v.len() - i,
    {
        let ghost prev = out@;
        let c = v[i].clone();
        out.push(c);
        assert(views(out@) =~= views(prev).push(v@[i as int]@));
        assert(views(v@).take(i + 1) =~= views(v@).take(i as int).push(v@[i as int]@));
        i = i + 1;
        assert(views(out@) =~= start + views(v@).take(i as int));
    }
    assert(views(v@).take(v.len() as int) =~= views(v@));
}

fn keep_first(v: &mut Vec<Individual>, mu: usize)
    ensures
        views(final(v)@) == first(views(old(v)@), mu as nat),
{
    let ghost before = views(v@);
    v.truncate(mu);
    assert(views(v@) =~= first(before, mu as nat));
}

/// Select the `mu` best individuals (lowest fitness) among the candidates
/// that have a fitness, best first.
pub fn select_mu_best(candidates: &[Individual], mu: usize) -> (r: Vec<Individual>)
    requires
        fitness_comparable(views(candidates@)),
    ensures
        views(r@) == mu_best(views(candidates@), mu as nat),
{
    let ghost s = views(candidates@);
    let mut kept: Vec<Individual> = Vec::new();
    let mut i: usize = 0;
    assert(views(kept@) =~= with_fitness(s.take(0)));
    while i < candidates.len()
        invariant
            i <= candidates.len(),
            s == views(candidates@),
            views(kept@) == with_fitness(s.take(i as int)),
        decreases candidates.len() - i,
    {
        let ghost prev = views(kept@);
        if candidates[i].fitness.is_some() {
            let c = candidates[i].clone();
            kept.push(c);
        }
        proof {
            reveal(Seq::filter);
            let t = s.take(i + 1);
            assert(t.drop_last() =~= s.take(i as int));
            assert(t.last() == candidates@[i as int]@);
            assert(views(kept@) =~= with_fitness(t));
        }
        i = i + 1;
    }
    assert(s.take(candidates.len() as int) =~= s);
    let mut sorted = sort_individuals(kept);
    keep_first(&mut sorted, mu);
    sorted
}

/// (mu, lambda) selection: only from offspring.
pub fn comma_selection(parents: &[Individual], offspring: &[Individual], mu: usize) -> (r: Vec<Individual>)
    requires
        fitness_comparable(views(offspring@)),
    ensures
        views(r@) == mu_best(views(offspring@), mu as nat),
{
    select_mu_best(offspring, mu)
}

/// (mu + lambda) selection: from parents and offspring combined.
pub fn plus_selection(parents: &[Individual], offspring: &[Individual], mu: usize) -> (r: Vec<Individual>)
    requires
        sortable(views(parents@) + views(offspring@)),
    ensures
        views(r@) == plus_best(views(parents@), views(offspring@), mu as nat),
{
    let mut combined: Vec<Individual> = Vec::new();
    copy_all(parents, &mut combined);
    copy_all(offspring, &mut combined);
    assert(views(combined@) =~= views(parents@) + views(offspring@));
    let mut sorted = sort_individuals(combined);
    keep_first(&mut sorted, mu);
    sorted
}

/// Index of the parent that generation step `t` (counted from 0) mutates,
/// for a counter that started at `start` and a population of `n`.
pub open spec fn parent_index(start: int, t: int, n: int) -> int {
    (start + t + 1) % n
}

/// Children take the parents in turn: the first child comes from the
/// parent after the counter's position, each further child from the parent
/// after the previous one (wrapping around), so any `n` consecutive
/// children of a population of `n` come from every parent once.
pub proof fn lemma_children_take_parents_in_turn(start: int, n: int)
    requires
        n > 0,
        start >= 0,
    ensures
        parent_index(start, 0, n) == (start + 1) % n,
        forall|t: int| t >= 0 ==> 0 <= #[trigger] parent_index(start, t, n) < n,
        forall|t: int|
            t >= 0 ==> #[trigger] parent_index(start, t + 1, n) == (parent_index(start, t, n) + 1) % n,
        forall|t1: int, t2: int|
            0 <= t1 < n && 0 <= t2 < n && t1 != t2 ==> #[trigger] parent_index(start, t1, n) != #[trigger] parent_index(
                start,
                t2,
                n,
            ),
{
    assert forall|t: int| t >= 0 implies #[trigger] parent_index(start, t + 1, n) == (parent_index(start, t, n) + 1) % n by {
        vstd::arithmetic::div_mod::lemma_add_mod_noop(start + t + 1, 1, n);
        if n > 1 {
            vstd::arithmetic::div_mod::lemma_small_mod(1, n as nat);
        }
        vstd::arithmetic::div_mod::lemma_mod_twice(start + t + 1, n);
    }
    assert forall|t1: int, t2: int|
        0 <= t1 < n && 0 <= t2 < n && t1 != t2 implies #[trigger] parent_index(start, t1, n) != #[trigger] parent_index(
            start,
            t2,
            n,
        ) by {
        let a = start + t1 + 1;
        let b = start + t2 + 1;
        vstd::arithmetic::div_mod::lemma_fundamental_div_mod(a, n);
        vstd::arithmetic::div_mod::lemma_fundamental_div_mod(b, n);
        let qa = a / n;
        let qb = b / n;
        if a % n == b % n {
            assert(false) by (nonlinear_arith)
                requires
                    a == n * qa + a % n,
                    b == n * qb + b % n,
                    a % n == b % n,
                    a != b,
                    a - b < n,
                    b - a < n,
                    n > 0,
            ;
        }
    }
}

/// Advances the counter and returns the next parent index: the counter
/// plus one, wrapped around the population size; 0 for an empty
/// population, which leaves the counter unchanged.
fn rand_idx(counter: &mut usize, len: usize) -> (r: usize)
    ensures
        len == 0 ==> r == 0 && *final(counter) == *old(counter),
        len > 0 ==> *final(counter) == (*old(counter) + 1) % (len as int) && r == *final(counter),
{
    if len == 0 {
        return 0;
    }
    proof {
        vstd::arithmetic::div_mod::lemma_add_mod_noop(*counter as int, 1, len as int);
        if len > 1 {
            vstd::arithmetic::div_mod::lemma_small_mod(1, len as nat);
        }
        vstd::arithmetic::div_mod::lemma_mod_twice(*counter as int + 1, len as int);
    }
    *counter = (*counter % len + 1) % len;
    *counter
}

/// `children` are what one generation makes of `parents`: `lambda`
/// children (none for an empty population), the `t`-th made by `mutate_fn`
/// from the parent at `parent_index(start, t, n)`.
pub open spec fn generation_children<F: Fn(&Individual) -> Individual>(
    mutate_fn: F,
    parents: Seq<Individual>,
    start: int,
    lambda: int,
    children: Seq<Individual>,
) -> bool {
    &&& children.len() == (if parents.len() == 0 { 0 } else { lambda })
    &&& forall|t: int|
        0 <= t < children.len() ==> call_ensures(
            mutate_fn,
            (&parents[parent_index(start, t, parents.len() as int)],),
            #[trigger] children[t],
        )
}

/// What the strategy's selection needs to compare.
pub open spec fn selectable(
    strategy: SelectionStrategy,
    parents: Seq<IndividualView>,
    children: Seq<IndividualView>,
) -> bool {
    match strategy {
        SelectionStrategy::Comma => fitness_comparable(children),
        SelectionStrategy::Plus => sortable(parents + children),
    }
}

/// Run one generation of evolution strategy.
///
/// `lambda` times, the next parent is chosen by advancing `counter` (see
/// `parent_index`) and `mutate_fn` makes a child of it; an empty population
/// has no children. The strategy then selects `mu` survivors from the
/// children (and, for `Plus`, the parents).
pub fn evolve<F: Fn(&Individual) -> Individual>(
    population: &Population,
    strategy: SelectionStrategy,
    mu: usize,
    lambda: usize,
    mutate_fn: F,
    counter: &mut usize,
) -> (r: Population)
    requires
        forall|x: Individual| #[trigger] call_requires(mutate_fn, (&x,)),
        forall|children: Seq<Individual>|
            #[trigger] generation_children(mutate_fn, population.individuals@, *old(counter) as int, lambda as int, children)
                ==> selectable(strategy, population@, views(children)),
    ensures
        *final(counter) == (if population@.len() == 0 || lambda == 0 {
            *old(counter) as int
        } else {
            (*old(counter) + lambda) % (population@.len() as int)
        }),
        exists|children: Seq<Individual>|
            {
                &&& #[trigger] generation_children(mutate_fn, population.individuals@, *old(counter) as int, lambda as int, children)
                &&& r@ == survivors(strategy, population@, views(children), mu as nat)
            },
{
    let n = population.individuals.len();
    let ghost start = *counter as int;
    let mut offspring: Vec<Individual> = Vec::new();
    let mut k: usize = 0;
    while k < lambda
        invariant
            n == population.individuals.len(),
            n == population@.len(),
            forall|x: Individual| #[trigger] call_requires(mutate_fn, (&x,)),
            k <= lambda,
            n == 0 ==> offspring@.len() == 0 && *counter == start,
            n > 0 ==> offspring@.len() == k,
            n > 0 && k == 0 ==> *counter == start,
            n > 0 && k > 0 ==> *counter == (start + k) % (n as int),
            forall|t: int| 0 <= t < offspring@.len() ==> call_ensures(
                mutate_fn,
                (&population.individuals@[parent_index(start, t, n as int)],),
                #[trigger] offspring@[t],
            ),
        decreases lambda - k,
    {
        let idx = rand_idx(counter, n);
        if idx < n {
            proof {
                if k > 0 {
                    vstd::arithmetic::div_mod::lemma_add_mod_noop(start + k, 1, n as int);
                    if n > 1 {
                        vstd::arithmetic::div_mod::lemma_small_mod(1, n as nat);
                    }
                    vstd::arithmetic::div_mod::lemma_mod_twice(start + k, n as int);
                }
                assert(idx as int == parent_index(start, k as int, n as int));
            }
            let child = mutate_fn(&population.individuals[idx]);
            offspring.push(child);
        }
        k = k + 1;
    }
    assert(generation_children(mutate_fn, population.individuals@, start, lambda as int, offspring@));
    assert(population@ == views(population.individuals@));
    let selected = match strategy {
        SelectionStrategy::Comma => comma_selection(&population.individuals, &offspring, mu),
        SelectionStrategy::Plus => plus_selection(&population.individuals, &offspring, mu),
    };
    Population::from_vec(selected)
}

} // verus!
