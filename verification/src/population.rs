//! Candidate solutions for evolution strategies.
use vstd::prelude::*;
use crate::ranking::{
    views, has_fitness, rank_of, fitness_comparable, sortable, sort_by_rank, rank_key,
    sort_individuals, ranked_at, lemma_sort_by_rank, lemma_sort_by_rank_stable, lemma_filter_first,
};

verus! {

/// Bit pattern of the step size 1.0 with which a new individual starts.
pub const UNIT_STEP: u64 = 0x3ff0_0000_0000_0000;

/// The rank that stands for positive infinity. An individual without a
/// fitness is ordered with this rank wherever the order treats a missing
/// fitness as infinitely bad.
pub const WORST_RANK: i64 = 0x7fff_ffff_ffff_ffff;

/// Bit pattern of the quiet NaN that stands for a missing fitness.
pub const NOT_A_NUMBER: u64 = 0x7ff8_0000_0000_0000;

/// A fitness value (lower is better).
///
/// `value` is the IEEE-754 bit pattern of the number. `rank` places the
/// number in the order of the reals: for two numbers `x` and `y`,
/// `x < y` exactly when the rank of `x` is less than the rank of `y`, and
/// positive infinity has rank `WORST_RANK`. A value that is not a number
/// compares with nothing and has no rank.
#[derive(Clone, Copy, Debug, PartialEq, Eq, Structural)]
pub struct Fitness {
    pub value: u64,
    pub rank: Option<i64>,
}

/// An individual solution with strategy parameters.
///
/// Genes and step sizes are IEEE-754 bit patterns.
#[derive(Debug)]
pub struct Individual {
    pub genes: Vec<u64>,
    pub fitness: Option<Fitness>,
    pub step_sizes: Vec<u64>,
    pub age: usize,
}

/// The mathematical value of an individual.
pub struct IndividualView {
    pub genes: Seq<u64>,
    pub fitness: Option<Fitness>,
    pub step_sizes: Seq<u64>,
    pub age: usize,
}

impl View for Individual {
    type V = IndividualView;

    open spec fn view(&self) -> IndividualView {
        IndividualView {
            genes: self.genes@,
            fitness: self.fitness,
            step_sizes: self.step_sizes@,
            age: self.age,
        }
    }
}

/// Copies a sequence of bit patterns.
fn copy_bits(v: &Vec<u64>) -> (r: Vec<u64>)
    ensures
        r@ == v@,
{
    let mut r: Vec<u64> = Vec::new();
    let mut i: usize = 0;
    while i < v.len()
        invariant
            i <= v.len(),
            r@ == v@.take(i as int),
        decreases v.len() - i,
    {
        r.push(v[i]);
        i = i + 1;
        assert(r@ =~= v@.take(i as int));
    }
    assert(v@.take(v.len() as int) =~= v@);
    r
}

impl Clone for Individual {
    fn clone(&self) -> (r: Self)
        ensures
            r@ == self@,
    {
        Individual {
            genes: copy_bits(&self.genes),
            fitness: self.fitness,
            step_sizes: copy_bits(&self.step_sizes),
            age: self.age,
        }
    }
}

impl Individual {
    /// A new individual: no fitness, age 0, and every step size 1.0.
    pub fn new(genes: Vec<u64>) -> (r: Self)
        ensures
            r@.genes == genes@,
            r@.fitness is None,
            r@.step_sizes == Seq::new(genes@.len(), |i: int| UNIT_STEP),
            r@.age == 0,
    {
        let dim = genes.len();
        let mut steps: Vec<u64> = Vec::new();
        let mut i: usize = 0;
        while i < dim
            invariant
                i <= dim,
                steps@ == Seq::new(i as nat, |j: int| UNIT_STEP),
            decreases dim - i,
        {
            steps.push(UNIT_STEP);
            i = i + 1;
            assert(steps@ =~= Seq::new(i as nat, |j: int| UNIT_STEP));
        }
        Individual { genes, fitness: None, step_sizes: steps, age: 0 }
    }

    /// The same individual with the given step sizes.
    pub fn with_step_sizes(self, steps: Vec<u64>) -> (r: Self)
        ensures
            r@ == (IndividualView { step_sizes: steps@, ..self@ }),
    {
        let mut s = self;
        s.step_sizes = steps;
        s
    }

    /// Number of genes.
    pub fn dimension(&self) -> (r: usize)
        ensures
            r == self@.genes.len(),
    {
        self.genes.len()
    }

    /// Records a fitness.
    pub fn set_fitness(&mut self, f: Fitness)
        ensures
            final(self)@ == (IndividualView { fitness: Some(f), ..old(self)@ }),
    {
        self.fitness = Some(f);
    }

    /// The fitness value, or NaN when there is none.
    pub fn get_fitness(&self) -> (r: u64)
        ensures
            r == (match self@.fitness {
                Some(f) => f.value,
                None => NOT_A_NUMBER,
            }),
    {
        match self.fitness {
            Some(f) => f.value,
            None => NOT_A_NUMBER,
        }
    }

    /// One generation older.
    pub fn age_one(&mut self)
        requires
            old(self).age < usize::MAX,
        ensures
            final(self)@ == (IndividualView { age: (old(self).age + 1) as usize, ..old(self)@ }),
    {
        self.age = self.age + 1;
    }
}

/// The individual at `i` has a fitness, no individual has a better one,
/// and every individual before it has a worse one.
pub open spec fn is_first_best(s: Seq<IndividualView>, i: int) -> bool {
    &&& 0 <= i < s.len()
    &&& has_fitness(s[i])
    &&& forall|j: int| 0 <= j < s.len() && has_fitness(#[trigger] s[j]) ==> rank_of(s[i]) <= rank_of(s[j])
    &&& forall|j: int| 0 <= j < i && has_fitness(#[trigger] s[j]) ==> rank_of(s[i]) < rank_of(s[j])
}

/// The individual at `i` has a fitness, no individual has a worse one,
/// and every individual after it has a better one.
pub open spec fn is_last_worst(s: Seq<IndividualView>, i: int) -> bool {
    &&& 0 <= i < s.len()
    &&& has_fitness(s[i])
    &&& forall|j: int| 0 <= j < s.len() && has_fitness(#[trigger] s[j]) ==> rank_of(s[j]) <= rank_of(s[i])
    &&& forall|j: int| i < j < s.len() && has_fitness(#[trigger] s[j]) ==> rank_of(s[j]) < rank_of(s[i])
}

/// The individual that `best` picks has the lowest fitness: no individual
/// with a ranked fitness has a lower one, and every earlier individual
/// with a ranked fitness has a strictly higher one.
pub proof fn lemma_best_has_lowest_fitness(s: Seq<IndividualView>, i: int)
    requires
        is_first_best(s, i),
        s[i].fitness.unwrap().rank is Some,
    ensures
        forall|j: int|
            0 <= j < s.len() && (#[trigger] s[j]).fitness is Some && s[j].fitness.unwrap().rank is Some
                ==> s[i].fitness.unwrap().rank.unwrap() <= s[j].fitness.unwrap().rank.unwrap(),
        forall|j: int|
            0 <= j < i && (#[trigger] s[j]).fitness is Some && s[j].fitness.unwrap().rank is Some
                ==> s[i].fitness.unwrap().rank.unwrap() < s[j].fitness.unwrap().rank.unwrap(),
{
}

/// The individual that `worst` picks has the highest fitness: no
/// individual with a ranked fitness has a higher one, and every later one
/// with a ranked fitness has a strictly lower one.
pub proof fn lemma_worst_has_highest_fitness(s: Seq<IndividualView>, i: int)
    requires
        is_last_worst(s, i),
        s[i].fitness.unwrap().rank is Some,
    ensures
        forall|j: int|
            0 <= j < s.len() && (#[trigger] s[j]).fitness is Some && s[j].fitness.unwrap().rank is Some
                ==> s[j].fitness.unwrap().rank.unwrap() <= s[i].fitness.unwrap().rank.unwrap(),
        forall|j: int|
            i < j < s.len() && (#[trigger] s[j]).fitness is Some && s[j].fitness.unwrap().rank is Some
                ==> s[j].fitness.unwrap().rank.unwrap() < s[i].fitness.unwrap().rank.unwrap(),
{
}

/// The best individual is never worse than the worst one.
pub proof fn lemma_best_no_worse_than_worst(s: Seq<IndividualView>, i: int, j: int)
    requires
        is_first_best(s, i),
        is_last_worst(s, j),
    ensures
        rank_of(s[i]) <= rank_of(s[j]),
{
}

/// Sorting by fitness brings the best individual to the front: after the
/// sort, the first individual is the one that `best` picks, as long as its
/// fitness is below positive infinity (an individual without fitness ranks
/// as positive infinity, and one of those earlier in the population would
/// otherwise stay ahead of it).
pub proof fn lemma_sort_puts_best_first(s: Seq<IndividualView>, i: int)
    requires
        is_first_best(s, i),
        rank_of(s[i]) < WORST_RANK,
    ensures
        sort_by_rank(s).len() == s.len(),
        sort_by_rank(s)[0] == s[i],
{
    broadcast use vstd::seq_lib::group_to_multiset_ensures;
    let k = rank_of(s[i]);
    let pred = ranked_at(k);
    assert(forall|j: int| 0 <= j < s.len() ==> k <= rank_of(#[trigger] s[j]));
    assert(forall|j: int| 0 <= j < i ==> !pred(#[trigger] s[j]));
    lemma_filter_first(s, pred, i);
    let sorted = sort_by_rank(s);
    lemma_sort_by_rank(s);
    lemma_sort_by_rank_stable(s, k);
    assert(s.contains(s[i]));
    assert(s.to_multiset().count(s[i]) > 0);
    assert(sorted.contains(s[i]));
    let at = choose|at: int| 0 <= at < sorted.len() && sorted[at] == s[i];
    assert(rank_of(sorted[0]) <= k);
    assert(sorted.contains(sorted[0]));
    assert(sorted.to_multiset().count(sorted[0]) > 0);
    assert(s.contains(sorted[0]));
    let from = choose|from: int| 0 <= from < s.len() && s[from] == sorted[0];
    assert(k <= rank_of(s[from]));
    lemma_filter_first(sorted, pred, 0);
}

/// No individual of `s` has a fitness.
pub open spec fn none_has_fitness(s: Seq<IndividualView>) -> bool {
    forall|i: int| 0 <= i < s.len() ==> !has_fitness(#[trigger] s[i])
}

/// The individual one generation older.
pub open spec fn aged(v: IndividualView) -> IndividualView {
    IndividualView { age: (v.age + 1) as usize, ..v }
}

/// A population of individuals.
pub struct Population {
    pub individuals: Vec<Individual>,
}

impl View for Population {
    type V = Seq<IndividualView>;

    open spec fn view(&self) -> Seq<IndividualView> {
        views(self.individuals@)
    }
}

impl Default for Population {
    fn default() -> (r: Self)
        ensures
            r@ == Seq::<IndividualView>::empty(),
    {
        Self::new()
    }
}

impl Population {
    /// An empty population.
    pub fn new() -> (r: Self)
        ensures
            r@ == Seq::<IndividualView>::empty(),
    {
        let r = Population { individuals: Vec::new() };
        assert(r@ =~= Seq::<IndividualView>::empty());
        r
    }

    /// The population of the given individuals, in their order.
    pub fn from_vec(individuals: Vec<Individual>) -> (r: Self)
        ensures
            r@ == views(individuals@),
    {
        Population { individuals }
    }

    /// Number of individuals.
    pub fn len(&self) -> (r: usize)
        ensures
            r == self@.len(),
    {
        self.individuals.len()
    }

    /// Whether there is no individual.
    pub fn is_empty(&self) -> (r: bool)
        ensures
            r == (self@.len() == 0),
    {
        self.individuals.len() == 0
    }

    /// Appends an individual.
    pub fn add(&mut self, ind: Individual)
        ensures
            final(self)@ == old(self)@.push(ind@),
    {
        self.individuals.push(ind);
        assert(self@ =~= old(self)@.push(ind@));
    }

    /// The first of the individuals with the lowest fitness, or `None`
    /// when no individual has a fitness.
    pub fn best(&self) -> (r: Option<&Individual>)
        requires
            fitness_comparable(self@),
        ensures
            r is None <==> none_has_fitness(self@),
            r matches Some(x) ==> exists|i: int| is_first_best(self@, i) && *x == self.individuals@[i],
    {
        let n = self.individuals.len();
        let mut found: Option<usize> = None;
        let mut i: usize = 0;
        while i < n
            invariant
                n == self.individuals.len(),
                i <= n,
                found is None ==> none_has_fitness(self@.take(i as int)),
                found matches Some(b) ==> b < i && is_first_best(self@.take(i as int), b as int),
            decreases n - i,
        {
            let ghost s = self@;
            if self.individuals[i].fitness.is_some() {
                match found {
                    None => {
                        found = Some(i);
                    },
                    Some(b) => {
                        if rank_key(&self.individuals[i]) < rank_key(&self.individuals[b]) {
                            found = Some(i);
                        }
                    },
                }
            }
            proof {
                let t = s.take(i + 1);
                assert(t[i as int] == s[i as int]);
                assert forall|j: int| 0 <= j < i implies t[j] == s.take(i as int)[j] by {}
            }
            i = i + 1;
        }
        proof {
            assert(self@.take(n as int) =~= self@);
        }
        match found {
            Some(b) => Some(&self.individuals[b]),
            None => None,
        }
    }

    /// The last of the individuals with the highest fitness, or `None`
    /// when no individual has a fitness.
    pub fn worst(&self) -> (r: Option<&Individual>)
        requires
            fitness_comparable(self@),
        ensures
            r is None <==> none_has_fitness(self@),
            r matches Some(x) ==> exists|i: int| is_last_worst(self@, i) && *x == self.individuals@[i],
    {
        let n = self.individuals.len();
        let mut found: Option<usize> = None;
        let mut i: usize = 0;
        while i < n
            invariant
                n == self.individuals.len(),
                i <= n,
                found is None ==> none_has_fitness(self@.take(i as int)),
                found matches Some(b) ==> b < i && is_last_worst(self@.take(i as int), b as int),
            decreases n - i,
        {
            let ghost s = self@;
            if self.individuals[i].fitness.is_some() {
                match found {
                    None => {
                        found = Some(i);
                    },
                    Some(b) => {
                        if rank_key(&self.individuals[b]) <= rank_key(&self.individuals[i]) {
                            found = Some(i);
                        }
                    },
                }
            }
            proof {
                let t = s.take(i + 1);
                assert(t[i as int] == s[i as int]);
                assert forall|j: int| 0 <= j < i implies t[j] == s.take(i as int)[j] by {}
            }
            i = i + 1;
        }
        proof {
            assert(self@.take(n as int) =~= self@);
        }
        match found {
            Some(b) => Some(&self.individuals[b]),
            None => None,
        }
    }

    /// Sorts by fitness, ascending (best first), keeping the order of
    /// equal fitness; individuals without a fitness go last.
    pub fn sort_by_fitness(&mut self)
        requires
            sortable(old(self)@),
        ensures
            final(self)@ == sort_by_rank(old(self)@),
    {
        let mut v: Vec<Individual> = Vec::new();
        std::mem::swap(&mut v, &mut self.individuals);
        self.individuals = sort_individuals(v);
    }

    /// Every individual one generation older.
    pub fn age_all(&mut self)
        requires
            forall|i: int| 0 <= i < old(self)@.len() ==> #[trigger] old(self)@[i].age < usize::MAX,
        ensures
            final(self)@ == old(self)@.map_values(|v: IndividualView| aged(v)),
    {
        let n = self.individuals.len();
        let mut i: usize = 0;
        while i < n
            invariant
                n == self.individuals.len(),
                n == old(self)@.len(),
                forall|j: int| 0 <= j < n ==> #[trigger] old(self)@[j].age < usize::MAX,
                i <= n,
                forall|j: int| 0 <= j < i ==> #[trigger] self@[j] == aged(old(self)@[j]),
                forall|j: int| i <= j < n ==> #[trigger] self@[j] == old(self)@[j],
            decreases n - i,
        {
            let mut tmp = Individual { genes: Vec::new(), fitness: None, step_sizes: Vec::new(), age: 0 };
            assert(self@[i as int] == self.individuals@[i as int]@);
            let ghost before = self.individuals@;
            self.individuals.set_and_swap(i, &mut tmp);
            assert(tmp == before[i as int]);
            assert(tmp@ == old(self)@[i as int]);
            tmp.age_one();
            self.individuals.set_and_swap(i, &mut tmp);
            assert forall|j: int| 0 <= j < n implies #[trigger] self@[j] == (if j <= i { aged(old(self)@[j]) } else { old(self)@[j] }) by {
                assert(self@[j] == self.individuals@[j]@);
                if j != i {
                    assert(self.individuals@[j] == before[j]);
                    assert(views(before)[j] == before[j]@);
                }
            }
            i = i + 1;
        }
        assert(self@ =~= old(self)@.map_values(|v: IndividualView| aged(v)));
    }
}

} // verus!
