//! Parent mixing (recombination).
use vstd::prelude::*;
use crate::population::{Individual, IndividualView};
use crate::ranking::views;

verus! {

/// Recombination type.
#[derive(Clone, Copy, Debug, PartialEq, Eq, Structural)]
pub enum RecombinationType {
    /// Randomly pick each gene from either parent.
    Discrete,
    /// Average of the two parents.
    Intermediate,
    /// Pick each gene from any parent in the pool.
    GlobalDiscrete,
    /// Average across all parents.
    GlobalIntermediate,
}

/// The smallest of three lengths.
pub open spec fn shortest(a: nat, b: nat, c: nat) -> nat {
    if a <= b && a <= c {
        a
    } else if b <= c {
        b
    } else {
        c
    }
}

/// Position by position, the value of `x` where the mask is set and of `y`
/// where it is not; as long as the shortest of the three.
pub open spec fn masked(x: Seq<u64>, y: Seq<u64>, mask: Seq<bool>) -> Seq<u64> {
    Seq::new(shortest(x.len(), y.len(), mask.len()), |i: int| if mask[i] { x[i] } else { y[i] })
}

/// The parent from which global discrete recombination takes position `i`:
/// the selection at `i` (0 where there is none), modulo the number of parents.
pub open spec fn chosen_parent(selections: Seq<usize>, i: int, n: int) -> int {
    (if i < selections.len() { selections[i] as int } else { 0 }) % n
}

/// The child of global discrete recombination of `parents` (not empty).
pub open spec fn global_discrete_child(parents: Seq<IndividualView>, selections: Seq<usize>) -> IndividualView {
    let dim = parents[0].genes.len();
    IndividualView {
        genes: Seq::new(dim, |i: int| parents[chosen_parent(selections, i, parents.len() as int)].genes[i]),
        fitness: None,
        step_sizes: Seq::new(
            dim,
            |i: int| parents[chosen_parent(selections, i, parents.len() as int)].step_sizes[i],
        ),
        age: 0,
    }
}

/// Every parent chosen for a position of the first parent's genes has a
/// gene and a step size there.
pub open spec fn parents_cover(parents: Seq<IndividualView>, selections: Seq<usize>) -> bool {
    parents.len() > 0 ==> forall|i: int|
        #![trigger chosen_parent(selections, i, parents.len() as int)]
        0 <= i < parents[0].genes.len() ==> {
            let p = parents[chosen_parent(selections, i, parents.len() as int)];
            i < p.genes.len() && i < p.step_sizes.len()
        }
}

/// Masked picking takes position `i` from the first sequence exactly where
/// the mask is set, from the second where it is not, and stops at the end
/// of the shortest of the three.
pub proof fn lemma_masked_picks_by_mask(x: Seq<u64>, y: Seq<u64>, mask: Seq<bool>)
    ensures
        masked(x, y, mask).len() <= x.len(),
        masked(x, y, mask).len() <= y.len(),
        masked(x, y, mask).len() <= mask.len(),
        masked(x, y, mask).len() == x.len() || masked(x, y, mask).len() == y.len()
            || masked(x, y, mask).len() == mask.len(),
        forall|i: int| 0 <= i < masked(x, y, mask).len() && mask[i] ==> #[trigger] masked(x, y, mask)[i] == x[i],
        forall|i: int| 0 <= i < masked(x, y, mask).len() && !mask[i] ==> #[trigger] masked(x, y, mask)[i] == y[i],
{
}

/// Swapping the two parents and inverting the mask gives the same child.
pub proof fn lemma_masked_swap(x: Seq<u64>, y: Seq<u64>, mask: Seq<bool>)
    ensures
        masked(x, y, mask) == masked(y, x, mask.map_values(|b: bool| !b)),
{
    assert(masked(x, y, mask) =~= masked(y, x, mask.map_values(|b: bool| !b)));
}

/// Global discrete recombination takes position `i` from the parent that
/// selection `i` names (modulo the number of parents), and from the first
/// parent where there is no selection; the child is as long as the first
/// parent, has no fitness and age 0.
pub proof fn lemma_global_discrete_takes_named_parent(parents: Seq<IndividualView>, selections: Seq<usize>)
    requires
        parents.len() > 0,
    ensures
        global_discrete_child(parents, selections).genes.len() == parents[0].genes.len(),
        global_discrete_child(parents, selections).step_sizes.len() == parents[0].genes.len(),
        global_discrete_child(parents, selections).fitness is None,
        global_discrete_child(parents, selections).age == 0,
        forall|i: int|
            0 <= i < parents[0].genes.len() && i < selections.len() ==> {
                let p = parents[(selections[i] as int) % (parents.len() as int)];
                &&& #[trigger] global_discrete_child(parents, selections).genes[i] == p.genes[i]
                &&& global_discrete_child(parents, selections).step_sizes[i] == p.step_sizes[i]
            },
        forall|i: int|
            0 <= i < parents[0].genes.len() && selections.len() <= i ==> {
                &&& #[trigger] global_discrete_child(parents, selections).genes[i] == parents[0].genes[i]
                &&& global_discrete_child(parents, selections).step_sizes[i] == parents[0].step_sizes[i]
            },
{
    let n = parents.len() as int;
    vstd::arithmetic::div_mod::lemma_small_mod(0, n as nat);
}

fn masked_values(x: &Vec<u64>, y: &Vec<u64>, mask: &[bool]) -> (r: Vec<u64>)
    ensures
        r@ == masked(x@, y@, mask@),
{
    let mut n = x.len();
    if y.len() < n {
        n = y.len();
    }
    if mask.len() < n {
        n = mask.len();
    }
    let mut r: Vec<u64> = Vec::new();
    let mut i: usize = 0;
    while i < n
        invariant
            n == shortest(x@.len(), y@.len(), mask@.len()),
            i <= n,
            r@ == masked(x@, y@, mask@).take(i as int),
        decreases n - i,
    {
        if mask[i] {
            r.push(x[i]);
        } else {
            r.push(y[i]);
        }
        i = i + 1;
        assert(r@ =~= masked(x@, y@, mask@).take(i as int));
    }
    assert(masked(x@, y@, mask@).take(n as int) =~= masked(x@, y@, mask@));
    r
}

/// Discrete recombination: each gene (and step size) from `a` where the
/// mask is set and from `b` where it is not. The child has no fitness and
/// age 0.
pub fn discrete(a: &Individual, b: &Individual, mask: &[bool]) -> (r: Individual)
    ensures
        r@ == (IndividualView {
            genes: masked(a@.genes, b@.genes, mask@),
            fitness: None,
            step_sizes: masked(a@.step_sizes, b@.step_sizes, mask@),
            age: 0,
        }),
{
    let genes = masked_values(&a.genes, &b.genes, mask);
    let steps = masked_values(&a.step_sizes, &b.step_sizes, mask);
    Individual { genes, fitness: None, step_sizes: steps, age: 0 }
}

/// Global discrete: for each gene position, take the gene (and step size)
/// of the parent that `selections` names there. `None` when there is no
/// parent. The child has as many genes as the first parent, no fitness and
/// age 0.
pub fn global_discrete(parents: &[Individual], selections: &[usize]) -> (r: Option<Individual>)
    requires
        parents_cover(views(parents@), selections@),
    ensures
        r is None <==> parents@.len() == 0,
        r matches Some(c) ==> c@ == global_discrete_child(
            views(parents@),
            selections@,
        ),
{
    if parents.len() == 0 {
        return None;
    }
    let ghost ps = views(parents@);
    let n = parents.len();
    let dim = parents[0].genes.len();
    let ghost child = global_discrete_child(ps, selections@);
    let mut genes: Vec<u64> = Vec::new();
    let mut steps: Vec<u64> = Vec::new();
    let mut i: usize = 0;
    while i < dim
        invariant
            n == parents@.len(),
            n > 0,
            ps == views(parents@),
            dim == ps[0].genes.len(),
            child == global_discrete_child(ps, selections@),
            parents_cover(ps, selections@),
            i <= dim,
            genes@ == child.genes.take(i as int),
            steps@ == child.step_sizes.take(i as int),
        decreases dim - i,
    {
        let s = if i < selections.len() {
            selections[i]
        } else {
            0
        };
        let idx = s % n;
        assert(idx as int == chosen_parent(selections@, i as int, n as int));
        assert(ps[idx as int] == parents@[idx as int]@);
        genes.push(parents[idx].genes[i]);
        steps.push(parents[idx].step_sizes[i]);
        i = i + 1;
        assert(genes@ =~= child.genes.take(i as int));
        assert(steps@ =~= child.step_sizes.take(i as int));
    }
    assert(child.genes.take(dim as int) =~= child.genes);
    assert(child.step_sizes.take(dim as int) =~= child.step_sizes);
    Some(Individual { genes, fitness: None, step_sizes: steps, age: 0 })
}

} // verus!
