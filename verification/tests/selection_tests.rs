use evolutionary_strategy::population::{Fitness, Individual, Population, WORST_RANK};
use evolutionary_strategy::selection::{comma_selection, evolve, plus_selection, select_mu_best, SelectionStrategy};

fn bits(v: Vec<f64>) -> Vec<u64> {
    v.into_iter().map(|x| x.to_bits()).collect()
}

fn rank(f: f64) -> Option<i64> {
    if f.is_nan() {
        None
    } else if f == f64::INFINITY {
        Some(WORST_RANK)
    } else if f == 0.0 {
        Some(0)
    } else if f > 0.0 {
        Some(f.to_bits() as i64)
    } else {
        Some(-((-f).to_bits() as i64))
    }
}

fn make_ind(genes: Vec<f64>, fitness: f64) -> Individual {
    let mut ind = Individual::new(bits(genes));
    ind.set_fitness(Fitness { value: fitness.to_bits(), rank: rank(fitness) });
    ind
}

fn fitness_of(ind: &Individual) -> f64 {
    f64::from_bits(ind.get_fitness())
}

#[test]
fn test_select_mu_best() {
    let inds = vec![make_ind(vec![1.0], 5.0), make_ind(vec![2.0], 1.0), make_ind(vec![3.0], 3.0)];
    let best = select_mu_best(&inds, 2);
    assert_eq!(best.len(), 2);
    assert!((fitness_of(&best[0]) - 1.0).abs() < 1e-10);
    assert!((fitness_of(&best[1]) - 3.0).abs() < 1e-10);
}

#[test]
fn test_select_mu_best_fewer() {
    let inds = vec![make_ind(vec![1.0], 5.0)];
    let best = select_mu_best(&inds, 5);
    assert_eq!(best.len(), 1);
}

#[test]
fn test_comma_selection() {
    let parents = vec![make_ind(vec![0.0], 0.1)];
    let offspring = vec![make_ind(vec![1.0], 1.0), make_ind(vec![2.0], 0.5)];
    let selected = comma_selection(&parents, &offspring, 1);
    assert_eq!(selected.len(), 1);
    assert!((fitness_of(&selected[0]) - 0.5).abs() < 1e-10);
}

#[test]
fn test_comma_ignores_parents() {
    let parents = vec![make_ind(vec![0.0], 0.01)];
    let offspring = vec![make_ind(vec![1.0], 5.0)];
    let selected = comma_selection(&parents, &offspring, 1);
    assert!((fitness_of(&selected[0]) - 5.0).abs() < 1e-10);
}

#[test]
fn test_plus_selection() {
    let parents = vec![make_ind(vec![0.0], 0.01)];
    let offspring = vec![make_ind(vec![1.0], 5.0), make_ind(vec![2.0], 0.5)];
    let selected = plus_selection(&parents, &offspring, 2);
    assert_eq!(selected.len(), 2);
    assert!((fitness_of(&selected[0]) - 0.01).abs() < 1e-10);
}

#[test]
fn test_plus_includes_parents() {
    let parents = vec![make_ind(vec![0.0], 0.01)];
    let offspring = vec![make_ind(vec![1.0], 5.0)];
    let selected = plus_selection(&parents, &offspring, 2);
    assert_eq!(selected.len(), 2);
}

#[test]
fn test_plus_selection_size() {
    let parents = vec![make_ind(vec![0.0], 1.0)];
    let offspring: Vec<Individual> = (0..10).map(|i| make_ind(vec![i as f64], i as f64)).collect();
    let selected = plus_selection(&parents, &offspring, 5);
    assert_eq!(selected.len(), 5);
}

#[test]
fn test_selection_strategy_enum() {
    assert_ne!(SelectionStrategy::Comma, SelectionStrategy::Plus);
}

#[test]
fn select_mu_best_skips_missing_fitness_and_keeps_ties_in_order() {
    let inds = vec![
        make_ind(vec![1.0], 2.0),
        Individual::new(bits(vec![2.0])),
        make_ind(vec![3.0], 2.0),
        make_ind(vec![4.0], -1.0),
    ];
    let best = select_mu_best(&inds, 10);
    let genes: Vec<Vec<u64>> = best.iter().map(|i| i.genes.clone()).collect();
    assert_eq!(genes, vec![bits(vec![4.0]), bits(vec![1.0]), bits(vec![3.0])]);
    assert!(select_mu_best(&inds, 0).is_empty());
}

#[test]
fn select_mu_best_keeps_an_unranked_single_candidate() {
    let inds = vec![make_ind(vec![1.0], f64::NAN), Individual::new(bits(vec![2.0]))];
    let best = select_mu_best(&inds, 3);
    assert_eq!(best.len(), 1);
    assert!(fitness_of(&best[0]).is_nan());
}

#[test]
fn plus_selection_puts_missing_fitness_last_and_parents_first_on_ties() {
    let parents = vec![make_ind(vec![0.0], 3.0), Individual::new(bits(vec![9.0]))];
    let offspring = vec![make_ind(vec![1.0], 3.0), make_ind(vec![2.0], f64::INFINITY), make_ind(vec![3.0], 1.0)];
    let selected = plus_selection(&parents, &offspring, 10);
    let genes: Vec<Vec<u64>> = selected.iter().map(|i| i.genes.clone()).collect();
    assert_eq!(
        genes,
        vec![bits(vec![3.0]), bits(vec![0.0]), bits(vec![1.0]), bits(vec![9.0]), bits(vec![2.0])]
    );
}

#[test]
fn plus_keeps_the_best_parent() {
    let parents = vec![make_ind(vec![0.0], 0.25), make_ind(vec![1.0], 8.0)];
    let offspring = vec![make_ind(vec![2.0], 3.0), make_ind(vec![3.0], 4.0)];
    let selected = plus_selection(&parents, &offspring, 1);
    assert_eq!(selected.len(), 1);
    assert_eq!(selected[0].genes, bits(vec![0.0]));
}

fn shift_genes(ind: &Individual) -> Individual {
    let genes: Vec<u64> = ind.genes.iter().map(|g| (f64::from_bits(*g) + 100.0).to_bits()).collect();
    let mut child = Individual::new(genes.clone());
    let f = f64::from_bits(genes[0]);
    child.set_fitness(Fitness { value: f.to_bits(), rank: rank(f) });
    child
}

#[test]
fn evolve_cycles_through_parents_and_advances_the_counter() {
    let pop = Population::from_vec(vec![make_ind(vec![1.0], 1.0), make_ind(vec![2.0], 2.0), make_ind(vec![3.0], 3.0)]);
    let mut counter: usize = 0;
    let next = evolve(&pop, SelectionStrategy::Comma, 10, 4, shift_genes, &mut counter);
    assert_eq!(counter, 1);
    let genes: Vec<Vec<u64>> = next.individuals.iter().map(|i| i.genes.clone()).collect();
    assert_eq!(genes, vec![bits(vec![101.0]), bits(vec![102.0]), bits(vec![102.0]), bits(vec![103.0])]);
}

#[test]
fn evolve_plus_keeps_parents_that_beat_children() {
    let pop = Population::from_vec(vec![make_ind(vec![1.0], 1.0), make_ind(vec![2.0], 2.0)]);
    let mut counter: usize = 7;
    let next = evolve(&pop, SelectionStrategy::Plus, 2, 3, shift_genes, &mut counter);
    assert_eq!(counter, 0);
    assert_eq!(next.len(), 2);
    assert_eq!(next.individuals[0].genes, bits(vec![1.0]));
    assert_eq!(next.individuals[1].genes, bits(vec![2.0]));
}

#[test]
fn evolve_on_empty_population_makes_no_children() {
    let pop = Population::new();
    let mut counter: usize = 5;
    let next = evolve(&pop, SelectionStrategy::Plus, 3, 4, shift_genes, &mut counter);
    assert_eq!(counter, 5);
    assert!(next.is_empty());
}
