use evolutionary_strategy::population::{Fitness, Individual};
use evolutionary_strategy::recombination::{discrete, global_discrete, RecombinationType};

fn bits(v: Vec<f64>) -> Vec<u64> {
    v.into_iter().map(|x| x.to_bits()).collect()
}

#[test]
fn test_discrete_picks_a() {
    let a = Individual::new(bits(vec![1.0, 2.0]));
    let b = Individual::new(bits(vec![10.0, 20.0]));
    let child = discrete(&a, &b, &[true, true]);
    assert_eq!(child.genes, bits(vec![1.0, 2.0]));
}

#[test]
fn test_discrete_picks_b() {
    let a = Individual::new(bits(vec![1.0, 2.0]));
    let b = Individual::new(bits(vec![10.0, 20.0]));
    let child = discrete(&a, &b, &[false, false]);
    assert_eq!(child.genes, bits(vec![10.0, 20.0]));
}

#[test]
fn test_discrete_mixed() {
    let a = Individual::new(bits(vec![1.0, 2.0]));
    let b = Individual::new(bits(vec![10.0, 20.0]));
    let child = discrete(&a, &b, &[true, false]);
    assert_eq!(child.genes, bits(vec![1.0, 20.0]));
}

#[test]
fn test_global_discrete() {
    let a = Individual::new(bits(vec![1.0, 2.0, 3.0]));
    let b = Individual::new(bits(vec![10.0, 20.0, 30.0]));
    let child = global_discrete(&[a, b], &[0, 1, 0]).unwrap();
    assert_eq!(child.genes, bits(vec![1.0, 20.0, 3.0]));
}

#[test]
fn test_global_discrete_empty() {
    assert!(global_discrete(&[], &[]).is_none());
}

#[test]
fn discrete_takes_step_sizes_by_the_mask_and_resets() {
    let mut a = Individual::new(bits(vec![1.0, 2.0, 3.0])).with_step_sizes(bits(vec![0.1, 0.2, 0.3]));
    a.set_fitness(Fitness { value: 5.0f64.to_bits(), rank: Some(5) });
    a.age_one();
    let b = Individual::new(bits(vec![10.0, 20.0, 30.0])).with_step_sizes(bits(vec![1.1, 1.2, 1.3]));
    let child = discrete(&a, &b, &[false, true, false]);
    assert_eq!(child.genes, bits(vec![10.0, 2.0, 30.0]));
    assert_eq!(child.step_sizes, bits(vec![1.1, 0.2, 1.3]));
    assert!(child.fitness.is_none());
    assert_eq!(child.age, 0);
}

#[test]
fn discrete_is_as_long_as_the_shortest_input() {
    let a = Individual::new(bits(vec![1.0, 2.0, 3.0]));
    let b = Individual::new(bits(vec![10.0, 20.0]));
    let child = discrete(&a, &b, &[true, true, true]);
    assert_eq!(child.genes, bits(vec![1.0, 2.0]));
    let short_mask = discrete(&a, &b, &[false]);
    assert_eq!(short_mask.genes, bits(vec![10.0]));
    assert_eq!(short_mask.step_sizes, bits(vec![1.0]));
}

#[test]
fn global_discrete_wraps_selections_and_defaults_to_first_parent() {
    let a = Individual::new(bits(vec![1.0, 2.0, 3.0, 4.0])).with_step_sizes(bits(vec![0.1, 0.2, 0.3, 0.4]));
    let b = Individual::new(bits(vec![10.0, 20.0, 30.0, 40.0]));
    let c = Individual::new(bits(vec![100.0, 200.0, 300.0, 400.0]));
    let child = global_discrete(&[a, b, c], &[5, 3]).unwrap();
    assert_eq!(child.genes, bits(vec![100.0, 2.0, 3.0, 4.0]));
    assert_eq!(child.step_sizes, bits(vec![1.0, 0.2, 0.3, 0.4]));
    assert!(child.fitness.is_none());
    assert_eq!(child.age, 0);
}

#[test]
fn recombination_types_are_distinct() {
    assert_ne!(RecombinationType::Discrete, RecombinationType::Intermediate);
    assert_ne!(RecombinationType::GlobalDiscrete, RecombinationType::GlobalIntermediate);
    assert_eq!(RecombinationType::Discrete, RecombinationType::Discrete.clone());
}
