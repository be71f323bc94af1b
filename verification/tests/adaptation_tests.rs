use evolutionary_strategy::adaptation::count_improvements;
use evolutionary_strategy::population::{Fitness, Individual, WORST_RANK};

fn rank(f: f64) -> Option<i64> {
    if f.is_nan() {
        None
    } else if f == f64::INFINITY {
        Some(WORST_RANK)
    } else if f == 0.0 {
        Some(0)
    } else if f > 0.0 {
        Some(f.to_bits() as i64)
    } else {
        Some(-((-f).to_bits() as i64))
    }
}

fn with_fitness(gene: f64, f: f64) -> Individual {
    let mut ind = Individual::new(vec![gene.to_bits()]);
    ind.set_fitness(Fitness { value: f.to_bits(), rank: rank(f) });
    ind
}

#[test]
fn test_count_improvements() {
    let parents = vec![with_fitness(0.0, 5.0)];
    let offspring = vec![with_fitness(1.0, 3.0)];
    assert_eq!(count_improvements(&parents, &offspring), 1);
}

#[test]
fn test_count_improvements_none() {
    let parents = vec![with_fitness(0.0, 1.0)];
    let offspring = vec![with_fitness(1.0, 10.0)];
    assert_eq!(count_improvements(&parents, &offspring), 0);
}

#[test]
fn improvements_are_measured_against_the_best_parent() {
    let parents = vec![with_fitness(0.0, 4.0), with_fitness(0.0, 2.0), Individual::new(vec![0]), with_fitness(0.0, f64::NAN)];
    let offspring = vec![
        with_fitness(1.0, 3.0),
        with_fitness(1.0, 1.0),
        with_fitness(1.0, 2.0),
        with_fitness(1.0, -7.0),
        with_fitness(1.0, f64::NAN),
        Individual::new(vec![0]),
    ];
    assert_eq!(count_improvements(&parents, &offspring), 2);
}

#[test]
fn without_parent_fitness_every_finite_offspring_improves() {
    let parents = vec![Individual::new(vec![0])];
    let offspring = vec![with_fitness(1.0, 1e300), with_fitness(1.0, f64::INFINITY), with_fitness(1.0, -3.0)];
    assert_eq!(count_improvements(&parents, &offspring), 2);
    assert_eq!(count_improvements(&[], &offspring), 2);
}

#[test]
fn a_population_never_improves_on_itself() {
    let pop = vec![with_fitness(0.0, 4.0), with_fitness(0.0, -2.0), with_fitness(0.0, 9.0)];
    assert_eq!(count_improvements(&pop, &pop), 0);
}
