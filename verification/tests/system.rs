use rand::rngs::StdRng;
use rand::SeedableRng;
use random_walk::monte_carlo::simulate_park_walk;
use random_walk::number::{count, negate};
use random_walk::{parse_config, Alley, Config, Intersection, Matrix, MatrixBase, Op, Sparse};

fn unit(op: Op, x: u64, y: u64) -> u64 {
    let (x, y) = (f64::from_bits(x), f64::from_bits(y));
    let z = match op {
        Op::Add => x + y,
        Op::Sub => x - y,
        Op::Mul => x * y,
        Op::Div => x / y,
    };
    z.to_bits()
}

fn numbers(values: &[u64]) -> Vec<f64> {
    values.iter().map(|v| f64::from_bits(*v)).collect()
}

/// 1 (well) - 2 (start) - 3 - 4 (exit), the alleys 3, 1 and 2 steps long.
fn park() -> Config {
    let text = "4 3\n1 2 3\n2 3 1\n3 4 2\n\n1 1\n1 4\n1 2\n";
    Config::build(parse_config(text).unwrap())
}

#[test]
fn counts_become_the_numbers_they_are() {
    for n in [0usize, 1, 2, 3, 7, 10, 255, 256, 1000, 65_535, 123_456_789, 1 << 40, (1 << 53) - 1] {
        assert_eq!(f64::from_bits(count(n, &unit)), n as f64, "{}", n);
    }
    let large = f64::from_bits(count(usize::MAX, &unit));
    assert!((large / usize::MAX as f64 - 1.0).abs() < 1e-15);
}

#[test]
fn negation_turns_the_sign_alone() {
    for x in [0.0, -0.0, 1.5, -2.25, f64::INFINITY, f64::MIN_POSITIVE] {
        assert_eq!(negate(x.to_bits()), (-x).to_bits());
    }
    assert!(f64::from_bits(negate(f64::NAN.to_bits())).is_nan());
}

#[test]
fn the_chance_of_an_alley_falls_with_its_length() {
    let a = Intersection::new(1, false, false, false);
    let b = Intersection::new(2, false, false, false);
    assert_eq!(f64::from_bits(Alley::new(a, b, 3).get_propability(&unit)), 1.0 - 3.0 / 4.0);
    assert_eq!(f64::from_bits(Alley::new(a, b, 1).get_propability(&unit)), 0.5);
    assert_eq!(f64::from_bits(Alley::new(a, b, 0).get_propability(&unit)), 1.0);
}

#[test]
fn the_system_of_a_park_weighs_the_alleys_by_their_lengths() {
    let config = park();
    assert!(config.is_linkable());
    let (sparse, b) = Sparse::from_config(&config, &unit);
    assert_eq!(numbers(&b), vec![0.0, 0.0, 0.0, 1.0]);
    let rows: Vec<Vec<f64>> = sparse.to_rows(4).iter().map(|row| numbers(row)).collect();
    let at_two = 1.0 / 3.0 + 1.0;
    let at_three = 1.0 + 1.0 / 2.0;
    assert_eq!(
        rows,
        vec![
            vec![1.0, 0.0, 0.0, 0.0],
            vec![-(1.0 / 3.0) / at_two, 1.0, -1.0 / at_two, 0.0],
            vec![0.0, -1.0 / at_three, 1.0, -(1.0 / 2.0) / at_three],
            vec![0.0, 0.0, 0.0, 1.0],
        ]
    );
    let (dense, dense_b) = Matrix::from_config(&config, &unit);
    assert_eq!(dense.rows, sparse.to_rows(4));
    assert_eq!(dense_b, b);
}

#[test]
fn a_later_alley_overwrites_an_earlier_one() {
    let one = Intersection::new(1, true, false, false);
    let two = Intersection::new(2, false, false, true);
    let config = Config {
        inters: vec![one, two],
        alleys: vec![Alley::new(one, two, 1), Alley::new(two, one, 4)],
        starting_pos: 0,
    };
    let (sparse, _) = Sparse::from_config(&config, &unit);
    let total = 1.0 + 1.0 / 4.0;
    assert_eq!(f64::from_bits(sparse.get_value(0, 1)), -(1.0 / 4.0) / total);
    assert_eq!(f64::from_bits(sparse.get_value(0, 0)), 1.0);
    assert_eq!(sparse.entries().len(), 3);
}

#[test]
fn an_alley_to_nowhere_makes_the_park_unlinkable() {
    let one = Intersection::new(1, true, false, false);
    let none = Intersection::new(0, false, false, false);
    let mut config =
        Config { inters: vec![one], alleys: vec![Alley::new(one, none, 2)], starting_pos: 0 };
    assert!(!config.is_linkable());
    // at an exit the alleys are not read
    config.inters[0].exit = true;
    assert!(config.is_linkable());
    config.inters[0].exit = false;
    config.alleys[0] = Alley::new(none, one, 2);
    assert!(!config.is_linkable());
}

#[test]
fn the_system_and_the_walks_tell_the_same_chance() {
    let config = park();
    let (sparse, b) = Sparse::from_config(&config, &unit);
    let (dense, _) = Matrix::from_config(&config, &unit);
    let exact = numbers(&sparse.gaussian_partial_pivot(&b, &unit).unwrap());
    assert!((exact[config.starting_pos] - 0.5).abs() < 1e-12, "{:?}", exact);
    assert!((exact[2] - 2.0 / 3.0).abs() < 1e-12);
    assert_eq!(exact[0], 0.0);
    assert_eq!(exact[3], 1.0);
    assert_eq!(numbers(&dense.gaussian(&b, &unit).unwrap()), exact);
    let x0 = vec![0u64; 4];
    let seidel = numbers(&sparse.gauss_seidel(&b, &x0, 1e-14f64.to_bits(), 10_000, &unit));
    assert!((seidel[1] - 0.5).abs() < 1e-9);
    assert!(config.is_walkable());
    let mut rng = StdRng::seed_from_u64(4242);
    let walked = f64::from_bits(simulate_park_walk(&mut rng, &config, 20_000, usize::MAX, &unit));
    assert!((walked - exact[config.starting_pos]).abs() < 0.02, "{}", walked);
}
