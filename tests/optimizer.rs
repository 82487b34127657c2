use evo_art::canvas::Image;
use evo_art::crowding::{calculate_crowding_distance, INFINITE_DISTANCE};
use evo_art::fitness::Objective;
use evo_art::geometry::{Color, Scale, Triangle, Vertex};
use evo_art::pareto::{dominates, fitness_less, non_dominated_sort};
use evo_art::vector::{Environment, Vector};

fn candidate(fitness: &[i64]) -> Vector {
    let mut v = Vector::from_triangles(Vec::new(), fitness.len());
    v.fitness = fitness.to_vec();
    v
}

fn black_target(size: u32) -> Image {
    let mut img = Image::new(size, size);
    for p in img.pixels.iter_mut() {
        *p = Color { r: 0, g: 0, b: 0, a: 255 };
    }
    img
}

#[test]
fn dominance_is_strict() {
    let a = candidate(&[1, 2]);
    let b = candidate(&[2, 2]);
    let c = candidate(&[0, 5]);
    assert!(!dominates(&a, &a));
    assert!(dominates(&a, &b));
    assert!(!dominates(&b, &a));
    assert!(!dominates(&a, &c) && !dominates(&c, &a));
    assert!(!dominates(&b, &candidate(&[2, 2])));
}

#[test]
fn lexicographic_order() {
    assert!(fitness_less(&vec![1, 9], &vec![2, 0]));
    assert!(!fitness_less(&vec![2, 0], &vec![1, 9]));
    assert!(fitness_less(&vec![1, 2], &vec![1, 3]));
    assert!(!fitness_less(&vec![1, 2], &vec![1, 2]));
    assert!(fitness_less(&vec![1], &vec![1, 0]));
}

#[test]
fn first_front_holds_exactly_the_undominated() {
    let pool = vec![
        candidate(&[3, 3]),
        candidate(&[1, 4]),
        candidate(&[2, 2]),
        candidate(&[4, 1]),
        candidate(&[5, 5]),
        candidate(&[2, 3]),
    ];
    let fronts = non_dominated_sort(&pool, 2);
    assert_eq!(fronts[0], vec![1, 2, 3]);
    assert_eq!(fronts[1], vec![5]);
    assert_eq!(fronts[2], vec![0]);
    assert_eq!(fronts[3], vec![4]);
    let total: usize = fronts.iter().map(|f| f.len()).sum();
    assert_eq!(total, pool.len());
    for &i in &fronts[0] {
        assert!(pool.iter().all(|other| !dominates(other, &pool[i])));
    }
}

#[test]
fn crowding_extremes_are_infinite() {
    let mut front = vec![
        candidate(&[3, 1]),
        candidate(&[1, 3]),
        candidate(&[2, 2]),
        candidate(&[0, 4]),
    ];
    calculate_crowding_distance(&mut front, 2);
    for v in &front {
        if v.fitness == vec![0, 4] || v.fitness == vec![3, 1] {
            assert_eq!(v.crowding_distance, INFINITE_DISTANCE);
        } else {
            // both objectives add (next − prev) / range = 2 / 3
            assert_eq!(v.crowding_distance, 2 * 666_666);
        }
    }
}

#[test]
fn crowding_with_zero_range_skips_the_objective() {
    let mut front = vec![candidate(&[7, 1]), candidate(&[7, 2]), candidate(&[7, 3])];
    calculate_crowding_distance(&mut front, 2);
    let middle = front.iter().find(|v| v.fitness == vec![7, 2]).unwrap();
    // the first objective's range is zero: only the second counts, (3 − 1) / 2
    assert_eq!(middle.crowding_distance, 1_000_000);
    let mut flat = vec![candidate(&[7]), candidate(&[7]), candidate(&[7])];
    calculate_crowding_distance(&mut flat, 1);
    assert_eq!(flat[1].crowding_distance, 0);
}

fn env_with(pool_size: usize, objectives: Vec<Objective>) -> Environment {
    Environment::new(pool_size, Scale { numer: 17, denom: 10 }, 30_000, black_target(4), 1, 2, objectives, 3)
}

#[test]
fn nsga_selection_fills_exactly_the_pool() {
    let mut env = env_with(4, vec![Objective::PixelCompare, Objective::Benford]);
    env.generate_initial_pool();
    let old_pool: Vec<Vector> = env.pool.iter().map(|v| v.duplicate()).collect();
    env.nsga_selection(&old_pool);
    assert_eq!(env.pool.len(), 4);
    let mut small = env_with(5, vec![Objective::PixelCompare, Objective::Benford]);
    small.generate_initial_pool();
    let extra: Vec<Vector> = small.pool.iter().take(2).map(|v| v.duplicate()).collect();
    small.pool.truncate(3);
    small.nsga_selection(&extra);
    assert_eq!(small.pool.len(), 5);
}

#[test]
fn single_objective_selection_sorts() {
    let mut env = env_with(4, vec![Objective::PixelCompare]);
    env.generate_initial_pool();
    env.single_objective_selection();
    assert_eq!(env.pool.len(), 4);
    for w in env.pool.windows(2) {
        assert!(w[0].fitness[0] <= w[1].fitness[0]);
    }
}

#[test]
fn tournament_keeps_the_first_of_equals() {
    let mut env = env_with(4, vec![Objective::PixelCompare]);
    env.pool = vec![candidate(&[5]), candidate(&[3]), candidate(&[3]), candidate(&[9])];
    assert_eq!(env.tournament_winner(&vec![0, 2, 1, 3]), 2);
    assert_eq!(env.tournament_winner(&vec![3, 0]), 0);
    assert_eq!(env.tournament_winner(&vec![3]), 3);
    assert!(env.tournament_selection(5) < 4);
}

#[test]
fn crossover_takes_each_triangle_from_one_parent() {
    let t = |x: u32| Triangle {
        vertex1: Vertex { x, y: 0 },
        vertex2: Vertex { x: 0, y: 1 },
        vertex3: Vertex { x: 1, y: 1 },
        color: Color { r: 1, g: 2, b: 3, a: 60 },
    };
    let a = Vector::from_triangles(vec![t(1), t(2), t(3)], 1);
    let b = Vector::from_triangles(vec![t(4), t(5), t(6)], 1);
    let picked = Vector::crossover_with(&a, &b, &vec![true, false, true], 1);
    assert_eq!(picked.triangles, vec![t(1), t(5), t(3)]);
    assert_eq!(picked.fitness, vec![0]);
    assert_eq!(Vector::crossover(&a, &b, 0, 1).triangles, b.triangles);
    assert_eq!(Vector::crossover(&a, &b, 1_000_000, 1).triangles, a.triangles);
}

#[test]
fn end_to_end_single_objective() {
    let mut env = env_with(4, vec![Objective::PixelCompare]);
    env.generate_initial_pool();
    assert_eq!(env.pool.len(), 4);
    for v in &env.pool {
        assert_eq!(v.triangles.len(), 1);
        assert!(v.fitness[0] >= 0);
    }
    let worst = env.pool.iter().map(|v| v.fitness[0]).max().unwrap();
    env.iterate();
    assert_eq!(env.pool.len(), 4);
    for v in &env.pool {
        assert!(v.fitness[0] <= worst);
    }
}

#[test]
fn end_to_end_three_objectives() {
    let mut env = env_with(4, vec![Objective::PixelCompare, Objective::Contrast, Objective::Benford]);
    env.generate_initial_pool();
    for _ in 0..3 {
        env.iterate();
        assert_eq!(env.pool.len(), 4);
        assert!(env.pool.iter().all(|v| v.fitness.len() == 3));
    }
    let front = env.get_first_front();
    assert!(!front.is_empty());
    for v in &front {
        assert!(env.pool.iter().all(|other| !dominates(other, v)));
    }
}

#[test]
fn population_scores_match_the_evaluators() {
    let mut env = env_with(5, vec![Objective::PixelCompare, Objective::Benford, Objective::Contrast]);
    env.generate_initial_pool();
    for v in &env.pool {
        let img = evo_art::draw::draw_vector(v, 4, 4);
        assert_eq!(v.fitness[0], evo_art::fitness::pixel_compare::calculate_mse(&env.target_img, &img));
        assert_eq!(v.fitness[1], evo_art::fitness::benford::calculate_benford(&img));
        assert_eq!(v.fitness[2], evo_art::fitness::contrast::calculate_contrast(&img));
    }
}

#[test]
fn random_vector_has_the_requested_shape() {
    let v = Vector::generate_random_vector(6, 5, 7, 2);
    assert_eq!(v.triangles.len(), 7);
    assert_eq!(v.fitness, vec![0, 0]);
    assert!(v.triangles.iter().all(|t| t.vertex1.x < 6 && t.vertex3.y < 5));
}

#[test]
fn fitness_mean_rounds_down() {
    let mut env = env_with(4, vec![Objective::PixelCompare, Objective::Benford]);
    assert_eq!(env.fitness_mean(), vec![0, 0]);
    env.pool = vec![candidate(&[5, -5]), candidate(&[-3, 0]), candidate(&[0, 0])];
    // 2 / 3 rounds down to 0; −5 / 3 rounds down to −2
    assert_eq!(env.fitness_mean(), vec![0, -2]);
    env.pool = vec![candidate(&[7, -5]), candidate(&[8, 0])];
    assert_eq!(env.fitness_mean(), vec![7, -3]);
}
