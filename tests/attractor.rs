use strange_attractors::Attractor;

type P = (i64, i64, i64);

fn shift(p: P) -> P {
    (p.0 + 1, p.1 * 2, p.2 - p.0)
}

#[test]
fn new_fills_trails_with_start_points() {
    let a: Attractor<P, 2, 3> = Attractor::new(vec![(1, 2, 3), (4, 5, 6)]);
    assert_eq!(a.point(0), (1, 2, 3));
    assert_eq!(a.point(1), (4, 5, 6));
    let t = a.trails();
    assert_eq!(t, vec![vec![(1, 2, 3); 3], vec![(4, 5, 6); 3]]);
}

#[test]
fn update_steps_each_point_and_pushes_it() {
    let mut a: Attractor<P, 2, 3> = Attractor::new(vec![(1, 1, 1), (2, 3, 4)]);
    a.update(shift);
    assert_eq!(a.point(0), (2, 2, 0));
    assert_eq!(a.point(1), (3, 6, 2));
    assert_eq!(a.trail_point(0, 0), (2, 2, 0));
    assert_eq!(a.trail_point(0, 1), (1, 1, 1));
    assert_eq!(a.trail_point(0, 2), (1, 1, 1));
    a.update(shift);
    assert_eq!(
        a.trails(),
        vec![
            vec![(3, 4, -2), (2, 2, 0), (1, 1, 1)],
            vec![(4, 12, -1), (3, 6, 2), (2, 3, 4)],
        ]
    );
}

#[test]
fn trajectory_independence() {
    let mut a: Attractor<P, 2, 4> = Attractor::new(vec![(5, 1, 0), (7, 7, 7)]);
    let mut b: Attractor<P, 2, 4> = Attractor::new(vec![(5, 1, 0), (-3, 0, 9)]);
    for _ in 0..6 {
        a.update(shift);
        b.update(shift);
        assert_eq!(a.point(0), b.point(0));
        assert_eq!(a.trails()[0], b.trails()[0]);
    }
    assert_ne!(a.point(1), b.point(1));
}

#[test]
fn determinism() {
    let run = || {
        let mut a: Attractor<P, 3, 5> = Attractor::new(vec![(1, 2, 3), (0, 0, 0), (-4, 9, 2)]);
        for k in 0..8i64 {
            a.update(move |p: P| (p.0 + k, p.1 - p.2, p.2 + 2 * k));
        }
        a.trails()
    };
    assert_eq!(run(), run());
}

#[test]
fn reset_semantics() {
    let mut a: Attractor<P, 2, 3> = Attractor::new(vec![(1, 1, 1), (2, 2, 2)]);
    a.update(shift);
    a.update(shift);
    a.reset_points(vec![(-1, 0, 1), (1, -1, 0)]);
    assert_eq!(a.point(0), (-1, 0, 1));
    assert_eq!(a.point(1), (1, -1, 0));
    for r in 0..3 {
        assert_eq!(a.trail_point(0, r), (-1, 0, 1));
        assert_eq!(a.trail_point(1, r), (1, -1, 0));
    }
}

#[test]
fn idempotent_query() {
    let mut a: Attractor<P, 3, 4> = Attractor::new(vec![(1, 0, 0), (0, 1, 0), (0, 0, 1)]);
    a.update(shift);
    let first = a.trails();
    let second = a.trails();
    assert_eq!(first, second);
    assert_eq!(first.len(), 3);
    assert!(first.iter().all(|t| t.len() == 4));
}

#[test]
fn single_trajectory_trail_of_one() {
    let mut a: Attractor<i32, 1, 1> = Attractor::new(vec![10]);
    a.update(|x: i32| x + 5);
    assert_eq!(a.point(0), 15);
    assert_eq!(a.trails(), vec![vec![15]]);
}
