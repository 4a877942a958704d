use hyperanf::{Engine, Graph, HyperLogLog, NodeId};

/// The floating-point layer over the sketch's exact integer quantities:
/// bias-corrected cardinality estimate.
fn estimate_of(sk: &HyperLogLog) -> f64 {
    let m = sk.register_count() as f64;
    let p = sk.precision();
    let alpha = match p {
        4 => 0.673,
        5 => 0.987,
        6 => 0.709,
        _ => 0.7213 / (1.0 + 1.079 / m),
    };
    let s = sk.indicator_numerator() as f64;
    let two65 = 2f64.powi(65);
    let raw = alpha * m * m * two65 / s;
    let two32 = 2f64.powi(32);
    if raw <= 2.5 * m {
        let z = sk.zero_count();
        if z != 0 {
            m * (m / (z as f64)).ln()
        } else {
            raw
        }
    } else if raw <= (1.0 / 30.0) * two32 {
        raw
    } else {
        -two32 * (1.0 - raw / two32).ln()
    }
}

fn set_values(counter: &mut HyperLogLog, values: &[u32]) {
    values.iter().for_each(|x| {
        counter.add(&NodeId::from_u64(*x as u64));
    });
}

fn count_values(values: &[u32]) -> f64 {
    let mut counter = HyperLogLog::new(8);
    set_values(&mut counter, &values);
    estimate_of(&counter)
}

#[test]
fn empty() {
    let values = [];
    assert!(count_values(&values).round() < 1e-6);
}

#[test]
fn basic_case() {
    let values = [32, 64, 100];
    assert!(count_values(&values).round() == 3_f64);
}

#[test]
fn basic_case_2() {
    let values = [3200, 1, 2, 2, 3, 10000];
    assert!(count_values(&values).round() == 5_f64)
}

#[test]
fn union() {
    let values1 = [1, 2, 3];
    let values2 = [1, 4, 5, 6];
    let mut counter1 = HyperLogLog::new(8);
    let mut counter2 = HyperLogLog::new(8);
    set_values(&mut counter1, &values1);
    set_values(&mut counter2, &values2);
    counter1.union(&counter2);
    assert!(estimate_of(&counter1).round() == 6_f64);
}

#[test]
fn union_idempotent() {
    let mut a = HyperLogLog::new(8);
    set_values(&mut a, &[7, 8, 9]);
    let b = a.clone();
    a.union(&b);
    assert!(a == b);
}

#[test]
fn copy_then_equal() {
    let mut a = HyperLogLog::new(8);
    set_values(&mut a, &[11, 22, 33]);
    let mut c = HyperLogLog::new(8);
    c.set_registers(&a);
    assert!(c == a);
    assert!(estimate_of(&c) == estimate_of(&a));
}

#[test]
fn fresh_sketch_exact_quantities() {
    let sk = HyperLogLog::new(4);
    assert_eq!(sk.register_count(), 16);
    assert_eq!(sk.zero_count(), 16);
    // sixteen zero registers, each contributing 2^65
    assert_eq!(sk.indicator_numerator(), 16u128 << 65);
    assert_eq!(sk.precision(), 4);
}

#[test]
fn insert_touches_one_register() {
    let mut sk = HyperLogLog::new(4);
    sk.add(&NodeId::from_u64(42));
    assert_eq!(sk.zero_count(), 15);
    // inserting the same identifier again changes nothing
    let before = sk.indicator_numerator();
    sk.add(&NodeId::from_u64(42));
    assert_eq!(sk.indicator_numerator(), before);
}

#[test]
fn precision_sensitivity() {
    // With more registers the relative error over many distinct element
    // sets shrinks: compare mean squared relative error at p = 5 and
    // p = 11 over thirty trials of two hundred elements each.
    let truth = 200u64;
    let mut mse = [0.0f64; 2];
    for (slot, p) in [(0usize, 5u8), (1usize, 11u8)] {
        let mut acc = 0.0f64;
        for seed in 0..30u64 {
            let mut sk = HyperLogLog::new(p);
            for i in 0..truth {
                sk.add(&NodeId::from_u64(seed * 100_000 + i));
            }
            let rel = (estimate_of(&sk) - truth as f64) / truth as f64;
            acc += rel * rel;
        }
        mse[slot] = acc / 30.0;
    }
    assert!(mse[1] < mse[0]);
}

#[test]
fn node_id_canonical() {
    assert!(NodeId::from_digits(vec![5, 0, 0]) == NodeId::from_u64(5));
    assert!(NodeId::from_digits(vec![]) == NodeId::from_u64(0));
    assert!(NodeId::from_digits(vec![0, 0]) == NodeId::from_u64(0));
    assert!(NodeId::from_digits(vec![1, 1]) != NodeId::from_u64(1));
    assert_eq!(NodeId::from_digits(vec![9, 8]).digits(), &vec![9u64, 8]);
}

#[test]
fn graph_adjacency() {
    // duplicate edge in both directions, plus a self-loop
    let edges = vec![
        (NodeId::from_u64(1), NodeId::from_u64(2)),
        (NodeId::from_u64(2), NodeId::from_u64(1)),
        (NodeId::from_u64(7), NodeId::from_u64(7)),
    ];
    let g = Graph::new(&edges);
    assert_eq!(g.node_count(), 3);
    let nodes = g.get_nodes();
    assert_eq!(nodes.len(), 3);
    let idx_of = |v: u64| -> usize {
        (0..g.node_count())
            .find(|&i| *g.node_id(i) == NodeId::from_u64(v))
            .unwrap()
    };
    let (i1, i2, i7) = (idx_of(1), idx_of(2), idx_of(7));
    // each direction of the duplicated edge lists the other node once
    assert_eq!(g.neighbors(i1), &vec![i2, i2]);
    assert_eq!(g.neighbors(i2), &vec![i1, i1]);
    // the self-loop lists its own node twice
    assert_eq!(g.neighbors(i7), &vec![i7, i7]);
}

#[test]
fn seeded_round_zero() {
    let edges = vec![
        (NodeId::from_u64(1), NodeId::from_u64(2)),
        (NodeId::from_u64(2), NodeId::from_u64(3)),
    ];
    let g = Graph::new(&edges);
    let engine = Engine::new(g, 8);
    assert_eq!(engine.round(), 0);
    assert_eq!(engine.node_count(), 3);
    for i in 0..engine.node_count() {
        assert!(estimate_of(engine.sketch(i)).round() == 1_f64);
    }
}

#[test]
fn path_graph_converges_within_diameter() {
    // path 1 - 2 - 3 - 4: diameter three
    let edges = vec![
        (NodeId::from_u64(1), NodeId::from_u64(2)),
        (NodeId::from_u64(2), NodeId::from_u64(3)),
        (NodeId::from_u64(3), NodeId::from_u64(4)),
    ];
    let g = Graph::new(&edges);
    let mut engine = Engine::new(g, 8);
    engine.run();
    assert!(engine.round() <= 3);
    // every node reaches the whole component
    for i in 0..engine.node_count() {
        assert!(estimate_of(engine.sketch(i)).round() == 4_f64);
    }
    // the fixed point really is fixed
    assert!(engine.step());
}

#[test]
fn two_components_stay_apart() {
    let edges = vec![
        (NodeId::from_u64(1), NodeId::from_u64(2)),
        (NodeId::from_u64(3), NodeId::from_u64(4)),
    ];
    let g = Graph::new(&edges);
    let mut engine = Engine::new(g, 8);
    engine.run();
    assert!(engine.round() <= 1);
    for i in 0..engine.node_count() {
        assert!(estimate_of(engine.sketch(i)).round() == 2_f64);
    }
}

#[test]
fn estimates_never_decrease() {
    let edges = vec![
        (NodeId::from_u64(1), NodeId::from_u64(2)),
        (NodeId::from_u64(2), NodeId::from_u64(3)),
        (NodeId::from_u64(3), NodeId::from_u64(4)),
        (NodeId::from_u64(4), NodeId::from_u64(5)),
    ];
    let g = Graph::new(&edges);
    let mut engine = Engine::new(g, 8);
    let n = engine.node_count();
    let mut last: Vec<f64> = (0..n).map(|i| estimate_of(engine.sketch(i))).collect();
    for _ in 0..10 {
        let converged = engine.step();
        let now: Vec<f64> = (0..n).map(|i| estimate_of(engine.sketch(i))).collect();
        for i in 0..n {
            assert!(now[i] >= last[i]);
        }
        last = now;
        if converged {
            break;
        }
    }
}
