use micrograd::backward::{Factor, Transfer};
use micrograd::graph::{GradientError, Op, Tape};

fn leaf(t: &mut Tape<f64>, v: f64) -> usize {
    t.leaf(v)
}

fn add(t: &mut Tape<f64>, a: usize, b: usize) -> usize {
    let v = *t.value(a) + *t.value(b);
    t.add(a, b, v)
}

fn mul(t: &mut Tape<f64>, a: usize, b: usize) -> usize {
    let v = *t.value(a) * *t.value(b);
    t.mul(a, b, v)
}

fn exp(t: &mut Tape<f64>, a: usize) -> usize {
    let v = t.value(a).exp();
    t.exp(a, v)
}

fn pow(t: &mut Tape<f64>, a: usize, p: f64) -> usize {
    let v = t.value(a).powf(p);
    t.pow(a, p, v)
}

fn sub(t: &mut Tape<f64>, a: usize, b: usize) -> usize {
    let m = leaf(t, -1.0);
    let nb = mul(t, b, m);
    add(t, a, nb)
}

fn tanh(t: &mut Tape<f64>, a: usize) -> usize {
    let two = leaf(t, 2.0);
    let a2 = mul(t, a, two);
    let e = exp(t, a2);
    let one = leaf(t, 1.0);
    let num = sub(t, e, one);
    let one2 = leaf(t, 1.0);
    let den = add(t, e, one2);
    let inv = pow(t, den, -1.0);
    mul(t, num, inv)
}

fn factor_value(t: &Tape<f64>, f: Factor) -> f64 {
    match f {
        Factor::One => 1.0,
        Factor::ValueOf(n) => *t.value(n),
        Factor::PowerRule(n) => match t.op(n) {
            Op::Pow(a, p) => *p * t.value(*a).powf(*p - 1.0),
            _ => panic!("power rule on a node that is not a power"),
        },
    }
}

fn run_plan(t: &Tape<f64>, root: usize, plan: &[Transfer]) -> Vec<f64> {
    let mut g = vec![0.0; t.len()];
    g[root] = 1.0;
    for tr in plan {
        g[tr.target] += g[tr.source] * factor_value(t, tr.factor);
    }
    g
}

fn gradients(t: &mut Tape<f64>, root: usize, label: &str) -> Vec<f64> {
    let plan = t.compute_gradient(root, label).unwrap();
    run_plan(t, root, &plan)
}

fn close(a: f64, b: f64, tol: f64) -> bool {
    (a - b).abs() <= tol
}

#[test]
fn neuron_scenario() {
    let mut t = Tape::new();
    let x1 = leaf(&mut t, 2.0);
    let x2 = leaf(&mut t, 0.0);
    let w1 = leaf(&mut t, -3.0);
    let w2 = leaf(&mut t, 1.0);
    let b = leaf(&mut t, 6.881373587019);
    let x1w1 = mul(&mut t, x1, w1);
    let x2w2 = mul(&mut t, x2, w2);
    let s = add(&mut t, x1w1, x2w2);
    let n = add(&mut t, s, b);
    let o = tanh(&mut t, n);
    assert!(close(*t.value(o), 0.7071067811865476, 1e-9));
    let g = gradients(&mut t, o, "loss");
    assert_eq!(g[o], 1.0);
    assert!(close(g[n], 0.5, 1e-6));
    assert!(close(g[x1], -1.5, 1e-6));
    assert!(close(g[w1], 1.0, 1e-6));
    assert!(close(g[x2], 0.5, 1e-6));
    assert!(close(g[w2], 0.0, 1e-6));
    assert_eq!(t.gradient_run(x1, "loss"), Some(0));
}

#[test]
fn square_uses_both_slots() {
    let mut t = Tape::new();
    let x = leaf(&mut t, 3.0);
    let y = mul(&mut t, x, x);
    let counts = t.count_dependencies(y);
    assert_eq!(counts, vec![2, 1]);
    let g = gradients(&mut t, y, "d");
    assert_eq!(g[x], 6.0);
}

#[test]
fn dependency_counts_on_a_diamond() {
    let mut t = Tape::new();
    let a = leaf(&mut t, 1.0);
    let b = leaf(&mut t, 2.0);
    let c = add(&mut t, a, b);
    let d = mul(&mut t, c, a);
    let e = add(&mut t, d, c);
    let unused = leaf(&mut t, 5.0);
    let counts = t.count_dependencies(e);
    assert_eq!(counts[e], 1);
    assert_eq!(counts[d], 1);
    assert_eq!(counts[c], 2);
    assert_eq!(counts[a], 2);
    assert_eq!(counts[b], 1);
    assert_eq!(counts[unused], 0);
    let sub_counts = t.count_dependencies(c);
    assert_eq!(sub_counts, vec![1, 1, 1, 0, 0, 0]);
}

#[test]
fn plan_orders_transfers_into_a_node_before_out_of_it() {
    let mut t = Tape::new();
    let a = leaf(&mut t, 1.0);
    let b = leaf(&mut t, 2.0);
    let c = add(&mut t, a, b);
    let d = mul(&mut t, c, a);
    let e = add(&mut t, d, c);
    let plan = t.backward(e);
    assert_eq!(plan.len(), 6);
    for (p, x) in plan.iter().enumerate() {
        for (q, y) in plan.iter().enumerate() {
            if x.target == y.source {
                assert!(p < q);
            }
        }
    }
    let g = run_plan(&t, e, &plan);
    // e = (a + b) * a + (a + b): de/da = 2a + b + 1, de/db = a + 1
    assert_eq!(g[a], 5.0);
    assert_eq!(g[b], 2.0);
    assert_eq!(g[c], 2.0);
}

#[test]
fn leaf_root_has_empty_plan() {
    let mut t = Tape::new();
    let a = leaf(&mut t, 4.0);
    assert!(t.backward(a).is_empty());
    let g = gradients(&mut t, a, "self");
    assert_eq!(g[a], 1.0);
}

#[test]
fn sum_and_product_rules() {
    let mut t = Tape::new();
    let a = leaf(&mut t, 3.0);
    let b = leaf(&mut t, -4.0);
    let s = add(&mut t, a, b);
    let plan = t.backward(s);
    assert_eq!(
        plan,
        vec![
            Transfer { source: s, slot: 0, target: a, factor: Factor::One },
            Transfer { source: s, slot: 1, target: b, factor: Factor::One },
        ]
    );
    let m = mul(&mut t, a, b);
    let plan = t.backward(m);
    assert_eq!(
        plan,
        vec![
            Transfer { source: m, slot: 0, target: a, factor: Factor::ValueOf(b) },
            Transfer { source: m, slot: 1, target: b, factor: Factor::ValueOf(a) },
        ]
    );
    let g = gradients(&mut t, m, "m");
    assert_eq!(g[a], -4.0);
    assert_eq!(g[b], 3.0);
}

#[test]
fn exp_and_power_rules() {
    let mut t = Tape::new();
    let a = leaf(&mut t, 0.5);
    let e = exp(&mut t, a);
    let p = pow(&mut t, e, 3.0);
    let plan = t.backward(p);
    assert_eq!(plan[0], Transfer { source: p, slot: 0, target: e, factor: Factor::PowerRule(p) });
    assert_eq!(plan[1], Transfer { source: e, slot: 0, target: a, factor: Factor::ValueOf(e) });
    let g = gradients(&mut t, p, "p");
    // p = exp(3a), dp/da = 3 exp(3a)
    assert!(close(g[a], 3.0 * (1.5f64).exp(), 1e-9));
}

#[test]
fn forward_values_follow_float_arithmetic() {
    let mut t = Tape::new();
    let a = leaf(&mut t, 1.25);
    let b = leaf(&mut t, -0.5);
    let s = add(&mut t, a, b);
    let m = mul(&mut t, s, b);
    let e = exp(&mut t, m);
    let p = pow(&mut t, e, 2.5);
    let d = sub(&mut t, p, a);
    let expected = ((1.25f64 + -0.5) * -0.5).exp().powf(2.5) + 1.25 * -1.0;
    assert_eq!(*t.value(d), expected);
    assert_eq!(t.len(), 9);
}

#[test]
fn labels_are_independent_and_single_use() {
    let mut t = Tape::new();
    let a = leaf(&mut t, 2.0);
    let b = leaf(&mut t, 5.0);
    let m = mul(&mut t, a, b);
    let s = add(&mut t, m, a);
    let gp = gradients(&mut t, s, "p");
    let gq = gradients(&mut t, m, "q");
    assert_eq!(gp[a], 6.0);
    assert_eq!(gq[a], 5.0);
    assert_eq!(t.gradient_run(a, "p"), Some(0));
    assert_eq!(t.gradient_run(a, "q"), Some(1));
    assert_eq!(t.gradient_run(s, "q"), None);
    assert_eq!(t.compute_gradient(s, "p"), Err(GradientError::LabelInUse));
    assert_eq!(t.compute_gradient(a, "q"), Err(GradientError::LabelInUse));
    assert_eq!(t.run_count(), 2);
    assert_eq!(t.gradient_run(a, "p"), Some(0));
}

#[test]
fn label_reused_on_a_separate_graph() {
    let mut t = Tape::new();
    let a = leaf(&mut t, 2.0);
    let b = leaf(&mut t, 3.0);
    let ma = mul(&mut t, a, a);
    let mb = mul(&mut t, b, b);
    assert!(t.compute_gradient(ma, "L").is_ok());
    assert!(t.compute_gradient(mb, "L").is_ok());
    assert_eq!(t.gradient_run(a, "L"), Some(0));
    assert_eq!(t.gradient_run(b, "L"), Some(1));
}

#[test]
fn missing_gradient_is_reported() {
    let mut t = Tape::new();
    let a = leaf(&mut t, 1.0);
    let b = leaf(&mut t, 1.0);
    let s = add(&mut t, a, a);
    assert_eq!(t.gradient_run(a, "none"), None);
    assert!(t.compute_gradient(s, "g").is_ok());
    assert_eq!(t.gradient_run(b, "g"), None);
    assert_eq!(t.gradient_run(a, "g"), Some(0));
    assert_eq!(t.gradient_run(a, "G"), None);
}

fn build(t: &mut Tape<f64>, xs: &[f64], shape: u32) -> (Vec<usize>, usize) {
    let leaves: Vec<usize> = xs.iter().map(|&v| leaf(t, v)).collect();
    let (x, y, z) = (leaves[0], leaves[1], leaves[2]);
    let root = match shape {
        0 => {
            let xy = mul(t, x, y);
            let s = add(t, xy, z);
            let e = exp(t, s);
            mul(t, e, x)
        }
        1 => {
            let s = add(t, x, y);
            let p = pow(t, s, 3.0);
            let q = mul(t, p, z);
            add(t, q, x)
        }
        2 => {
            let xx = mul(t, x, x);
            let e = exp(t, xx);
            let yz = mul(t, y, z);
            let s = add(t, e, yz);
            let p = pow(t, s, 0.5);
            mul(t, p, y)
        }
        _ => {
            let xy = mul(t, x, y);
            let s = add(t, xy, z);
            tanh(t, s)
        }
    };
    (leaves, root)
}

#[test]
fn gradients_match_finite_differences() {
    let xs = [0.7, -0.3, 1.1];
    let eps = 1e-5;
    for shape in 0..4u32 {
        let mut t = Tape::new();
        let (leaves, root) = build(&mut t, &xs, shape);
        let g = gradients(&mut t, root, "fd");
        for k in 0..3 {
            let mut up = xs;
            up[k] += eps;
            let mut down = xs;
            down[k] -= eps;
            let mut tu = Tape::new();
            let (_, ru) = build(&mut tu, &up, shape);
            let mut td = Tape::new();
            let (_, rd) = build(&mut td, &down, shape);
            let fd = (*tu.value(ru) - *td.value(rd)) / (2.0 * eps);
            assert!(close(g[leaves[k]], fd, 1e-4), "shape {} leaf {}", shape, k);
        }
    }
}
