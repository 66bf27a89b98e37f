use dezorr::func::{Function, FunctionOn};
use dezorr::graph::Graph;

type Rule<D> = Box<dyn Fn(&[D]) -> Vec<D>>;

/// Lifts a function of one value to a function of vectors, position by position.
fn pointwise<D: Clone + 'static>(f: impl Fn(D) -> D + 'static) -> Option<Rule<D>> {
    Some(Box::new(move |xs: &[D]| xs.iter().map(|x| f(x.clone())).collect::<Vec<D>>()))
}

fn square_usize(graph: &mut Graph<usize, Rule<usize>>) -> usize {
    graph.add(Function::new(pointwise(|x: usize| x * x), pointwise(|x: usize| x + x)))
}

fn square_f64(graph: &mut Graph<f64, Rule<f64>>) -> usize {
    graph.add(Function::new(pointwise(|x: f64| x * x), pointwise(|x: f64| x + x)))
}

fn exp_f64(graph: &mut Graph<f64, Rule<f64>>) -> usize {
    graph.add(Function::new(pointwise(|x: f64| x.exp()), pointwise(|x: f64| x.exp())))
}

#[test]
fn test_step_2_base2() {
    let mut graph: Graph<usize, Rule<usize>> = Graph::new();
    let c0 = graph.add(Function::coterminal(vec![0]));
    let f0 = graph.add(Function::new(pointwise(|x| x + 1), pointwise(|_| 1)));
    let y0 = graph.add(Function::terminal(vec![1]));
    graph.link_to(c0, f0);
    graph.link_to(f0, y0);
    graph.propagate_forward(c0);
    assert_eq!(graph.node(f0).on_f(|a| a.outputs()), vec![1]);
    assert_eq!(graph.node(y0).on_f(|a| a.inputs(graph.slots())), vec![Some(1)]);
}

#[test]
fn test_step_2_base3() {
    let mut graph: Graph<f64, Rule<f64>> = Graph::new();
    let x = graph.add(Function::coterminal(vec![2.0, -1.0]));
    let y = graph.add(Function::terminal(vec![1.0, 1.0]));
    let f1 = graph.add(Function::new(pointwise(|x: f64| x + 1.0), pointwise(|_| 1.0)));
    graph.link_to(x, f1);
    graph.link_to(x, f1);
    graph.link_to(f1, y);
    graph.link_to(f1, y);
    graph.propagate_forward(x);
    graph.propagate_backward(y);
    assert_eq!(graph.node(f1).on_f(|a| a.outputs()), vec![3.0, 0.0]);
    assert_eq!(graph.node(y).on_f(|a| a.inputs(graph.slots())), vec![Some(3.0), Some(0.0)]);
    assert_eq!(graph.node(y).on_f(|a| a.outputs()), vec![3.0, 0.0]);
    assert_eq!(graph.node(x).on_b(|a| a.outputs()), vec![1.0, 1.0]);
}

#[test]
fn test_step_2_base4() {
    let mut graph: Graph<f64, Rule<f64>> = Graph::new();
    let x = graph.add(Function::coterminal(vec![1.0, 2.0]));
    let y = graph.add(Function::terminal(vec![1.0, 1.0]));
    let fa = graph.add(Function::new(pointwise(|x: f64| 2.0 * x), pointwise(|_: f64| 2.0f64)));
    let fb = graph.add(Function::new(
        pointwise(|x: f64| 1.0 / x),
        pointwise(|x: f64| -1.0 * x.powi(-2)),
    ));
    graph.link_to(x, fa);
    graph.link_to(x, fa);
    graph.link_to(fa, fb);
    graph.link_to(fa, fb);
    graph.link_to(fb, y);
    graph.link_to(fb, y);
    graph.propagate_forward(x);
    graph.propagate_backward(y);
    assert_eq!(graph.node(y).on_f(|a| a.outputs()), vec![0.5f64, 0.25f64]);
    assert_eq!(
        graph.node(x).on_b(|a| a.outputs()),
        vec![2.0f64 * -1.0 / 4.0, 2.0f64 * -1.0 / 16.0]
    );
}

#[test]
fn test_step_2_base5() {
    let mut graph: Graph<f64, Rule<f64>> = Graph::new();
    let x = graph.add(Function::coterminal(vec![1.0f64, 0.0]));
    let y = graph.add(Function::terminal(vec![1.0, 1.0]));
    let f0 = exp_f64(&mut graph);
    let f1 = exp_f64(&mut graph);
    graph.link_to(x, f0);
    graph.link_to(x, f0);
    graph.link_to(f0, f1);
    graph.link_to(f0, f1);
    graph.link_to(f1, y);
    graph.link_to(f1, y);
    graph.propagate_forward(x);
    graph.propagate_backward(y);
    assert_eq!(
        graph.node(y).on_f(|a| a.outputs()),
        vec![1.0f64.exp().exp(), 0.0f64.exp().exp()]
    );
    assert_eq!(
        graph.node(x).on_b(|a| a.outputs()),
        vec![
            1.0f64.exp() * 1.0f64.exp().exp(),
            0.0f64.exp() * 0.0f64.exp().exp()
        ]
    );
}

#[test]
fn test_step_2_2() {
    let mut graph: Graph<usize, Rule<usize>> = Graph::new();
    let x = graph.add(Function::coterminal(vec![10]));
    let f = square_usize(&mut graph);
    let y = graph.add(Function::terminal(vec![1]));
    let next = graph.followed_by(x, f);
    graph.followed_by(next, y);
    graph.propagate_forward(x);
    graph.propagate_backward(y);
    assert_eq!(graph.node(y).on_f(|a| a.outputs()), vec![100]);
    assert_eq!(graph.node(x).on_b(|a| a.outputs()), vec![20]);
}

/// `x -> square -> exp -> square -> y`, connected once.
fn chain_through(graph: &mut Graph<f64, Rule<f64>>, x: usize, a: usize, b: usize, c: usize, y: usize) {
    let next = graph.followed_by(x, a);
    let next = graph.followed_by(next, b);
    let next = graph.followed_by(next, c);
    graph.followed_by(next, y);
}

#[test]
fn test_step_3_2() {
    let mut graph: Graph<f64, Rule<f64>> = Graph::new();
    let x = graph.add(Function::coterminal(vec![0.5]));
    let y = graph.add(Function::terminal(vec![1.0]));
    let a = square_f64(&mut graph);
    let b = exp_f64(&mut graph);
    let c = square_f64(&mut graph);
    chain_through(&mut graph, x, a, b, c, y);
    graph.propagate_forward(x);
    assert!((graph.node(y).on_f(|a| a.outputs())[0] - 1.64872127).abs() < 0.0001);
}

#[test]
fn test_step_4_3() {
    let e = 0.00001;
    let mut graph: Graph<f64, Rule<f64>> = Graph::new();
    let x = graph.add(Function::coterminal(vec![0.5 - e, 0.5 + e]));
    let y = graph.add(Function::terminal(vec![1.0]));
    let a = square_f64(&mut graph);
    let b = exp_f64(&mut graph);
    let c = square_f64(&mut graph);
    chain_through(&mut graph, x, a, b, c, y);
    chain_through(&mut graph, x, a, b, c, y);
    graph.propagate_forward(x);
    let r = graph.node(y).on_f(|a| a.outputs());
    assert!(((r[1] - r[0]) / (2.0 * e) - 3.2974426).abs() < 0.0001);
}

#[test]
fn test_step_6_4() {
    let mut graph: Graph<f64, Rule<f64>> = Graph::new();
    let x = graph.add(Function::coterminal(vec![0.5]));
    let y = graph.add(Function::terminal(vec![1.0]));
    let a = square_f64(&mut graph);
    let b = exp_f64(&mut graph);
    let c = square_f64(&mut graph);
    chain_through(&mut graph, x, a, b, c, y);
    graph.propagate_forward(x);
    graph.propagate_backward(y);
    assert!((graph.node(x).on_b(|a| a.outputs())[0] - 3.2974425).abs() < 0.0001);
}

#[test]
fn test_step_7_3() {
    test_step_6_4();
}

#[test]
fn test_step_8_3() {
    test_step_7_3();
}

#[test]
fn test_step_11_2() {
    let mut graph: Graph<usize, Rule<usize>> = Graph::new();
    let x = graph.add(Function::coterminal(vec![2, 3]));
    let y = graph.add(Function::terminal(vec![1]));
    let total: Option<Rule<usize>> = Some(Box::new(|xs: &[usize]| vec![xs.iter().cloned().sum()]));
    let f = graph.add(Function::new(total, None));
    graph.followed_by(x, f);
    let next = graph.followed_by(x, f);
    graph.followed_by(next, y);
    graph.propagate_forward(x);
    assert_eq!(graph.node(y).on_f(|a| a.outputs()), vec![5]);
}
