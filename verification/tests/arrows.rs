use dezorr::arrow::Arrow;
use dezorr::func::{Function, FunctionOn};
use dezorr::graph::Graph;
use dezorr::var::{Variable, VariableBody};

type Op<D> = Box<dyn Fn(&[D]) -> Vec<D>>;

fn each<D: Clone + 'static>(f: impl Fn(D) -> D + 'static) -> Option<Op<D>> {
    Some(Box::new(move |xs: &[D]| xs.iter().map(|x| f(x.clone())).collect::<Vec<D>>()))
}

#[test]
fn test_connection_basic() {
    let mut graph: Graph<f64, Op<f64>> = Graph::new();
    let f0 = graph.add(Function::coterminal(vec![0.0f64]));
    let mut slots: Vec<VariableBody<f64>> = Vec::new();
    let c0 = Variable::new(&mut slots, Some(0.0f64), f0, f0);
    let c1 = c0.clone();
    c0.set_value(&mut slots, Some(10.0));
    assert_eq!(c1.get_value(&slots), Some(10.0));
}

#[test]
fn test_arrow_basic() {
    let mut a0: Arrow<f64, Op<f64>> = Arrow::coterminal(vec![0.0f64]);
    let mut a1: Arrow<f64, Op<f64>> = Arrow::terminal();
    let mut _a2: Arrow<f64, Op<f64>> = Arrow::new(each(|x| x + 1.0));
    let mut _a3: Arrow<f64, Op<f64>> = Arrow::new(each(|x| x - 1.0));
    let mut graph: Graph<f64, Op<f64>> = Graph::new();
    let f0 = graph.add(Function::coterminal(vec![0.0f64]));
    let f1 = graph.add(Function::terminal(vec![1.0f64]));
    let mut slots: Vec<VariableBody<f64>> = Vec::new();
    let c0 = Variable::new(&mut slots, Some(0.0f64), f0, f1);
    a0.add_output(c0.clone());
    assert!(a0.is_coterminal());
    assert!(a0.is_applicable(&slots));
    assert!(a0.is_applied());
    assert!(a1.is_terminal());
    a1.add_input(c0);
}

#[test]
fn test_step_2_base1() {
    let mut graph: Graph<usize, Op<usize>> = Graph::new();
    let c0 = graph.add(Function::coterminal(vec![0]));
    let f0 = graph.add(Function::new(each(|x| x + 1), each(|_| 1)));
    let y0 = graph.add(Function::terminal(vec![1]));
    graph.link_to(c0, f0);
    graph.link_to(f0, y0);
    assert_eq!(graph.propagate_f(c0), Some(vec![f0]));
    assert!(graph.node(c0).on_f(|a| a.is_applied()));
    assert!(graph.node(f0).on_f(|a| a.is_applicable(graph.slots())));
    assert!(graph.node(f0).on_f(|a| !a.is_applied()));
    assert_eq!(graph.propagate_f(f0), Some(vec![y0]));
    assert!(graph.node(f0).on_f(|a| a.is_applied()));
    assert_eq!(graph.node(f0).on_f(|a| a.outputs()), vec![1]);
    assert_eq!(graph.node(y0).on_f(|a| a.inputs(graph.slots())), vec![Some(1)]);
}

#[test]
fn test_step_4_2() {
    let mut graph: Graph<f64, Op<f64>> = Graph::new();
    let x = graph.add(Function::coterminal(vec![2.0]));
    let f = graph.add(Function::new(each(|x: f64| x * x), each(|x: f64| x + x)));
    assert!(graph.node(x).is_coterminal());
    assert!(!graph.node(f).is_coterminal());
}
