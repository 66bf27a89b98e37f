use dezorr::arrow::{chain, Arrow};
use dezorr::func::{Function, FunctionOn};
use dezorr::graph::Graph;
use dezorr::var::{Variable, VariableBody};
use std::cell::Cell;
use std::rc::Rc;

type Step<D> = Box<dyn Fn(&[D]) -> Vec<D>>;

fn lift<D: Clone + 'static>(f: impl Fn(D) -> D + 'static) -> Option<Step<D>> {
    Some(Box::new(move |xs: &[D]| xs.iter().map(|x| f(x.clone())).collect::<Vec<D>>()))
}

fn whole<D: 'static>(f: impl Fn(&[D]) -> Vec<D> + 'static) -> Option<Step<D>> {
    Some(Box::new(f))
}

fn double_all(xs: &[u32]) -> Vec<u32> {
    xs.iter().map(|x| x * 2).collect()
}

#[test]
fn slot_is_shared_by_its_holders() {
    let mut slots: Vec<VariableBody<u32>> = Vec::new();
    let first = Variable::new(&mut slots, None, 3, 4);
    let second = Variable::new(&mut slots, Some(9), 4, 3);
    assert_eq!(first.0, 0);
    assert_eq!(second.0, 1);
    assert_eq!(slots.len(), 2);
    let copy = first;
    assert_eq!(copy.get_value(&slots), None);
    first.set_value(&mut slots, Some(5));
    assert_eq!(copy.get_value(&slots), Some(5));
    assert_eq!(second.get_value(&slots), Some(9));
    assert_eq!(first.get(&slots).source, 3);
    assert_eq!(first.get(&slots).target, 4);
    copy.set(&mut slots).value = Some(6);
    assert_eq!(first.get(&slots).value, Some(6));
    assert_eq!(second.get(&slots).value, Some(9));
    assert_eq!(second.get(&slots).source, 4);
}

#[test]
fn fresh_arrows_are_classified() {
    let source: Arrow<u32, Step<u32>> = Arrow::coterminal(vec![1, 2]);
    assert!(source.is_coterminal());
    assert!(source.is_terminal());
    assert!(source.is_applied());
    assert_eq!(source.outputs(), vec![1, 2]);

    let empty_source: Arrow<u32, Step<u32>> = Arrow::coterminal(vec![]);
    assert!(!empty_source.is_coterminal());
    assert!(!empty_source.is_applied());

    let sink: Arrow<u32, Step<u32>> = Arrow::terminal();
    assert!(sink.is_terminal());
    assert!(!sink.is_coterminal());
    assert!(!sink.is_applied());
    assert_eq!(sink.outputs(), Vec::<u32>::new());

    let by_default: Arrow<u32, Step<u32>> = Arrow::default();
    assert!(by_default.is_terminal());
    assert!(!by_default.is_applied());

    let ordinary: Arrow<u32, Step<u32>> = Arrow::new(lift(|x| x + 1));
    assert!(!ordinary.is_terminal());
    assert!(!ordinary.is_coterminal());
    assert!(!ordinary.is_applied());
}

#[test]
fn inputs_follow_the_order_of_attachment() {
    let mut slots: Vec<VariableBody<u32>> = Vec::new();
    let a = Variable::new(&mut slots, Some(7), 0, 1);
    let b = Variable::new(&mut slots, None, 0, 1);
    let c = Variable::new(&mut slots, Some(9), 0, 1);
    let mut arrow: Arrow<u32, Step<u32>> = Arrow::terminal();
    assert!(arrow.is_applicable(&slots));
    arrow.add_input(c);
    arrow.add_input(a);
    assert_eq!(arrow.inputs(&slots), vec![Some(9), Some(7)]);
    assert!(arrow.is_applicable(&slots));
    arrow.add_input(b);
    assert_eq!(arrow.inputs(&slots), vec![Some(9), Some(7), None]);
    assert!(!arrow.is_applicable(&slots));
    b.set_value(&mut slots, Some(1));
    assert!(arrow.is_applicable(&slots));
    assert!(arrow.is_terminal());
    arrow.add_output(a);
    assert!(!arrow.is_terminal());
}

#[test]
fn apply_f_runs_the_function_on_the_inputs() {
    let mut slots: Vec<VariableBody<u32>> = Vec::new();
    let a = Variable::new(&mut slots, Some(2), 0, 1);
    let b = Variable::new(&mut slots, Some(5), 0, 1);
    let mut arrow: Arrow<u32, Step<u32>> = Arrow::new(whole(|xs: &[u32]| vec![xs[0] * 10 + xs[1]]));
    arrow.add_input(a);
    arrow.add_input(b);
    arrow.apply_f(&slots);
    assert_eq!(arrow.outputs(), vec![25]);
    assert_eq!(arrow.inputs(&slots), vec![Some(2), Some(5)]);
}

#[test]
fn apply_f_without_function_passes_inputs_through_once() {
    let mut slots: Vec<VariableBody<u32>> = Vec::new();
    let a = Variable::new(&mut slots, Some(2), 0, 1);
    let mut sink: Arrow<u32, Step<u32>> = Arrow::terminal();
    sink.apply_f(&slots);
    assert_eq!(sink.outputs(), Vec::<u32>::new());
    sink.add_input(a);
    sink.apply_f(&slots);
    assert_eq!(sink.outputs(), vec![2]);
    a.set_value(&mut slots, Some(3));
    sink.apply_f(&slots);
    assert_eq!(sink.outputs(), vec![2]);

    let mut source: Arrow<u32, Step<u32>> = Arrow::coterminal(vec![8]);
    source.apply_f(&slots);
    assert_eq!(source.outputs(), vec![8]);
}

#[test]
fn apply_b_multiplies_what_arrived_by_the_local_result() {
    let mut slots: Vec<VariableBody<u32>> = Vec::new();
    let a = Variable::new(&mut slots, Some(2), 1, 0);
    let b = Variable::new(&mut slots, Some(3), 1, 0);
    let mut arrow: Arrow<u32, Step<u32>> = Arrow::new(lift(|x| x + 4));
    arrow.add_input(a);
    arrow.add_input(b);
    let (p, q) = (1u32, 3u32);
    arrow.apply_b(&[&p, &q], &slots);
    assert_eq!(arrow.outputs(), vec![2 * 5, 3 * 7]);
}

#[test]
fn apply_b_accepts_fewer_results_than_inputs() {
    let mut slots: Vec<VariableBody<u32>> = Vec::new();
    let a = Variable::new(&mut slots, Some(2), 1, 0);
    let b = Variable::new(&mut slots, Some(3), 1, 0);
    let mut arrow: Arrow<u32, Step<u32>> = Arrow::new(whole(|xs: &[u32]| vec![xs[0] + xs[1]]));
    arrow.add_input(a);
    arrow.add_input(b);
    let (p, q) = (10u32, 20u32);
    arrow.apply_b(&[&p, &q], &slots);
    assert_eq!(arrow.outputs(), vec![60]);
}

#[test]
fn apply_b_without_function_passes_inputs_through() {
    let mut slots: Vec<VariableBody<u32>> = Vec::new();
    let a = Variable::new(&mut slots, Some(2), 1, 0);
    let mut arrow: Arrow<u32, Step<u32>> = Arrow::terminal();
    arrow.add_input(a);
    arrow.apply_b(&[], &slots);
    assert_eq!(arrow.outputs(), vec![2]);
}

#[test]
fn chain_is_a_product_position_by_position() {
    assert_eq!(chain(&vec![2u32, 3, 4], vec![5, 6]), vec![10, 18]);
    assert_eq!(chain(&vec![2u32, 3], vec![]), Vec::<u32>::new());
    assert_eq!(chain(&vec![1.5f64], vec![4.0]), vec![6.0]);
}

#[test]
fn arrow_propagates_and_names_each_consumer_once() {
    let mut slots: Vec<VariableBody<u32>> = Vec::new();
    let to_five = Variable::new(&mut slots, None, 0, 5);
    let to_three = Variable::new(&mut slots, None, 0, 3);
    let again_five = Variable::new(&mut slots, None, 0, 5);
    let mut source: Arrow<u32, Step<u32>> = Arrow::coterminal(vec![10, 20, 30]);
    source.add_output(to_five);
    source.add_output(to_three);
    source.add_output(again_five);
    assert_eq!(source.propagate_forward(&mut slots), Some(vec![5, 3]));
    assert_eq!(to_five.get_value(&slots), Some(10));
    assert_eq!(to_three.get_value(&slots), Some(20));
    assert_eq!(again_five.get_value(&slots), Some(30));
    assert_eq!(source.outputs(), vec![10, 20, 30]);
    assert_eq!(source.propagate_forward(&mut slots), Some(vec![5, 3]));
}

#[test]
fn arrow_that_is_not_ready_does_nothing() {
    let mut slots: Vec<VariableBody<u32>> = Vec::new();
    let incoming = Variable::new(&mut slots, None, 0, 1);
    let outgoing = Variable::new(&mut slots, None, 1, 2);
    let mut arrow: Arrow<u32, Step<u32>> = Arrow::new(lift(|x| x + 1));
    arrow.add_input(incoming);
    arrow.add_output(outgoing);
    assert_eq!(arrow.propagate_forward(&mut slots), None);
    assert_eq!(arrow.outputs(), Vec::<u32>::new());
    assert_eq!(outgoing.get_value(&slots), None);
    incoming.set_value(&mut slots, Some(4));
    assert_eq!(arrow.propagate_forward(&mut slots), Some(vec![2]));
    assert_eq!(arrow.outputs(), vec![5]);
    assert_eq!(outgoing.get_value(&slots), Some(5));
}

#[test]
fn sink_without_inputs_fires_and_stays_empty() {
    let mut slots: Vec<VariableBody<u32>> = Vec::new();
    let mut sink: Arrow<u32, Step<u32>> = Arrow::terminal();
    assert_eq!(sink.propagate_forward(&mut slots), Some(vec![]));
    assert!(!sink.is_applied());
    assert_eq!(sink.propagate_forward(&mut slots), Some(vec![]));
}

#[test]
fn arrow_propagates_backward_with_the_product_rule() {
    let mut slots: Vec<VariableBody<u32>> = Vec::new();
    let arrived = Variable::new(&mut slots, Some(3), 2, 1);
    let leaving = Variable::new(&mut slots, None, 1, 0);
    let mut arrow: Arrow<u32, Step<u32>> = Arrow::new(lift(|x| x + x));
    arrow.add_input(arrived);
    arrow.add_output(leaving);
    let at = 7u32;
    assert_eq!(arrow.propagate_backward(&[&at], &mut slots), Some(vec![0]));
    assert_eq!(arrow.outputs(), vec![3 * 14]);
    assert_eq!(leaving.get_value(&slots), Some(42));
    assert_eq!(arrow.propagate_backward(&[&at], &mut slots), None);
    assert_eq!(arrow.outputs(), vec![42]);
}

#[test]
fn second_propagation_does_not_call_the_function_again() {
    let calls = Rc::new(Cell::new(0usize));
    let seen = calls.clone();
    let counted: Option<Step<u32>> = Some(Box::new(move |xs: &[u32]| {
        seen.set(seen.get() + 1);
        xs.iter().map(|x| x + 1).collect()
    }));
    let mut graph: Graph<u32, Step<u32>> = Graph::new();
    let x = graph.add(Function::coterminal(vec![4]));
    let f = graph.add(Function::new(counted, None));
    let y = graph.add(Function::terminal(vec![1]));
    graph.link_to(x, f);
    graph.link_to(f, y);
    graph.propagate_forward(x);
    assert_eq!(calls.get(), 1);
    assert_eq!(graph.node(f).f.outputs(), vec![5]);
    assert_eq!(graph.propagate_f(f), None);
    assert_eq!(calls.get(), 1);
    assert_eq!(graph.node(f).f.outputs(), vec![5]);
    assert_eq!(graph.node(y).f.inputs(graph.slots()), vec![Some(5)]);
    graph.propagate_forward(x);
    assert_eq!(calls.get(), 1);
    assert_eq!(graph.node(y).f.outputs(), vec![5]);
}

#[test]
fn source_hands_its_values_to_the_sink_unchanged() {
    let mut graph: Graph<i64, Step<i64>> = Graph::new();
    let x = graph.add(Function::coterminal(vec![7, -8, 9]));
    let y = graph.add(Function::terminal(vec![1, 1, 1]));
    graph.link_to(x, y);
    graph.link_to(x, y);
    graph.link_to(x, y);
    graph.propagate_forward(x);
    assert_eq!(graph.node(y).f.inputs(graph.slots()), vec![Some(7), Some(-8), Some(9)]);
    assert_eq!(graph.node(y).f.outputs(), vec![7, -8, 9]);
    assert_eq!(graph.node(x).f.outputs(), vec![7, -8, 9]);
}

#[test]
fn parallel_links_do_not_mix_positions() {
    let mut graph: Graph<i64, Step<i64>> = Graph::new();
    let x = graph.add(Function::coterminal(vec![1, 100]));
    let f = graph.add(Function::new(lift(|v| v * 3), lift(|_| 3)));
    let y = graph.add(Function::terminal(vec![1, 1]));
    graph.link_to(x, f);
    graph.link_to(x, f);
    graph.link_to(f, y);
    graph.link_to(f, y);
    graph.propagate_forward(x);
    assert_eq!(graph.node(f).f.inputs(graph.slots()), vec![Some(1), Some(100)]);
    assert_eq!(graph.node(y).f.inputs(graph.slots()), vec![Some(3), Some(300)]);
    assert_eq!(graph.node(y).f.outputs(), vec![3, 300]);
}

#[test]
fn link_to_lays_one_edge_each_way() {
    let mut graph: Graph<u32, Step<u32>> = Graph::new();
    assert_eq!(graph.len(), 0);
    let a = graph.add(Function::coterminal(vec![1]));
    let b = graph.add(Function::terminal(vec![2]));
    assert_eq!((a, b), (0, 1));
    assert_eq!(graph.len(), 2);
    assert_eq!(graph.slots().len(), 0);
    graph.link_to(a, b);
    assert_eq!(graph.slots().len(), 2);
    assert_eq!(graph.slots()[0].value, None);
    assert_eq!((graph.slots()[0].source, graph.slots()[0].target), (a, b));
    assert_eq!(graph.slots()[1].value, None);
    assert_eq!((graph.slots()[1].source, graph.slots()[1].target), (b, a));
    assert_eq!(graph.node(a).f.inputs(graph.slots()), vec![]);
    assert_eq!(graph.node(b).f.inputs(graph.slots()), vec![None]);
    assert_eq!(graph.node(a).b.inputs(graph.slots()), vec![None]);
    assert_eq!(graph.node(b).b.inputs(graph.slots()), vec![]);
    assert!(graph.node(a).is_coterminal());
    assert!(graph.node(b).on_b(|arrow| arrow.is_coterminal()));
    assert!(!graph.node(b).on_b(|arrow| arrow.is_terminal()));
    assert!(graph.node(a).on_b(|arrow| !arrow.is_terminal() || arrow.inputs(graph.slots()).len() == 1));
    assert_eq!(graph.followed_by(a, b), b);
    assert_eq!(graph.slots().len(), 4);
    assert_eq!(graph.node(b).f.inputs(graph.slots()), vec![None, None]);
}

#[test]
fn single_steps_of_the_reverse_pass() {
    let mut graph: Graph<u32, Step<u32>> = Graph::new();
    let x = graph.add(Function::coterminal(vec![5]));
    let f = graph.add(Function::new(lift(|v| v * v), lift(|v| v + v)));
    let y = graph.add(Function::terminal(vec![3]));
    graph.link_to(x, f);
    graph.link_to(f, y);
    graph.propagate_forward(x);
    assert_eq!(graph.node(y).f.outputs(), vec![25]);
    assert_eq!(graph.propagate_b(f), None);
    assert_eq!(graph.propagate_b(y), Some(vec![f]));
    assert_eq!(graph.node(f).b.inputs(graph.slots()), vec![Some(3)]);
    assert_eq!(graph.propagate_b(f), Some(vec![x]));
    assert_eq!(graph.node(f).b.outputs(), vec![3 * 10]);
    assert_eq!(graph.propagate_b(f), None);
    assert_eq!(graph.propagate_b(x), Some(vec![]));
    assert_eq!(graph.node(x).b.outputs(), vec![30]);
    assert_eq!(graph.propagate_b(x), None);
}

#[test]
fn early_visit_of_a_join_is_a_no_op() {
    let mut graph: Graph<i64, Step<i64>> = Graph::new();
    let x = graph.add(Function::coterminal(vec![3, 4]));
    let short = graph.add(Function::new(lift(|v| v + 1), None));
    let long_a = graph.add(Function::new(lift(|v| v * 2), None));
    let long_b = graph.add(Function::new(lift(|v| v - 1), None));
    let join = graph.add(Function::new(whole(|xs: &[i64]| vec![xs[0] * 100 + xs[1]]), None));
    let y = graph.add(Function::terminal(vec![1]));
    graph.link_to(x, short);
    graph.link_to(x, long_a);
    graph.link_to(short, join);
    graph.link_to(long_a, long_b);
    graph.link_to(long_b, join);
    graph.link_to(join, y);
    graph.propagate_forward(x);
    assert_eq!(graph.node(join).f.inputs(graph.slots()), vec![Some(4), Some(7)]);
    assert_eq!(graph.node(join).f.outputs(), vec![407]);
    assert_eq!(graph.node(y).f.outputs(), vec![407]);
}

#[test]
fn lone_source_propagates_to_nobody() {
    let mut graph: Graph<u32, Step<u32>> = Graph::new();
    let x = graph.add(Function::coterminal(vec![1, 2, 3]));
    assert_eq!(graph.propagate_f(x), Some(vec![]));
    graph.propagate_forward(x);
    graph.propagate_backward(x);
    assert_eq!(graph.node(x).f.outputs(), vec![1, 2, 3]);
    assert_eq!(graph.node(x).b.outputs(), Vec::<u32>::new());
}

#[test]
fn clones_are_not_wired() {
    let mut slots: Vec<VariableBody<u32>> = Vec::new();
    let link = Variable::new(&mut slots, Some(6), 0, 1);
    let mut arrow: Arrow<u32, fn(&[u32]) -> Vec<u32>> = Arrow::new(Some(double_all));
    arrow.add_input(link);
    arrow.add_output(link);
    arrow.apply_f(&slots);
    assert_eq!(arrow.outputs(), vec![12]);
    let mut copy = arrow.clone();
    assert_eq!(copy.outputs(), vec![12]);
    assert_eq!(copy.inputs(&slots), vec![]);
    assert!(!copy.is_terminal());
    assert!(!copy.is_coterminal());
    copy.add_input(link);
    link.set_value(&mut slots, Some(10));
    copy.apply_f(&slots);
    assert_eq!(copy.outputs(), vec![20]);
    assert_eq!(arrow.outputs(), vec![12]);

    let node: Function<u32, fn(&[u32]) -> Vec<u32>> = Function::coterminal(vec![1, 2]);
    let twin = node.clone();
    assert_eq!(twin.f.outputs(), vec![1, 2]);
    assert!(twin.is_coterminal());
    assert!(twin.b.is_terminal());
}

#[test]
fn node_wiring_goes_to_the_forward_arrow() {
    let mut slots: Vec<VariableBody<u32>> = Vec::new();
    let incoming = Variable::new(&mut slots, Some(1), 0, 1);
    let outgoing = Variable::new(&mut slots, None, 1, 2);
    let mut node: Function<u32, Step<u32>> = Function::new(lift(|v| v + 1), None);
    node.add_input(&incoming);
    node.add_output(&outgoing);
    assert_eq!(node.on_f(|a| a.inputs(&slots)), vec![Some(1)]);
    assert_eq!(node.on_b(|a| a.inputs(&slots)), vec![]);
    assert!(node.on_b(|a| a.is_terminal()));
    assert_eq!(node.propagate_f(&mut slots), Some(vec![2]));
    assert_eq!(outgoing.get_value(&slots), Some(2));
    assert_eq!(node.f.outputs(), vec![2]);
    assert_eq!(node.propagate_b(&mut slots), Some(vec![]));
    assert_eq!(node.b.outputs(), Vec::<u32>::new());
}

#[test]
fn source_without_values_hands_nothing_over() {
    let mut graph: Graph<i64, Step<i64>> = Graph::new();
    let x = graph.add(Function::coterminal(vec![]));
    let y = graph.add(Function::terminal(vec![1]));
    assert!(!graph.node(x).is_coterminal());
    graph.propagate_forward(x);
    assert_eq!(graph.node(y).f.inputs(graph.slots()), vec![]);
    assert_eq!(graph.node(y).f.outputs(), Vec::<i64>::new());
    assert_eq!(graph.node(x).f.outputs(), Vec::<i64>::new());
}

#[test]
fn single_value_passes_through_a_single_link() {
    let mut graph: Graph<i64, Step<i64>> = Graph::new();
    let x = graph.add(Function::coterminal(vec![-4]));
    let y = graph.add(Function::terminal(vec![1]));
    graph.link_to(x, y);
    graph.propagate_forward(x);
    assert_eq!(graph.node(y).f.inputs(graph.slots()), vec![Some(-4)]);
    assert_eq!(graph.node(y).f.outputs(), vec![-4]);
    graph.propagate_backward(y);
    assert_eq!(graph.node(x).b.inputs(graph.slots()), vec![Some(1)]);
    assert_eq!(graph.node(x).b.outputs(), vec![1]);
}
