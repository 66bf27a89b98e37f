use dezorr::arrow::{Arrow, Fault};
use dezorr::func::{Function, FunctionOn};
use dezorr::graph::Graph;
use dezorr::var::{Variable, VariableBody};

type Law<D> = Box<dyn Fn(&[D]) -> Vec<D>>;

fn each<D: Clone + 'static>(f: impl Fn(D) -> D + 'static) -> Option<Law<D>> {
    Some(Box::new(move |xs: &[D]| xs.iter().map(|x| f(x.clone())).collect::<Vec<D>>()))
}

fn all<D: 'static>(f: impl Fn(&[D]) -> Vec<D> + 'static) -> Option<Law<D>> {
    Some(Box::new(f))
}

#[test]
fn checked_pass_agrees_with_the_plain_one() {
    let mut plain: Graph<i64, Law<i64>> = Graph::new();
    let mut checked: Graph<i64, Law<i64>> = Graph::new();
    for graph in [&mut plain, &mut checked] {
        let x = graph.add(Function::coterminal(vec![2, 5]));
        let f = graph.add(Function::new(each(|v| v * v), each(|v| v + v)));
        let y = graph.add(Function::terminal(vec![1, 1]));
        graph.link_to(x, f);
        graph.link_to(x, f);
        graph.link_to(f, y);
        graph.link_to(f, y);
    }
    plain.propagate_forward(0);
    plain.propagate_backward(2);
    assert_eq!(checked.try_propagate_forward(0), Ok(()));
    assert_eq!(checked.try_propagate_backward(2), Ok(()));
    for id in 0..3 {
        assert_eq!(plain.node(id).f.outputs(), checked.node(id).f.outputs());
        assert_eq!(plain.node(id).b.outputs(), checked.node(id).b.outputs());
    }
    assert_eq!(checked.node(2).f.outputs(), vec![4, 25]);
    assert_eq!(checked.node(0).b.outputs(), vec![4, 10]);
    assert_eq!(
        checked.slots().iter().map(|slot| slot.value).collect::<Vec<_>>(),
        plain.slots().iter().map(|slot| slot.value).collect::<Vec<_>>()
    );
}

#[test]
fn sink_with_a_missing_input_is_a_readiness_violation() {
    let mut graph: Graph<i64, Law<i64>> = Graph::new();
    let x = graph.add(Function::coterminal(vec![1, 2]));
    let near = graph.add(Function::new(each(|v| v + 1), None));
    let far = graph.add(Function::new(each(|v| v + 2), None));
    let farther = graph.add(Function::new(each(|v| v + 3), None));
    let y = graph.add(Function::terminal(vec![1, 1]));
    graph.link_to(x, near);
    graph.link_to(x, far);
    graph.link_to(near, y);
    graph.link_to(far, farther);
    graph.link_to(farther, y);
    assert_eq!(graph.try_propagate_forward(x), Err(Fault::ReadinessViolation));
    assert_eq!(graph.node(near).f.outputs(), vec![2]);
    assert_eq!(graph.node(far).f.outputs(), vec![4]);
    assert_eq!(graph.node(farther).f.outputs(), Vec::<i64>::new());
    assert_eq!(graph.node(y).f.inputs(graph.slots()), vec![Some(2), None]);
    assert_eq!(graph.node(y).f.outputs(), Vec::<i64>::new());
}

#[test]
fn sink_that_is_fed_in_time_by_two_nodes_takes_both() {
    let mut graph: Graph<i64, Law<i64>> = Graph::new();
    let x = graph.add(Function::coterminal(vec![1, 2]));
    let near = graph.add(Function::new(each(|v| v + 1), None));
    let far = graph.add(Function::new(each(|v| v + 2), None));
    let y = graph.add(Function::terminal(vec![1, 1]));
    graph.link_to(x, near);
    graph.link_to(x, far);
    graph.link_to(near, y);
    graph.link_to(far, y);
    assert_eq!(graph.try_propagate_forward(x), Ok(()));
    assert_eq!(graph.node(y).f.inputs(graph.slots()), vec![Some(2), Some(4)]);
    assert_eq!(graph.node(y).f.outputs(), vec![2, 4]);
}

#[test]
fn pass_that_starts_at_an_unfed_sink_is_a_readiness_violation() {
    let mut graph: Graph<i64, Law<i64>> = Graph::new();
    let x = graph.add(Function::coterminal(vec![1]));
    let y = graph.add(Function::terminal(vec![1]));
    graph.link_to(x, y);
    assert_eq!(graph.try_propagate_forward(y), Err(Fault::ReadinessViolation));
    assert_eq!(graph.try_propagate_f(y), Err(Fault::ReadinessViolation));
    assert_eq!(graph.node(y).f.inputs(graph.slots()), vec![None]);
    assert_eq!(graph.try_propagate_forward(x), Ok(()));
    assert_eq!(graph.try_propagate_forward(y), Ok(()));
    assert_eq!(graph.node(y).f.outputs(), vec![1]);
}

#[test]
fn source_with_too_few_values_is_an_arity_mismatch() {
    let mut graph: Graph<i64, Law<i64>> = Graph::new();
    let x = graph.add(Function::coterminal(vec![7]));
    let y = graph.add(Function::terminal(vec![1, 1]));
    graph.link_to(x, y);
    graph.link_to(x, y);
    assert_eq!(graph.try_propagate_forward(x), Err(Fault::ArityMismatch));
    assert_eq!(graph.node(y).f.inputs(graph.slots()), vec![None, None]);
    assert_eq!(graph.try_propagate_f(x), Err(Fault::ArityMismatch));
}

#[test]
fn function_with_the_wrong_number_of_results_is_an_arity_mismatch() {
    let mut graph: Graph<i64, Law<i64>> = Graph::new();
    let x = graph.add(Function::coterminal(vec![7, 8]));
    let f = graph.add(Function::new(all(|xs: &[i64]| vec![xs.iter().sum()]), None));
    let y = graph.add(Function::terminal(vec![1, 1]));
    graph.link_to(x, f);
    graph.link_to(x, f);
    graph.link_to(f, y);
    graph.link_to(f, y);
    assert_eq!(graph.try_propagate_forward(x), Err(Fault::ArityMismatch));
    assert_eq!(graph.node(f).f.inputs(graph.slots()), vec![Some(7), Some(8)]);
    assert_eq!(graph.node(f).f.outputs(), Vec::<i64>::new());
    assert_eq!(graph.node(y).f.inputs(graph.slots()), vec![None, None]);
}

#[test]
fn function_without_an_outlet_is_an_arity_mismatch() {
    let mut graph: Graph<i64, Law<i64>> = Graph::new();
    let x = graph.add(Function::coterminal(vec![7]));
    let f = graph.add(Function::new(each(|v| v + 1), None));
    graph.link_to(x, f);
    assert_eq!(graph.try_propagate_forward(x), Err(Fault::ArityMismatch));
    assert_eq!(graph.node(f).f.outputs(), Vec::<i64>::new());
}

#[test]
fn reverse_pass_before_the_forward_pass_is_a_readiness_violation() {
    let mut graph: Graph<i64, Law<i64>> = Graph::new();
    let x = graph.add(Function::coterminal(vec![3]));
    let f = graph.add(Function::new(each(|v| v * v), each(|v| v + v)));
    let y = graph.add(Function::terminal(vec![1]));
    graph.link_to(x, f);
    graph.link_to(f, y);
    assert_eq!(graph.try_propagate_backward(y), Err(Fault::ReadinessViolation));
    assert_eq!(graph.try_propagate_b(f), Err(Fault::ReadinessViolation));
    assert_eq!(graph.node(f).b.inputs(graph.slots()), vec![None]);
    assert_eq!(graph.try_propagate_forward(x), Ok(()));
    assert_eq!(graph.try_propagate_backward(y), Ok(()));
    assert_eq!(graph.node(x).b.outputs(), vec![6]);
}

#[test]
fn reverse_function_with_too_many_results_is_an_arity_mismatch() {
    let mut graph: Graph<i64, Law<i64>> = Graph::new();
    let x = graph.add(Function::coterminal(vec![3]));
    let f = graph.add(Function::new(each(|v| v + 1), all(|xs: &[i64]| vec![xs[0], xs[0]])));
    let y = graph.add(Function::terminal(vec![1]));
    graph.link_to(x, f);
    graph.link_to(f, y);
    assert_eq!(graph.try_propagate_forward(x), Ok(()));
    assert_eq!(graph.try_propagate_backward(y), Err(Fault::ArityMismatch));
    assert_eq!(graph.node(f).b.inputs(graph.slots()), vec![Some(1)]);
    assert_eq!(graph.node(f).b.outputs(), Vec::<i64>::new());
    assert_eq!(graph.node(x).b.inputs(graph.slots()), vec![None]);
}

#[test]
fn reverse_function_with_too_few_results_is_an_arity_mismatch() {
    let mut graph: Graph<i64, Law<i64>> = Graph::new();
    let x = graph.add(Function::coterminal(vec![3, 4]));
    let f = graph.add(Function::new(each(|v| v + 1), all(|xs: &[i64]| vec![xs[0]])));
    let y = graph.add(Function::terminal(vec![1, 1]));
    graph.link_to(x, f);
    graph.link_to(x, f);
    graph.link_to(f, y);
    graph.link_to(f, y);
    assert_eq!(graph.try_propagate_forward(x), Ok(()));
    assert_eq!(graph.try_propagate_backward(y), Err(Fault::ArityMismatch));
}

#[test]
fn checked_steps_of_an_arrow_leave_it_alone_on_a_fault() {
    let mut slots: Vec<VariableBody<i64>> = Vec::new();
    let incoming = Variable::new(&mut slots, None, 0, 1);
    let outgoing = Variable::new(&mut slots, None, 1, 2);

    let mut sink: Arrow<i64, Law<i64>> = Arrow::terminal();
    sink.add_input(incoming);
    assert_eq!(sink.try_propagate_forward(&mut slots), Err(Fault::ReadinessViolation));
    assert_eq!(sink.outputs(), Vec::<i64>::new());
    assert_eq!(sink.try_propagate_backward(&[], &mut slots), Err(Fault::ReadinessViolation));

    let mut wide: Arrow<i64, Law<i64>> = Arrow::new(all(|xs: &[i64]| vec![xs[0], xs[0]]));
    wide.add_input(incoming);
    wide.add_output(outgoing);
    assert_eq!(wide.try_propagate_forward(&mut slots), Ok(None));
    incoming.set_value(&mut slots, Some(5));
    assert_eq!(wide.try_propagate_forward(&mut slots), Err(Fault::ArityMismatch));
    assert_eq!(wide.outputs(), Vec::<i64>::new());
    assert_eq!(outgoing.get_value(&slots), None);
    let at = 9i64;
    assert_eq!(wide.try_propagate_backward(&[&at], &mut slots), Err(Fault::ArityMismatch));
    assert_eq!(wide.outputs(), Vec::<i64>::new());

    let mut fitting: Arrow<i64, Law<i64>> = Arrow::new(each(|v| v * 2));
    fitting.add_input(incoming);
    fitting.add_output(outgoing);
    assert_eq!(fitting.try_propagate_forward(&mut slots), Ok(Some(vec![2])));
    assert_eq!(fitting.outputs(), vec![10]);
    assert_eq!(outgoing.get_value(&slots), Some(10));
    assert_eq!(fitting.try_propagate_forward(&mut slots), Ok(None));

    let mut reverse: Arrow<i64, Law<i64>> = Arrow::new(each(|v| v + 1));
    reverse.add_input(incoming);
    reverse.add_output(outgoing);
    assert_eq!(reverse.try_propagate_backward(&[&at], &mut slots), Ok(Some(vec![2])));
    assert_eq!(reverse.outputs(), vec![5 * 10]);
    assert_eq!(outgoing.get_value(&slots), Some(50));
}

#[test]
fn checked_steps_of_a_node() {
    let mut slots: Vec<VariableBody<i64>> = Vec::new();
    let incoming = Variable::new(&mut slots, None, 0, 1);
    let outgoing = Variable::new(&mut slots, None, 1, 2);
    let mut node: Function<i64, Law<i64>> = Function::new(each(|v| v + 1), None);
    node.add_input(&incoming);
    node.add_output(&outgoing);
    assert_eq!(node.try_propagate_f(&mut slots), Ok(None));
    assert_eq!(node.try_propagate_b(&mut slots), Err(Fault::ReadinessViolation));
    incoming.set_value(&mut slots, Some(1));
    assert_eq!(node.try_propagate_f(&mut slots), Ok(Some(vec![2])));
    assert_eq!(outgoing.get_value(&slots), Some(2));
    assert_eq!(node.try_propagate_b(&mut slots), Ok(Some(vec![])));
}
