use dag_compute::{ComputationGraph, GraphError};
use std::sync::atomic::{AtomicUsize, Ordering};
use std::sync::Arc;

type Eval<T> = Box<dyn Fn(&[&T]) -> T + Send + Sync>;

#[test]
fn test_add_basic() {
    let mut graph = ComputationGraph::<i32, Eval<i32>>::new();
    let mut add_handle = graph.insert_node(
        "add".to_owned(),
        Box::new(|x| {
            let mut sum = 0;
            for item in x.iter() {
                sum += **item;
            }
            sum
        }),
    );
    let handle_a = graph.insert_node("a".to_owned(), Box::new(|_| 2));
    let handle_b = graph.insert_node("b".to_owned(), Box::new(|_| 4));
    graph.set_inputs(&mut add_handle, &[&handle_a, &handle_b]).unwrap();
    graph.designate_output(&add_handle).unwrap();
    assert_eq!(graph.compute().unwrap(), 6);
}

#[test]
fn test_incl_sweep() {
    let mut graph = ComputationGraph::<String, Eval<String>>::new();
    let src = graph.insert_node("const".to_owned(), Box::new(|_| "a".to_owned()));
    let mut incr_keep = graph.insert_node("+1_out".to_owned(), Box::new(|s| s[0].clone() + "b"));
    graph.set_inputs(&mut incr_keep, &[&src]).unwrap();
    let mut incr_toss = graph.insert_node("+1_toss".to_owned(), Box::new(|s| s[0].clone() + "c"));
    graph.set_inputs(&mut incr_toss, &[&incr_keep]).unwrap();
    graph.designate_output(&incr_keep).unwrap();
    assert_eq!(graph.compute().unwrap(), "ab")
}

#[test]
#[should_panic]
fn cycle_loop() {
    let mut graph = ComputationGraph::<i32, Eval<i32>>::new();
    let mut handle_1 = graph.insert_node("loopy_1".to_owned(), Box::new(|_| 5));
    let mut handle_2 = graph.insert_node("loopy_2".to_owned(), Box::new(|_| 5));
    graph.set_inputs(&mut handle_1, &[&handle_2]).unwrap();
    graph.set_inputs(&mut handle_2, &[&handle_1]).unwrap();
    graph.designate_output(&handle_1).unwrap();
    graph.compute().unwrap();
}

#[test]
fn product_plus_constant() {
    let mut graph = ComputationGraph::<i32, Eval<i32>>::new();
    let a = graph.insert_node("a".to_owned(), Box::new(|_| 5));
    let b = graph.insert_node("b".to_owned(), Box::new(|_| 4));
    let mut mult = graph.insert_node("mult".to_owned(), Box::new(|x| x.iter().map(|v| **v).product()));
    let c = graph.insert_node("c".to_owned(), Box::new(|_| 3));
    let mut add = graph.insert_node("add".to_owned(), Box::new(|x| x.iter().map(|v| **v).sum()));
    graph.set_inputs(&mut mult, &[&a, &b]).unwrap();
    graph.set_inputs(&mut add, &[&mult, &c]).unwrap();
    graph.designate_output(&add).unwrap();
    assert_eq!(graph.compute().unwrap(), 23);
}

#[test]
fn string_chain() {
    let mut graph = ComputationGraph::<String, Eval<String>>::new();
    let r = graph.insert_node("R".to_owned(), Box::new(|_| "a".to_owned()));
    let mut s = graph.insert_node("S".to_owned(), Box::new(|x| x[0].clone() + "b"));
    graph.set_inputs(&mut s, &[&r]).unwrap();
    graph.designate_output(&s).unwrap();
    assert_eq!(graph.compute().unwrap(), "ab");
}

#[test]
fn unreachable_node_never_runs() {
    let calls = Arc::new(AtomicUsize::new(0));
    let seen = calls.clone();
    let mut graph = ComputationGraph::<String, Eval<String>>::new();
    let r = graph.insert_node("R".to_owned(), Box::new(|_| "a".to_owned()));
    let mut s = graph.insert_node("S".to_owned(), Box::new(|x| x[0].clone() + "b"));
    let mut t = graph.insert_node(
        "T".to_owned(),
        Box::new(move |x| {
            seen.fetch_add(1, Ordering::SeqCst);
            x[0].clone() + "t"
        }),
    );
    graph.set_inputs(&mut s, &[&r]).unwrap();
    graph.set_inputs(&mut t, &[&r]).unwrap();
    graph.designate_output(&s).unwrap();
    assert_eq!(graph.compute().unwrap(), "ab");
    assert_eq!(calls.load(Ordering::SeqCst), 0);
}

#[test]
fn mutual_inputs_report_cycle() {
    let mut graph = ComputationGraph::<i32, Eval<i32>>::new();
    let mut one = graph.insert_node("one".to_owned(), Box::new(|_| 1));
    let mut two = graph.insert_node("two".to_owned(), Box::new(|_| 2));
    graph.set_inputs(&mut one, &[&two]).unwrap();
    graph.set_inputs(&mut two, &[&one]).unwrap();
    graph.designate_output(&one).unwrap();
    assert_eq!(graph.compute(), Err(GraphError::Cycle));
}

#[test]
fn cycle_runs_no_node() {
    let calls = Arc::new(AtomicUsize::new(0));
    let (c1, c2, c3) = (calls.clone(), calls.clone(), calls.clone());
    let mut graph = ComputationGraph::<i32, Eval<i32>>::new();
    let src = graph.insert_node("src".to_owned(), Box::new(move |_| { c1.fetch_add(1, Ordering::SeqCst); 1 }));
    let mut x = graph.insert_node("x".to_owned(), Box::new(move |_| { c2.fetch_add(1, Ordering::SeqCst); 2 }));
    let mut y = graph.insert_node("y".to_owned(), Box::new(move |_| { c3.fetch_add(1, Ordering::SeqCst); 3 }));
    graph.set_inputs(&mut x, &[&y, &src]).unwrap();
    graph.set_inputs(&mut y, &[&x]).unwrap();
    graph.designate_output(&y).unwrap();
    assert_eq!(graph.compute(), Err(GraphError::Cycle));
    assert_eq!(calls.load(Ordering::SeqCst), 0);
}

#[test]
fn second_output_is_refused() {
    let mut graph = ComputationGraph::<i32, Eval<i32>>::new();
    let a = graph.insert_node("a".to_owned(), Box::new(|_| 10));
    let b = graph.insert_node("b".to_owned(), Box::new(|_| 20));
    graph.designate_output(&a).unwrap();
    assert_eq!(graph.designate_output(&b), Err(GraphError::OutputAlreadyDesignated));
    assert_eq!(graph.compute().unwrap(), 10);
}

#[test]
fn inputs_arrive_in_declared_order() {
    let mut graph = ComputationGraph::<String, Eval<String>>::new();
    let first = graph.insert_node("first".to_owned(), Box::new(|_| "1".to_owned()));
    let second = graph.insert_node("second".to_owned(), Box::new(|_| "2".to_owned()));
    let third = graph.insert_node("third".to_owned(), Box::new(|_| "3".to_owned()));
    let mut join = graph.insert_node(
        "join".to_owned(),
        Box::new(|x| x.iter().map(|s| s.as_str()).collect::<Vec<_>>().join(",")),
    );
    graph.set_inputs(&mut join, &[&third, &first, &second]).unwrap();
    graph.designate_output(&join).unwrap();
    assert_eq!(graph.compute().unwrap(), "3,1,2");
}

#[test]
fn compute_without_output_is_refused() {
    let mut graph = ComputationGraph::<i32, Eval<i32>>::new();
    let _a = graph.insert_node("a".to_owned(), Box::new(|_| 1));
    assert_eq!(graph.compute(), Err(GraphError::OutputNotDesignated));
}

#[test]
fn foreign_handle_is_refused() {
    let mut one = ComputationGraph::<i32, Eval<i32>>::new();
    let mut two = ComputationGraph::<i32, Eval<i32>>::new();
    let a = one.insert_node("a".to_owned(), Box::new(|_| 1));
    let mut b = two.insert_node("b".to_owned(), Box::new(|_| 2));
    assert_eq!(two.designate_output(&a), Err(GraphError::ForeignHandle));
    assert_eq!(two.set_inputs(&mut b, &[&a]), Err(GraphError::ForeignHandle));
    assert_eq!(two.node_name(&a), Err(GraphError::ForeignHandle));
}

#[test]
fn node_names_are_kept() {
    let mut graph = ComputationGraph::<i32, Eval<i32>>::new();
    let a = graph.insert_node("alpha".to_owned(), Box::new(|_| 1));
    let b = graph.insert_node("alpha".to_owned(), Box::new(|_| 2));
    assert_eq!(graph.node_name(&a), Ok("alpha"));
    assert_eq!(graph.node_name(&b), Ok("alpha"));
    assert_ne!(a, b);
}

#[test]
fn rewiring_replaces_inputs() {
    let mut graph = ComputationGraph::<i32, Eval<i32>>::new();
    let a = graph.insert_node("a".to_owned(), Box::new(|_| 7));
    let b = graph.insert_node("b".to_owned(), Box::new(|_| 9));
    let mut sum = graph.insert_node("sum".to_owned(), Box::new(|x| x.iter().map(|v| **v).sum()));
    graph.set_inputs(&mut sum, &[&a, &b]).unwrap();
    graph.set_inputs(&mut sum, &[&b, &b]).unwrap();
    graph.designate_output(&sum).unwrap();
    assert_eq!(graph.compute().unwrap(), 18);
}

#[test]
fn shared_input_feeds_every_consumer() {
    let mut graph = ComputationGraph::<i32, Eval<i32>>::new();
    let base = graph.insert_node("base".to_owned(), Box::new(|_| 3));
    let mut double = graph.insert_node("double".to_owned(), Box::new(|x| *x[0] * 2));
    let mut square = graph.insert_node("square".to_owned(), Box::new(|x| *x[0] * *x[0]));
    let mut total = graph.insert_node("total".to_owned(), Box::new(|x| x.iter().map(|v| **v).sum()));
    graph.set_inputs(&mut double, &[&base]).unwrap();
    graph.set_inputs(&mut square, &[&base]).unwrap();
    graph.set_inputs(&mut total, &[&double, &square, &base]).unwrap();
    graph.designate_output(&total).unwrap();
    assert_eq!(graph.compute().unwrap(), 6 + 9 + 3);
}

#[test]
fn dot_rendering_lists_nodes_and_edges() {
    let mut graph = ComputationGraph::<i32, Eval<i32>>::new();
    let a = graph.insert_node("say \"hi\"".to_owned(), Box::new(|_| 1));
    let mut b = graph.insert_node("b".to_owned(), Box::new(|x| *x[0] + 1));
    graph.set_inputs(&mut b, &[&a]).unwrap();
    graph.designate_output(&b).unwrap();
    let text = graph.dot_graph();
    assert_eq!(
        text,
        "strict digraph {\n\
         4294967297 [label=\"say \\\"hi\\\"\"];\n\
         4294967298 [label=\"b\", shape=box];\n\
         4294967297->4294967298;\n\
         }\n"
    );
    assert_eq!(graph.compute().unwrap(), 2);
}

#[test]
fn dot_rendering_of_empty_graph() {
    let graph = ComputationGraph::<i32, Eval<i32>>::new();
    assert_eq!(graph.dot_graph(), "strict digraph {\n}\n");
}

#[test]
fn default_graph_is_empty() {
    let mut graph: ComputationGraph<i32, Eval<i32>> = Default::default();
    assert_eq!(graph.dot_graph(), "strict digraph {\n}\n");
    let a = graph.insert_node("a".to_owned(), Box::new(|_| 42));
    graph.designate_output(&a).unwrap();
    assert_eq!(graph.compute().unwrap(), 42);
}
