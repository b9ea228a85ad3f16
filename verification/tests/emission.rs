use std::cell::Cell;
use std::rc::Rc;
use thriller_flow::{
    Buffer, IdAllocator, Task, ThrillerBlock, ThrillerError, ThrillerNode, ThrillerNodeInner,
    ThrillerResult,
};

struct Stmt(&'static str);

impl Task for Stmt {
    fn emit(&self) -> ThrillerResult<String> {
        Ok(String::from(self.0))
    }
}

struct Failing(ThrillerError);

impl Task for Failing {
    fn emit(&self) -> ThrillerResult<String> {
        Err(match &self.0 {
            ThrillerError::TypeMismatch => ThrillerError::TypeMismatch,
            _ => ThrillerError::InvalidReference,
        })
    }
}

fn stmt(ids: &mut IdAllocator, text: &'static str) -> ThrillerNode {
    ThrillerNode::new(ThrillerNodeInner::Op(Box::new(Stmt(text))), ids)
}

fn failing(ids: &mut IdAllocator) -> ThrillerNode {
    ThrillerNode::new(ThrillerNodeInner::Op(Box::new(Failing(ThrillerError::TypeMismatch))), ids)
}

fn buffer(ids: &mut IdAllocator, name: &str) -> ThrillerNode {
    ThrillerNode::new(ThrillerNodeInner::Buffer(Rc::new(Buffer::new(String::from(name)))), ids)
}

fn nested(ids: &mut IdAllocator, block: ThrillerBlock) -> ThrillerNode {
    ThrillerNode::new(ThrillerNodeInner::Block(Rc::new(block)), ids)
}

fn graph(ids: &mut IdAllocator, texts: &[&'static str], edges: &[(usize, usize)]) -> ThrillerBlock {
    let mut block = ThrillerBlock::new(String::from("g"));
    for text in texts {
        block.add_node(stmt(ids, text)).unwrap();
    }
    for (src, dst) in edges {
        block.add_edge(*src, *dst).unwrap();
    }
    block
}

#[test]
fn empty_block_emits_nothing() {
    let block = ThrillerBlock::new(String::from("g"));
    assert_eq!(block.emission_order(), Vec::<usize>::new());
    assert_eq!(block.emit(), Ok(String::new()));
}

#[test]
fn single_vertex_is_emitted() {
    let mut ids = IdAllocator::new();
    let block = graph(&mut ids, &["only;"], &[]);
    assert_eq!(block.emission_order(), vec![0]);
    assert_eq!(block.emit(), Ok(String::from("only;")));
}

#[test]
fn independent_vertices_keep_insertion_order() {
    let mut ids = IdAllocator::new();
    let block = graph(&mut ids, &["a;", "b;", "c;"], &[]);
    assert_eq!(block.emission_order(), vec![0, 1, 2]);
    assert_eq!(block.emit(), Ok(String::from("a;b;c;")));
}

#[test]
fn chain_against_insertion_order() {
    let mut ids = IdAllocator::new();
    let block = graph(&mut ids, &["a;", "b;", "c;"], &[(2, 1), (1, 0)]);
    assert_eq!(block.emission_order(), vec![2, 1, 0]);
    assert_eq!(block.emit(), Ok(String::from("c;b;a;")));
}

#[test]
fn diamond_scenario() {
    let mut ids = IdAllocator::new();
    let block = graph(&mut ids, &["X", "Y1", "Y2", "Z"], &[(0, 1), (0, 2), (1, 3), (2, 3)]);
    assert_eq!(block.emission_order(), vec![0, 1, 2, 3]);
    assert_eq!(block.emit(), Ok(String::from("XY1Y2Z")));
}

#[test]
fn diamond_with_reversed_insertion() {
    // Z, Y2, Y1, X inserted in this order; the edges are those of a diamond.
    let mut ids = IdAllocator::new();
    let block = graph(&mut ids, &["Z", "Y2", "Y1", "X"], &[(3, 2), (3, 1), (2, 0), (1, 0)]);
    assert_eq!(block.emission_order(), vec![3, 1, 2, 0]);
    assert_eq!(block.emit(), Ok(String::from("XY2Y1Z")));
}

#[test]
fn ties_go_by_insertion_not_by_edge_creation() {
    let mut ids = IdAllocator::new();
    // Both Y1 and Y2 wait for X; the edge to Y2 is created first.
    let block = graph(&mut ids, &["X", "Y1", "Y2"], &[(0, 2), (0, 1)]);
    assert_eq!(block.emission_order(), vec![0, 1, 2]);
    assert_eq!(block.emit(), Ok(String::from("XY1Y2")));
}

#[test]
fn ties_go_by_insertion_among_all_ready_vertices() {
    let mut ids = IdAllocator::new();
    // S releases B and T releases A; once both are emitted, A goes first.
    let block = graph(&mut ids, &["S", "T", "A", "B"], &[(0, 3), (1, 2)]);
    assert_eq!(block.emission_order(), vec![0, 1, 2, 3]);
    assert_eq!(block.emit(), Ok(String::from("STAB")));
}

#[test]
fn released_vertex_overtakes_later_ready_ones() {
    let mut ids = IdAllocator::new();
    // B waits for C only; after C the earlier B goes before D.
    let block = graph(&mut ids, &["A", "B", "C", "D"], &[(2, 1)]);
    assert_eq!(block.emission_order(), vec![0, 2, 1, 3]);
    assert_eq!(block.emit(), Ok(String::from("ACBD")));
}

#[test]
fn repeated_edge_is_counted_each_time() {
    let mut ids = IdAllocator::new();
    let block = graph(&mut ids, &["late;", "early;"], &[(1, 0), (1, 0), (1, 0)]);
    assert_eq!(block.get_nodes()[0].get_in_degrees(), 3);
    assert_eq!(block.emission_order(), vec![1, 0]);
    assert_eq!(block.emit(), Ok(String::from("early;late;")));
}

#[test]
fn every_vertex_is_emitted_exactly_once() {
    let mut ids = IdAllocator::new();
    let block = graph(
        &mut ids,
        &["0", "1", "2", "3", "4", "5"],
        &[(5, 0), (5, 2), (4, 0), (4, 1), (2, 3), (3, 1)],
    );
    let order = block.emission_order();
    assert_eq!(order, vec![4, 5, 0, 2, 3, 1]);
    let mut sorted = order.clone();
    sorted.sort();
    assert_eq!(sorted, vec![0, 1, 2, 3, 4, 5]);
    for edge in block.get_edges() {
        let src = order.iter().position(|v| *v == edge.get_src()).unwrap();
        let dst = order.iter().position(|v| *v == edge.get_dst()).unwrap();
        assert!(src < dst);
    }
    assert_eq!(block.emit(), Ok(String::from("450231")));
}

#[test]
fn buffer_vertex_orders_but_adds_no_code() {
    let mut ids = IdAllocator::new();
    let mut block = ThrillerBlock::new(String::from("g"));
    let consumer = block.add_node(stmt(&mut ids, "load;")).unwrap();
    let tile = block.add_node(buffer(&mut ids, "tile")).unwrap();
    let producer = block.add_node(stmt(&mut ids, "store;")).unwrap();
    block.add_edge(producer, tile).unwrap();
    block.add_edge(tile, consumer).unwrap();
    assert_eq!(block.emission_order(), vec![2, 1, 0]);
    assert_eq!(block.emit(), Ok(String::from("store;load;")));
}

#[test]
fn block_of_buffers_emits_nothing() {
    let mut ids = IdAllocator::new();
    let mut block = ThrillerBlock::new(String::from("g"));
    block.add_node(buffer(&mut ids, "a")).unwrap();
    block.add_node(buffer(&mut ids, "b")).unwrap();
    block.add_edge(0, 1).unwrap();
    assert_eq!(block.emit(), Ok(String::new()));
}

#[test]
fn nested_block_scenario() {
    let mut ids = IdAllocator::new();
    let mut inner = ThrillerBlock::new(String::from("B"));
    let a = inner.add_node(stmt(&mut ids, "A;")).unwrap();
    let b = inner.add_node(stmt(&mut ids, "B;")).unwrap();
    inner.add_edge(a, b).unwrap();

    let mut outer = ThrillerBlock::new(String::from("outer"));
    let p = outer.add_node(stmt(&mut ids, "P;")).unwrap();
    let block = outer.add_node(nested(&mut ids, inner)).unwrap();
    let s = outer.add_node(stmt(&mut ids, "S;")).unwrap();
    outer.add_edge(p, block).unwrap();
    outer.add_edge(block, s).unwrap();

    assert_eq!(outer.get_nodes()[block].get_in_degrees(), 1);
    assert_eq!(outer.emission_order(), vec![p, block, s]);
    assert_eq!(outer.emit(), Ok(String::from("P;A;B;S;")));
}

#[test]
fn nested_block_follows_its_dependencies_not_its_insertion() {
    let mut ids = IdAllocator::new();
    let mut inner = ThrillerBlock::new(String::from("B"));
    let b = inner.add_node(stmt(&mut ids, "B;")).unwrap();
    let a = inner.add_node(stmt(&mut ids, "A;")).unwrap();
    inner.add_edge(a, b).unwrap();

    let mut outer = ThrillerBlock::new(String::from("outer"));
    let block = outer.add_node(nested(&mut ids, inner)).unwrap();
    let s = outer.add_node(stmt(&mut ids, "S;")).unwrap();
    let p = outer.add_node(stmt(&mut ids, "P;")).unwrap();
    outer.add_edge(p, block).unwrap();
    outer.add_edge(block, s).unwrap();

    assert_eq!(outer.emit(), Ok(String::from("P;A;B;S;")));
}

#[test]
fn blocks_nest_to_any_depth() {
    let mut ids = IdAllocator::new();
    let mut deepest = ThrillerBlock::new(String::from("d2"));
    deepest.add_node(stmt(&mut ids, "core;")).unwrap();
    let mut middle = ThrillerBlock::new(String::from("d1"));
    middle.add_node(stmt(&mut ids, "after;")).unwrap();
    middle.add_node(nested(&mut ids, deepest)).unwrap();
    middle.add_edge(1, 0).unwrap();
    let mut top = ThrillerBlock::new(String::from("d0"));
    top.add_node(nested(&mut ids, middle)).unwrap();
    top.add_node(stmt(&mut ids, "end;")).unwrap();
    assert_eq!(top.emit(), Ok(String::from("core;after;end;")));
}

#[test]
fn cycle_is_reported_with_the_stuck_vertices() {
    let mut ids = IdAllocator::new();
    let block = graph(&mut ids, &["a", "b", "c"], &[(0, 1), (1, 2), (2, 0)]);
    assert_eq!(block.emission_order(), Vec::<usize>::new());
    assert_eq!(block.emit(), Err(ThrillerError::CycleDetected(vec![0, 1, 2])));
}

#[test]
fn edge_to_itself_is_a_cycle() {
    let mut ids = IdAllocator::new();
    let block = graph(&mut ids, &["a", "b"], &[(1, 1)]);
    assert_eq!(block.emission_order(), vec![0]);
    assert_eq!(block.emit(), Err(ThrillerError::CycleDetected(vec![1])));
}

#[test]
fn cycle_holds_back_what_depends_on_it() {
    let mut ids = IdAllocator::new();
    let _skipped = ids.next_id();
    // 0 is free, 1 and 2 form a cycle, 3 waits for the cycle, 4 waits for 0.
    let block = graph(&mut ids, &["f", "c1", "c2", "d", "e"], &[(1, 2), (2, 1), (2, 3), (0, 4)]);
    assert_eq!(block.emission_order(), vec![0, 4]);
    // The ids are one above the positions.
    assert_eq!(block.emit(), Err(ThrillerError::CycleDetected(vec![2, 3, 4])));
}

#[test]
fn cycle_in_nested_block_fails_the_outer_pass() {
    let mut ids = IdAllocator::new();
    let inner = graph(&mut ids, &["x", "y"], &[(0, 1), (1, 0)]);
    let mut outer = ThrillerBlock::new(String::from("outer"));
    outer.add_node(stmt(&mut ids, "before;")).unwrap();
    outer.add_node(nested(&mut ids, inner)).unwrap();
    outer.add_node(stmt(&mut ids, "after;")).unwrap();
    assert_eq!(outer.emission_order(), vec![0, 1, 2]);
    // The outer pass reports the failure of its vertex, which has the id 3.
    assert_eq!(
        outer.emit(),
        Err(ThrillerError::EmissionFailure(3, Box::new(ThrillerError::CycleDetected(vec![0, 1]))))
    );
}

#[test]
fn failure_of_an_operation_ends_the_pass() {
    let mut ids = IdAllocator::new();
    let mut block = ThrillerBlock::new(String::from("g"));
    block.add_node(stmt(&mut ids, "a;")).unwrap();
    block.add_node(failing(&mut ids)).unwrap();
    block.add_node(stmt(&mut ids, "c;")).unwrap();
    assert_eq!(block.emission_order(), vec![0, 1, 2]);
    assert_eq!(
        block.emit(),
        Err(ThrillerError::EmissionFailure(1, Box::new(ThrillerError::TypeMismatch)))
    );
}

#[test]
fn first_failure_in_emission_order_is_reported() {
    let mut ids = IdAllocator::new();
    let mut block = ThrillerBlock::new(String::from("g"));
    block.add_node(failing(&mut ids)).unwrap();
    block.add_node(failing(&mut ids)).unwrap();
    block.add_edge(1, 0).unwrap();
    assert_eq!(
        block.emit(),
        Err(ThrillerError::EmissionFailure(1, Box::new(ThrillerError::TypeMismatch)))
    );
}

#[test]
fn failure_in_nested_block_names_both_vertices() {
    let mut ids = IdAllocator::new();
    let mut inner = ThrillerBlock::new(String::from("inner"));
    inner.add_node(stmt(&mut ids, "fine;")).unwrap();
    inner.add_node(failing(&mut ids)).unwrap();
    let mut outer = ThrillerBlock::new(String::from("outer"));
    outer.add_node(nested(&mut ids, inner)).unwrap();
    outer.add_node(stmt(&mut ids, "never;")).unwrap();
    assert_eq!(
        outer.emit(),
        Err(ThrillerError::EmissionFailure(
            2,
            Box::new(ThrillerError::EmissionFailure(1, Box::new(ThrillerError::TypeMismatch)))
        ))
    );
}

#[test]
fn failure_before_the_pass_is_stuck_hides_the_cycle() {
    let mut ids = IdAllocator::new();
    let mut block = ThrillerBlock::new(String::from("g"));
    block.add_node(failing(&mut ids)).unwrap();
    block.add_node(stmt(&mut ids, "b")).unwrap();
    block.add_node(stmt(&mut ids, "c")).unwrap();
    block.add_edge(1, 2).unwrap();
    block.add_edge(2, 1).unwrap();
    assert_eq!(block.emission_order(), vec![0]);
    assert_eq!(
        block.emit(),
        Err(ThrillerError::EmissionFailure(0, Box::new(ThrillerError::TypeMismatch)))
    );
}

#[test]
fn failure_behind_a_cycle_is_never_reached() {
    let mut ids = IdAllocator::new();
    let mut block = ThrillerBlock::new(String::from("g"));
    block.add_node(stmt(&mut ids, "a")).unwrap();
    block.add_node(stmt(&mut ids, "b")).unwrap();
    block.add_node(failing(&mut ids)).unwrap();
    block.add_edge(0, 1).unwrap();
    block.add_edge(1, 0).unwrap();
    block.add_edge(1, 2).unwrap();
    assert_eq!(block.emit(), Err(ThrillerError::CycleDetected(vec![0, 1, 2])));
}

#[test]
fn emitting_twice_gives_the_same_text() {
    let mut ids = IdAllocator::new();
    let block = graph(
        &mut ids,
        &["int a = 0;\n", "a += 1;\n", "a *= 2;\n", "return a;\n"],
        &[(0, 1), (0, 2), (1, 3), (2, 3)],
    );
    let first = block.emit();
    let second = block.emit();
    assert_eq!(first, second);
    assert_eq!(first, Ok(String::from("int a = 0;\na += 1;\na *= 2;\nreturn a;\n")));
    assert_eq!(block.get_nodes()[3].get_in_degrees(), 2);
}

#[test]
fn graphs_built_alike_emit_alike() {
    let mut first_ids = IdAllocator::new();
    let mut second_ids = IdAllocator::new();
    let texts = ["u;", "v;", "w;"];
    let edges = [(2, 0), (0, 1)];
    let first = graph(&mut first_ids, &texts, &edges);
    let second = graph(&mut second_ids, &texts, &edges);
    assert_eq!(first.emit(), second.emit());
    assert_eq!(first.emit(), Ok(String::from("w;u;v;")));
}

#[test]
fn failing_pass_fails_the_same_way_twice() {
    let mut ids = IdAllocator::new();
    let block = graph(&mut ids, &["a", "b"], &[(0, 1), (1, 0)]);
    assert_eq!(block.emit(), block.emit());
    assert_eq!(block.emit(), Err(ThrillerError::CycleDetected(vec![0, 1])));
}

#[test]
fn pass_leaves_the_in_degrees_as_they_are() {
    let mut ids = IdAllocator::new();
    let block = graph(&mut ids, &["a", "b", "c"], &[(0, 1), (0, 2), (1, 2)]);
    let before: Vec<usize> = block.get_nodes().iter().map(|n| n.get_in_degrees()).collect();
    block.emit().unwrap();
    let after: Vec<usize> = block.get_nodes().iter().map(|n| n.get_in_degrees()).collect();
    assert_eq!(before, vec![0, 1, 2]);
    assert_eq!(after, before);
}

#[test]
fn text_is_joined_without_separators() {
    let mut ids = IdAllocator::new();
    let block = graph(&mut ids, &["", "é∀", "", "x"], &[]);
    assert_eq!(block.emit(), Ok(String::from("é∀x")));
}

struct Counting(Cell<usize>);

impl Task for Counting {
    fn emit(&self) -> ThrillerResult<String> {
        let n = self.0.get();
        self.0.set(n + 1);
        Ok(format!("call{};", n))
    }
}

#[test]
fn operation_may_answer_differently_each_time() {
    let mut ids = IdAllocator::new();
    let mut block = ThrillerBlock::new(String::from("g"));
    block.add_node(stmt(&mut ids, "a;")).unwrap();
    block
        .add_node(ThrillerNode::new(
            ThrillerNodeInner::Op(Box::new(Counting(Cell::new(0)))),
            &mut ids,
        ))
        .unwrap();
    assert_eq!(block.emit(), Ok(String::from("a;call0;")));
    assert_eq!(block.emit(), Ok(String::from("a;call1;")));
    assert_eq!(block.emission_order(), vec![0, 1]);
}

#[test]
fn join_follows_the_order_of_the_pass() {
    let mut ids = IdAllocator::new();
    let block = graph(&mut ids, &["Z", "Y2", "Y1", "X"], &[(3, 2), (3, 1), (2, 0), (1, 0)]);
    assert_eq!(block.emission_order(), vec![3, 1, 2, 0]);
    let fragments = vec![
        Ok(String::from("first;")),
        Ok(String::from("second;")),
        Ok(String::new()),
        Ok(String::from("last;")),
    ];
    assert_eq!(block.join(fragments), Ok(String::from("first;second;last;")));
}

#[test]
fn join_reports_the_first_failure_with_the_id_of_its_vertex() {
    let mut ids = IdAllocator::new();
    let _skipped = ids.next_id();
    let block = graph(&mut ids, &["a", "b", "c"], &[(2, 0)]);
    assert_eq!(block.emission_order(), vec![1, 2, 0]);
    // The second fragment belongs to the vertex at position 2, whose id is 3.
    let fragments = vec![
        Ok(String::from("b;")),
        Err(ThrillerError::InvalidReference),
        Err(ThrillerError::TypeMismatch),
    ];
    assert_eq!(
        block.join(fragments),
        Err(ThrillerError::EmissionFailure(3, Box::new(ThrillerError::InvalidReference)))
    );
}

#[test]
fn join_takes_a_pass_that_ended_early() {
    let mut ids = IdAllocator::new();
    let block = graph(&mut ids, &["a", "b", "c"], &[]);
    let fragments = vec![Ok(String::from("a;")), Err(ThrillerError::CycleDetected(vec![7]))];
    assert_eq!(
        block.join(fragments),
        Err(ThrillerError::EmissionFailure(1, Box::new(ThrillerError::CycleDetected(vec![7]))))
    );
}

#[test]
fn join_reports_a_cycle_where_no_vertex_fails() {
    let mut ids = IdAllocator::new();
    let block = graph(&mut ids, &["r", "a", "b"], &[(0, 1), (1, 2), (2, 1)]);
    assert_eq!(block.emission_order(), vec![0]);
    assert_eq!(
        block.join(vec![Ok(String::from("r;"))]),
        Err(ThrillerError::CycleDetected(vec![1, 2]))
    );
    assert_eq!(block.join(Vec::new()), Err(ThrillerError::CycleDetected(vec![1, 2])));
    assert_eq!(
        block.join(vec![Err(ThrillerError::TypeMismatch)]),
        Err(ThrillerError::EmissionFailure(0, Box::new(ThrillerError::TypeMismatch)))
    );
}

#[test]
fn join_does_not_read_fragments_beyond_the_order() {
    let mut ids = IdAllocator::new();
    let block = graph(&mut ids, &["a"], &[]);
    let fragments = vec![Ok(String::from("a;")), Err(ThrillerError::TypeMismatch)];
    assert_eq!(block.join(fragments), Ok(String::from("a;")));
    let empty = ThrillerBlock::new(String::from("e"));
    assert_eq!(empty.join(vec![Err(ThrillerError::InvalidReference)]), Ok(String::new()));
}

#[test]
fn join_of_fewer_fragments_joins_what_is_there() {
    let mut ids = IdAllocator::new();
    let block = graph(&mut ids, &["a", "b"], &[]);
    assert_eq!(block.join(vec![Ok(String::from("a;"))]), Ok(String::from("a;")));
    assert_eq!(block.join(Vec::new()), Ok(String::new()));
}

#[test]
fn graphs_built_alike_with_other_ids_emit_alike() {
    let mut first_ids = IdAllocator::new();
    let mut second_ids = IdAllocator::new();
    for _ in 0..5 {
        second_ids.next_id();
    }
    let texts = ["u;", "v;", "w;"];
    let edges = [(2, 0), (0, 1)];
    let first = graph(&mut first_ids, &texts, &edges);
    let second = graph(&mut second_ids, &texts, &edges);
    assert_ne!(first.get_nodes()[0].get_id(), second.get_nodes()[0].get_id());
    assert_eq!(first.emit(), second.emit());
    assert_eq!(second.emit(), Ok(String::from("w;u;v;")));
}
