use std::rc::Rc;
use thriller_flow::{
    Buffer, IdAllocator, Task, ThrillerBlock, ThrillerEdge, ThrillerError, ThrillerNode,
    ThrillerNodeInner, ThrillerResult,
};

struct Line(&'static str);

impl Task for Line {
    fn emit(&self) -> ThrillerResult<String> {
        Ok(String::from(self.0))
    }
}

fn line(ids: &mut IdAllocator, text: &'static str) -> ThrillerNode {
    ThrillerNode::new(ThrillerNodeInner::Op(Box::new(Line(text))), ids)
}

fn block_of(ids: &mut IdAllocator, texts: &[&'static str]) -> ThrillerBlock {
    let mut block = ThrillerBlock::new(String::from("g"));
    for text in texts {
        block.add_node(line(ids, text)).unwrap();
    }
    block
}

fn degrees(block: &ThrillerBlock) -> Vec<usize> {
    block.get_nodes().iter().map(|n| n.get_in_degrees()).collect()
}

#[test]
fn new_block_is_empty() {
    let block = ThrillerBlock::new(String::from("kernel"));
    assert_eq!(block.get_name().as_str(), "kernel");
    assert!(block.get_nodes().is_empty());
    assert!(block.get_edges().is_empty());
}

#[test]
fn add_node_returns_positions_in_order() {
    let mut ids = IdAllocator::new();
    let mut block = ThrillerBlock::new(String::from("g"));
    assert_eq!(block.add_node(line(&mut ids, "a")), Ok(0));
    assert_eq!(block.add_node(line(&mut ids, "b")), Ok(1));
    assert_eq!(block.add_node(line(&mut ids, "c")), Ok(2));
    assert_eq!(block.get_nodes().len(), 3);
    assert_eq!(block.get_nodes()[1].get_id(), 1);
}

#[test]
fn add_edge_registers_with_both_ends() {
    let mut ids = IdAllocator::new();
    let mut block = block_of(&mut ids, &["a", "b", "c"]);
    let edge = block.add_edge(0, 2).unwrap();
    assert_eq!(edge, ThrillerEdge::new(0, 2));
    let nodes = block.get_nodes();
    assert_eq!(nodes[0].get_out_edges(), &vec![edge]);
    assert_eq!(nodes[0].get_successors(), &vec![2]);
    assert!(nodes[0].get_in_edges().is_empty());
    assert_eq!(nodes[2].get_in_edges(), &vec![edge]);
    assert_eq!(nodes[2].get_predecessors(), &vec![0]);
    assert!(nodes[2].get_out_edges().is_empty());
    assert!(nodes[1].is_isolated());
    assert_eq!(block.get_edges(), &vec![edge]);
}

#[test]
fn in_degree_counts_in_edges_after_every_insertion() {
    let mut ids = IdAllocator::new();
    let mut block = block_of(&mut ids, &["a", "b", "c", "d"]);
    let plan = [(0, 1), (0, 2), (1, 3), (2, 3), (0, 3), (1, 2)];
    let mut expected = vec![0usize; 4];
    for (src, dst) in plan {
        block.add_edge(src, dst).unwrap();
        expected[dst] += 1;
        assert_eq!(degrees(&block), expected);
        for node in block.get_nodes() {
            assert_eq!(node.get_in_degrees(), node.get_in_edges().len());
            assert_eq!(node.get_predecessors().len(), node.get_in_edges().len());
            assert_eq!(node.get_successors().len(), node.get_out_edges().len());
        }
    }
    assert_eq!(expected, vec![0, 1, 2, 3]);
}

#[test]
fn in_degree_grows_by_exactly_one() {
    let mut ids = IdAllocator::new();
    let mut block = block_of(&mut ids, &["a", "b"]);
    assert_eq!(degrees(&block), vec![0, 0]);
    block.add_edge(0, 1).unwrap();
    assert_eq!(degrees(&block), vec![0, 1]);
    block.add_edge(0, 1).unwrap();
    assert_eq!(degrees(&block), vec![0, 2]);
    assert_eq!(block.get_nodes()[1].get_predecessors(), &vec![0, 0]);
    assert_eq!(block.get_nodes()[0].get_successors(), &vec![1, 1]);
}

#[test]
fn edge_lists_keep_the_order_of_creation() {
    let mut ids = IdAllocator::new();
    let mut block = block_of(&mut ids, &["a", "b", "c", "d"]);
    block.add_edge(3, 0).unwrap();
    block.add_edge(1, 0).unwrap();
    block.add_edge(2, 0).unwrap();
    block.add_edge(1, 3).unwrap();
    block.add_edge(1, 2).unwrap();
    let nodes = block.get_nodes();
    assert_eq!(nodes[0].get_predecessors(), &vec![3, 1, 2]);
    assert_eq!(nodes[1].get_successors(), &vec![0, 3, 2]);
    assert_eq!(
        block.get_edges(),
        &vec![
            ThrillerEdge::new(3, 0),
            ThrillerEdge::new(1, 0),
            ThrillerEdge::new(2, 0),
            ThrillerEdge::new(1, 3),
            ThrillerEdge::new(1, 2),
        ]
    );
}

#[test]
fn edge_to_itself_is_registered_twice_with_one_vertex() {
    let mut ids = IdAllocator::new();
    let mut block = block_of(&mut ids, &["a"]);
    let edge = block.add_edge(0, 0).unwrap();
    let node = &block.get_nodes()[0];
    assert_eq!(node.get_in_degrees(), 1);
    assert_eq!(node.get_in_edges(), &vec![edge]);
    assert_eq!(node.get_out_edges(), &vec![edge]);
    assert_eq!(node.get_predecessors(), &vec![0]);
    assert_eq!(node.get_successors(), &vec![0]);
}

#[test]
fn edge_from_unknown_vertex_is_refused() {
    let mut ids = IdAllocator::new();
    let mut block = block_of(&mut ids, &["a", "b"]);
    assert_eq!(block.add_edge(2, 0), Err(ThrillerError::InvalidReference));
}

#[test]
fn edge_to_unknown_vertex_is_refused() {
    let mut ids = IdAllocator::new();
    let mut block = block_of(&mut ids, &["a", "b"]);
    assert_eq!(block.add_edge(1, 7), Err(ThrillerError::InvalidReference));
}

#[test]
fn edge_in_empty_block_is_refused() {
    let mut block = ThrillerBlock::new(String::from("g"));
    assert_eq!(block.add_edge(0, 0), Err(ThrillerError::InvalidReference));
    assert!(block.get_edges().is_empty());
}

#[test]
fn refused_edge_leaves_the_block_untouched() {
    let mut ids = IdAllocator::new();
    let mut block = block_of(&mut ids, &["a", "b", "c"]);
    block.add_edge(0, 1).unwrap();
    block.add_edge(1, 2).unwrap();
    let edges_before = block.get_edges().clone();
    let degrees_before = degrees(&block);
    let lists_before: Vec<(Vec<usize>, Vec<usize>, Vec<ThrillerEdge>, Vec<ThrillerEdge>)> = block
        .get_nodes()
        .iter()
        .map(|n| {
            (
                n.get_predecessors().clone(),
                n.get_successors().clone(),
                n.get_in_edges().clone(),
                n.get_out_edges().clone(),
            )
        })
        .collect();

    assert_eq!(block.add_edge(1, 3), Err(ThrillerError::InvalidReference));
    assert_eq!(block.add_edge(3, 1), Err(ThrillerError::InvalidReference));
    assert_eq!(block.add_edge(usize::MAX, usize::MAX), Err(ThrillerError::InvalidReference));

    assert_eq!(block.get_name().as_str(), "g");
    assert_eq!(block.get_nodes().len(), 3);
    assert_eq!(block.get_edges(), &edges_before);
    assert_eq!(degrees(&block), degrees_before);
    let lists_after: Vec<(Vec<usize>, Vec<usize>, Vec<ThrillerEdge>, Vec<ThrillerEdge>)> = block
        .get_nodes()
        .iter()
        .map(|n| {
            (
                n.get_predecessors().clone(),
                n.get_successors().clone(),
                n.get_in_edges().clone(),
                n.get_out_edges().clone(),
            )
        })
        .collect();
    assert_eq!(lists_after, lists_before);
}

#[test]
fn edges_keep_ids_and_contents() {
    let mut ids = IdAllocator::new();
    let mut block = ThrillerBlock::new(String::from("g"));
    block.add_node(line(&mut ids, "a")).unwrap();
    block
        .add_node(ThrillerNode::new(
            ThrillerNodeInner::Buffer(Rc::new(Buffer::new(String::from("buf")))),
            &mut ids,
        ))
        .unwrap();
    block.add_edge(0, 1).unwrap();
    block.add_edge(1, 0).unwrap();
    assert_eq!(block.get_nodes()[0].get_id(), 0);
    assert_eq!(block.get_nodes()[1].get_id(), 1);
    assert_eq!(block.get_nodes()[0].emit(), Ok(String::from("a")));
    assert_eq!(block.get_nodes()[1].get_name(), Ok(String::from("buf")));
}
