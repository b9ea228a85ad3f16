use std::rc::Rc;
use thriller_flow::{
    Buffer, IdAllocator, Task, ThrillerBlock, ThrillerError, ThrillerNode, ThrillerNodeInner,
    ThrillerResult,
};

struct Code(&'static str);

impl Task for Code {
    fn emit(&self) -> ThrillerResult<String> {
        Ok(String::from(self.0))
    }
}

struct Broken;

impl Task for Broken {
    fn emit(&self) -> ThrillerResult<String> {
        Err(ThrillerError::InvalidReference)
    }
}

fn op(text: &'static str) -> ThrillerNodeInner {
    ThrillerNodeInner::Op(Box::new(Code(text)))
}

fn buffer(name: &str) -> ThrillerNodeInner {
    ThrillerNodeInner::Buffer(Rc::new(Buffer::new(String::from(name))))
}

#[test]
fn new_node_is_isolated() {
    let mut ids = IdAllocator::new();
    let node = ThrillerNode::new(op("x"), &mut ids);
    assert_eq!(node.get_in_degrees(), 0);
    assert!(node.get_successors().is_empty());
    assert!(node.get_predecessors().is_empty());
    assert!(node.get_in_edges().is_empty());
    assert!(node.get_out_edges().is_empty());
    assert!(node.is_isolated());
}

#[test]
fn new_nodes_get_fresh_ids() {
    let mut ids = IdAllocator::new();
    let a = ThrillerNode::new(op("a"), &mut ids);
    let b = ThrillerNode::new(buffer("b"), &mut ids);
    let c = ThrillerNode::new(op("c"), &mut ids);
    assert_eq!(a.get_id(), 0);
    assert_eq!(b.get_id(), 1);
    assert_eq!(c.get_id(), 2);
}

#[test]
fn node_keeps_its_inner() {
    let mut ids = IdAllocator::new();
    let a = ThrillerNode::new(op("a"), &mut ids);
    let b = ThrillerNode::new(buffer("b"), &mut ids);
    let c = ThrillerNode::new(
        ThrillerNodeInner::Block(Rc::new(ThrillerBlock::new(String::from("inner")))),
        &mut ids,
    );
    assert!(matches!(a.get_inner(), ThrillerNodeInner::Op(_)));
    assert!(matches!(b.get_inner(), ThrillerNodeInner::Buffer(_)));
    assert!(matches!(c.get_inner(), ThrillerNodeInner::Block(_)));
}

#[test]
fn buffer_node_has_a_name() {
    let mut ids = IdAllocator::new();
    let node = ThrillerNode::new(buffer("reg_tile"), &mut ids);
    assert_eq!(node.get_name(), Ok(String::from("reg_tile")));
}

#[test]
fn operation_node_has_no_name() {
    let mut ids = IdAllocator::new();
    let node = ThrillerNode::new(op("x"), &mut ids);
    assert_eq!(node.get_name(), Err(ThrillerError::TypeMismatch));
}

#[test]
fn block_node_has_no_name() {
    let mut ids = IdAllocator::new();
    let block = ThrillerBlock::new(String::from("named_block"));
    let node = ThrillerNode::new(ThrillerNodeInner::Block(Rc::new(block)), &mut ids);
    assert_eq!(node.get_name(), Err(ThrillerError::TypeMismatch));
}

#[test]
fn operation_node_emits_its_code() {
    let mut ids = IdAllocator::new();
    let node = ThrillerNode::new(op("copy(a, b);"), &mut ids);
    assert_eq!(node.emit(), Ok(String::from("copy(a, b);")));
}

#[test]
fn buffer_node_cannot_be_emitted() {
    let mut ids = IdAllocator::new();
    let node = ThrillerNode::new(buffer("a"), &mut ids);
    assert_eq!(node.emit(), Err(ThrillerError::TypeMismatch));
}

#[test]
fn failure_of_an_operation_is_handed_on_as_it_is() {
    let mut ids = IdAllocator::new();
    let _first = ThrillerNode::new(op("x"), &mut ids);
    let node = ThrillerNode::new(ThrillerNodeInner::Op(Box::new(Broken)), &mut ids);
    assert_eq!(node.get_id(), 1);
    assert_eq!(node.emit(), Err(ThrillerError::InvalidReference));
}

#[test]
fn failure_inside_a_block_node_carries_the_id_of_the_inner_vertex() {
    let mut ids = IdAllocator::new();
    let mut block = ThrillerBlock::new(String::from("b"));
    block.add_node(ThrillerNode::new(op("fine;"), &mut ids)).unwrap();
    block.add_node(ThrillerNode::new(ThrillerNodeInner::Op(Box::new(Broken)), &mut ids)).unwrap();
    let node = ThrillerNode::new(ThrillerNodeInner::Block(Rc::new(block)), &mut ids);
    assert_eq!(
        node.emit(),
        Err(ThrillerError::EmissionFailure(1, Box::new(ThrillerError::InvalidReference)))
    );
}

#[test]
fn block_node_emits_its_interior() {
    let mut ids = IdAllocator::new();
    let mut block = ThrillerBlock::new(String::from("b"));
    let first = block.add_node(ThrillerNode::new(op("one;"), &mut ids)).unwrap();
    let second = block.add_node(ThrillerNode::new(op("two;"), &mut ids)).unwrap();
    block.add_edge(second, first).unwrap();
    let node = ThrillerNode::new(ThrillerNodeInner::Block(Rc::new(block)), &mut ids);
    assert_eq!(node.emit(), Ok(String::from("two;one;")));
}

#[test]
fn node_can_stand_as_an_operation() {
    let mut ids = IdAllocator::new();
    let inner = ThrillerNode::new(op("deep;"), &mut ids);
    let outer = ThrillerNode::new(ThrillerNodeInner::Op(Box::new(inner)), &mut ids);
    assert_eq!(outer.emit(), Ok(String::from("deep;")));
}
