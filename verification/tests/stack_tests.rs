use fastmem::stack::{Node, Stack};

#[test]
fn test_size_list() {
    let l = Stack::new();
    assert_eq!(std::mem::size_of_val(&l), std::mem::size_of::<usize>());
    assert_eq!(std::mem::size_of::<Stack>(), std::mem::size_of::<usize>());

    let n: Node = Node::new(None, None);
    assert_eq!(std::mem::size_of_val(&n), 2 * std::mem::size_of::<usize>());
    assert_eq!(std::mem::size_of::<Node>(), 2 * std::mem::size_of::<usize>());
}

#[test]
fn test_stack_nodes() {
    let mut stack = Stack::new();
    println!("stack {}", stack.head);

    let mut nodes: Vec<Node> = Vec::new();
    nodes.push(Node::new(None, None));
    println!("node n1 {}", nodes[0].next);

    nodes.push(Node::new(None, None));
    println!("node n2 {}", nodes[1].next);

    stack.push(&mut nodes, 0);
    println!("stack {}", stack.head);

    stack.push(&mut nodes, 1);
    println!("stack {}", stack.head);

    let new_n2 = stack.pop(&nodes).unwrap();
    println!("new_n2 {}", new_n2);

    let new_n1 = stack.pop(&nodes).unwrap();
    println!("new_n1 {:?}", new_n1);

    assert_eq!(new_n2, 1);
    assert_eq!(new_n1, 0);
    assert_eq!(stack.head, 0);
}

#[test]
fn test_stack_push_pop_order() {
    let mut stack = Stack::new();
    let mut nodes: Vec<Node> = Vec::new();
    let n: usize = 50;
    for k in 0..n {
        nodes.push(Node::new(Some(k), None));
    }
    for k in 0..n {
        stack.push(&mut nodes, k);
    }
    for k in (0..n).rev() {
        assert_eq!(stack.pop(&nodes), Some(k));
    }
    assert_eq!(stack.pop(&nodes), None);
    assert_eq!(stack.head, 0);
}
