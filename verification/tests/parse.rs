use rust_9cc::parse::{program, Node, NodeKind};
use rust_9cc::tokenize::tokenize;


#[test]
fn check_ast_with_add() {
    let mut tokens = tokenize("1 + 2;".to_string()).unwrap();
    let nodes = program(&mut tokens).unwrap();
    let actual_node = &nodes[0];
    let expected = Node {
        kind: NodeKind::Add,
        lhs: Some(Box::new(Node::new_num(1))),
        rhs: Some(Box::new(Node::new_num(2))),
        ..Node::default()
    };
    assert_eq!(actual_node, &expected);
}

#[test]
fn check_ast_with_sub() {
    let mut tokens = tokenize("1 - 2;".to_string()).unwrap();
    let nodes = program(&mut tokens).unwrap();
    let actual_node = &nodes[0];
    let expected = Node {
        kind: NodeKind::Sub,
        lhs: Some(Box::new(Node::new_num(1))),
        rhs: Some(Box::new(Node::new_num(2))),
        ..Node::default()
    };
    assert_eq!(actual_node, &expected);
}

#[test]
fn check_ast_with_add_and_sub() {
    let mut tokens = tokenize("1 + 2 - 3;".to_string()).unwrap();
    let nodes = program(&mut tokens).unwrap();
    let actual_node = &nodes[0];
    let expected = &Node {
        kind: NodeKind::Sub,
        lhs: Some(Box::new(Node {
            kind: NodeKind::Add,
            lhs: Some(Box::new(Node::new_num(1))),
            rhs: Some(Box::new(Node::new_num(2))),
            ..Node::default()
        })),
        rhs: Some(Box::new(Node::new_num(3))),
        ..Node::default()
    };
    assert_eq!(actual_node, expected);
}

#[test]
fn check_ast_with_multipy() {
    let mut tokens = tokenize("1 + 2 * 3;".to_string()).unwrap();
    let nodes = program(&mut tokens).unwrap();
    let actual_node = &nodes[0];
    let expected = &Node {
        kind: NodeKind::Add,
        lhs: Some(Box::new(Node::new_num(1))),
        rhs: Some(Box::new(Node {
            kind: NodeKind::Mul,
            lhs: Some(Box::new(Node::new_num(2))),
            rhs: Some(Box::new(Node::new_num(3))),
            ..Node::default()
        })),
        ..Node::default()
    };
    assert_eq!(
        actual_node, expected,
        "`1 + 2 * 3` の得られたAST:\n{actual_node:?}"
    );
}

#[test]
fn check_ast_with_division() {
    let mut tokens = tokenize("4 / 2 - 2;".to_string()).unwrap();
    let nodes = program(&mut tokens).unwrap();
    let node = &nodes[0];
    assert_eq!(
        node,
        &Node {
            kind: NodeKind::Sub,
            lhs: Some(Box::new(Node {
                kind: NodeKind::Div,
                lhs: Some(Box::new(Node::new_num(4))),
                rhs: Some(Box::new(Node::new_num(2))),
                ..Node::default()
            })),
            rhs: Some(Box::new(Node::new_num(2))),
            ..Node::default()
        },
        "`4 / 2 - 2` の得られたAST:\n{node:?}"
    );
}

#[test]
fn check_ast_with_parenthesis() {
    let mut tokens = tokenize("1 * 2+(3+4);".to_string()).unwrap();
    let nodes = program(&mut tokens).unwrap();
    let node = &nodes[0];
    assert_eq!(
        node,
        &Node {
            kind: NodeKind::Add,
            lhs: Some(Box::new(Node {
                kind: NodeKind::Mul,
                lhs: Some(Box::new(Node::new_num(1))),
                rhs: Some(Box::new(Node::new_num(2))),
                ..Node::default()
            })),
            rhs: Some(Box::new(Node {
                kind: NodeKind::Add,
                lhs: Some(Box::new(Node::new_num(3))),
                rhs: Some(Box::new(Node::new_num(4))),
                ..Node::default()
            })),
            ..Node::default()
        },
        "`1 * 2+(3+4)` の得られたAST:\n{node:?}"
    );
}

#[test]
fn check_ast_with_unary_operator() {
    let mut tokens = tokenize("-1 + 2;".to_string()).unwrap();
    let nodes = program(&mut tokens).unwrap();
    let node = &nodes[0];
    assert_eq!(
        node,
        &Node {
            kind: NodeKind::Add,
            lhs: Some(Box::new(Node {
                kind: NodeKind::Sub,
                lhs: Some(Box::new(Node::new_num(0))),
                rhs: Some(Box::new(Node::new_num(1))),
                ..Node::default()
            })),
            rhs: Some(Box::new(Node::new_num(2))),
            ..Node::default()
        },
        "`-1 + 2` の得られたAST:\n{node:?}"
    );
}

#[test]
fn check_ast_with_unary_operator_complecated() {
    let mut tokens = tokenize("-3*+5 + 20;".to_string()).unwrap();
    let nodes = program(&mut tokens).unwrap();
    let node = &nodes[0];
    assert_eq!(
        node,
        &Node {
            kind: NodeKind::Add,
            lhs: Some(Box::new(Node {
                kind: NodeKind::Mul,
                lhs: Some(Box::new(Node {
                    kind: NodeKind::Sub,
                    lhs: Some(Box::new(Node::new_num(0))),
                    rhs: Some(Box::new(Node::new_num(3))),
                    ..Node::default()
                })),
                rhs: Some(Box::new(Node::new_num(5))),
                ..Node::default()
            })),
            rhs: Some(Box::new(Node::new_num(20))),
            ..Node::default()
        },
        "`-3*+5 + 20` の得られたAST:\n{node:?}"
    );
}

#[test]
fn check_ast_with_lt_operator() {
    let mut tokens = tokenize("1 < 2;".to_string()).unwrap();
    let nodes = program(&mut tokens).unwrap();
    let node = &nodes[0];
    assert_eq!(
        node,
        &Node {
            kind: NodeKind::Lt,
            lhs: Some(Box::new(Node::new_num(1))),
            rhs: Some(Box::new(Node::new_num(2))),
            ..Node::default()
        },
        "`1 < 2` の得られたAST:\n{node:?}"
    );
}

#[test]
fn check_ast_with_le_operator() {
    let mut tokens = tokenize("1 <= 2;".to_string()).unwrap();
    let nodes = program(&mut tokens).unwrap();
    let node = &nodes[0];
    assert_eq!(
        node,
        &Node {
            kind: NodeKind::Le,
            lhs: Some(Box::new(Node::new_num(1))),
            rhs: Some(Box::new(Node::new_num(2))),
            ..Node::default()
        },
        "`1 <= 2` の得られたAST:\n{node:?}"
    );
}

#[test]
fn check_ast_with_eq_operator() {
    let mut tokens = tokenize("1 == 2;".to_string()).unwrap();
    let nodes = program(&mut tokens).unwrap();
    let node = &nodes[0];
    assert_eq!(
        node,
        &Node {
            kind: NodeKind::Eq,
            lhs: Some(Box::new(Node::new_num(1))),
            rhs: Some(Box::new(Node::new_num(2))),
            ..Node::default()
        },
        "`1 == 2` の得られたAST:\n{node:?}"
    );
}

#[test]
fn check_ast_with_ne_operator() {
    let mut tokens = tokenize("1 != 2;".to_string()).unwrap();
    let nodes = program(&mut tokens).unwrap();
    let node = &nodes[0];
    assert_eq!(
        node,
        &Node {
            kind: NodeKind::Ne,
            lhs: Some(Box::new(Node::new_num(1))),
            rhs: Some(Box::new(Node::new_num(2))),
            ..Node::default()
        },
        "`1 != 2` の得られたAST:\n{node:?}"
    );
}

#[test]
fn check_ast_with_local_variables() {
    let mut tokens = tokenize("a = 2 * 3; b = 3 + -2; a * b;".to_string()).unwrap();
    let nodes = program(&mut tokens).unwrap();
    assert_eq!(nodes.len(), 3);
    assert_eq!(
        &nodes[0],
        &Node {
            kind: NodeKind::Assign,
            lhs: Some(Box::new(Node {
                kind: NodeKind::LVar,
                offset: ('a' as i64 - 'a' as i64 + 1) * 8,
                ..Node::default()
            })),
            rhs: Some(Box::new(Node {
                kind: NodeKind::Mul,
                lhs: Some(Box::new(Node::new_num(2))),
                rhs: Some(Box::new(Node::new_num(3))),
                ..Node::default()
            })),
            ..Node::default()
        },
        "`a = 2 * 3;` の得られたAST:\n{:?}",
        &nodes[0]
    );
    assert_eq!(
        &nodes[1],
        &Node {
            kind: NodeKind::Assign,
            lhs: Some(Box::new(Node {
                kind: NodeKind::LVar,
                offset: ('b' as i64 - 'a' as i64 + 1) * 8,
                ..Node::default()
            })),
            rhs: Some(Box::new(Node {
                kind: NodeKind::Add,
                lhs: Some(Box::new(Node::new_num(3))),
                rhs: Some(Box::new(Node {
                    kind: NodeKind::Sub,
                    lhs: Some(Box::new(Node::new_num(0))),
                    rhs: Some(Box::new(Node::new_num(2))),
                    ..Node::default()
                })),
                ..Node::default()
            })),
            ..Node::default()
        },
        "`b = 3 + -2;` の得られたAST:\n{:?}",
        &nodes[1]
    );
    assert_eq!(
        &nodes[2],
        &Node {
            kind: NodeKind::Mul,
            lhs: Some(Box::new(Node {
                kind: NodeKind::LVar,
                offset: ('a' as i64 - 'a' as i64 + 1) * 8,
                ..Node::default()
            })),
            rhs: Some(Box::new(Node {
                kind: NodeKind::LVar,
                offset: ('b' as i64 - 'a' as i64 + 1) * 8,
                ..Node::default()
            })),
            ..Node::default()
        },
        "`a * b;` の得られたAST:\n{:?}",
        &nodes[2]
    );
}

#[test]
fn check_ast_with_multi_lines() {
    let mut tokens = tokenize("1 + 2; 3 + -4 * 3;".to_string()).unwrap();
    let nodes = program(&mut tokens).unwrap();
    assert_eq!(nodes.len(), 2);
    let node_1 = &nodes[0];
    let node_2 = &nodes[1];
    assert_eq!(
        node_1,
        &Node {
            kind: NodeKind::Add,
            lhs: Some(Box::new(Node::new_num(1))),
            rhs: Some(Box::new(Node::new_num(2))),
            ..Node::default()
        },
        "`1 + 2;` の得られたAST:\n{node_1:?}"
    );
    assert_eq!(
        node_2,
        &Node {
            kind: NodeKind::Add,
            lhs: Some(Box::new(Node::new_num(3))),
            rhs: Some(Box::new(Node {
                kind: NodeKind::Mul,
                lhs: Some(Box::new(Node {
                    kind: NodeKind::Sub,
                    lhs: Some(Box::new(Node::new_num(0))),
                    rhs: Some(Box::new(Node::new_num(4))),
                    ..Node::default()
                })),
                rhs: Some(Box::new(Node::new_num(3))),
                ..Node::default()
            })),
            ..Node::default()
        },
        "`3 + -4 * 3;` の得られたAST:\n{node_2:?}"
    );
}
