use scolang::ast::{ASTNode, Parser};
use scolang::token::Lexer;

fn parse_ok(source: &str) -> ASTNode {
    let mut lexer = Lexer::new();
    lexer.tokenize(source);
    let mut parser = Parser::new(lexer.return_tok());
    parser.parse().unwrap()
}

#[test]
fn traversal_visits_statements_in_source_order() {
    let ast = parse_ok("VARint x = 1; VARint y = 2; END");
    let nodes = ast.traverse();
    assert_eq!(nodes.len(), 5);
    assert!(matches!(&nodes[0], ASTNode::Program(_)));
    assert!(
        matches!(&nodes[1], ASTNode::VariableDeclaration { identifier, .. } if identifier == "x")
    );
    assert!(matches!(&nodes[2], ASTNode::Number(t, _) if t == "1"));
    assert!(
        matches!(&nodes[3], ASTNode::VariableDeclaration { identifier, .. } if identifier == "y")
    );
    assert!(matches!(&nodes[4], ASTNode::Number(t, _) if t == "2"));
}

#[test]
fn traversal_is_preorder_within_expressions() {
    let ast = parse_ok("x = 1 + 2; END");
    let nodes = ast.traverse();
    // Program, assignment, the operation, then left and right leaves.
    assert_eq!(nodes.len(), 5);
    assert!(matches!(&nodes[2], ASTNode::BinaryOp { operator, .. } if operator == "+"));
    assert!(matches!(&nodes[3], ASTNode::Number(t, _) if t == "1"));
    assert!(matches!(&nodes[4], ASTNode::Number(t, _) if t == "2"));
}

#[test]
fn traversal_order_within_conditionals() {
    let ast = parse_ok("IF () a THEN x = 1; ELIF b THEN y = 2; ELSE z = 3; END-IF END");
    let nodes = ast.traverse();
    let mut kinds: Vec<String> = Vec::new();
    for n in &nodes {
        kinds.push(match n {
            ASTNode::Program(_) => "program".to_string(),
            ASTNode::IfStatement { .. } => "if".to_string(),
            ASTNode::Identifier(name, _) => format!("id:{}", name),
            ASTNode::ExpressionStatement { identifier, .. } => format!("assign:{}", identifier),
            ASTNode::Number(t, _) => format!("num:{}", t),
            other => panic!("unexpected node {:?}", other),
        });
    }
    assert_eq!(
        kinds,
        vec![
            "program", "if", "id:a", "assign:x", "num:1", "id:b", "assign:y", "num:2",
            "assign:z", "num:3",
        ]
    );
}

#[test]
fn traversal_is_idempotent() {
    let ast = parse_ok("VARint x = 1 + 2; DISPLAY x; IF () x THEN y = 3; END-IF END");
    let first = ast.traverse();
    let second = ast.traverse();
    assert_eq!(format!("{:?}", first), format!("{:?}", second));
}

#[test]
fn duplicate_preserves_the_tree() {
    let ast = parse_ok("VARstr s = \"hi\"; DISPLAYstring s; END");
    let copy = ast.duplicate();
    assert_eq!(format!("{:?}", ast), format!("{:?}", copy));
}
