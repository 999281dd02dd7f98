use thesis::parser::Token;
use thesis::syntax::Node::{List, Literal};
use thesis::syntax::{Node, Symbol};

#[test]
fn node_to_string() {
    assert_eq!(List(vec![Node::Symbol("apply".into()), Node::Symbol("+".into())]).render(), "(apply +)");
}

#[test]
fn node_render_edge_shapes() {
    assert_eq!(List(vec![]).render(), "()");
    assert_eq!(List(vec![Node::Symbol("x".into())]).render(), "(x)");
    assert_eq!(
        List(vec![Node::Symbol("a".into()), Node::Symbol("b".into()), Node::Symbol("c".into())]).render(),
        "(a b c)"
    );
    assert_eq!(Literal("hi".to_string()).render(), "\"hi\"");
}

#[test]
fn symbol_from_str() {
    assert_eq!(Symbol::from("symbol"), Symbol::new("symbol"));
}

#[test]
fn symbol_from_string() {
    assert_eq!(Symbol::from("symbol"), Symbol::from_string("symbol".to_string()));

    let literal = "test-move".to_string();
    assert_eq!(Symbol::from(literal), Symbol::from("test-move"));
}

#[test]
fn symbol_to_string() {
    assert_eq!(Symbol::new("symbol").to_text(), "symbol");
}

#[test]
fn symbol_try_from_token() {
    assert!(Symbol::try_from(Token::from("valid-token")).is_ok());
    assert!(Symbol::try_from(Token::from("valid_token")).is_ok());
    assert!(Symbol::try_from(Token::from("(invalid-token)")).is_err());
    assert!(Symbol::try_from(Token::from("[invalid_token]")).is_err());
    assert!(Symbol::try_from(Token::from("{invalid token}")).is_err());
}

#[test]
fn symbol_validation_rejects_embedded_whitespace() {
    assert!(Symbol::validate_token(&Token::from("valid-token")));
    assert!(Symbol::validate_token(&Token::from("valid_token")));
    assert!(!Symbol::validate_token(&Token::from("{invalid token}")));
    assert!(!Symbol::validate_token(&Token::from("a\x0bb")));
}

#[test]
fn symbol_error_names_the_token() {
    let err = Symbol::try_from(Token::from("{invalid token}")).unwrap_err();
    assert_eq!(err.message(), "Unsupported literal appeared in symbol '{invalid token}'.");
}

#[test]
fn node_push_appends_in_order() {
    let mut node = List(vec![]);
    node.push(Node::Symbol("a".into()));
    node.push(Node::Symbol("b".into()));
    assert_eq!(node, List(vec![Node::Symbol("a".into()), Node::Symbol("b".into())]));
}

#[test]
fn node_push_at_depth_follows_last_children() {
    let tree = List(vec![Node::Symbol("a".into()), List(vec![])]);
    let tree = tree.push_at_depth(1, Node::Symbol("b".into()));
    assert_eq!(tree, List(vec![Node::Symbol("a".into()), List(vec![Node::Symbol("b".into())])]));
}
