use thesis::error::{ErrorKind, Span};
use thesis::parser::{LexicalParser, SourcePos, SrcInfo, SyntacticParser, Token};
use thesis::syntax::Node;
use thesis::syntax::Node::{List, Literal, Symbol};

fn to_tokens(vector: Vec<&str>) -> Vec<Token> {
    vector.into_iter().map(|string| string.into()).collect()
}

#[test]
fn lexical_parse_str() {
    let mut lexer;
    lexer = LexicalParser::new();
    lexer.parse_str("($if #t #t #f)");
    assert_eq!(*lexer.tokens(), to_tokens(vec!["(", "$if", "#t", "#t", "#f", ")"]));
    lexer = LexicalParser::new();
    lexer.parse_str("(eval     ())\n(display)");
    assert_eq!(*lexer.tokens(), to_tokens(vec!["(", "eval", "(", ")", ")", "(", "display", ")"]));
}

#[test]
fn lexical_parse_literal() {
    let mut lexer: LexicalParser;
    lexer = LexicalParser::new();
    lexer.parse_str(r#"($if "test=parsing" #t)"#);
    println!("{:?}", lexer.results())
}

#[test]
fn lexical_literal_spans_keep_quotes() {
    let mut lexer = LexicalParser::new();
    lexer.parse_str(r#"($if "test=parsing" #t)"#);
    assert_eq!(*lexer.tokens(), to_tokens(vec!["(", "$if", "\"test=parsing\"", "#t", ")"]));
}

#[test]
fn lexical_escaped_quote_stays_in_literal() {
    let mut lexer = LexicalParser::new();
    lexer.parse_str(r#"("a\"b" c)"#);
    assert_eq!(*lexer.tokens(), to_tokens(vec!["(", r#""a\"b""#, "c", ")"]));
}

#[test]
fn lexical_unterminated_literal_flushes_silently() {
    let mut lexer = LexicalParser::new();
    lexer.parse_str("\"ab");
    assert_eq!(*lexer.tokens(), to_tokens(vec!["\"ab"]));
}

#[test]
fn lexical_newline_advances_line_once() {
    let mut lexer = LexicalParser::new();
    lexer.parse_str("(eval     ())\n(display)");
    let results = lexer.results();
    assert_eq!(results[0].0, SourcePos(1, 1, 1));
    for (pos, _) in &results[..5] {
        assert_eq!(pos.ln(), 1);
    }
    for (pos, _) in &results[5..] {
        assert_eq!(pos.ln(), 2);
    }
    assert_eq!(results[5].0, SourcePos(2, 1, 15));
}

#[test]
fn source_pos_advance() {
    let mut pos = SourcePos(1, 1, 1);
    pos.next_col();
    assert_eq!((pos.ln(), pos.col(), pos.i()), (1, 2, 2));
    pos.next_ln();
    assert_eq!((pos.ln(), pos.col(), pos.i()), (2, 1, 3));
}

#[test]
fn token_parentheses_helpers() {
    assert_eq!(Token::from(")").as_left_parentheses(), "(");
    assert_eq!(Token::from("]").as_left_parentheses(), "[");
    assert_eq!(Token::from("}").as_left_parentheses(), "{");
    assert_eq!(Token::from("(").as_right_parentheses(), ")");
    assert_eq!(Token::from("[").as_right_parentheses(), "]");
    assert_eq!(Token::from("{").as_right_parentheses(), "}");
    assert!(Token::from(")").match_left_parentheses(&"(".to_string()));
    assert!(!Token::from("]").match_left_parentheses(&"(".to_string()));
}

#[test]
fn syntactic_parse_tokens_untraced() {
    let mut parser: SyntacticParser;

    parser = SyntacticParser::new(SrcInfo::new("test-1", "apply display +"));
    parser.try_parse().unwrap();
    assert_eq!(
        parser.tree(),
        List(vec![Symbol("apply".into()), Symbol("display".into()), Symbol("+".into())])
    );

    parser = SyntacticParser::new(SrcInfo::new(
        "test-2",
        "apply display (cons (list $if #t) [cons (list* #t #f) ()])",
    ));
    parser.try_parse().unwrap();
    assert_eq!(
        parser.tree(),
        List(vec![
            "apply".into(),
            "display".into(),
            List(vec![
                "cons".into(),
                List(vec!["list".into(), "$if".into(), "#t".into()]),
                List(vec![
                    "cons".into(),
                    List(vec!["list*".into(), "#t".into(), "#f".into()]),
                    List(vec![])
                ])
            ])
        ])
    )
}

#[test]
fn syntactic_parse_parentheses_match() {
    let mut parser = SyntacticParser::new(SrcInfo::new("test-1", "([{}])"));
    parser.try_parse().unwrap();
    assert_eq!(parser.tree(), List(vec![List(vec![List(vec![List(vec![])])])]));
}

#[test]
fn syntactic_parse_untraced_tokens() {
    let mut parser = SyntacticParser::new(SrcInfo::new("untraced", ""));
    parser.parse_untraced(to_tokens(vec!["(", "cons", "a", ")", "b"]));
    assert_eq!(
        parser.tree(),
        List(vec![List(vec!["cons".into(), "a".into()]), Symbol("b".into())])
    );
}

#[test]
fn scenario_mismatched_pair() {
    let mut parser = SyntacticParser::new(SrcInfo::new("scenario", "(a]"));
    let err = parser.try_parse().unwrap_err();
    assert_eq!(err.kind(), ErrorKind::InvalidSyntax);
    assert_eq!(err.message(), "')' is required, but only to found ']'");
    assert_eq!(err.span(), Span { start: 2, end: 3 });
    let labels = err.labels();
    assert_eq!(labels.len(), 1);
    assert_eq!(labels[0].span, Span { start: 0, end: 1 });
    assert_eq!(labels[0].order, 1);
    assert_eq!(labels[0].message, "Opening delimiter '(' occurred here.");
    assert_eq!(labels[0].src_id, "scenario");
    assert_eq!(err.anchor(), SourcePos(1, 3, 3));
    assert_eq!(err.anchor_label(), "Invalid closing ']' here.");
}

#[test]
fn scenario_unbalanced_at_eof() {
    let mut parser = SyntacticParser::new(SrcInfo::new("scenario", "(a (b"));
    let err = parser.try_parse().unwrap_err();
    assert_eq!(err.kind(), ErrorKind::InvalidSyntax);
    assert_eq!(err.message(), "No corresponding ')' for '(' was found.");
    assert_eq!(err.span(), Span { start: 3, end: 4 });
    assert_eq!(err.anchor(), SourcePos(1, 4, 4));
    assert_eq!(err.anchor_label(), "Single '(' found here.");
}

#[test]
fn scenario_unmatched_closing() {
    let mut parser = SyntacticParser::new(SrcInfo::new("scenario", ")"));
    let err = parser.try_parse().unwrap_err();
    assert_eq!(err.kind(), ErrorKind::InvalidSyntax);
    assert_eq!(err.message(), "No corresponding '(' can be found for ')'.");
    assert_eq!(err.span(), Span { start: 0, end: 1 });
    assert_eq!(err.anchor_label(), "Invalid ')' here.");
}

#[test]
fn equal_counts_may_still_fail() {
    let mut parser = SyntacticParser::new(SrcInfo::new("scenario", ")("));
    let err = parser.try_parse().unwrap_err();
    assert_eq!(err.kind(), ErrorKind::InvalidSyntax);
}

#[test]
fn parse_literal_node() {
    let mut parser = SyntacticParser::new(SrcInfo::new("lit", r#"($if "test=parsing" #t)"#));
    parser.try_parse().unwrap();
    assert_eq!(
        parser.tree(),
        List(vec![List(vec![
            "$if".into(),
            Literal("test=parsing".to_string()),
            "#t".into()
        ])])
    );
}

#[test]
fn try_unquote_strips_matching_quotes() {
    assert_eq!(SyntacticParser::try_unquote("\"abc\"").unwrap(), "abc");
    assert_eq!(SyntacticParser::try_unquote("'x'").unwrap(), "x");
    let err = SyntacticParser::try_unquote("\"ab'").unwrap_err();
    assert_eq!(err.kind(), ErrorKind::InvalidSyntax);
}

#[test]
fn round_trip_reparses_equal() {
    let text = "apply display (cons (list $if #t) [cons (list* #t #f) ()])";
    let mut parser = SyntacticParser::new(SrcInfo::new("round", text));
    parser.try_parse().unwrap();
    let tree = parser.tree();
    let rendered = tree.render_toplevel();
    let mut second = SyntacticParser::new(SrcInfo::new("round-2", rendered.as_str()));
    second.try_parse().unwrap();
    assert_eq!(second.tree(), tree);
}

#[test]
fn render_normalizes_delimiters_and_spacing() {
    let mut parser = SyntacticParser::new(SrcInfo::new("norm", "[cons  {a}   b]"));
    parser.try_parse().unwrap();
    assert_eq!(parser.tree().render_toplevel(), "(cons (a) b)");
}

#[test]
fn reset_hands_the_tree_back() {
    let mut parser = SyntacticParser::new(SrcInfo::new("reset", "x"));
    parser.try_parse().unwrap();
    assert_eq!(parser.reset(), List(vec![Symbol("x".into())]));
}
