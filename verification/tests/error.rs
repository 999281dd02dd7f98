use thesis::error::{DiagColor, DiagLabel, Error, ErrorKind, Span};
use thesis::parser::SourcePos;

#[test]
fn error_to_string() {
    assert_eq!(Error::new(ErrorKind::InvalidSyntax).to_text(), "InvalidSyntax: ");
}

#[test]
fn error_codes_per_kind() {
    assert_eq!(ErrorKind::InvalidSyntax.to_error_code(), "E01");
    assert_eq!(ErrorKind::FreeIdentifier.to_error_code(), "E02");
    assert_eq!(ErrorKind::TypeMismatch.to_error_code(), "E03");
    assert_eq!(ErrorKind::CommandFailed.to_error_code(), "E04");
}

#[test]
fn error_builder_chains() {
    let err = Error::new(ErrorKind::InvalidSyntax)
        .with_message("broken".to_string())
        .with_span(Span { start: 2, end: 5 })
        .with_label(DiagLabel {
            src_id: "unit".to_string(),
            span: Span { start: 0, end: 1 },
            message: "here".to_string(),
            color: DiagColor::Cyan,
            order: 1,
        })
        .return_error(SourcePos(1, 3, 3), "anchor".to_string());
    assert_eq!(err.kind(), ErrorKind::InvalidSyntax);
    assert_eq!(err.message(), "broken");
    assert_eq!(err.span(), Span { start: 2, end: 5 });
    assert_eq!(err.labels().len(), 1);
    assert_eq!(err.labels()[0].message, "here");
    assert_eq!(err.labels()[0].color, DiagColor::Cyan);
    assert_eq!(err.anchor(), SourcePos(1, 3, 3));
    assert_eq!(err.anchor_label(), "anchor");
    assert_eq!(err.to_text(), "InvalidSyntax: broken");
}

#[test]
fn labels_keep_attachment_order() {
    let mut err = Error::new(ErrorKind::TypeMismatch);
    for (i, msg) in ["first", "second", "third"].into_iter().enumerate() {
        err = err.with_label(DiagLabel {
            src_id: "unit".to_string(),
            span: Span { start: i, end: i + 1 },
            message: msg.to_string(),
            color: DiagColor::Fixed(86),
            order: i as i32,
        });
    }
    let messages: Vec<&str> =
        err.labels().iter().map(|label| label.message.as_str()).collect();
    assert_eq!(messages, vec!["first", "second", "third"]);
}
