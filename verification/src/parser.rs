//! Source positions, tokens and the two parsing passes: the lexical
//! scanner that turns a character stream into positioned tokens, and
//! the syntactic parser that builds the tree node model while matching
//! delimiters and explaining every failure with exact spans.

use vstd::prelude::*;

use crate::error::{DiagColor, DiagLabel, ErrView, Error, ErrorKind, LabelView, Span};
use crate::syntax::{
    Node, NodeView, Symbol, node_view, open_ok, spec_push_at, symbol_error, valid_symbol_text,
};

verus! {

/// The mathematical value of a `SourcePos`: line, column and absolute
/// offset as unbounded integers.
#[verifier::ext_equal]
pub struct PosView {
    pub ln: int,
    pub col: int,
    pub idx: int,
}

/// The current position of a source parser as (line, column, index).
/// All three components start at 1; the index advances by exactly one
/// per consumed character, while the line advances only across `\n`.
#[derive(Debug, Clone, Copy, PartialEq, Eq, PartialOrd, Ord, Structural)]
pub struct SourcePos(pub usize, pub usize, pub usize);

impl View for SourcePos {
    type V = PosView;

    open spec fn view(&self) -> PosView {
        PosView { ln: self.0 as int, col: self.1 as int, idx: self.2 as int }
    }
}

impl SourcePos {
    pub fn ln(&self) -> (r: usize)
        ensures
            r == self@.ln,
    {
        self.0
    }

    pub fn col(&self) -> (r: usize)
        ensures
            r == self@.col,
    {
        self.1
    }

    pub fn i(&self) -> (r: usize)
        ensures
            r == self@.idx,
    {
        self.2
    }

    /// Advance across a line break: the line moves, the column resets
    /// to the start of the new line, the offset moves by one.
    pub fn next_ln(&mut self)
        requires
            old(self).0 < usize::MAX,
            old(self).2 < usize::MAX,
        ensures
            final(self)@.ln == old(self)@.ln + 1,
            final(self)@.col == 1,
            final(self)@.idx == old(self)@.idx + 1,
    {
        self.0 = self.0 + 1;
        self.1 = 1;
        self.2 = self.2 + 1;
    }

    /// Advance within a line: only column and index move.
    pub fn next_col(&mut self)
        requires
            old(self).1 < usize::MAX,
            old(self).2 < usize::MAX,
        ensures
            final(self)@.ln == old(self)@.ln,
            final(self)@.col == old(self)@.col + 1,
            final(self)@.idx == old(self)@.idx + 1,
    {
        self.1 = self.1 + 1;
        self.2 = self.2 + 1;
    }
}

impl From<(usize, usize, usize)> for SourcePos {
    fn from(value: (usize, usize, usize)) -> (r: Self) {
        Self(value.0, value.1, value.2)
    }
}

impl vstd::std_specs::convert::FromSpecImpl<(usize, usize, usize)> for SourcePos {
    open spec fn obeys_from_spec() -> bool {
        true
    }

    open spec fn from_spec(value: (usize, usize, usize)) -> Self {
        SourcePos(value.0, value.1, value.2)
    }
}

/// One parse unit: a display name (a file path, or `"<stdin>"`) and
/// the full source buffer, read-only for the duration of one parse.
#[derive(Debug)]
pub struct SrcInfo {
    pub id: String,
    pub text: String,
}

impl SrcInfo {
    pub fn new(id: &str, text: &str) -> (r: Self)
        ensures
            r.id@ == id@,
            r.text@ == text@,
    {
        Self { id: id.to_owned(), text: text.to_owned() }
    }
}

/// A positioned, delimited run of source text produced by the scanner:
/// a maximal word, a single delimiter or separator character, or a
/// quoted-literal span kept verbatim.
#[derive(Debug, PartialEq, Eq)]
pub struct Token(pub(crate) String);

impl View for Token {
    type V = Seq<char>;

    closed spec fn view(&self) -> Seq<char> {
        self.0@
    }
}

impl Clone for Token {
    fn clone(&self) -> (r: Self)
        ensures
            r@ == self@,
    {
        Token(self.0.clone())
    }
}

impl From<&str> for Token {
    fn from(value: &str) -> (r: Self) {
        Self(value.to_owned())
    }
}

impl vstd::std_specs::convert::FromSpecImpl<&str> for Token {
    open spec fn obeys_from_spec() -> bool {
        false
    }

    open spec fn from_spec(value: &str) -> Self {
        arbitrary()
    }
}

impl From<String> for Token {
    fn from(value: String) -> (r: Self) {
        Self(value)
    }
}

impl vstd::std_specs::convert::FromSpecImpl<String> for Token {
    open spec fn obeys_from_spec() -> bool {
        false
    }

    open spec fn from_spec(value: String) -> Self {
        arbitrary()
    }
}

impl Token {
    /// The token's text.
    pub fn text(&self) -> (r: &String)
        ensures
            r@ == self@,
    {
        &self.0
    }

    /// The token's text, taken out of the token.
    pub fn into_text(self) -> (r: String)
        ensures
            r@ == self@,
    {
        self.0
    }

    /// The opening delimiter that matches this closing-delimiter
    /// token.
    pub fn as_left_parentheses(&self) -> (r: &str)
        requires
            tok_is_close(self@),
        ensures
            r@ == seq![matching_open(self@[0])],
    {
        let c = self.0.as_str().get_char(0);
        if c == ')' {
            proof {
                reveal_strlit("(");
                assert("("@ =~= seq!['(']);
            }
            "("
        } else if c == ']' {
            proof {
                reveal_strlit("[");
                assert("["@ =~= seq!['[']);
            }
            "["
        } else {
            proof {
                reveal_strlit("{");
                assert("{"@ =~= seq!['{']);
            }
            "{"
        }
    }

    /// The closing delimiter that matches this opening-delimiter
    /// token.
    pub fn as_right_parentheses(&self) -> (r: &str)
        requires
            tok_is_open(self@),
        ensures
            r@ == seq![matching_close(self@[0])],
    {
        let c = self.0.as_str().get_char(0);
        if c == '(' {
            proof {
                reveal_strlit(")");
                assert(")"@ =~= seq![')']);
            }
            ")"
        } else if c == '[' {
            proof {
                reveal_strlit("]");
                assert("]"@ =~= seq![']']);
            }
            "]"
        } else {
            proof {
                reveal_strlit("}");
                assert("}"@ =~= seq!['}']);
            }
            "}"
        }
    }

    /// Decide whether `other` is the opening delimiter that matches
    /// this closing-delimiter token.
    pub fn match_left_parentheses(&self, other: &String) -> (r: bool)
        requires
            tok_is_close(self@),
        ensures
            r == (other@ == seq![matching_open(self@[0])]),
    {
        let c = self.0.as_str().get_char(0);
        let expected = open_char_for(c);
        let os: &str = other.as_str();
        if os.unicode_len() == 1 {
            let oc = os.get_char(0);
            proof {
                if oc == expected {
                    assert(other@ =~= seq![matching_open(self@[0])]);
                }
            }
            oc == expected
        } else {
            false
        }
    }
}

/// The opening delimiter character matching a closing one.
pub open spec fn matching_open(c: char) -> char {
    if c == ')' {
        '('
    } else if c == ']' {
        '['
    } else {
        '{'
    }
}

/// The closing delimiter character matching an opening one.
pub open spec fn matching_close(c: char) -> char {
    if c == '(' {
        ')'
    } else if c == '[' {
        ']'
    } else {
        '}'
    }
}

fn open_char_for(c: char) -> (r: char)
    requires
        is_close_delim(c),
    ensures
        r == matching_open(c),
{
    if c == ')' {
        '('
    } else if c == ']' {
        '['
    } else {
        '{'
    }
}

fn close_char_for(c: char) -> (r: char)
    requires
        is_open_delim(c),
    ensures
        r == matching_close(c),
{
    if c == '(' {
        ')'
    } else if c == '[' {
        ']'
    } else {
        '}'
    }
}

/// A one-character opening-delimiter token.
pub open spec fn tok_is_open(t: Seq<char>) -> bool {
    t.len() == 1 && is_open_delim(t[0])
}

/// A one-character closing-delimiter token.
pub open spec fn tok_is_close(t: Seq<char>) -> bool {
    t.len() == 1 && is_close_delim(t[0])
}

/// An opening delimiter character.
pub open spec fn is_open_delim(c: char) -> bool {
    c == '(' || c == '[' || c == '{'
}

/// A closing delimiter character.
pub open spec fn is_close_delim(c: char) -> bool {
    c == ')' || c == ']' || c == '}'
}

/// A separator character, reserved for a future delimiter role and
/// currently passed through as an opaque one-character token.
pub open spec fn is_separator(c: char) -> bool {
    c == ',' || c == ';'
}

/// A quote character opening or closing a literal span.
pub open spec fn is_quote(c: char) -> bool {
    c == '\'' || c == '"'
}

/// ASCII whitespace, as the scanner's word boundary understands it.
pub open spec fn is_ascii_ws(c: char) -> bool {
    c == ' ' || c == '\t' || c == '\n' || c == '\r' || c == '\u{C}'
}

/// The scanner's literal-parsing mode: outside any literal.
pub open spec fn mode_normal() -> int {
    0
}

/// The scanner's literal-parsing mode: inside a quoted literal.
pub open spec fn mode_literal() -> int {
    1
}

/// The scanner's literal-parsing mode: inside a quoted literal, right
/// after the escape marker.
pub open spec fn mode_escape() -> int {
    2
}

/// The mathematical value of one scanned token: where it was emitted,
/// and its text.
#[verifier::ext_equal]
pub struct TokView {
    pub pos: PosView,
    pub text: Seq<char>,
}

/// The mathematical state of the lexical scanner: the pending-text
/// buffer, the current position, the tokens emitted so far, and the
/// literal-parsing mode.
#[verifier::ext_equal]
pub struct LexState {
    pub buf: Seq<char>,
    pub pos: PosView,
    pub toks: Seq<TokView>,
    pub mode: int,
}

/// The scanner's starting state: empty buffer, position (1, 1, 1), no
/// tokens, normal mode.
pub open spec fn lex_init() -> LexState {
    LexState {
        buf: Seq::empty(),
        pos: PosView { ln: 1, col: 1, idx: 1 },
        toks: Seq::empty(),
        mode: mode_normal(),
    }
}

/// Advance the position over one consumed character: the offset always
/// moves by one; a line break moves the line and resets the column.
pub open spec fn lex_advance(p: PosView, c: char) -> PosView {
    if c == '\n' {
        PosView { ln: p.ln + 1, col: 1, idx: p.idx + 1 }
    } else {
        PosView { ln: p.ln, col: p.col + 1, idx: p.idx + 1 }
    }
}

/// Flush the pending buffer as a token at the current position, if it
/// is non-empty.
pub open spec fn lex_flush(st: LexState) -> LexState {
    if st.buf.len() > 0 {
        LexState {
            buf: Seq::empty(),
            toks: st.toks.push(TokView { pos: st.pos, text: st.buf }),
            ..st
        }
    } else {
        st
    }
}

/// The per-character dispatch of the scanner, before the position
/// advances.  Priority order matters: the literal modes come first,
/// then delimiters, separators, quotes, whitespace, and plain text.
pub open spec fn lex_dispatch(st: LexState, c: char) -> LexState {
    if st.mode == mode_literal() {
        LexState {
            buf: st.buf.push(c),
            mode: if c == '\\' {
                mode_escape()
            } else if is_quote(c) {
                mode_normal()
            } else {
                mode_literal()
            },
            ..st
        }
    } else if st.mode == mode_escape() {
        LexState { buf: st.buf.push(c), mode: mode_literal(), ..st }
    } else if is_open_delim(c) {
        LexState { toks: st.toks.push(TokView { pos: st.pos, text: seq![c] }), ..st }
    } else if is_close_delim(c) {
        let flushed = lex_flush(st);
        LexState {
            toks: flushed.toks.push(TokView { pos: flushed.pos, text: seq![c] }),
            ..flushed
        }
    } else if is_separator(c) {
        LexState { toks: st.toks.push(TokView { pos: st.pos, text: seq![c] }), ..st }
    } else if is_quote(c) {
        LexState { buf: st.buf.push(c), mode: mode_literal(), ..st }
    } else if is_ascii_ws(c) || c == '\u{B}' {
        lex_flush(st)
    } else {
        LexState { buf: st.buf.push(c), ..st }
    }
}

/// Consume one character: dispatch on it, then advance the position.
pub open spec fn lex_char(st: LexState, c: char) -> LexState {
    let st1 = lex_dispatch(st, c);
    LexState { pos: lex_advance(st1.pos, c), ..st1 }
}

/// Consume a sequence of characters, left to right.
pub open spec fn lex_chars(st: LexState, s: Seq<char>) -> LexState
    decreases s,
{
    if s.len() == 0 {
        st
    } else {
        lex_chars(lex_char(st, s[0]), s.drop_first())
    }
}

/// The tokens the scanner yields for a complete text: every character
/// consumed from the starting state, then a final flush.
pub open spec fn lex_text(s: Seq<char>) -> Seq<TokView> {
    lex_flush(lex_chars(lex_init(), s)).toks
}

/// Well-formedness of a scanner state: the mode is one of the three,
/// the position components are positive and bounded by the offset, and
/// every emitted token is non-empty with a positive offset.
pub open spec fn lex_wf(st: LexState) -> bool {
    &&& mode_normal() <= st.mode <= mode_escape()
    &&& 1 <= st.pos.ln <= st.pos.idx
    &&& 1 <= st.pos.col <= st.pos.idx
    &&& forall|i: int| 0 <= i < st.toks.len() ==> {
        &&& (#[trigger] st.toks[i]).text.len() > 0
        &&& 1 <= st.toks[i].pos.ln <= st.toks[i].pos.idx
        &&& 1 <= st.toks[i].pos.col <= st.toks[i].pos.idx
        &&& st.toks[i].pos.idx <= st.pos.idx
    }
}

pub broadcast proof fn lemma_lex_char_wf(st: LexState, c: char)
    requires
        lex_wf(st),
    ensures
        lex_wf(#[trigger] lex_char(st, c)),
        lex_char(st, c).pos.idx == st.pos.idx + 1,
        lex_char(st, c).toks.len() >= st.toks.len(),
{
}

pub broadcast proof fn lemma_lex_chars_wf(st: LexState, s: Seq<char>)
    requires
        lex_wf(st),
    ensures
        lex_wf(#[trigger] lex_chars(st, s)),
        lex_chars(st, s).pos.idx == st.pos.idx + s.len(),
    decreases s,
{
    if s.len() > 0 {
        lemma_lex_char_wf(st, s[0]);
        lemma_lex_chars_wf(lex_char(st, s[0]), s.drop_first());
    }
}

/// Consuming one more character on the right is one more step of the
/// fold.
pub proof fn lemma_lex_chars_snoc(st: LexState, s: Seq<char>, c: char)
    ensures
        lex_chars(st, s.push(c)) == lex_char(lex_chars(st, s), c),
    decreases s,
{
    if s.len() == 0 {
        reveal_with_fuel(lex_chars, 3);
        assert(s.push(c)[0] == c);
        assert(s.push(c).drop_first() =~= Seq::<char>::empty());
    } else {
        assert(s.push(c)[0] == s[0]);
        assert(s.push(c).drop_first() =~= s.drop_first().push(c));
        lemma_lex_chars_snoc(lex_char(st, s[0]), s.drop_first(), c);
    }
}

/// The scanner is a fold: consuming a concatenation is consuming its
/// parts in turn.
pub proof fn lemma_lex_chars_append(st: LexState, a: Seq<char>, b: Seq<char>)
    ensures
        lex_chars(st, a + b) == lex_chars(lex_chars(st, a), b),
    decreases a,
{
    if a.len() == 0 {
        assert(a + b =~= b);
    } else {
        assert((a + b)[0] == a[0]);
        assert((a + b).drop_first() =~= a.drop_first() + b);
        lemma_lex_chars_append(lex_char(st, a[0]), a.drop_first(), b);
    }
}

/// Relies on `String::push`: appends exactly the given character to
/// the end of the string.
#[verifier::external_body]
pub(crate) fn push_char(s: &mut String, c: char)
    ensures
        final(s)@ == old(s)@.push(c),
{
    s.push(c);
}

/// The lexical scanner.  It converts a character stream into a
/// sequence of positioned tokens and never rejects input: symbol
/// validity is checked later, by the syntactic parser.
#[derive(Debug)]
pub struct LexicalParser {
    buf: String,
    pos: SourcePos,
    results: Vec<(SourcePos, Token)>,
    parsing_context: usize,
}

impl View for LexicalParser {
    type V = LexState;

    closed spec fn view(&self) -> LexState {
        LexState {
            buf: self.buf@,
            pos: self.pos@,
            toks: Seq::new(
                self.results@.len(),
                |i: int| TokView { pos: self.results@[i].0@, text: self.results@[i].1@ },
            ),
            mode: self.parsing_context as int,
        }
    }
}

impl LexicalParser {
    pub fn new() -> (r: Self)
        ensures
            r@ == lex_init(),
            lex_wf(r@),
    {
        let r = Self {
            buf: String::new(),
            pos: SourcePos(1, 1, 1),
            results: Vec::new(),
            parsing_context: 0,
        };
        proof {
            assert(r@.buf =~= lex_init().buf);
            assert(r@.toks =~= lex_init().toks);
            assert(r@ =~= lex_init());
        }
        r
    }

    /// The scanned tokens with their positions, taken out of the
    /// scanner.
    pub fn results(self) -> (r: Vec<(SourcePos, Token)>)
        ensures
            r@.len() == self@.toks.len(),
            forall|i: int| 0 <= i < r@.len() ==> {
                &&& (#[trigger] r@[i]).0@ == self@.toks[i].pos
                &&& r@[i].1@ == self@.toks[i].text
            },
    {
        self.results
    }

    /// The scanned tokens alone, copied out in order.
    pub fn tokens(&self) -> (r: Vec<Token>)
        ensures
            r@.len() == self@.toks.len(),
            forall|i: int| 0 <= i < r@.len() ==> (#[trigger] r@[i])@ == self@.toks[i].text,
    {
        let mut out: Vec<Token> = Vec::new();
        let n = self.results.len();
        let mut i: usize = 0;
        while i < n
            invariant
                n == self.results@.len(),
                0 <= i <= n,
                out@.len() == i,
                forall|j: int| 0 <= j < i ==> (#[trigger] out@[j])@ == self@.toks[j].text,
            decreases n - i,
        {
            let pair = &self.results[i];
            out.push(pair.1.clone());
            i = i + 1;
        }
        out
    }

    #[inline]
    fn push_token(&mut self, token: Token)
        ensures
            final(self)@ == (LexState {
                toks: old(self)@.toks.push(TokView { pos: old(self)@.pos, text: token@ }),
                ..old(self)@
            }),
    {
        self.results.push((self.pos, token));
        proof {
            assert(self@.toks =~~= old(self)@.toks.push(
                TokView { pos: old(self)@.pos, text: token@ },
            ));
            assert(self@ =~~= (LexState {
                toks: old(self)@.toks.push(TokView { pos: old(self)@.pos, text: token@ }),
                ..old(self)@
            }));
        }
    }

    #[inline]
    fn push_buf_as_token(&mut self)
        requires
            old(self)@.buf.len() > 0,
        ensures
            final(self)@ == lex_flush(old(self)@),
    {
        let mut taken = String::new();
        core::mem::swap(&mut self.buf, &mut taken);
        self.push_token(Token(taken));
        proof {
            assert(self@ =~~= lex_flush(old(self)@));
        }
    }

    /// Flush the pending buffer as a token if it is non-empty.
    #[inline]
    fn try_collect_buf(&mut self)
        ensures
            final(self)@ == lex_flush(old(self)@),
    {
        let empty = self.buf.as_str().is_empty();
        if !empty {
            self.push_buf_as_token();
        } else {
            proof {
                assert(self@ =~~= lex_flush(old(self)@));
            }
        }
    }

    /// Consume one character of input: dispatch on it by the literal
    /// mode and the character class, then advance the position.
    pub fn parse_c(&mut self, ch: char)
        requires
            lex_wf(old(self)@),
            old(self)@.pos.idx < usize::MAX,
        ensures
            final(self)@ == lex_char(old(self)@, ch),
            lex_wf(final(self)@),
    {
        if self.parsing_context == 1 {
            push_char(&mut self.buf, ch);
            if ch == '\\' {
                self.parsing_context = 2;
            } else if ch == '"' || ch == '\'' {
                self.parsing_context = 0;
            }
        } else if self.parsing_context == 2 {
            push_char(&mut self.buf, ch);
            self.parsing_context = 1;
        } else if ch == '(' || ch == '[' || ch == '{' {
            let mut s = String::new();
            push_char(&mut s, ch);
            proof {
                assert(s@ =~= seq![ch]);
            }
            self.push_token(Token(s));
        } else if ch == ')' || ch == ']' || ch == '}' {
            self.try_collect_buf();
            let mut s = String::new();
            push_char(&mut s, ch);
            proof {
                assert(s@ =~= seq![ch]);
            }
            self.push_token(Token(s));
        } else if ch == ',' || ch == ';' {
            let mut s = String::new();
            push_char(&mut s, ch);
            proof {
                assert(s@ =~= seq![ch]);
            }
            self.push_token(Token(s));
        } else if ch == '\'' || ch == '"' {
            push_char(&mut self.buf, ch);
            self.parsing_context = 1;
        } else if ch == ' ' || ch == '\t' || ch == '\n' || ch == '\r' || ch == '\u{C}'
            || ch == '\u{B}' {
            self.try_collect_buf();
        } else {
            push_char(&mut self.buf, ch);
        }
        if ch != '\n' {
            self.pos.next_col();
        } else {
            self.pos.next_ln();
        }
        proof {
            assert(self@ =~~= lex_char(old(self)@, ch));
            lemma_lex_char_wf(old(self)@, ch);
        }
    }

    /// Consume a whole text, then flush any remaining buffered word as
    /// a final token.
    pub fn parse_str(&mut self, source: &str)
        requires
            lex_wf(old(self)@),
            old(self)@.pos.idx + source@.len() <= usize::MAX,
        ensures
            final(self)@ == lex_flush(lex_chars(old(self)@, source@)),
            lex_wf(final(self)@),
    {
        let n = source.unicode_len();
        let mut i: usize = 0;
        proof {
            assert(source@.subrange(0, 0) =~= Seq::<char>::empty());
        }
        while i < n
            invariant
                n == source@.len(),
                0 <= i <= n,
                lex_wf(old(self)@),
                old(self)@.pos.idx + n <= usize::MAX,
                self@ == lex_chars(old(self)@, source@.subrange(0, i as int)),
                lex_wf(self@),
            decreases n - i,
        {
            proof {
                lemma_lex_chars_wf(old(self)@, source@.subrange(0, i as int));
            }
            let c = source.get_char(i);
            self.parse_c(c);
            proof {
                assert(source@.subrange(0, i + 1) =~= source@.subrange(0, i as int).push(
                    source@[i as int],
                ));
                lemma_lex_chars_snoc(old(self)@, source@.subrange(0, i as int), source@[i as int]);
            }
            i = i + 1;
        }
        proof {
            assert(source@.subrange(0, n as int) =~= source@);
        }
        self.try_collect_buf();
        proof {
            lemma_lex_chars_wf(old(self)@, source@);
        }
    }
}

/// The mathematical state of the syntactic parser: the stack of
/// currently-open delimiter tokens, and the tree built so far.  The
/// insertion cursor is not a separate datum: it always sits at the end
/// of the chain of last children, `stack.len()` levels down.
#[verifier::ext_equal]
pub struct ParseState {
    pub stack: Seq<TokView>,
    pub root: NodeView,
}

/// The diagnostic for a closing delimiter with no opener: the primary
/// span covers exactly the closing character.
pub open spec fn err_unmatched_close(tok: TokView) -> ErrView {
    ErrView {
        kind: ErrorKind::InvalidSyntax,
        message: "No corresponding '"@ + seq![matching_open(tok.text[0])]
            + "' can be found for '"@ + tok.text + "'."@,
        span: Span { start: (tok.pos.idx - 1) as usize, end: tok.pos.idx as usize },
        labels: Seq::empty(),
        anchor: tok.pos,
        anchor_label: "Invalid '"@ + tok.text + "' here."@,
    }
}

/// The secondary label of a delimiter-mismatch diagnostic: it points
/// back at the still-open opener.
pub open spec fn mismatch_label(src_id: Seq<char>, opener: TokView) -> LabelView {
    LabelView {
        src_id: src_id,
        span: Span { start: (opener.pos.idx - 1) as usize, end: opener.pos.idx as usize },
        message: "Opening delimiter '"@ + opener.text + "' occurred here."@,
        color: DiagColor::Fixed(86),
        order: 1,
    }
}

/// The diagnostic for a closing delimiter of the wrong kind: it names
/// the expected closer, derived from the still-open delimiter, and
/// labels both the wrong closer and the opener.
pub open spec fn err_mismatch(src_id: Seq<char>, opener: TokView, tok: TokView) -> ErrView {
    ErrView {
        kind: ErrorKind::InvalidSyntax,
        message: "'"@ + seq![matching_close(opener.text[0])]
            + "' is required, but only to found '"@ + tok.text + "'"@,
        span: Span { start: (tok.pos.idx - 1) as usize, end: tok.pos.idx as usize },
        labels: seq![mismatch_label(src_id, opener)],
        anchor: tok.pos,
        anchor_label: "Invalid closing '"@ + tok.text + "' here."@,
    }
}

/// The diagnostic for an opener still unmatched at the end of input:
/// it reports the innermost such opener.
pub open spec fn err_unclosed(opener: TokView) -> ErrView {
    ErrView {
        kind: ErrorKind::InvalidSyntax,
        message: "No corresponding '"@ + seq![matching_close(opener.text[0])] + "' for '"@
            + opener.text + "' was found."@,
        span: Span { start: (opener.pos.idx - 1) as usize, end: opener.pos.idx as usize },
        labels: Seq::empty(),
        anchor: opener.pos,
        anchor_label: "Single '"@ + opener.text + "' found here."@,
    }
}

/// The diagnostic for a malformed quoted-literal token: a bare
/// `InvalidSyntax` with nothing attached.
pub open spec fn err_bare_invalid() -> ErrView {
    ErrView {
        kind: ErrorKind::InvalidSyntax,
        message: Seq::empty(),
        span: Span { start: 0, end: 0 },
        labels: Seq::empty(),
        anchor: PosView { ln: 0, col: 0, idx: 0 },
        anchor_label: Seq::empty(),
    }
}

/// One step of the syntactic parser on one token, in priority order:
/// opening delimiter, closing delimiter, quoted literal, bare symbol.
pub open spec fn parse_step(src_id: Seq<char>, st: ParseState, tok: TokView) -> Result<
    ParseState,
    ErrView,
> {
    let t = tok.text;
    if tok_is_open(t) {
        Ok(ParseState {
            stack: st.stack.push(tok),
            root: spec_push_at(st.root, st.stack.len(), NodeView::List(Seq::empty())),
        })
    } else if tok_is_close(t) {
        if st.stack.len() == 0 {
            Err(err_unmatched_close(tok))
        } else if st.stack.last().text != seq![matching_open(t[0])] {
            Err(err_mismatch(src_id, st.stack.last(), tok))
        } else {
            Ok(ParseState { stack: st.stack.drop_last(), root: st.root })
        }
    } else if t.len() > 0 && is_quote(t[0]) {
        if t.len() >= 2 && t[0] == t[t.len() - 1] {
            Ok(ParseState {
                stack: st.stack,
                root: spec_push_at(
                    st.root,
                    st.stack.len(),
                    NodeView::Literal(t.subrange(1, t.len() - 1)),
                ),
            })
        } else {
            Err(err_bare_invalid())
        }
    } else if valid_symbol_text(t) {
        Ok(ParseState {
            stack: st.stack,
            root: spec_push_at(st.root, st.stack.len(), NodeView::Symbol(t)),
        })
    } else {
        Err(symbol_error(t))
    }
}

/// The parser folded over a token sequence, stopping at the first
/// failure.
pub open spec fn parse_fold(src_id: Seq<char>, st: ParseState, toks: Seq<TokView>) -> Result<
    ParseState,
    ErrView,
>
    decreases toks,
{
    if toks.len() == 0 {
        Ok(st)
    } else {
        match parse_step(src_id, st, toks[0]) {
            Ok(st2) => parse_fold(src_id, st2, toks.drop_first()),
            Err(e) => Err(e),
        }
    }
}

/// The end-of-stream check: a parse that consumed every token still
/// fails if some delimiter is left open, reporting the innermost one.
pub open spec fn parse_finish(r: Result<ParseState, ErrView>) -> Result<NodeView, ErrView> {
    match r {
        Ok(st) => if st.stack.len() == 0 {
            Ok(st.root)
        } else {
            Err(err_unclosed(st.stack.last()))
        },
        Err(e) => Err(e),
    }
}

/// What parsing a token sequence into the tree `root0` yields: the
/// finished tree, or the first diagnostic.
pub open spec fn parse_outcome(src_id: Seq<char>, root0: NodeView, toks: Seq<TokView>) -> Result<
    NodeView,
    ErrView,
> {
    parse_finish(parse_fold(src_id, ParseState { stack: Seq::empty(), root: root0 }, toks))
}

/// What parsing a whole source text yields: the text is scanned, and
/// the tokens are parsed into `root0`.
pub open spec fn parse_text(src_id: Seq<char>, root0: NodeView, text: Seq<char>) -> Result<
    NodeView,
    ErrView,
> {
    parse_outcome(src_id, root0, lex_text(text))
}

/// Well-formedness of the scanned tokens the parser consumes: every
/// token is non-empty and carries a positive offset.
pub open spec fn toks_wf(toks: Seq<TokView>) -> bool {
    forall|i: int| 0 <= i < toks.len() ==> {
        &&& (#[trigger] toks[i]).text.len() > 0
        &&& toks[i].pos.idx >= 1
    }
}

/// Well-formedness of a parser state: the cursor path is open down to
/// the stack's depth, and every stack entry is a one-character opening
/// delimiter with a positive offset.
pub open spec fn parse_wf(st: ParseState) -> bool {
    &&& open_ok(st.root, st.stack.len())
    &&& forall|i: int| 0 <= i < st.stack.len() ==> {
        &&& tok_is_open((#[trigger] st.stack[i]).text)
        &&& st.stack[i].pos.idx >= 1
    }
}

/// Inserting an empty list at the cursor opens the path one level
/// deeper.
pub proof fn lemma_push_at_opens(v: NodeView, d: nat)
    requires
        open_ok(v, d),
    ensures
        open_ok(spec_push_at(v, d, NodeView::List(Seq::empty())), (d + 1) as nat),
    decreases d,
{
    let child = NodeView::List(Seq::<NodeView>::empty());
    let res = spec_push_at(v, d, child);
    if d == 0 {
        assert(res->List_0.last() == child);
        assert(open_ok(child, 0));
    } else {
        let cs = v->List_0;
        lemma_push_at_opens(cs.last(), (d - 1) as nat);
        assert(res->List_0.last() == spec_push_at(cs.last(), (d - 1) as nat, child));
    }
}

/// Inserting any node at the cursor keeps the path open to the same
/// depth.
pub proof fn lemma_push_at_keeps_open(v: NodeView, d: nat, child: NodeView)
    requires
        open_ok(v, d),
    ensures
        open_ok(spec_push_at(v, d, child), d),
    decreases d,
{
    if d > 0 {
        let cs = v->List_0;
        lemma_push_at_keeps_open(cs.last(), (d - 1) as nat, child);
    }
}

/// An open path stays open at any smaller depth.
pub proof fn lemma_open_ok_shallower(v: NodeView, d: nat, d2: nat)
    requires
        open_ok(v, d),
        d2 <= d,
    ensures
        open_ok(v, d2),
    decreases d,
{
    if d > 0 && d2 > 0 {
        let cs = v->List_0;
        lemma_open_ok_shallower(cs.last(), (d - 1) as nat, (d2 - 1) as nat);
    }
}

/// The parser is a fold: consuming a concatenation is consuming its
/// parts in turn, with a failure absorbing the rest.
pub proof fn lemma_parse_fold_append(
    src_id: Seq<char>,
    st: ParseState,
    a: Seq<TokView>,
    b: Seq<TokView>,
)
    ensures
        parse_fold(src_id, st, a + b) == (match parse_fold(src_id, st, a) {
            Ok(st2) => parse_fold(src_id, st2, b),
            Err(e) => Err(e),
        }),
    decreases a,
{
    if a.len() == 0 {
        assert(a + b =~= b);
    } else {
        assert((a + b)[0] == a[0]);
        assert((a + b).drop_first() =~= a.drop_first() + b);
        match parse_step(src_id, st, a[0]) {
            Ok(st2) => {
                lemma_parse_fold_append(src_id, st2, a.drop_first(), b);
            },
            Err(_) => {},
        }
    }
}

/// Consuming one more token on the right is one more step of the
/// fold.
pub proof fn lemma_parse_fold_snoc(src_id: Seq<char>, st: ParseState, s: Seq<TokView>, t: TokView)
    ensures
        parse_fold(src_id, st, s.push(t)) == (match parse_fold(src_id, st, s) {
            Ok(st2) => parse_step(src_id, st2, t),
            Err(e) => Err(e),
        }),
{
    reveal_with_fuel(parse_fold, 3);
    lemma_parse_fold_append(src_id, st, s, seq![t]);
    assert(s + seq![t] =~= s.push(t));
    assert(seq![t][0] == t);
    assert(seq![t].drop_first() =~= Seq::<TokView>::empty());
}

fn build_unmatched_close(t: &Token, pos: SourcePos) -> (e: Error)
    requires
        tok_is_close(t@),
        pos.2 >= 1,
    ensures
        e@ == err_unmatched_close(TokView { pos: pos@, text: t@ }),
{
    let c = t.0.as_str().get_char(0);
    let lo = open_char_for(c);
    let mut msg = String::from_str("No corresponding '");
    push_char(&mut msg, lo);
    msg.append("' can be found for '");
    msg.append(t.0.as_str());
    msg.append("'.");
    let mut albl = String::from_str("Invalid '");
    albl.append(t.0.as_str());
    albl.append("' here.");
    let e = Error::new(ErrorKind::InvalidSyntax).with_message(msg).with_span(
        Span { start: pos.i() - 1, end: pos.i() },
    ).return_error(pos, albl);
    proof {
        assert(msg@ =~= "No corresponding '"@ + seq![matching_open(t@[0])]
            + "' can be found for '"@ + t@ + "'."@);
        assert(albl@ =~= "Invalid '"@ + t@ + "' here."@);
        assert(e@ =~~= err_unmatched_close(TokView { pos: pos@, text: t@ }));
    }
    e
}

fn build_mismatch(
    src_id: &String,
    opener_pos: SourcePos,
    opener_text: &String,
    t: &Token,
    pos: SourcePos,
) -> (e: Error)
    requires
        tok_is_open(opener_text@),
        opener_pos.2 >= 1,
        tok_is_close(t@),
        pos.2 >= 1,
    ensures
        e@ == err_mismatch(
            src_id@,
            TokView { pos: opener_pos@, text: opener_text@ },
            TokView { pos: pos@, text: t@ },
        ),
{
    let oc = opener_text.as_str().get_char(0);
    let rc = close_char_for(oc);
    let mut msg = String::from_str("'");
    push_char(&mut msg, rc);
    msg.append("' is required, but only to found '");
    msg.append(t.0.as_str());
    msg.append("'");
    let mut lbl_msg = String::from_str("Opening delimiter '");
    lbl_msg.append(opener_text.as_str());
    lbl_msg.append("' occurred here.");
    let label = DiagLabel {
        src_id: src_id.clone(),
        span: Span { start: opener_pos.i() - 1, end: opener_pos.i() },
        message: lbl_msg,
        color: DiagColor::Fixed(86),
        order: 1,
    };
    let mut albl = String::from_str("Invalid closing '");
    albl.append(t.0.as_str());
    albl.append("' here.");
    let e = Error::new(ErrorKind::InvalidSyntax).with_message(msg).with_span(
        Span { start: pos.i() - 1, end: pos.i() },
    ).with_label(label).return_error(pos, albl);
    proof {
        let opener = TokView { pos: opener_pos@, text: opener_text@ };
        let tokv = TokView { pos: pos@, text: t@ };
        assert(e@.labels =~= seq![mismatch_label(src_id@, opener)]);
        assert(e@ =~~= err_mismatch(src_id@, opener, tokv));
    }
    e
}

fn build_unclosed(opener_pos: SourcePos, opener_text: &String) -> (e: Error)
    requires
        tok_is_open(opener_text@),
        opener_pos.2 >= 1,
    ensures
        e@ == err_unclosed(TokView { pos: opener_pos@, text: opener_text@ }),
{
    let oc = opener_text.as_str().get_char(0);
    let rc = close_char_for(oc);
    let mut msg = String::from_str("No corresponding '");
    push_char(&mut msg, rc);
    msg.append("' for '");
    msg.append(opener_text.as_str());
    msg.append("' was found.");
    let mut albl = String::from_str("Single '");
    albl.append(opener_text.as_str());
    albl.append("' found here.");
    let e = Error::new(ErrorKind::InvalidSyntax).with_message(msg).with_span(
        Span { start: opener_pos.i() - 1, end: opener_pos.i() },
    ).return_error(opener_pos, albl);
    proof {
        assert(e@ =~~= err_unclosed(TokView { pos: opener_pos@, text: opener_text@ }));
    }
    e
}

/// The texts of a sequence of tokens.
pub open spec fn token_texts(ts: Seq<Token>) -> Seq<Seq<char>> {
    Seq::new(ts.len(), |i: int| ts[i]@)
}

/// The mathematical state of the untraced parser: a nesting depth and
/// the tree built so far.
#[verifier::ext_equal]
pub struct UntracedState {
    pub depth: nat,
    pub root: NodeView,
}

/// What the untraced parser demands of one token at a given depth: a
/// closing delimiter needs something open, and any non-delimiter
/// token must be a valid symbol.
pub open spec fn untraced_step_ok(depth: nat, t: Seq<char>) -> bool {
    if tok_is_open(t) {
        true
    } else if tok_is_close(t) {
        depth > 0
    } else {
        valid_symbol_text(t)
    }
}

/// One step of the untraced parser on one token's text.
pub open spec fn untraced_step(st: UntracedState, t: Seq<char>) -> UntracedState {
    if tok_is_open(t) {
        UntracedState {
            depth: st.depth + 1,
            root: spec_push_at(st.root, st.depth, NodeView::List(Seq::empty())),
        }
    } else if tok_is_close(t) {
        UntracedState {
            depth: if st.depth > 0 {
                (st.depth - 1) as nat
            } else {
                0
            },
            root: st.root,
        }
    } else {
        UntracedState { depth: st.depth, root: spec_push_at(st.root, st.depth, NodeView::Symbol(t)) }
    }
}

/// The untraced parser folded over a sequence of token texts.
pub open spec fn untraced_fold(st: UntracedState, ts: Seq<Seq<char>>) -> UntracedState
    decreases ts,
{
    if ts.len() == 0 {
        st
    } else {
        untraced_fold(untraced_step(st, ts[0]), ts.drop_first())
    }
}

/// Every token of the stream satisfies the untraced parser's demand
/// at the depth it is consumed at.
pub open spec fn untraced_ok(depth: nat, ts: Seq<Seq<char>>) -> bool
    decreases ts,
{
    ts.len() == 0 || {
        &&& untraced_step_ok(depth, ts[0])
        &&& untraced_ok(
            untraced_step(UntracedState { depth, root: NodeView::List(Seq::empty()) }, ts[0]).depth,
            ts.drop_first(),
        )
    }
}

/// Consuming one more token text on the right is one more step of the
/// untraced fold.
pub proof fn lemma_untraced_fold_snoc(st: UntracedState, s: Seq<Seq<char>>, t: Seq<char>)
    ensures
        untraced_fold(st, s.push(t)) == untraced_step(untraced_fold(st, s), t),
    decreases s,
{
    if s.len() == 0 {
        reveal_with_fuel(untraced_fold, 3);
        assert(s.push(t)[0] == t);
        assert(s.push(t).drop_first() =~= Seq::<Seq<char>>::empty());
    } else {
        assert(s.push(t)[0] == s[0]);
        assert(s.push(t).drop_first() =~= s.drop_first().push(t));
        lemma_untraced_fold_snoc(untraced_step(st, s[0]), s.drop_first(), t);
    }
}

/// The mathematical value of the parser's exec delimiter stack.
pub open spec fn stack_view(v: Seq<(SourcePos, String)>) -> Seq<TokView> {
    Seq::new(v.len(), |i: int| TokView { pos: v[i].0@, text: v[i].1@ })
}

/// The syntactic parser: it scans its source unit, consumes the token
/// stream while matching delimiters over a nesting stack, and builds
/// the tree node model, reporting the first failure with exact spans.
pub struct SyntacticParser {
    pub src: SrcInfo,
    pub tree: Node,
}

impl SyntacticParser {
    /// The parser's invariant between runs: the tree root is a list.
    pub open spec fn wf(&self) -> bool {
        node_view(self.tree) is List
    }

    pub fn new(src: SrcInfo) -> (r: Self)
        ensures
            r.src.id@ == src.id@,
            r.src.text@ == src.text@,
            node_view(r.tree) == NodeView::List(Seq::<NodeView>::empty()),
            r.wf(),
    {
        let r = Self { src, tree: Node::List(Vec::new()) };
        proof {
            assert(node_view(r.tree)->List_0 =~= Seq::<NodeView>::empty());
        }
        r
    }

    fn first_quoted(s: &str) -> (r: bool)
        requires
            s@.len() >= 1,
        ensures
            r == is_quote(s@[0]),
    {
        let c = s.get_char(0);
        c == '\'' || c == '"'
    }

    /// Strip the quote delimiters off a quoted-literal token: the
    /// first and last characters must agree, and the content between
    /// them is handed back verbatim.
    pub fn try_unquote(s: &str) -> (r: Result<String, Error>)
        requires
            s@.len() >= 2,
        ensures
            s@[0] == s@[s@.len() - 1] ==> (r matches Ok(mid) && mid@ == s@.subrange(
                1,
                s@.len() - 1,
            )),
            s@[0] != s@[s@.len() - 1] ==> (r matches Err(e) && e@ == err_bare_invalid()),
    {
        let n = s.unicode_len();
        let first = s.get_char(0);
        let end = s.get_char(n - 1);
        if first == end {
            Ok(s.substring_char(1, n - 1).to_owned())
        } else {
            let e = Error::new(ErrorKind::InvalidSyntax);
            proof {
                assert(e@ =~~= err_bare_invalid());
            }
            Err(e)
        }
    }

    /// Parse this parser's source unit: scan it, then consume the
    /// token stream, appending to the tree built so far.  On failure
    /// the first diagnostic is handed back as a value and the
    /// partially built tree is to be discarded.
    pub fn try_parse(&mut self) -> (r: Result<(), Error>)
        requires
            old(self).wf(),
            old(self).src.text@.len() < usize::MAX,
        ensures
            final(self).src.id@ == old(self).src.id@,
            final(self).src.text@ == old(self).src.text@,
            final(self).wf(),
            match r {
                Ok(_) => parse_text(
                    old(self).src.id@,
                    node_view(old(self).tree),
                    old(self).src.text@,
                ) matches Ok(v) && node_view(final(self).tree) == v,
                Err(e) => parse_text(
                    old(self).src.id@,
                    node_view(old(self).tree),
                    old(self).src.text@,
                ) matches Err(ev) && e@ == ev,
            },
    {
        let ghost src_id = old(self).src.id@;
        let ghost text = old(self).src.text@;
        let ghost toks = lex_text(text);
        let ghost root0 = node_view(old(self).tree);
        let ghost st0 = ParseState { stack: Seq::empty(), root: root0 };

        let tokens: Vec<(SourcePos, Token)> = {
            let mut lexer = LexicalParser::new();
            lexer.parse_str(self.src.text.as_str());
            lexer.results()
        };

        let mut tree = Node::List(Vec::new());
        core::mem::swap(&mut self.tree, &mut tree);
        let mut nest: Vec<(SourcePos, String)> = Vec::new();
        let n = tokens.len();
        let mut i: usize = 0;
        proof {
            assert(toks.take(0) =~= Seq::<TokView>::empty());
            assert(stack_view(nest@) =~= Seq::<TokView>::empty());
        }
        while i < n
            invariant
                0 <= i <= n,
                n == tokens.len(),
                src_id == old(self).src.id@,
                text == old(self).src.text@,
                toks == lex_text(text),
                st0 == (ParseState { stack: Seq::empty(), root: node_view(old(self).tree) }),
                self.src.id@ == src_id,
                self.src.text@ == text,
                tokens@.len() == toks.len(),
                forall|j: int| 0 <= j < toks.len() ==> {
                    &&& (#[trigger] tokens@[j]).0@ == toks[j].pos
                    &&& tokens@[j].1@ == toks[j].text
                },
                toks_wf(toks),
                parse_fold(src_id, st0, toks.take(i as int)) == Ok::<ParseState, ErrView>(
                    ParseState { stack: stack_view(nest@), root: node_view(tree) },
                ),
                parse_wf(ParseState { stack: stack_view(nest@), root: node_view(tree) }),
            decreases n - i,
        {
            let ghost cur = ParseState { stack: stack_view(nest@), root: node_view(tree) };
            let ghost tokv = toks[i as int];
            proof {
                assert(toks.take(i + 1) =~= toks.take(i as int).push(tokv));
            }
            let pos = tokens[i].0;
            let tlen = tokens[i].1.0.as_str().unicode_len();
            let c0 = tokens[i].1.0.as_str().get_char(0);
            if tlen == 1 && (c0 == '(' || c0 == '[' || c0 == '{') {
                let d = nest.len();
                proof {
                    assert(tokv.text =~= seq![c0]);
                }
                let child = Node::List(Vec::new());
                proof {
                    assert(node_view(child) =~~= NodeView::List(Seq::<NodeView>::empty()));
                }
                tree = tree.push_at_depth(d, child);
                nest.push((pos, tokens[i].1.0.clone()));
                proof {
                    lemma_push_at_opens(cur.root, d as nat);
                    assert(stack_view(nest@) =~= cur.stack.push(tokv));
                    assert(parse_step(src_id, cur, tokv) == Ok::<ParseState, ErrView>(
                        ParseState { stack: stack_view(nest@), root: node_view(tree) },
                    ));
                    lemma_parse_fold_snoc(src_id, st0, toks.take(i as int), tokv);
                }
            } else if tlen == 1 && (c0 == ')' || c0 == ']' || c0 == '}') {
                proof {
                    assert(tokv.text =~= seq![c0]);
                }
                if nest.len() == 0 {
                    let e = build_unmatched_close(&tokens[i].1, pos);
                    proof {
                        assert(parse_step(src_id, cur, tokv) == Err::<ParseState, ErrView>(
                            err_unmatched_close(tokv),
                        ));
                        lemma_parse_fold_snoc(src_id, st0, toks.take(i as int), tokv);
                        lemma_parse_fold_append(src_id, st0, toks.take(i + 1), toks.skip(i + 1));
                        assert(toks.take(i + 1) + toks.skip(i + 1) =~= toks);
                    }
                    self.tree = tree;
                    return Err(e);
                }
                let m = nest.len() - 1;
                let opener_pos = nest[m].0;
                let matched = {
                    let oc = nest[m].1.as_str().get_char(0);
                    let expected = open_char_for(c0);
                    oc == expected
                };
                proof {
                    assert(cur.stack.last() == stack_view(nest@)[m as int]);
                    if matched {
                        assert(nest@[m as int].1@ =~= seq![matching_open(tokv.text[0])]);
                    } else {
                        assert(nest@[m as int].1@ != seq![matching_open(tokv.text[0])]);
                    }
                }
                if !matched {
                    let e = build_mismatch(&self.src.id, opener_pos, &nest[m].1, &tokens[i].1, pos);
                    proof {
                        assert(parse_step(src_id, cur, tokv) == Err::<ParseState, ErrView>(
                            err_mismatch(src_id, cur.stack.last(), tokv),
                        ));
                        lemma_parse_fold_snoc(src_id, st0, toks.take(i as int), tokv);
                        lemma_parse_fold_append(src_id, st0, toks.take(i + 1), toks.skip(i + 1));
                        assert(toks.take(i + 1) + toks.skip(i + 1) =~= toks);
                    }
                    self.tree = tree;
                    return Err(e);
                }
                nest.pop();
                proof {
                    lemma_open_ok_shallower(
                        cur.root,
                        (m + 1) as nat,
                        m as nat,
                    );
                    assert(stack_view(nest@) =~= cur.stack.drop_last());
                    assert(parse_step(src_id, cur, tokv) == Ok::<ParseState, ErrView>(
                        ParseState { stack: stack_view(nest@), root: node_view(tree) },
                    ));
                    lemma_parse_fold_snoc(src_id, st0, toks.take(i as int), tokv);
                }
            } else if Self::first_quoted(tokens[i].1.0.as_str()) {
                if tlen < 2 {
                    let e = Error::new(ErrorKind::InvalidSyntax);
                    proof {
                        assert(e@ =~~= err_bare_invalid());
                        assert(parse_step(src_id, cur, tokv) == Err::<ParseState, ErrView>(
                            err_bare_invalid(),
                        ));
                        lemma_parse_fold_snoc(src_id, st0, toks.take(i as int), tokv);
                        lemma_parse_fold_append(src_id, st0, toks.take(i + 1), toks.skip(i + 1));
                        assert(toks.take(i + 1) + toks.skip(i + 1) =~= toks);
                    }
                    self.tree = tree;
                    return Err(e);
                }
                match Self::try_unquote(tokens[i].1.0.as_str()) {
                    Ok(mid) => {
                        let d = nest.len();
                        tree = tree.push_at_depth(d, Node::Literal(mid));
                        proof {
                            lemma_push_at_keeps_open(
                                cur.root,
                                d as nat,
                                NodeView::Literal(tokv.text.subrange(1, tokv.text.len() - 1)),
                            );
                            assert(parse_step(src_id, cur, tokv) == Ok::<ParseState, ErrView>(
                                ParseState { stack: stack_view(nest@), root: node_view(tree) },
                            ));
                            lemma_parse_fold_snoc(src_id, st0, toks.take(i as int), tokv);
                        }
                    },
                    Err(e) => {
                        proof {
                            assert(parse_step(src_id, cur, tokv) == Err::<ParseState, ErrView>(
                                err_bare_invalid(),
                            ));
                            lemma_parse_fold_snoc(src_id, st0, toks.take(i as int), tokv);
                            lemma_parse_fold_append(
                                src_id,
                                st0,
                                toks.take(i + 1),
                                toks.skip(i + 1),
                            );
                            assert(toks.take(i + 1) + toks.skip(i + 1) =~= toks);
                        }
                        self.tree = tree;
                        return Err(e);
                    },
                }
            } else {
                match Symbol::try_from(tokens[i].1.clone()) {
                    Ok(sym) => {
                        let d = nest.len();
                        tree = tree.push_at_depth(d, Node::Symbol(sym));
                        proof {
                            lemma_push_at_keeps_open(cur.root, d as nat, NodeView::Symbol(tokv.text));
                            assert(parse_step(src_id, cur, tokv) == Ok::<ParseState, ErrView>(
                                ParseState { stack: stack_view(nest@), root: node_view(tree) },
                            ));
                            lemma_parse_fold_snoc(src_id, st0, toks.take(i as int), tokv);
                        }
                    },
                    Err(e) => {
                        proof {
                            assert(parse_step(src_id, cur, tokv) == Err::<ParseState, ErrView>(
                                symbol_error(tokv.text),
                            ));
                            lemma_parse_fold_snoc(src_id, st0, toks.take(i as int), tokv);
                            lemma_parse_fold_append(
                                src_id,
                                st0,
                                toks.take(i + 1),
                                toks.skip(i + 1),
                            );
                            assert(toks.take(i + 1) + toks.skip(i + 1) =~= toks);
                        }
                        self.tree = tree;
                        return Err(e);
                    },
                }
            }
            i = i + 1;
        }
        proof {
            assert(toks.take(n as int) =~= toks);
        }
        if nest.len() > 0 {
            let m = nest.len() - 1;
            let e = build_unclosed(nest[m].0, &nest[m].1);
            proof {
                assert(stack_view(nest@).last() == (TokView { pos: nest@[m as int].0@, text: nest@[m as int].1@ }));
            }
            self.tree = tree;
            return Err(e);
        }
        self.tree = tree;
        Ok(())
    }

    /// Consume an already-scanned token stream without tracing source
    /// positions: delimiters only adjust the nesting (their kinds are
    /// not matched here), and every other token must be a valid
    /// symbol.
    pub fn parse_untraced(&mut self, tokens: Vec<Token>)
        requires
            old(self).wf(),
            untraced_ok(0, token_texts(tokens@)),
        ensures
            final(self).src.id@ == old(self).src.id@,
            final(self).src.text@ == old(self).src.text@,
            final(self).wf(),
            node_view(final(self).tree) == untraced_fold(
                UntracedState { depth: 0, root: node_view(old(self).tree) },
                token_texts(tokens@),
            ).root,
    {
        let ghost texts = token_texts(tokens@);
        let ghost st0 = UntracedState { depth: 0, root: node_view(old(self).tree) };
        let mut tree = Node::List(Vec::new());
        core::mem::swap(&mut self.tree, &mut tree);
        let mut depth: usize = 0;
        let n = tokens.len();
        let mut i: usize = 0;
        proof {
            assert(texts.take(0) =~= Seq::<Seq<char>>::empty());
            assert(texts.skip(0) =~= texts);
        }
        while i < n
            invariant
                0 <= i <= n,
                n == tokens.len(),
                texts == token_texts(tokens@),
                st0 == (UntracedState { depth: 0, root: node_view(old(self).tree) }),
                self.src.id@ == old(self).src.id@,
                self.src.text@ == old(self).src.text@,
                depth <= i,
                untraced_fold(st0, texts.take(i as int)) == (UntracedState {
                    depth: depth as nat,
                    root: node_view(tree),
                }),
                untraced_ok(depth as nat, texts.skip(i as int)),
                open_ok(node_view(tree), depth as nat),
            decreases n - i,
        {
            let ghost cur = UntracedState { depth: depth as nat, root: node_view(tree) };
            let ghost t = texts[i as int];
            proof {
                assert(texts.take(i + 1) =~= texts.take(i as int).push(t));
                assert(texts.skip(i as int)[0] == t);
                assert(texts.skip(i as int).drop_first() =~= texts.skip(i + 1));
                lemma_untraced_fold_snoc(st0, texts.take(i as int), t);
            }
            let tlen = tokens[i].0.as_str().unicode_len();
            let c0 = if tlen > 0 {
                tokens[i].0.as_str().get_char(0)
            } else {
                ' '
            };
            if tlen == 1 && (c0 == '(' || c0 == '[' || c0 == '{') {
                proof {
                    assert(t =~= seq![c0]);
                    lemma_push_at_opens(cur.root, depth as nat);
                }
                let child = Node::List(Vec::new());
                proof {
                    assert(node_view(child) =~~= NodeView::List(Seq::<NodeView>::empty()));
                }
                tree = tree.push_at_depth(depth, child);
                depth = depth + 1;
            } else if tlen == 1 && (c0 == ')' || c0 == ']' || c0 == '}') {
                proof {
                    assert(t =~= seq![c0]);
                    lemma_open_ok_shallower(cur.root, depth as nat, (depth - 1) as nat);
                }
                depth = depth - 1;
            } else {
                proof {
                    if tlen == 1 {
                        assert(t =~= seq![c0]);
                    }
                    assert(!tok_is_open(t) && !tok_is_close(t));
                    assert(valid_symbol_text(t));
                }
                match Symbol::try_from(tokens[i].clone()) {
                    Ok(sym) => {
                        proof {
                            lemma_push_at_keeps_open(cur.root, depth as nat, NodeView::Symbol(t));
                        }
                        tree = tree.push_at_depth(depth, Node::Symbol(sym));
                    },
                    Err(_) => {
                        unreached()
                    },
                }
            }
            i = i + 1;
        }
        proof {
            assert(texts.take(n as int) =~= texts);
        }
        self.tree = tree;
    }

    /// Hand the built tree back, consuming the parser.
    pub fn reset(self) -> (r: Node)
        ensures
            node_view(r) == node_view(self.tree),
    {
        self.tree
    }

    /// Hand the built tree back, consuming the parser.
    pub fn tree(self) -> (r: Node)
        ensures
            node_view(r) == node_view(self.tree),
    {
        self.tree
    }
}

} // verus!
