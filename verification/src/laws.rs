//! The laws the parsing pipeline obeys, stated over the mathematical
//! models and proved once and for all: delimiter balance, the kind of
//! every diagnostic, and the round trip between parsing and
//! rendering.

use vstd::prelude::*;

use crate::error::ErrorKind;
use crate::parser::{
    LexState, ParseState, TokView, is_quote, is_separator, lemma_lex_chars_append,
    lemma_parse_fold_append, lemma_push_at_keeps_open, lemma_push_at_opens, lex_char, lex_chars,
    lex_flush, lex_init, lex_text, matching_open, mode_normal, parse_fold, parse_step, parse_text,
    tok_is_close, tok_is_open,
};
use crate::syntax::{
    NodeView, open_ok, render_forms, render_node, spec_push_at, valid_symbol_char,
    valid_symbol_text,
};

verus! {

/// How many opening delimiter tokens a token sequence holds.
pub open spec fn count_open(toks: Seq<TokView>) -> int
    decreases toks,
{
    if toks.len() == 0 {
        0
    } else {
        (if tok_is_open(toks[0].text) {
            1int
        } else {
            0int
        }) + count_open(toks.drop_first())
    }
}

/// How many closing delimiter tokens a token sequence holds.
pub open spec fn count_close(toks: Seq<TokView>) -> int
    decreases toks,
{
    if toks.len() == 0 {
        0
    } else {
        (if tok_is_close(toks[0].text) {
            1int
        } else {
            0int
        }) + count_close(toks.drop_first())
    }
}

proof fn lemma_fold_balance(src_id: Seq<char>, st: ParseState, toks: Seq<TokView>)
    ensures
        parse_fold(src_id, st, toks) matches Ok(st2) ==> count_open(toks) - count_close(toks)
            == st2.stack.len() - st.stack.len(),
    decreases toks,
{
    if toks.len() > 0 {
        match parse_step(src_id, st, toks[0]) {
            Ok(st2) => {
                lemma_fold_balance(src_id, st2, toks.drop_first());
            },
            Err(_) => {},
        }
    }
}

proof fn lemma_fold_err_kind(src_id: Seq<char>, st: ParseState, toks: Seq<TokView>)
    ensures
        parse_fold(src_id, st, toks) matches Err(e) ==> e.kind == ErrorKind::InvalidSyntax,
    decreases toks,
{
    if toks.len() > 0 {
        match parse_step(src_id, st, toks[0]) {
            Ok(st2) => {
                lemma_fold_err_kind(src_id, st2, toks.drop_first());
            },
            Err(_) => {},
        }
    }
}

/// Law: a parse succeeds only when the scanner saw as many opening
/// delimiter tokens as closing ones (success leaves the nesting depth
/// at zero); and every failure, structural or lexical, carries the
/// kind `InvalidSyntax`.  The converse of the first part does not
/// hold: a closer may precede its opener, as in `)(`, with equal
/// counts and a failing parse.
pub proof fn theorem_delimiter_balance(src_id: Seq<char>, root0: NodeView, text: Seq<char>)
    ensures
        parse_text(src_id, root0, text) matches Ok(_) ==> count_open(lex_text(text))
            == count_close(lex_text(text)),
        parse_text(src_id, root0, text) matches Err(e) ==> e.kind == ErrorKind::InvalidSyntax,
{
    let st0 = ParseState { stack: Seq::empty(), root: root0 };
    let toks = lex_text(text);
    lemma_fold_balance(src_id, st0, toks);
    lemma_fold_err_kind(src_id, st0, toks);
}

/// A character that survives the scanner untouched inside a word: no
/// delimiter, no whitespace, no vertical tab, no quote, no separator.
pub open spec fn plain_char(c: char) -> bool {
    valid_symbol_char(c) && !is_quote(c) && !is_separator(c)
}

/// A word of plain characters.
pub open spec fn plain_text(s: Seq<char>) -> bool {
    forall|i: int| 0 <= i < s.len() ==> plain_char(s[i])
}

/// A symbol whose rendering scans back to exactly itself: a non-empty
/// plain word, or a lone separator character.
pub open spec fn renderable_symbol(s: Seq<char>) -> bool {
    s.len() > 0 && (plain_text(s) || (s.len() == 1 && is_separator(s[0])))
}

/// A tree whose rendering parses back to exactly itself: lists of
/// such trees and renderable symbols; literal leaves and symbols with
/// embedded quote characters are excluded, since the scanner treats a
/// quote as the start of a literal span.
pub open spec fn renderable(v: NodeView) -> bool
    decreases v,
{
    match v {
        NodeView::List(cs) => renderable_seq(cs),
        NodeView::Symbol(s) => renderable_symbol(s),
        NodeView::Literal(_) => false,
    }
}

/// Every tree of the sequence is renderable.
pub open spec fn renderable_seq(cs: Seq<NodeView>) -> bool
    decreases cs,
{
    cs.len() == 0 || (renderable(cs[0]) && renderable_seq(cs.drop_first()))
}

/// The texts of a scanned token sequence.
pub open spec fn toks_texts(toks: Seq<TokView>) -> Seq<Seq<char>> {
    Seq::new(toks.len(), |i: int| toks[i].text)
}

/// The token texts a node contributes to the scanner's output when
/// its rendering is scanned.
pub open spec fn node_tokens(v: NodeView) -> Seq<Seq<char>>
    decreases v,
{
    match v {
        NodeView::List(cs) => seq![seq!['(']] + forms_tokens(cs) + seq![seq![')']],
        NodeView::Symbol(s) => seq![s],
        NodeView::Literal(_) => Seq::empty(),
    }
}

/// The token texts a sequence of sibling forms contributes.
pub open spec fn forms_tokens(cs: Seq<NodeView>) -> Seq<Seq<char>>
    decreases cs,
{
    if cs.len() == 0 {
        Seq::empty()
    } else {
        node_tokens(cs[0]) + forms_tokens(cs.drop_first())
    }
}

proof fn lemma_lex_single(st: LexState, c: char)
    ensures
        lex_chars(st, seq![c]) == lex_char(st, c),
{
    reveal_with_fuel(lex_chars, 3);
    assert(seq![c][0] == c);
    assert(seq![c].drop_first() =~= Seq::<char>::empty());
}

proof fn lemma_parse_single(src_id: Seq<char>, st: ParseState, t: TokView)
    ensures
        parse_fold(src_id, st, seq![t]) == parse_step(src_id, st, t),
{
    reveal_with_fuel(parse_fold, 3);
    assert(seq![t][0] == t);
    assert(seq![t].drop_first() =~= Seq::<TokView>::empty());
}

/// Scanning a plain word from normal mode only grows the buffer.
proof fn lemma_lex_word(st: LexState, s: Seq<char>)
    requires
        st.mode == mode_normal(),
        plain_text(s),
    ensures
        lex_chars(st, s).mode == mode_normal(),
        lex_chars(st, s).buf == st.buf + s,
        lex_chars(st, s).toks == st.toks,
    decreases s,
{
    if s.len() == 0 {
        assert(st.buf + s =~= st.buf);
    } else {
        let st1 = lex_char(st, s[0]);
        assert(st1.buf =~= st.buf.push(s[0]));
        lemma_lex_word(st1, s.drop_first());
        assert(st.buf.push(s[0]) + s.drop_first() =~= st.buf + s);
    }
}

/// Scanning the rendering of a renderable node from normal mode with
/// an empty buffer: after a final flush, exactly the node's tokens
/// have been appended.
proof fn lemma_lex_render_node(st: LexState, v: NodeView)
    requires
        st.mode == mode_normal(),
        st.buf.len() == 0,
        renderable(v),
    ensures
        lex_chars(st, render_node(v)).mode == mode_normal(),
        toks_texts(lex_flush(lex_chars(st, render_node(v))).toks) == toks_texts(st.toks)
            + node_tokens(v),
    decreases v,
{
    match v {
        NodeView::Symbol(s) => {
            if plain_text(s) {
                lemma_lex_word(st, s);
                let st2 = lex_chars(st, s);
                assert(st2.buf =~= s);
                assert(toks_texts(lex_flush(st2).toks) =~= toks_texts(st.toks) + node_tokens(v));
            } else {
                let c = s[0];
                assert(s =~= seq![c]);
                lemma_lex_single(st, c);
                let st2 = lex_char(st, c);
                assert(st2.buf.len() == 0);
                assert(toks_texts(lex_flush(st2).toks) =~= toks_texts(st.toks) + node_tokens(v));
            }
        },
        NodeView::List(cs) => {
            let a = seq!['('];
            let b = render_forms(cs);
            let c = seq![')'];
            assert(render_node(v) == a + b + c);
            lemma_lex_chars_append(st, a + b, c);
            lemma_lex_chars_append(st, a, b);
            lemma_lex_single(st, '(');
            let st1 = lex_char(st, '(');
            assert(st1.mode == mode_normal() && st1.buf.len() == 0);
            lemma_lex_render_forms(st1, cs);
            let st2 = lex_chars(st1, b);
            lemma_lex_single(st2, ')');
            let st3 = lex_char(st2, ')');
            assert(st3.toks == lex_flush(st2).toks.push(
                TokView { pos: lex_flush(st2).pos, text: seq![')'] },
            ));
            assert(st3.buf.len() == 0);
            assert(lex_chars(st, render_node(v)) == st3);
            assert(toks_texts(st1.toks) =~= toks_texts(st.toks) + seq![seq!['(']]);
            assert(toks_texts(lex_flush(st3).toks) =~= toks_texts(lex_flush(st2).toks) + seq![
                seq![')'],
            ]);
            assert(toks_texts(lex_flush(st3).toks) =~= toks_texts(st.toks) + node_tokens(v));
        },
        NodeView::Literal(_) => {
            assert(false);
        },
    }
}

/// Scanning the rendering of renderable sibling forms from normal
/// mode with an empty buffer: after a final flush, exactly their
/// tokens have been appended.
proof fn lemma_lex_render_forms(st: LexState, cs: Seq<NodeView>)
    requires
        st.mode == mode_normal(),
        st.buf.len() == 0,
        renderable_seq(cs),
    ensures
        lex_chars(st, render_forms(cs)).mode == mode_normal(),
        toks_texts(lex_flush(lex_chars(st, render_forms(cs))).toks) == toks_texts(st.toks)
            + forms_tokens(cs),
    decreases cs,
{
    if cs.len() == 0 {
        assert(lex_chars(st, render_forms(cs)) == st);
        assert(toks_texts(lex_flush(st).toks) =~= toks_texts(st.toks) + forms_tokens(cs));
    } else if cs.len() == 1 {
        lemma_lex_render_node(st, cs[0]);
        assert(cs.drop_first() =~= Seq::<NodeView>::empty());
        assert(forms_tokens(cs.drop_first()) == Seq::<Seq<char>>::empty());
        assert(forms_tokens(cs) =~= node_tokens(cs[0]) + forms_tokens(cs.drop_first()));
        assert(forms_tokens(cs) =~= node_tokens(cs[0]));
    } else {
        let a = render_node(cs[0]);
        let b = seq![' '];
        let rest = render_forms(cs.drop_first());
        assert(render_forms(cs) == a + b + rest);
        lemma_lex_chars_append(st, a + b, rest);
        lemma_lex_chars_append(st, a, b);
        lemma_lex_render_node(st, cs[0]);
        let st1 = lex_chars(st, a);
        lemma_lex_single(st1, ' ');
        let st1f = lex_char(st1, ' ');
        assert(st1f.toks == lex_flush(st1).toks);
        assert(st1f.buf.len() == 0 && st1f.mode == mode_normal());
        lemma_lex_render_forms(st1f, cs.drop_first());
        let st2 = lex_chars(st1f, rest);
        assert(toks_texts(lex_flush(st2).toks) =~= toks_texts(st.toks) + forms_tokens(cs));
    }
}

/// Each form of a sequence inserted in turn at a fixed cursor depth.
pub open spec fn push_all(root: NodeView, d: nat, cs: Seq<NodeView>) -> NodeView
    decreases cs,
{
    if cs.len() == 0 {
        root
    } else {
        push_all(spec_push_at(root, d, cs[0]), d, cs.drop_first())
    }
}

/// Inserting into a freshly planted list one level down is the same
/// as planting the list with the element already inside.
proof fn lemma_push_at_nested(root: NodeView, d: nat, acc: Seq<NodeView>, x: NodeView)
    requires
        open_ok(root, d),
    ensures
        spec_push_at(spec_push_at(root, d, NodeView::List(acc)), (d + 1) as nat, x)
            == spec_push_at(root, d, NodeView::List(acc.push(x))),
    decreases d,
{
    reveal_with_fuel(spec_push_at, 4);
    let cs = root->List_0;
    let m = cs.len() as int - 1;
    if d == 0 {
        assert(cs.push(NodeView::List(acc)).last() == NodeView::List(acc));
        assert(cs.push(NodeView::List(acc)).update(cs.len() as int, NodeView::List(acc.push(x)))
            =~= cs.push(NodeView::List(acc.push(x))));
        assert(spec_push_at(spec_push_at(root, d, NodeView::List(acc)), (d + 1) as nat, x)
            =~~= spec_push_at(root, d, NodeView::List(acc.push(x))));
    } else {
        lemma_push_at_nested(cs.last(), (d - 1) as nat, acc, x);
        let inner1 = spec_push_at(cs.last(), (d - 1) as nat, NodeView::List(acc));
        assert(cs.update(m, inner1).last() == inner1);
        assert(cs.update(m, inner1).update(m, spec_push_at(inner1, d, x)) =~= cs.update(
            m,
            spec_push_at(inner1, d, x),
        ));
        assert(spec_push_at(spec_push_at(root, d, NodeView::List(acc)), (d + 1) as nat, x)
            =~~= spec_push_at(root, d, NodeView::List(acc.push(x))));
    }
}

/// Filling a freshly planted list one level down, element by element,
/// is the same as planting the filled list.
proof fn lemma_push_all_nested(root: NodeView, d: nat, acc: Seq<NodeView>, cs: Seq<NodeView>)
    requires
        open_ok(root, d),
    ensures
        push_all(spec_push_at(root, d, NodeView::List(acc)), (d + 1) as nat, cs) == spec_push_at(
            root,
            d,
            NodeView::List(acc + cs),
        ),
    decreases cs,
{
    if cs.len() == 0 {
        assert(acc + cs =~= acc);
    } else {
        lemma_push_at_nested(root, d, acc, cs[0]);
        lemma_push_all_nested(root, d, acc.push(cs[0]), cs.drop_first());
        assert(acc.push(cs[0]) + cs.drop_first() =~= acc + cs);
    }
}

/// At the root, inserting form after form appends them in order.
proof fn lemma_push_all_root(acc: Seq<NodeView>, cs: Seq<NodeView>)
    ensures
        push_all(NodeView::List(acc), 0, cs) == NodeView::List(acc + cs),
    decreases cs,
{
    if cs.len() == 0 {
        assert(acc + cs =~= acc);
    } else {
        assert(spec_push_at(NodeView::List(acc), 0, cs[0]) == NodeView::List(acc.push(cs[0])));
        lemma_push_all_root(acc.push(cs[0]), cs.drop_first());
        assert(acc.push(cs[0]) + cs.drop_first() =~= acc + cs);
    }
}

/// Consuming the tokens of one renderable node inserts exactly that
/// node at the cursor and leaves the stack as it was.
proof fn lemma_parse_node(src_id: Seq<char>, st: ParseState, v: NodeView, toks: Seq<TokView>)
    requires
        renderable(v),
        open_ok(st.root, st.stack.len()),
        toks_texts(toks) == node_tokens(v),
    ensures
        parse_fold(src_id, st, toks) == Ok::<ParseState, crate::error::ErrView>(ParseState {
            stack: st.stack,
            root: spec_push_at(st.root, st.stack.len(), v),
        }),
    decreases v,
{
    let d = st.stack.len();
    match v {
        NodeView::Symbol(s) => {
            assert(node_tokens(v) =~= seq![s]);
            assert(toks_texts(toks).len() == toks.len());
            assert(toks.len() == 1);
            assert(toks_texts(toks)[0] == toks[0].text);
            assert(toks[0].text == s);
            assert(toks =~= seq![toks[0]]);
            lemma_parse_single(src_id, st, toks[0]);
            assert(!tok_is_open(s) && !tok_is_close(s));
            assert(s.len() > 0 && !is_quote(s[0]));
            assert(valid_symbol_text(s));
        },
        NodeView::List(cs) => {
            let k = toks.len() as int;
            assert(toks_texts(toks).len() == toks.len());
            assert(node_tokens(v).len() == forms_tokens(cs).len() + 2);
            assert(k == forms_tokens(cs).len() + 2);
            let t0 = toks[0];
            let tl = toks[k - 1];
            let mid = toks.subrange(1, k - 1);
            assert(t0.text == node_tokens(v)[0]);
            assert(t0.text =~= seq!['(']);
            assert(tl.text == node_tokens(v)[k - 1]);
            assert(tl.text =~= seq![')']);
            assert forall|j: int| 0 <= j < forms_tokens(cs).len() implies toks_texts(mid)[j]
                == forms_tokens(cs)[j] by {
                assert(toks_texts(mid)[j] == toks[j + 1].text);
                assert(toks_texts(toks)[j + 1] == toks[j + 1].text);
                assert(node_tokens(v)[j + 1] == forms_tokens(cs)[j]);
            }
            assert(toks_texts(mid) =~= forms_tokens(cs));
            assert(toks =~= seq![t0] + (mid + seq![tl]));
            lemma_parse_fold_append(src_id, st, seq![t0], mid + seq![tl]);
            lemma_parse_single(src_id, st, t0);
            assert(tok_is_open(t0.text));
            let st1 = ParseState {
                stack: st.stack.push(t0),
                root: spec_push_at(st.root, d, NodeView::List(Seq::empty())),
            };
            assert(parse_step(src_id, st, t0) == Ok::<ParseState, crate::error::ErrView>(st1));
            lemma_push_at_opens(st.root, d);
            lemma_parse_fold_append(src_id, st1, mid, seq![tl]);
            lemma_parse_forms(src_id, st1, cs, mid);
            let st2 = ParseState {
                stack: st1.stack,
                root: push_all(st1.root, st1.stack.len(), cs),
            };
            lemma_parse_single(src_id, st2, tl);
            assert(tok_is_close(tl.text));
            assert(st2.stack.len() > 0);
            assert(st2.stack.last() == t0);
            assert(st2.stack.last().text == seq![matching_open(tl.text[0])]);
            let st3 = ParseState { stack: st2.stack.drop_last(), root: st2.root };
            assert(parse_step(src_id, st2, tl) == Ok::<ParseState, crate::error::ErrView>(st3));
            assert(st2.stack.drop_last() =~= st.stack);
            lemma_push_all_nested(st.root, d, Seq::empty(), cs);
            assert(Seq::<NodeView>::empty() + cs =~= cs);
            assert(st3 =~~= (ParseState { stack: st.stack, root: spec_push_at(st.root, d, v) }));
        },
        NodeView::Literal(_) => {
            assert(false);
        },
    }
}

/// Consuming the tokens of renderable sibling forms inserts them in
/// order at the cursor and leaves the stack as it was.
proof fn lemma_parse_forms(src_id: Seq<char>, st: ParseState, cs: Seq<NodeView>, toks: Seq<TokView>)
    requires
        renderable_seq(cs),
        open_ok(st.root, st.stack.len()),
        toks_texts(toks) == forms_tokens(cs),
    ensures
        parse_fold(src_id, st, toks) == Ok::<ParseState, crate::error::ErrView>(ParseState {
            stack: st.stack,
            root: push_all(st.root, st.stack.len(), cs),
        }),
    decreases cs,
{
    let d = st.stack.len();
    if cs.len() == 0 {
        assert(toks.len() == 0);
        assert(parse_fold(src_id, st, toks) == Ok::<ParseState, crate::error::ErrView>(st));
        assert(st =~~= (ParseState { stack: st.stack, root: push_all(st.root, d, cs) }));
    } else {
        let k = node_tokens(cs[0]).len() as int;
        assert(toks_texts(toks).len() == toks.len());
        assert(forms_tokens(cs).len() == k + forms_tokens(cs.drop_first()).len());
        assert(toks.len() == k + forms_tokens(cs.drop_first()).len());
        let front = toks.take(k);
        let rest = toks.skip(k);
        assert forall|j: int| 0 <= j < k implies toks_texts(front)[j] == node_tokens(cs[0])[j] by {
            assert(toks_texts(front)[j] == toks[j].text);
            assert(toks_texts(toks)[j] == toks[j].text);
            assert(forms_tokens(cs)[j] == node_tokens(cs[0])[j]);
        }
        assert(toks_texts(front) =~= node_tokens(cs[0]));
        assert forall|j: int| 0 <= j < forms_tokens(cs.drop_first()).len() implies
            toks_texts(rest)[j] == forms_tokens(cs.drop_first())[j] by {
            assert(toks_texts(rest)[j] == toks[j + k].text);
            assert(toks_texts(toks)[j + k] == toks[j + k].text);
            assert(forms_tokens(cs)[j + k] == forms_tokens(cs.drop_first())[j]);
        }
        assert(toks_texts(rest) =~= forms_tokens(cs.drop_first()));
        assert(toks =~= front + rest);
        lemma_parse_fold_append(src_id, st, front, rest);
        lemma_parse_node(src_id, st, cs[0], front);
        let st1 = ParseState { stack: st.stack, root: spec_push_at(st.root, d, cs[0]) };
        lemma_push_at_keeps_open(st.root, d, cs[0]);
        lemma_parse_forms(src_id, st1, cs.drop_first(), rest);
    }
}

/// A text with no quote characters: no literal span can start in it.
pub open spec fn no_quotes(s: Seq<char>) -> bool {
    forall|i: int| 0 <= i < s.len() ==> !is_quote(s[i])
}

/// The shape of every token the scanner emits for a quote-free text:
/// a single delimiter, a single separator, or a non-empty plain word.
pub open spec fn shaped_tok(t: Seq<char>) -> bool {
    ||| tok_is_open(t)
    ||| tok_is_close(t)
    ||| (t.len() == 1 && is_separator(t[0]))
    ||| (t.len() > 0 && plain_text(t))
}

pub open spec fn shaped_toks(toks: Seq<TokView>) -> bool {
    forall|i: int| 0 <= i < toks.len() ==> shaped_tok((#[trigger] toks[i]).text)
}

/// A token text with its delimiter normalized: rendering uses only
/// round parentheses.
pub open spec fn norm_tok(t: Seq<char>) -> Seq<char> {
    if tok_is_open(t) {
        seq!['(']
    } else if tok_is_close(t) {
        seq![')']
    } else {
        t
    }
}

pub open spec fn norm_texts(toks: Seq<TokView>) -> Seq<Seq<char>> {
    Seq::new(toks.len(), |i: int| norm_tok(toks[i].text))
}

spec fn lex_shape_inv(st: LexState) -> bool {
    &&& st.mode == mode_normal()
    &&& plain_text(st.buf)
    &&& shaped_toks(st.toks)
}

proof fn lemma_lex_char_shape(st: LexState, c: char)
    requires
        lex_shape_inv(st),
        !is_quote(c),
    ensures
        lex_shape_inv(lex_char(st, c)),
{
    let st2 = lex_char(st, c);
    assert forall|i: int| 0 <= i < st2.toks.len() implies shaped_tok((#[trigger] st2.toks[i]).text) by {
        if i < st.toks.len() {
            assert(shaped_tok(st.toks[i].text));
        }
    }
    if !(c == '(' || c == '[' || c == '{' || c == ')' || c == ']' || c == '}' || c == ','
        || c == ';' || c == ' ' || c == '\t' || c == '\n' || c == '\r' || c == '\u{C}'
        || c == '\u{B}') {
        assert(plain_char(c));
        assert(plain_text(st.buf.push(c)));
    }
}

proof fn lemma_lex_chars_shape(st: LexState, s: Seq<char>)
    requires
        lex_shape_inv(st),
        no_quotes(s),
    ensures
        lex_shape_inv(lex_chars(st, s)),
    decreases s,
{
    if s.len() > 0 {
        lemma_lex_char_shape(st, s[0]);
        assert(no_quotes(s.drop_first()));
        lemma_lex_chars_shape(lex_char(st, s[0]), s.drop_first());
    }
}

/// Scanning a quote-free text yields only delimiter, separator and
/// plain-word tokens.
proof fn lemma_lex_text_shape(text: Seq<char>)
    requires
        no_quotes(text),
    ensures
        shaped_toks(lex_text(text)),
{
    lemma_lex_chars_shape(lex_init(), text);
    let st = lex_chars(lex_init(), text);
    assert forall|i: int| 0 <= i < lex_flush(st).toks.len() implies shaped_tok(
        (#[trigger] lex_flush(st).toks[i]).text,
    ) by {
        if i < st.toks.len() {
            assert(shaped_tok(st.toks[i].text));
        }
    }
}

/// Appending a sibling appends its tokens.
proof fn lemma_forms_tokens_snoc(cs: Seq<NodeView>, x: NodeView)
    ensures
        forms_tokens(cs.push(x)) == forms_tokens(cs) + node_tokens(x),
    decreases cs,
{
    if cs.len() == 0 {
        reveal_with_fuel(forms_tokens, 3);
        assert(cs.push(x)[0] == x);
        assert(cs.push(x).drop_first() =~= Seq::<NodeView>::empty());
        assert(forms_tokens(cs.push(x)) =~= forms_tokens(cs) + node_tokens(x));
    } else {
        assert(cs.push(x)[0] == cs[0]);
        assert(cs.push(x).drop_first() =~= cs.drop_first().push(x));
        lemma_forms_tokens_snoc(cs.drop_first(), x);
        assert(forms_tokens(cs.push(x)) =~= forms_tokens(cs) + node_tokens(x));
    }
}

/// Appending a renderable sibling keeps the sequence renderable.
proof fn lemma_renderable_seq_snoc(cs: Seq<NodeView>, x: NodeView)
    requires
        renderable_seq(cs),
        renderable(x),
    ensures
        renderable_seq(cs.push(x)),
    decreases cs,
{
    if cs.len() == 0 {
        reveal_with_fuel(renderable_seq, 3);
        assert(cs.push(x)[0] == x);
        assert(cs.push(x).drop_first() =~= Seq::<NodeView>::empty());
    } else {
        assert(cs.push(x)[0] == cs[0]);
        assert(cs.push(x).drop_first() =~= cs.drop_first().push(x));
        lemma_renderable_seq_snoc(cs.drop_first(), x);
    }
}

/// The token texts of a partially built tree: every completed form
/// contributes its tokens, and each list still open on the cursor
/// path contributes only its opening parenthesis so far.
pub open spec fn open_forms_tokens(cs: Seq<NodeView>, d: nat) -> Seq<Seq<char>>
    decreases d,
{
    if d == 0 {
        forms_tokens(cs)
    } else {
        forms_tokens(cs.drop_last()) + seq![seq!['(']] + open_forms_tokens(
            cs.last()->List_0,
            (d - 1) as nat,
        )
    }
}

/// Renderability of a partially built tree: every completed form is
/// renderable, down the open cursor path.
pub open spec fn open_renderable(cs: Seq<NodeView>, d: nat) -> bool
    decreases d,
{
    if d == 0 {
        renderable_seq(cs)
    } else {
        &&& renderable_seq(cs.drop_last())
        &&& cs.len() > 0
        &&& cs.last() is List
        &&& open_renderable(cs.last()->List_0, (d - 1) as nat)
    }
}

/// Opening a new list appends an opening parenthesis to the partial
/// token text.
proof fn lemma_open_step(cs: Seq<NodeView>, d: nat)
    requires
        open_ok(NodeView::List(cs), d),
    ensures
        ({
            let r = spec_push_at(NodeView::List(cs), d, NodeView::List(Seq::empty()));
            &&& r is List
            &&& open_forms_tokens(r->List_0, (d + 1) as nat) == open_forms_tokens(cs, d) + seq![
                seq!['('],
            ]
            &&& open_renderable(cs, d) ==> open_renderable(r->List_0, (d + 1) as nat)
        }),
    decreases d,
{
    let r = spec_push_at(NodeView::List(cs), d, NodeView::List(Seq::empty()));
    if d == 0 {
        let cs2 = cs.push(NodeView::List(Seq::empty()));
        assert(r->List_0 == cs2);
        assert(cs2.drop_last() =~= cs);
        assert(cs2.last()->List_0 =~= Seq::<NodeView>::empty());
        assert(open_forms_tokens(cs2.last()->List_0, 0) == forms_tokens(
            cs2.last()->List_0,
        ));
        assert(open_forms_tokens(cs2, 1) =~= open_forms_tokens(cs, 0) + seq![seq!['(']]);
        if open_renderable(cs, 0) {
            assert(renderable_seq(Seq::<NodeView>::empty()));
            assert(open_renderable(cs2.last()->List_0, 0));
            assert(open_renderable(cs2, 1));
        }
    } else {
        let m = cs.len() as int - 1;
        let inner = cs.last()->List_0;
        assert(open_ok(cs.last(), (d - 1) as nat));
        assert(cs.last() is List);
        assert(cs.last() == NodeView::List(inner));
        lemma_open_step(inner, (d - 1) as nat);
        let inner_r = spec_push_at(cs.last(), (d - 1) as nat, NodeView::List(Seq::empty()));
        let cs2 = cs.update(m, inner_r);
        assert(r->List_0 == cs2);
        assert(cs2.drop_last() =~= cs.drop_last());
        assert(cs2.last() == inner_r);
        assert(inner_r is List);
        assert(open_forms_tokens(inner_r->List_0, d) == open_forms_tokens(inner, (d - 1) as nat)
            + seq![seq!['(']]);
        assert(open_forms_tokens(cs2, (d + 1) as nat) =~= open_forms_tokens(cs, d) + seq![
            seq!['('],
        ]);
        if open_renderable(cs, d) {
            assert(open_renderable(inner, (d - 1) as nat));
            assert(open_renderable(inner_r->List_0, d));
            assert(open_renderable(cs2, (d + 1) as nat));
        }
    }
}

/// Inserting a symbol at the cursor appends its text to the partial
/// token text.
proof fn lemma_symbol_step(cs: Seq<NodeView>, d: nat, t: Seq<char>)
    requires
        open_ok(NodeView::List(cs), d),
    ensures
        ({
            let r = spec_push_at(NodeView::List(cs), d, NodeView::Symbol(t));
            &&& r is List
            &&& open_forms_tokens(r->List_0, d) == open_forms_tokens(cs, d) + seq![t]
            &&& (open_renderable(cs, d) && renderable_symbol(t)) ==> open_renderable(r->List_0, d)
        }),
    decreases d,
{
    let r = spec_push_at(NodeView::List(cs), d, NodeView::Symbol(t));
    if d == 0 {
        let cs2 = cs.push(NodeView::Symbol(t));
        assert(r->List_0 == cs2);
        lemma_forms_tokens_snoc(cs, NodeView::Symbol(t));
        assert(open_forms_tokens(cs2, 0) =~= open_forms_tokens(cs, 0) + seq![t]);
        if open_renderable(cs, 0) && renderable_symbol(t) {
            lemma_renderable_seq_snoc(cs, NodeView::Symbol(t));
        }
    } else {
        let m = cs.len() as int - 1;
        let inner = cs.last()->List_0;
        assert(open_ok(cs.last(), (d - 1) as nat));
        assert(cs.last() is List);
        assert(cs.last() == NodeView::List(inner));
        lemma_symbol_step(inner, (d - 1) as nat, t);
        let inner_r = spec_push_at(cs.last(), (d - 1) as nat, NodeView::Symbol(t));
        let cs2 = cs.update(m, inner_r);
        assert(r->List_0 == cs2);
        assert(cs2.drop_last() =~= cs.drop_last());
        assert(cs2.last() == inner_r);
        assert(inner_r is List);
        assert(open_forms_tokens(inner_r->List_0, (d - 1) as nat) == open_forms_tokens(
            inner,
            (d - 1) as nat,
        ) + seq![t]);
        assert(open_forms_tokens(cs2, d) =~= open_forms_tokens(cs, d) + seq![t]);
        if open_renderable(cs, d) && renderable_symbol(t) {
            assert(open_renderable(inner, (d - 1) as nat));
            assert(open_renderable(inner_r->List_0, (d - 1) as nat));
            assert(open_renderable(cs2, d));
        }
    }
}

/// Closing the innermost open list appends its closing parenthesis to
/// the partial token text.
proof fn lemma_close_step(cs: Seq<NodeView>, d: nat)
    requires
        open_ok(NodeView::List(cs), d),
        d >= 1,
        open_renderable(cs, d),
    ensures
        open_forms_tokens(cs, (d - 1) as nat) == open_forms_tokens(cs, d) + seq![seq![')']],
        open_renderable(cs, (d - 1) as nat),
    decreases d,
{
    let m = cs.len() as int - 1;
    let inner = cs.last()->List_0;
    assert(cs.last() == NodeView::List(inner));
    if d == 1 {
        assert(cs =~= cs.drop_last().push(cs.last()));
        lemma_forms_tokens_snoc(cs.drop_last(), cs.last());
        assert(node_tokens(cs.last()) == seq![seq!['(']] + forms_tokens(inner) + seq![seq![')']]);
        assert(open_forms_tokens(inner, 0) == forms_tokens(inner));
        assert(open_forms_tokens(cs, 0) =~= open_forms_tokens(cs, 1) + seq![seq![')']]);
        assert(open_renderable(inner, 0));
        assert(renderable_seq(inner));
        assert(renderable(cs.last()));
        lemma_renderable_seq_snoc(cs.drop_last(), cs.last());
        assert(renderable_seq(cs.drop_last().push(cs.last())));
    } else {
        lemma_close_step(inner, (d - 1) as nat);
        assert(open_forms_tokens(cs, (d - 1) as nat) =~= open_forms_tokens(cs, d) + seq![
            seq![')'],
        ]);
        assert(open_renderable(cs, (d - 1) as nat));
    }
}

/// The fold invariant behind the normalization law: a successful
/// parse of shaped tokens appends exactly their normalized texts to
/// the partial token text of the tree, and keeps it renderable.
proof fn lemma_parse_shape(src_id: Seq<char>, st: ParseState, toks: Seq<TokView>)
    requires
        shaped_toks(toks),
        st.root is List,
        open_ok(st.root, st.stack.len()),
        open_renderable(st.root->List_0, st.stack.len()),
    ensures
        parse_fold(src_id, st, toks) matches Ok(st2) ==> {
            &&& st2.root is List
            &&& open_ok(st2.root, st2.stack.len())
            &&& open_renderable(st2.root->List_0, st2.stack.len())
            &&& open_forms_tokens(st2.root->List_0, st2.stack.len()) == open_forms_tokens(
                st.root->List_0,
                st.stack.len(),
            ) + norm_texts(toks)
        },
    decreases toks,
{
    let d = st.stack.len();
    let cs = st.root->List_0;
    if toks.len() == 0 {
        assert(norm_texts(toks) =~= Seq::<Seq<char>>::empty());
        assert(open_forms_tokens(cs, d) =~= open_forms_tokens(cs, d) + norm_texts(toks));
    } else {
        let t = toks[0];
        assert(shaped_tok(t.text));
        match parse_step(src_id, st, t) {
            Ok(st2) => {
                assert(shaped_toks(toks.drop_first()));
                if tok_is_open(t.text) {
                    lemma_open_step(cs, d);
                    lemma_push_at_opens(st.root, d);
                } else if tok_is_close(t.text) {
                    lemma_close_step(cs, d);
                    crate::parser::lemma_open_ok_shallower(st.root, d, (d - 1) as nat);
                } else {
                    assert(t.text.len() > 0 && !is_quote(t.text[0]));
                    assert(valid_symbol_text(t.text));
                    assert(renderable_symbol(t.text));
                    lemma_symbol_step(cs, d, t.text);
                    lemma_push_at_keeps_open(st.root, d, NodeView::Symbol(t.text));
                }
                lemma_parse_shape(src_id, st2, toks.drop_first());
                match parse_fold(src_id, st2, toks.drop_first()) {
                    Ok(st3) => {
                        assert(norm_texts(toks.drop_first()) =~= norm_texts(toks).drop_first());
                        assert(norm_texts(toks) =~= seq![norm_tok(t.text)] + norm_texts(
                            toks.drop_first(),
                        ));
                        assert(open_forms_tokens(st3.root->List_0, st3.stack.len())
                            =~= open_forms_tokens(cs, d) + norm_texts(toks));
                    },
                    Err(_) => {},
                }
            },
            Err(_) => {},
        }
    }
}

/// Law: rendering a successful parse of a quote-free text is a pure
/// normalization of that text: scanned back, it yields exactly the
/// original token stream, with every delimiter normalized to a round
/// parenthesis and the spacing between tokens canonical.
pub proof fn theorem_render_normalizes(src_id: Seq<char>, text: Seq<char>, cs: Seq<NodeView>)
    requires
        no_quotes(text),
        parse_text(src_id, NodeView::List(Seq::empty()), text) == Ok::<
            NodeView,
            crate::error::ErrView,
        >(NodeView::List(cs)),
    ensures
        renderable_seq(cs),
        toks_texts(lex_text(render_forms(cs))) == norm_texts(lex_text(text)),
{
    let toks = lex_text(text);
    lemma_lex_text_shape(text);
    let root0 = NodeView::List(Seq::<NodeView>::empty());
    let st0 = ParseState { stack: Seq::empty(), root: root0 };
    assert(open_ok(root0, 0));
    assert(root0->List_0 =~= Seq::<NodeView>::empty());
    assert(open_renderable(root0->List_0, 0));
    lemma_parse_shape(src_id, st0, toks);
    match parse_fold(src_id, st0, toks) {
        Ok(st2) => {
            assert(st2.stack.len() == 0);
            assert(st2.root == NodeView::List(cs));
            assert(forms_tokens(cs) =~= norm_texts(toks));
            lemma_lex_render_forms(lex_init(), cs);
            assert(toks_texts(lex_text(render_forms(cs))) =~= forms_tokens(cs));
        },
        Err(_) => {
            assert(false);
        },
    }
}

/// Law: parsing the rendered output of a successful parse yields a
/// structurally equal tree.  Stated for any renderable sequence of
/// top-level forms, which covers every tree a parse can produce whose
/// symbols hold no quote character and which holds no literal leaf;
/// rendering such a tree and parsing the result gives the tree back
/// exactly.
pub proof fn theorem_parse_render_round_trip(src_id: Seq<char>, cs: Seq<NodeView>)
    requires
        renderable_seq(cs),
    ensures
        parse_text(src_id, NodeView::List(Seq::empty()), render_forms(cs)) == Ok::<
            NodeView,
            crate::error::ErrView,
        >(NodeView::List(cs)),
{
    let st_lex = lex_init();
    lemma_lex_render_forms(st_lex, cs);
    let toks = lex_text(render_forms(cs));
    assert(toks_texts(toks) =~= forms_tokens(cs));
    let root0 = NodeView::List(Seq::<NodeView>::empty());
    let st0 = ParseState { stack: Seq::empty(), root: root0 };
    assert(open_ok(root0, 0));
    lemma_parse_forms(src_id, st0, cs, toks);
    lemma_push_all_root(Seq::empty(), cs);
    assert(Seq::<NodeView>::empty() + cs =~= cs);
}

} // verus!
