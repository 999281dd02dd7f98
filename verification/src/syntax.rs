//! The tree node model and the validated symbol type.  A node is
//! either an ordered list of nodes, a validated bare-identifier leaf,
//! or a quoted-literal leaf; trees are built by appending at a cursor
//! that always sits at the end of the chain of last children.

use vstd::prelude::*;

use crate::error::{ErrView, Error, ErrorKind, Span};
use crate::parser::{PosView, Token};

verus! {

/// A character that may appear in a bare identifier: anything but the
/// six delimiters, the vertical tab, and ASCII whitespace.
pub open spec fn valid_symbol_char(c: char) -> bool {
    &&& c != '(' && c != ')' && c != '[' && c != ']' && c != '{' && c != '}'
    &&& c != '\u{B}'
    &&& c != ' ' && c != '\t' && c != '\n' && c != '\r' && c != '\u{C}'
}

/// A text whose every character may appear in a bare identifier.
pub open spec fn valid_symbol_text(s: Seq<char>) -> bool {
    forall|i: int| 0 <= i < s.len() ==> valid_symbol_char(s[i])
}

/// The message of the diagnostic raised when a token fails symbol
/// validation.
pub open spec fn symbol_error_message(t: Seq<char>) -> Seq<char> {
    "Unsupported literal appeared in symbol '"@ + t + "'."@
}

/// The diagnostic raised when a token fails symbol validation.
pub open spec fn symbol_error(t: Seq<char>) -> ErrView {
    ErrView {
        kind: ErrorKind::InvalidSyntax,
        message: symbol_error_message(t),
        span: Span { start: 0, end: 0 },
        labels: Seq::empty(),
        anchor: PosView { ln: 0, col: 0, idx: 0 },
        anchor_label: Seq::empty(),
    }
}

/// A validated bare identifier: its text holds no delimiter, no
/// vertical tab and no whitespace.
#[derive(Debug, PartialEq, Eq, PartialOrd, Ord, Hash)]
pub struct Symbol(String);

impl Clone for Symbol {
    fn clone(&self) -> (r: Self)
        ensures
            r@ == self@,
    {
        Symbol(self.0.clone())
    }
}

impl View for Symbol {
    type V = Seq<char>;

    closed spec fn view(&self) -> Seq<char> {
        self.0@
    }
}

impl Symbol {
    /// Wrap an already-trusted text as a symbol.  This constructor
    /// performs no validation and must not be fed untrusted input; for
    /// parsing, use `Symbol::try_from` instead.
    pub fn new(value: &str) -> (r: Self)
        ensures
            r@ == value@,
    {
        Self(value.to_owned())
    }

    /// Wrap an already-trusted owned text as a symbol, without
    /// validation.
    pub fn from_string(value: String) -> (r: Self)
        ensures
            r@ == value@,
    {
        Self(value)
    }

    /// Decide whether a token's text may stand as a bare identifier.
    pub fn validate_token(token: &Token) -> (r: bool)
        ensures
            r == valid_symbol_text(token@),
    {
        let t: &str = token.text().as_str();
        let n = t.unicode_len();
        let mut i: usize = 0;
        while i < n
            invariant
                n == t@.len(),
                t@ == token@,
                0 <= i <= n,
                forall|j: int| 0 <= j < i ==> valid_symbol_char(t@[j]),
            decreases n - i,
        {
            let c = t.get_char(i);
            if c == '(' || c == ')' || c == '[' || c == ']' || c == '{' || c == '}'
                || c == '\u{B}' || c == ' ' || c == '\t' || c == '\n' || c == '\r'
                || c == '\u{C}' {
                return false;
            }
            i = i + 1;
        }
        true
    }

    /// Convert a symbol token safely: the token's text is validated,
    /// and a failure carries an `InvalidSyntax` diagnostic naming the
    /// offending text.
    pub fn try_from(token: Token) -> (r: Result<Self, Error>)
        ensures
            valid_symbol_text(token@) ==> (r matches Ok(sym) && sym@ == token@),
            !valid_symbol_text(token@) ==> (r matches Err(e) && e@ == symbol_error(token@)),
    {
        if Symbol::validate_token(&token) {
            Ok(Self(token.into_text()))
        } else {
            let mut msg = String::from_str("Unsupported literal appeared in symbol '");
            msg.append(token.text().as_str());
            msg.append("'.");
            let e = Error::new(ErrorKind::InvalidSyntax).with_message(msg);
            proof {
                assert(e@ =~~= symbol_error(token@));
            }
            Err(e)
        }
    }

    /// The symbol's text.
    pub fn to_text(&self) -> (r: String)
        ensures
            r@ == self@,
    {
        self.0.clone()
    }
}

impl From<&str> for Symbol {
    fn from(value: &str) -> (r: Self) {
        Self(value.to_owned())
    }
}

impl vstd::std_specs::convert::FromSpecImpl<&str> for Symbol {
    open spec fn obeys_from_spec() -> bool {
        false
    }

    open spec fn from_spec(value: &str) -> Self {
        arbitrary()
    }
}

impl From<String> for Symbol {
    fn from(value: String) -> (r: Self) {
        Self(value)
    }
}

impl vstd::std_specs::convert::FromSpecImpl<String> for Symbol {
    open spec fn obeys_from_spec() -> bool {
        false
    }

    open spec fn from_spec(value: String) -> Self {
        arbitrary()
    }
}

/// The mathematical value of a `Node`: the same tree over sequences.
#[verifier::ext_equal]
pub enum NodeView {
    List(Seq<NodeView>),
    Symbol(Seq<char>),
    Literal(Seq<char>),
}

/// A tree element: an ordered list of nodes, a validated symbol leaf,
/// or a quoted-literal leaf (the structural extension point for string
/// values; its content is stored with the quotes stripped).
#[derive(Debug, PartialEq, Eq)]
pub enum Node {
    List(Vec<Node>),
    Symbol(Symbol),
    Literal(String),
}

/// The mathematical value of a sequence of nodes.
pub open spec fn nodes_view(s: Seq<Node>) -> Seq<NodeView>
    decreases s,
{
    if s.len() == 0 {
        Seq::empty()
    } else {
        nodes_view(s.drop_last()).push(node_view(s.last()))
    }
}

/// The mathematical value of a node.
pub open spec fn node_view(n: Node) -> NodeView
    decreases n,
{
    match n {
        Node::List(cs) => NodeView::List(nodes_view(cs@)),
        Node::Symbol(sym) => NodeView::Symbol(sym@),
        Node::Literal(t) => NodeView::Literal(t@),
    }
}

pub broadcast proof fn lemma_nodes_view_len(s: Seq<Node>)
    ensures
        #[trigger] nodes_view(s).len() == s.len(),
    decreases s,
{
    if s.len() > 0 {
        lemma_nodes_view_len(s.drop_last());
    }
}

pub broadcast proof fn lemma_nodes_view_index(s: Seq<Node>, i: int)
    requires
        0 <= i < s.len(),
    ensures
        #[trigger] nodes_view(s)[i] == node_view(s[i]),
    decreases s,
{
    lemma_nodes_view_len(s);
    if s.len() > 0 {
        if i < s.len() - 1 {
            lemma_nodes_view_len(s.drop_last());
            lemma_nodes_view_index(s.drop_last(), i);
        }
    }
}

pub broadcast proof fn lemma_nodes_view_push(s: Seq<Node>, n: Node)
    ensures
        #[trigger] nodes_view(s.push(n)) == nodes_view(s).push(node_view(n)),
{
    assert(s.push(n).drop_last() =~= s);
    assert(s.push(n).last() == n);
}

/// The node is a list, and its chain of last children is open (made of
/// lists) for at least `depth` levels: the well-formedness under which
/// the parser's insertion cursor at that depth is meaningful.
pub open spec fn open_ok(v: NodeView, depth: nat) -> bool
    decreases depth,
{
    &&& v is List
    &&& depth > 0 ==> {
        let cs = v->List_0;
        cs.len() > 0 && open_ok(cs.last(), (depth - 1) as nat)
    }
}

/// Append `child` to the list reached by walking the last child
/// `depth` times from `v`: the parser's cursor insertion.
pub open spec fn spec_push_at(v: NodeView, depth: nat, child: NodeView) -> NodeView
    decreases depth,
{
    match v {
        NodeView::List(cs) => if depth == 0 {
            NodeView::List(cs.push(child))
        } else {
            NodeView::List(
                cs.update(cs.len() - 1, spec_push_at(cs.last(), (depth - 1) as nat, child)),
            )
        },
        _ => v,
    }
}

impl Node {
    /// Append a node to this list's children, preserving insertion
    /// order.
    pub fn push(&mut self, node: Node)
        requires
            (*old(self)) is List,
        ensures
            node_view(*final(self)) == spec_push_at(node_view(*old(self)), 0, node_view(node)),
    {
        let mut tmp = Node::List(Vec::new());
        core::mem::swap(self, &mut tmp);
        match tmp {
            Node::List(mut cs) => {
                let ghost old_cs = cs@;
                cs.push(node);
                proof {
                    lemma_nodes_view_push(old_cs, node);
                }
                *self = Node::List(cs);
            },
            _ => {
                unreached()
            },
        }
    }

    /// Append `child` at the cursor `depth` levels down the chain of
    /// last children, handing the rebuilt tree back.
    pub fn push_at_depth(self, depth: usize, child: Node) -> (r: Node)
        requires
            open_ok(node_view(self), depth as nat),
        ensures
            node_view(r) == spec_push_at(node_view(self), depth as nat, node_view(child)),
        decreases depth,
    {
        match self {
            Node::List(mut cs) => {
                let ghost old_cs = cs@;
                if depth == 0 {
                    cs.push(child);
                    proof {
                        lemma_nodes_view_push(old_cs, child);
                    }
                    Node::List(cs)
                } else {
                    proof {
                        lemma_nodes_view_len(old_cs);
                        lemma_nodes_view_index(old_cs, old_cs.len() - 1);
                    }
                    let last = cs.pop().unwrap();
                    let nl = last.push_at_depth(depth - 1, child);
                    cs.push(nl);
                    proof {
                        lemma_nodes_view_push(old_cs.drop_last(), nl);
                        let inner = spec_push_at(
                            node_view(last),
                            (depth - 1) as nat,
                            node_view(child),
                        );
                        assert(old_cs.update(old_cs.len() - 1, nl).drop_last() =~= old_cs.drop_last());
                        assert(nodes_view(old_cs).update(nodes_view(old_cs).len() - 1, inner)
                            =~= nodes_view(old_cs.drop_last()).push(inner)) by {
                            lemma_nodes_view_len(old_cs.drop_last());
                            assert forall|i: int| 0 <= i < old_cs.len() - 1 implies
                                nodes_view(old_cs)[i] == nodes_view(old_cs.drop_last())[i] by {
                                lemma_nodes_view_index(old_cs, i);
                                lemma_nodes_view_index(old_cs.drop_last(), i);
                            }
                        }
                    }
                    Node::List(cs)
                }
            },
            _ => {
                unreached()
            },
        }
    }
}

/// The text a node renders to: a symbol is its text, a literal is
/// re-quoted, and a list is its children joined by single spaces
/// between one pair of parentheses, with no space inside the
/// parentheses.
pub open spec fn render_node(v: NodeView) -> Seq<char>
    decreases v,
{
    match v {
        NodeView::List(cs) => seq!['('] + render_forms(cs) + seq![')'],
        NodeView::Symbol(s) => s,
        NodeView::Literal(t) => seq!['"'] + t + seq!['"'],
    }
}

/// A sequence of sibling forms rendered with a single space between
/// neighbours and nothing around them.
pub open spec fn render_forms(cs: Seq<NodeView>) -> Seq<char>
    decreases cs,
{
    if cs.len() == 0 {
        Seq::empty()
    } else if cs.len() == 1 {
        render_node(cs[0])
    } else {
        render_node(cs[0]) + seq![' '] + render_forms(cs.drop_first())
    }
}

/// Appending a sibling appends its rendering, after a separating
/// space when it is not the first.
pub proof fn lemma_render_forms_push(cs: Seq<NodeView>, x: NodeView)
    ensures
        cs.len() == 0 ==> render_forms(cs.push(x)) == render_node(x),
        cs.len() > 0 ==> render_forms(cs.push(x)) == render_forms(cs) + seq![' ']
            + render_node(x),
    decreases cs,
{
    if cs.len() == 0 {
        assert(cs.push(x)[0] == x);
    } else {
        assert(cs.push(x)[0] == cs[0]);
        assert(cs.push(x).drop_first() =~= cs.drop_first().push(x));
        lemma_render_forms_push(cs.drop_first(), x);
        if cs.len() == 1 {
            assert(cs.drop_first() =~= Seq::<NodeView>::empty());
            assert(render_forms(cs.push(x)) == render_node(cs[0]) + seq![' '] + render_node(x));
        } else {
            assert(render_forms(cs) + seq![' '] + render_node(x) =~= render_node(cs[0])
                + seq![' '] + (render_forms(cs.drop_first()) + seq![' '] + render_node(x)));
        }
    }
}

impl Node {
    /// Render this node as source text: the round-trippable textual
    /// form of the tree.
    pub fn render(&self) -> (r: String)
        ensures
            r@ == render_node(node_view(*self)),
        decreases *self,
    {
        match self {
            Node::Symbol(sym) => sym.to_text(),
            Node::Literal(t) => {
                let mut s = String::from_str("\"");
                s.append(t.as_str());
                s.append("\"");
                proof {
                    reveal_strlit("\"");
                    assert("\""@ =~= seq!['"']);
                }
                s
            },
            Node::List(cs) => {
                let mut s = String::from_str("(");
                let n = cs.len();
                let mut i: usize = 0;
                proof {
                    reveal_strlit("(");
                    reveal_strlit(")");
                    reveal_strlit(" ");
                    assert("("@ =~= seq!['(']);
                    assert(")"@ =~= seq![')']);
                    assert(" "@ =~= seq![' ']);
                    lemma_nodes_view_len(cs@);
                    assert(nodes_view(cs@).take(0) =~= Seq::<NodeView>::empty());
                }
                while i < n
                    invariant
                        0 <= i <= n,
                        n == cs.len(),
                        nodes_view(cs@).len() == n,
                        *self == Node::List(*cs),
                        node_view(*self) == NodeView::List(nodes_view(cs@)),
                        s@ == seq!['('] + render_forms(nodes_view(cs@).take(i as int)),
                    decreases n - i,
                {
                    if i > 0 {
                        s.append(" ");
                        proof {
                            reveal_strlit(" ");
                            assert(" "@ =~= seq![' ']);
                        }
                    }
                    proof {
                        assert(decreases_to!(*self => *cs));
                        assert(decreases_to!(*cs => (*cs)@[i as int]));
                    }
                    let piece = cs[i].render();
                    s.append(piece.as_str());
                    proof {
                        lemma_nodes_view_index(cs@, i as int);
                        lemma_render_forms_push(nodes_view(cs@).take(i as int), nodes_view(cs@)[i as int]);
                        assert(nodes_view(cs@).take(i + 1) =~= nodes_view(cs@).take(i as int).push(
                            nodes_view(cs@)[i as int],
                        ));
                        assert(s@ =~= seq!['('] + render_forms(nodes_view(cs@).take(i + 1)));
                    }
                    i = i + 1;
                }
                s.append(")");
                proof {
                    reveal_strlit(")");
                    assert(")"@ =~= seq![')']);
                    assert(nodes_view(cs@).take(n as int) =~= nodes_view(cs@));
                    assert(s@ =~= render_node(node_view(*self)));
                }
                s
            },
        }
    }

    /// Render a root list's top-level forms joined by single spaces,
    /// with no enclosing parentheses: the textual form of a whole
    /// parse unit.
    pub fn render_toplevel(&self) -> (r: String)
        requires
            node_view(*self) is List,
        ensures
            r@ == render_forms(node_view(*self)->List_0),
    {
        match self {
            Node::List(cs) => {
                let mut s = String::new();
                let n = cs.len();
                let mut i: usize = 0;
                proof {
                    lemma_nodes_view_len(cs@);
                    assert(nodes_view(cs@).take(0) =~= Seq::<NodeView>::empty());
                    assert(s@ =~= render_forms(nodes_view(cs@).take(0)));
                }
                while i < n
                    invariant
                        0 <= i <= n,
                        n == cs.len(),
                        nodes_view(cs@).len() == n,
                        *self == Node::List(*cs),
                        node_view(*self) == NodeView::List(nodes_view(cs@)),
                        s@ == render_forms(nodes_view(cs@).take(i as int)),
                    decreases n - i,
                {
                    if i > 0 {
                        s.append(" ");
                        proof {
                            reveal_strlit(" ");
                            assert(" "@ =~= seq![' ']);
                        }
                    }
                    proof {
                        assert(decreases_to!(*self => *cs));
                        assert(decreases_to!(*cs => (*cs)@[i as int]));
                    }
                    let piece = cs[i].render();
                    s.append(piece.as_str());
                    proof {
                        lemma_nodes_view_index(cs@, i as int);
                        lemma_render_forms_push(nodes_view(cs@).take(i as int), nodes_view(cs@)[i as int]);
                        assert(nodes_view(cs@).take(i + 1) =~= nodes_view(cs@).take(i as int).push(
                            nodes_view(cs@)[i as int],
                        ));
                        assert(s@ =~= render_forms(nodes_view(cs@).take(i + 1)));
                    }
                    i = i + 1;
                }
                proof {
                    assert(nodes_view(cs@).take(n as int) =~= nodes_view(cs@));
                }
                s
            },
            _ => {
                unreached()
            },
        }
    }
}

impl From<&str> for Node {
    fn from(value: &str) -> (r: Self) {
        Self::Symbol(Symbol::new(value))
    }
}

impl vstd::std_specs::convert::FromSpecImpl<&str> for Node {
    open spec fn obeys_from_spec() -> bool {
        false
    }

    open spec fn from_spec(value: &str) -> Self {
        arbitrary()
    }
}

} // verus!
