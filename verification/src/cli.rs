//! A plain command-line argument matcher: named flags with optional
//! short forms and parameters, positional arguments, and a help text,
//! with no I/O of its own.

use vstd::prelude::*;

use crate::error::{ErrView, Error, ErrorKind, Span};
use crate::parser::{PosView, push_char};

verus! {

/// The mathematical value of a `Parameter`.
#[verifier::ext_equal]
pub enum ParamView {
    No,
    Optional(Seq<char>),
    Required,
}

/// Whether an argument takes a parameter: none, an optional one with
/// a default, or a required one.
#[derive(Debug, Clone, Copy, PartialEq, Eq)]
pub enum Parameter {
    No,
    Optional(&'static str),
    Required,
}

impl View for Parameter {
    type V = ParamView;

    open spec fn view(&self) -> ParamView {
        match self {
            Parameter::No => ParamView::No,
            Parameter::Optional(d) => ParamView::Optional(d@),
            Parameter::Required => ParamView::Required,
        }
    }
}

/// The code the matcher keeps after consuming a flag: what it expects
/// of the next raw argument.
pub open spec fn param_code(p: ParamView) -> int {
    match p {
        ParamView::No => 0,
        ParamView::Optional(_) => 1,
        ParamView::Required => 2,
    }
}

impl From<Parameter> for u8 {
    fn from(value: Parameter) -> (r: Self) {
        match value {
            Parameter::No => 0u8,
            Parameter::Optional(_) => 1u8,
            Parameter::Required => 2u8,
        }
    }
}

impl vstd::std_specs::convert::FromSpecImpl<Parameter> for u8 {
    open spec fn obeys_from_spec() -> bool {
        true
    }

    open spec fn from_spec(value: Parameter) -> Self {
        param_code(value@) as u8
    }
}

/// The mathematical value of an `Arg`.
#[verifier::ext_equal]
pub struct ArgView {
    pub id: Seq<char>,
    pub short: char,
    pub optional: bool,
    pub interrupt: bool,
    pub parameterized: ParamView,
    pub prefix: char,
    pub description: Seq<char>,
    pub details: Seq<char>,
}

/// An argument a command accepts: a named flag when its id starts
/// with `--`, a positional argument otherwise.
#[derive(Debug, Clone, Copy)]
pub struct Arg {
    id: (&'static str, char),
    optional: bool,
    interrupt: bool,
    parameterized: Parameter,
    prefix: char,
    info: (&'static str, &'static str),
}

impl View for Arg {
    type V = ArgView;

    closed spec fn view(&self) -> ArgView {
        ArgView {
            id: self.id.0@,
            short: self.id.1,
            optional: self.optional,
            interrupt: self.interrupt,
            parameterized: self.parameterized@,
            prefix: self.prefix,
            description: self.info.0@,
            details: self.info.1@,
        }
    }
}

/// An id naming a flag: it starts with two dashes.
pub open spec fn flag_id(id: Seq<char>) -> bool {
    id.len() >= 2 && id[0] == '-' && id[1] == '-'
}

/// The invariant every constructed argument obeys: a flag has a
/// usable id of at least four characters.
pub open spec fn arg_wf(a: ArgView) -> bool {
    &&& a.prefix == '-' || a.prefix == '\u{0}'
    &&& a.prefix == '-' ==> (flag_id(a.id) && a.id.len() >= 4)
}

impl Arg {
    /// A fresh argument: a flag when the id starts with `--` (such an
    /// id must have at least four characters), a required positional
    /// argument otherwise.
    pub fn new(id: &'static str) -> (r: Self)
        requires
            flag_id(id@) ==> id@.len() >= 4,
        ensures
            r@.id == id@,
            r@.short == '\u{0}',
            r@.interrupt == false,
            r@.description.len() == 0,
            r@.details.len() == 0,
            flag_id(id@) ==> r@ == (ArgView {
                optional: true,
                prefix: '-',
                parameterized: ParamView::No,
                ..r@
            }),
            !flag_id(id@) ==> r@ == (ArgView {
                optional: false,
                prefix: '\u{0}',
                parameterized: ParamView::Required,
                ..r@
            }),
            arg_wf(r@),
    {
        let mut this = Self {
            id: (id, '\0'),
            optional: false,
            interrupt: false,
            parameterized: Parameter::No,
            prefix: '\0',
            info: ("", ""),
        };
        let n = id.unicode_len();
        let starts = n >= 2 && id.get_char(0) == '-' && id.get_char(1) == '-';
        if starts {
            this.prefix = '-';
            this.optional = true;
        } else {
            this.parameterized = Parameter::Required;
        }
        proof {
            reveal_strlit("");
        }
        this
    }

    /// Set how the argument takes a parameter.
    pub fn parameterize(self, parameterized: Parameter) -> (r: Self)
        ensures
            r@ == (ArgView { parameterized: parameterized@, ..self@ }),
    {
        let mut this = self;
        this.parameterized = parameterized;
        this
    }

    /// Give the flag a one-character short form.  Only a flag supports
    /// one.
    pub fn short_id(self, ch: char) -> (r: Self)
        requires
            self@.prefix != '\u{0}',
        ensures
            r@ == (ArgView { short: ch, ..self@ }),
    {
        let mut this = self;
        this.id.1 = ch;
        this
    }

    /// Set the one-line description shown in the help text.
    pub fn description(self, content: &'static str) -> (r: Self)
        ensures
            r@ == (ArgView { description: content@, ..self@ }),
    {
        let mut this = self;
        this.info.0 = content;
        this
    }

    /// Set the additional details shown in the help text.
    pub fn details(self, content: &'static str) -> (r: Self)
        ensures
            r@ == (ArgView { details: content@, ..self@ }),
    {
        let mut this = self;
        this.info.1 = content;
        this
    }

    /// Mark the argument as interrupting: once matched, the rest of
    /// the command line is not parsed.
    pub fn interrupt(self) -> (r: Self)
        ensures
            r@ == (ArgView { interrupt: true, ..self@ }),
    {
        let mut this = self;
        this.interrupt = true;
        this
    }

    /// The parameter value this argument yields given the raw
    /// argument that follows it, if any: nothing, the following
    /// argument or the default, or the required following argument.
    pub fn try_get_parameter(&self, parameter: Option<&String>) -> (r: String)
        requires
            !(self@.parameterized is Required && parameter is None),
        ensures
            r@ == param_value(self@.parameterized, match parameter {
                Some(p) => Some(p@),
                None => None,
            }),
    {
        match self.parameterized {
            Parameter::No => String::new(),
            Parameter::Optional(default) => match parameter {
                Some(p) => p.clone(),
                None => String::from_str(default),
            },
            Parameter::Required => match parameter {
                Some(p) => p.clone(),
                None => unreached(),
            },
        }
    }

    /// What the matcher expects of the next raw argument after this
    /// one.
    fn param_code_exec(&self) -> (r: u8)
        ensures
            r == param_code(self@.parameterized),
    {
        match self.parameterized {
            Parameter::No => 0u8,
            Parameter::Optional(_) => 1u8,
            Parameter::Required => 2u8,
        }
    }

    /// The key this flag's value is recorded under: its id without
    /// the two leading dashes.
    fn key_string(&self) -> (r: String)
        requires
            arg_wf(self@),
            self@.prefix == '-',
        ensures
            r@ == flag_key(self@),
    {
        let s: &str = self.id.0;
        let r = s.substring_char(2, s.unicode_len()).to_owned();
        proof {
            assert(r@ =~= flag_key(self@));
        }
        r
    }

    /// One argument's entry in the help text.
    pub fn help(&self) -> (r: String)
        ensures
            r@ == help_line(self@),
    {
        let mut s = String::from_str(self.id.0);
        if self.id.1 != '\0' {
            s.append(", -");
            push_char(&mut s, self.id.1);
        }
        s.append(" ");
        match self.parameterized {
            Parameter::Optional(default) => {
                s.append("[default: ");
                s.append(default);
                s.append("]");
            },
            _ => {},
        }
        s.append("\n      ");
        s.append(self.info.0);
        s.append(" ");
        if !self.info.1.is_empty() {
            s.append("\n      ");
            s.append(self.info.1);
        }
        proof {
            assert(s@ =~= help_line(self@));
        }
        s
    }
}

/// The value the matcher records for an argument's parameter.
pub open spec fn param_value(p: ParamView, next: Option<Seq<char>>) -> Seq<char> {
    match p {
        ParamView::No => Seq::empty(),
        ParamView::Optional(d) => match next {
            Some(v) => v,
            None => d,
        },
        ParamView::Required => match next {
            Some(v) => v,
            None => Seq::empty(),
        },
    }
}

/// One argument's entry in the help text: its id and short form, the
/// default if the parameter is optional, then its description and
/// details indented on fresh lines.
pub open spec fn help_line(a: ArgView) -> Seq<char> {
    a.id + (if a.short != '\u{0}' {
        ", -"@ + seq![a.short]
    } else {
        Seq::empty()
    }) + " "@ + (match a.parameterized {
        ParamView::Optional(d) => "[default: "@ + d + "]"@,
        _ => Seq::empty(),
    }) + "\n      "@ + a.description + " "@ + (if a.details.len() > 0 {
        "\n      "@ + a.details
    } else {
        Seq::empty()
    })
}

/// The texts of a sequence of raw arguments.
pub open spec fn strs_view(args: Seq<String>) -> Seq<Seq<char>> {
    Seq::new(args.len(), |i: int| args[i]@)
}

/// Look a raw argument up in the flag table; a later entry for the
/// same name shadows an earlier one.
pub open spec fn lookup_arg(table: Seq<(Seq<char>, ArgView)>, key: Seq<char>) -> Option<ArgView>
    decreases table,
{
    if table.len() == 0 {
        None
    } else if table.last().0 == key {
        Some(table.last().1)
    } else {
        lookup_arg(table.drop_last(), key)
    }
}

/// Record a result: replace the value under an already-present key,
/// or append a fresh (key, value) pair at the end.
pub open spec fn upsert(
    res: Seq<(Seq<char>, Seq<char>)>,
    key: Seq<char>,
    val: Seq<char>,
) -> Seq<(Seq<char>, Seq<char>)>
    decreases res,
{
    if res.len() == 0 {
        seq![(key, val)]
    } else if res[0].0 == key {
        res.update(0, (key, val))
    } else {
        seq![res[0]] + upsert(res.drop_first(), key, val)
    }
}

/// The key a flag's value is recorded under: its id without the two
/// leading dashes.
pub open spec fn flag_key(a: ArgView) -> Seq<char> {
    a.id.skip(2)
}

/// What the flag-matching phase yields: the finished results when an
/// interrupting flag was hit, or the collected positional parameters
/// and the results so far when the raw arguments ran out.
#[verifier::ext_equal]
pub enum MatchPhase {
    Interrupted(Seq<(Seq<char>, Seq<char>)>),
    Fell(Seq<Seq<char>>, Seq<(Seq<char>, Seq<char>)>),
}

/// The flag-matching phase, one raw argument at a time: a known flag
/// records its parameter (taken from the following raw argument where
/// one is called for) and may interrupt; an unknown argument is kept
/// as a positional parameter; after a parameterized flag, the
/// following raw argument ends the phase.
pub open spec fn match_flags(
    table: Seq<(Seq<char>, ArgView)>,
    args: Seq<Seq<char>>,
    i: int,
    expect: int,
    pos: Seq<Seq<char>>,
    res: Seq<(Seq<char>, Seq<char>)>,
) -> MatchPhase
    decreases args.len() - i,
{
    if i < 0 || i >= args.len() {
        MatchPhase::Fell(pos, res)
    } else if expect == 1 || expect == 2 {
        MatchPhase::Fell(pos, res)
    } else {
        match lookup_arg(table, args[i]) {
            Some(a) => {
                let next = if i + 1 < args.len() {
                    Some(args[i + 1])
                } else {
                    None
                };
                let res2 = upsert(res, flag_key(a), param_value(a.parameterized, next));
                if a.interrupt {
                    MatchPhase::Interrupted(res2)
                } else {
                    match_flags(table, args, i + 1, param_code(a.parameterized), pos, res2)
                }
            },
            None => match_flags(table, args, i + 1, expect, pos.push(args[i]), res),
        }
    }
}

/// What the flag-matching phase demands of its input: a flag with a
/// required parameter must not be the last raw argument, since the
/// parameter is taken from the argument that follows it.
pub open spec fn match_flags_ok(
    table: Seq<(Seq<char>, ArgView)>,
    args: Seq<Seq<char>>,
    i: int,
    expect: int,
) -> bool
    decreases args.len() - i,
{
    if i < 0 || i >= args.len() {
        true
    } else if expect == 1 || expect == 2 {
        true
    } else {
        match lookup_arg(table, args[i]) {
            Some(a) => {
                &&& (a.parameterized is Required ==> i + 1 < args.len())
                &&& (!a.interrupt ==> match_flags_ok(
                    table,
                    args,
                    i + 1,
                    param_code(a.parameterized),
                ))
            },
            None => match_flags_ok(table, args, i + 1, expect),
        }
    }
}

/// How many positional arguments are required.
pub open spec fn count_required(pos_args: Seq<ArgView>) -> int
    decreases pos_args,
{
    if pos_args.len() == 0 {
        0
    } else {
        count_required(pos_args.drop_last()) + (if pos_args.last().optional {
            0int
        } else {
            1int
        })
    }
}

/// The id named by the missing-argument diagnostic: the last required
/// positional argument's.
pub open spec fn last_required_id(pos_args: Seq<ArgView>) -> Seq<char>
    decreases pos_args,
{
    if pos_args.len() == 0 {
        Seq::empty()
    } else if pos_args.last().optional {
        last_required_id(pos_args.drop_last())
    } else {
        pos_args.last().id
    }
}

/// The positional phase: the collected parameters are handed to the
/// positional arguments in declaration order.
pub open spec fn assign_pos(
    res: Seq<(Seq<char>, Seq<char>)>,
    pos_args: Seq<ArgView>,
    params: Seq<Seq<char>>,
    j: int,
) -> Seq<(Seq<char>, Seq<char>)>
    decreases pos_args.len() - j,
{
    if j < 0 || j >= pos_args.len() {
        res
    } else if j < params.len() {
        assign_pos(upsert(res, pos_args[j].id, params[j]), pos_args, params, j + 1)
    } else {
        assign_pos(res, pos_args, params, j + 1)
    }
}

/// The message of the diagnostic raised when a required positional
/// argument is missing.
pub open spec fn missing_arg_message(id: Seq<char>) -> Seq<char> {
    "Error: Required argument '"@ + id + "' was not found."@
}

/// The diagnostic raised when a required positional argument is
/// missing.
pub open spec fn missing_arg_error(id: Seq<char>) -> ErrView {
    ErrView {
        kind: ErrorKind::CommandFailed,
        message: missing_arg_message(id),
        span: Span { start: 0, end: 0 },
        labels: Seq::empty(),
        anchor: PosView { ln: 0, col: 0, idx: 0 },
        anchor_label: Seq::empty(),
    }
}

/// The usage line's rendering of the positional arguments, in
/// declaration order: each id between angle brackets when required,
/// square brackets when optional.
pub open spec fn pos_args_text(pos: Seq<ArgView>) -> Seq<char>
    decreases pos,
{
    if pos.len() == 0 {
        Seq::empty()
    } else {
        pos_args_text(pos.drop_last()) + " "@ + (if pos.last().optional {
            "["@
        } else {
            "<"@
        }) + pos.last().id + (if pos.last().optional {
            "]"@
        } else {
            ">"@
        }) + " "@
    }
}

/// The help entries of the attached flags, in attachment order.
pub open spec fn arg_helps_text(table: Seq<(Seq<char>, ArgView)>, names: Seq<Seq<char>>) -> Seq<
    char,
>
    decreases names,
{
    if names.len() == 0 {
        Seq::empty()
    } else {
        arg_helps_text(table, names.drop_last()) + (match lookup_arg(table, names.last()) {
            Some(a) => "\n   "@ + help_line(a),
            None => Seq::empty(),
        })
    }
}

/// The mathematical value of a command's flag table.
pub open spec fn table_view(v: Seq<(String, Arg)>) -> Seq<(Seq<char>, ArgView)> {
    Seq::new(v.len(), |i: int| (v[i].0@, v[i].1@))
}

/// A successful lookup hands back an entry of the table.
proof fn lemma_lookup_in_table(table: Seq<(Seq<char>, ArgView)>, key: Seq<char>)
    ensures
        lookup_arg(table, key) matches Some(a) ==> exists|i: int|
            0 <= i < table.len() && (#[trigger] table[i]).1 == a,
    decreases table,
{
    if table.len() > 0 && table.last().0 != key {
        lemma_lookup_in_table(table.drop_last(), key);
        if lookup_arg(table, key) is Some {
            let a = lookup_arg(table, key)->Some_0;
            let i = choose|i: int| 0 <= i < table.drop_last().len() && (#[trigger] table.drop_last()[i]).1 == a;
            assert(table[i].1 == a);
        }
    }
}

/// The mathematical value of a result list.
pub open spec fn pairs_view(v: Seq<(String, String)>) -> Seq<(Seq<char>, Seq<char>)> {
    Seq::new(v.len(), |i: int| (v[i].0@, v[i].1@))
}

/// The mathematical value of a sequence of arguments.
pub open spec fn args_view(v: Seq<Arg>) -> Seq<ArgView> {
    Seq::new(v.len(), |i: int| v[i]@)
}

/// A command: the arguments it accepts, in a flag table keyed by full
/// id and short form, with the names in attachment order, and the
/// positional arguments in declaration order.
pub struct Command {
    exec_name: &'static str,
    help_content: &'static str,
    args: Vec<(String, Arg)>,
    added_arg_names: Vec<String>,
    pos_args: Vec<Arg>,
}

impl Command {
    /// The invariant the builder maintains: every flag in the table
    /// is well formed.
    pub closed spec fn wf(&self) -> bool {
        forall|i: int| 0 <= i < self.args@.len() ==> {
            &&& arg_wf((#[trigger] self.args@[i]).1@)
            &&& self.args@[i].1@.prefix == '-'
        }
    }

    pub closed spec fn table(&self) -> Seq<(Seq<char>, ArgView)> {
        table_view(self.args@)
    }

    pub closed spec fn positional(&self) -> Seq<ArgView> {
        args_view(self.pos_args@)
    }

    pub closed spec fn spec_exec_name(&self) -> Seq<char> {
        self.exec_name@
    }

    pub closed spec fn spec_help_content(&self) -> Seq<char> {
        self.help_content@
    }

    pub closed spec fn names(&self) -> Seq<Seq<char>> {
        strs_view(self.added_arg_names@)
    }

    pub fn new(exec_name: &'static str, help_content: &'static str) -> (r: Self)
        ensures
            r.spec_exec_name() == exec_name@,
            r.spec_help_content() == help_content@,
            r.table() == Seq::<(Seq<char>, ArgView)>::empty(),
            r.positional() == Seq::<ArgView>::empty(),
            r.names() == Seq::<Seq<char>>::empty(),
            r.wf(),
    {
        let r = Self {
            exec_name,
            help_content,
            args: Vec::new(),
            added_arg_names: Vec::new(),
            pos_args: Vec::new(),
        };
        proof {
            assert(r.table() =~= Seq::<(Seq<char>, ArgView)>::empty());
            assert(r.positional() =~= Seq::<ArgView>::empty());
            assert(r.names() =~= Seq::<Seq<char>>::empty());
        }
        r
    }

    /// Attach an argument: a flag is entered into the table under its
    /// id, and under its short form when it has one; a positional
    /// argument is appended to the declaration order.
    pub fn add_arg(&mut self, arg: Arg)
        requires
            old(self).wf(),
            arg_wf(arg@),
        ensures
            final(self).wf(),
            final(self).spec_exec_name() == old(self).spec_exec_name(),
            final(self).spec_help_content() == old(self).spec_help_content(),
            arg@.prefix != '\u{0}' ==> {
                &&& final(self).positional() == old(self).positional()
                &&& final(self).names() == old(self).names().push(arg@.id)
                &&& (arg@.short == '\u{0}' ==> final(self).table() == old(self).table().push(
                    (arg@.id, arg@),
                ))
                &&& (arg@.short != '\u{0}' ==> final(self).table() == old(self).table().push(
                    (arg@.id, arg@),
                ).push(("-"@ + seq![arg@.short], arg@)))
            },
            arg@.prefix == '\u{0}' ==> {
                &&& final(self).positional() == old(self).positional().push(arg@)
                &&& final(self).names() == old(self).names()
                &&& final(self).table() == old(self).table()
            },
    {
        if arg.prefix != '\0' {
            self.args.push((String::from_str(arg.id.0), arg));
            self.added_arg_names.push(String::from_str(arg.id.0));
            if arg.id.1 != '\0' {
                let mut short = String::from_str("-");
                push_char(&mut short, arg.id.1);
                proof {
                    assert(short@ =~= "-"@ + seq![arg@.short]);
                }
                self.args.push((short, arg));
            }
            proof {
                if arg@.short == '\u{0}' {
                    assert(self.table() =~~= old(self).table().push((arg@.id, arg@)));
                } else {
                    assert(self.table() =~~= old(self).table().push((arg@.id, arg@)).push(
                        ("-"@ + seq![arg@.short], arg@),
                    ));
                }
                assert(self.names() =~~= old(self).names().push(arg@.id));
                assert(self.positional() =~~= old(self).positional());
            }
        } else {
            self.pos_args.push(arg);
            proof {
                assert(self.positional() =~~= old(self).positional().push(arg@));
                assert(self.names() =~~= old(self).names());
                assert(self.table() =~~= old(self).table());
            }
        }
    }

    /// The whole help text: the usage line with the positional
    /// arguments, the command's summary, and one entry per attached
    /// flag in attachment order.
    pub fn help_text(&self) -> (r: String)
        ensures
            r@ == "Usage: "@ + self.spec_exec_name() + " [options]"@ + pos_args_text(
                self.positional(),
            ) + "\n      "@ + self.spec_help_content() + "\n\nOptions:"@ + arg_helps_text(
                self.table(),
                self.names(),
            ),
    {
        let mut s = String::from_str("Usage: ");
        s.append(self.exec_name);
        s.append(" [options]");
        let m = self.pos_args.len();
        let mut j: usize = 0;
        proof {
            assert(self.positional().take(0) =~= Seq::<ArgView>::empty());
            assert(s@ =~= "Usage: "@ + self.spec_exec_name() + " [options]"@ + pos_args_text(
                self.positional().take(0),
            ));
        }
        while j < m
            invariant
                0 <= j <= m,
                m == self.pos_args@.len(),
                s@ == "Usage: "@ + self.spec_exec_name() + " [options]"@ + pos_args_text(
                    self.positional().take(j as int),
                ),
            decreases m - j,
        {
            let arg = &self.pos_args[j];
            s.append(" ");
            if arg.optional {
                s.append("[");
            } else {
                s.append("<");
            }
            s.append(arg.id.0);
            if arg.optional {
                s.append("]");
            } else {
                s.append(">");
            }
            s.append(" ");
            proof {
                assert(self.positional().take(j + 1).drop_last() =~= self.positional().take(
                    j as int,
                ));
                assert(self.positional().take(j + 1).last() == self.positional()[j as int]);
                assert(s@ =~= "Usage: "@ + self.spec_exec_name() + " [options]"@ + pos_args_text(
                    self.positional().take(j + 1),
                ));
            }
            j = j + 1;
        }
        proof {
            assert(self.positional().take(m as int) =~= self.positional());
        }
        s.append("\n      ");
        s.append(self.help_content);
        s.append("\n\nOptions:");
        let ghost head = s@;
        let n = self.added_arg_names.len();
        let mut k: usize = 0;
        proof {
            assert(self.names().take(0) =~= Seq::<Seq<char>>::empty());
            assert(s@ =~= head + arg_helps_text(self.table(), self.names().take(0)));
        }
        while k < n
            invariant
                0 <= k <= n,
                n == self.added_arg_names@.len(),
                s@ == head + arg_helps_text(self.table(), self.names().take(k as int)),
            decreases n - k,
        {
            proof {
                assert(self.names().take(k + 1).drop_last() =~= self.names().take(k as int));
                assert(self.names().take(k + 1).last() == self.names()[k as int]);
            }
            match self.find_arg(&self.added_arg_names[k]) {
                Some(arg) => {
                    s.append("\n   ");
                    let line = arg.help();
                    s.append(line.as_str());
                    proof {
                        assert(s@ =~= head + arg_helps_text(
                            self.table(),
                            self.names().take(k + 1),
                        ));
                    }
                },
                None => {
                    proof {
                        assert(s@ =~= head + arg_helps_text(
                            self.table(),
                            self.names().take(k + 1),
                        ));
                    }
                },
            }
            k = k + 1;
        }
        proof {
            assert(self.names().take(n as int) =~= self.names());
        }
        s
    }

    fn find_arg(&self, val: &String) -> (r: Option<&Arg>)
        ensures
            match r {
                Some(a) => lookup_arg(self.table(), val@) == Some(a@),
                None => lookup_arg(self.table(), val@) is None,
            },
    {
        let n = self.args.len();
        let mut j: usize = n;
        proof {
            assert(self.table().take(n as int) =~= self.table());
        }
        while j > 0
            invariant
                0 <= j <= n,
                n == self.args@.len(),
                lookup_arg(self.table(), val@) == lookup_arg(self.table().take(j as int), val@),
            decreases j,
        {
            proof {
                assert(self.table().take(j as int).last() == (self.args@[j - 1].0@, self.args@[j
                    - 1].1@));
                assert(self.table().take(j as int).drop_last() =~= self.table().take(j - 1));
            }
            if self.args[j - 1].0 == *val {
                return Some(&self.args[j - 1].1);
            }
            j = j - 1;
        }
        proof {
            assert(self.table().take(0) =~= Seq::<(Seq<char>, ArgView)>::empty());
        }
        None
    }

    /// Match raw command-line arguments against this command: flags
    /// record their parameters, unknown arguments fill the positional
    /// ones in order, and a missing required positional argument is
    /// the one reported failure.  The result holds one (name, value)
    /// pair per matched argument, without the leading dashes.
    pub fn match_with(&self, args: Vec<String>) -> (r: Result<Vec<(String, String)>, Error>)
        requires
            self.wf(),
            match_flags_ok(self.table(), strs_view(args@), 0, 0),
            match_flags(
                self.table(),
                strs_view(args@),
                0,
                0,
                Seq::empty(),
                Seq::empty(),
            ) matches MatchPhase::Fell(pos, _) ==> pos.len() <= self.positional().len(),
        ensures
            match match_flags(
                self.table(),
                strs_view(args@),
                0,
                0,
                Seq::empty(),
                Seq::empty(),
            ) {
                MatchPhase::Interrupted(res) => r matches Ok(out) && pairs_view(out@) == res,
                MatchPhase::Fell(pos, res) => {
                    if pos.len() < count_required(self.positional()) {
                        r matches Err(e) && e@ == missing_arg_error(
                            last_required_id(self.positional()),
                        )
                    } else {
                        r matches Ok(out) && pairs_view(out@) == assign_pos(
                            res,
                            self.positional(),
                            pos,
                            0,
                        )
                    }
                },
            },
    {
        let ghost table = self.table();
        let ghost argsv = strs_view(args@);
        let mut expect_flag: u8 = 0;
        let mut pos_parameters: Vec<String> = Vec::new();
        let mut results: Vec<(String, String)> = Vec::new();
        let n = args.len();
        let mut i: usize = 0;
        proof {
            assert(strs_view(pos_parameters@) =~= Seq::<Seq<char>>::empty());
            assert(pairs_view(results@) =~= Seq::<(Seq<char>, Seq<char>)>::empty());
        }
        while i < n
            invariant_except_break
                match_flags(table, argsv, 0, 0, Seq::empty(), Seq::empty()) == match_flags(
                    table,
                    argsv,
                    i as int,
                    expect_flag as int,
                    strs_view(pos_parameters@),
                    pairs_view(results@),
                ),
                match_flags_ok(table, argsv, i as int, expect_flag as int),
            invariant
                0 <= i <= n,
                n == args@.len(),
                self.wf(),
                table == self.table(),
                argsv == strs_view(args@),
                expect_flag <= 2,
            ensures
                match_flags(table, argsv, 0, 0, Seq::empty(), Seq::empty()) == MatchPhase::Fell(
                    strs_view(pos_parameters@),
                    pairs_view(results@),
                ),
            decreases n - i,
        {
            let ghost posv0 = strs_view(pos_parameters@);
            let ghost resv0 = pairs_view(results@);
            if expect_flag == 1 || expect_flag == 2 {
                proof {
                    assert(match_flags(
                        table,
                        argsv,
                        i as int,
                        expect_flag as int,
                        posv0,
                        resv0,
                    ) == MatchPhase::Fell(posv0, resv0));
                }
                expect_flag = 0;
                break ;
            }
            match self.find_arg(&args[i]) {
                Some(arg) => {
                    let ghost a = arg@;
                    proof {
                        lemma_lookup_in_table(table, argsv[i as int]);
                        assert(arg_wf(a) && a.prefix == '-');
                    }
                    let next: Option<&String> = if i + 1 < n {
                        Some(&args[i + 1])
                    } else {
                        None
                    };
                    let key = arg.key_string();
                    let val = arg.try_get_parameter(next);
                    let interrupting = arg.interrupt;
                    let code = arg.param_code_exec();
                    upsert_exec(&mut results, key, val);
                    proof {
                        assert(pairs_view(results@) == upsert(
                            resv0,
                            flag_key(a),
                            param_value(
                                a.parameterized,
                                if i + 1 < argsv.len() {
                                    Some(argsv[i as int + 1])
                                } else {
                                    None
                                },
                            ),
                        ));
                    }
                    if interrupting {
                        proof {
                            assert(match_flags(
                                table,
                                argsv,
                                i as int,
                                expect_flag as int,
                                posv0,
                                resv0,
                            ) == MatchPhase::Interrupted(pairs_view(results@)));
                        }
                        return Ok(results);
                    }
                    expect_flag = code;
                },
                None => {
                    pos_parameters.push(args[i].clone());
                    proof {
                        assert(strs_view(pos_parameters@) =~= posv0.push(argsv[i as int]));
                    }
                },
            }
            i = i + 1;
        }
        let ghost fell_pos = strs_view(pos_parameters@);
        let ghost fell_res = pairs_view(results@);
        let pos_param_len = pos_parameters.len();
        let mut used_pos_arg: usize = 0;
        let mut required_pos_arg: usize = 0;
        let mut required_arg_id: &str = "";
        let m = self.pos_args.len();
        let mut j: usize = 0;
        while j < m
            invariant
                0 <= j <= m,
                m == self.pos_args@.len(),
                self.wf(),
                pos_param_len == pos_parameters@.len(),
                fell_pos.len() == pos_param_len,
                forall|k: int| used_pos_arg <= k < pos_param_len ==> #[trigger] strs_view(
                    pos_parameters@,
                )[k] == fell_pos[k],
                used_pos_arg == (if pos_param_len <= j {
                    pos_param_len as int
                } else {
                    j as int
                }),
                required_pos_arg <= j,
                required_pos_arg == count_required(self.positional().take(j as int)),
                required_arg_id@ == (if count_required(self.positional().take(j as int)) > 0 {
                    last_required_id(self.positional().take(j as int))
                } else {
                    ""@
                }),
                assign_pos(fell_res, self.positional(), fell_pos, 0) == assign_pos(
                    pairs_view(results@),
                    self.positional(),
                    fell_pos,
                    j as int,
                ),
            decreases m - j,
        {
            let arg = &self.pos_args[j];
            proof {
                assert(self.positional().take(j + 1).drop_last() =~= self.positional().take(
                    j as int,
                ));
                assert(self.positional().take(j + 1).last() == self.positional()[j as int]);
            }
            if !arg.optional {
                required_pos_arg = required_pos_arg + 1;
                required_arg_id = arg.id.0;
            }
            if used_pos_arg >= pos_param_len {
                proof {
                    assert(assign_pos(
                        pairs_view(results@),
                        self.positional(),
                        fell_pos,
                        j as int,
                    ) == assign_pos(pairs_view(results@), self.positional(), fell_pos, j + 1));
                }
                j = j + 1;
                continue ;
            }
            let ghost resv0 = pairs_view(results@);
            let ghost posv_before = strs_view(pos_parameters@);
            let taken = take_string(&mut pos_parameters, used_pos_arg);
            proof {
                assert(taken@ == posv_before[j as int]);
                assert(taken@ == fell_pos[j as int]);
                assert forall|k: int| used_pos_arg + 1 <= k < pos_param_len implies #[trigger]
                    strs_view(pos_parameters@)[k] == fell_pos[k] by {
                    assert(strs_view(pos_parameters@)[k] == posv_before[k]);
                }
            }
            upsert_exec(&mut results, String::from_str(arg.id.0), taken);
            proof {
                assert(self.positional()[j as int].id == arg@.id);
                assert(pairs_view(results@) == upsert(
                    resv0,
                    self.positional()[j as int].id,
                    fell_pos[j as int],
                ));
            }
            used_pos_arg = used_pos_arg + 1;
            j = j + 1;
        }
        proof {
            assert(self.positional().take(m as int) =~= self.positional());
        }
        if used_pos_arg < required_pos_arg {
            let mut msg = String::from_str("Error: Required argument '");
            msg.append(required_arg_id);
            msg.append("' was not found.");
            let e = Error::new(ErrorKind::CommandFailed).with_message(msg);
            proof {
                assert(count_required(self.positional()) > 0);
                assert(e@ =~~= missing_arg_error(last_required_id(self.positional())));
            }
            return Err(e);
        }
        Ok(results)
    }
}

/// Replace the entry under `key`, or append one at the end.
fn upsert_exec(res: &mut Vec<(String, String)>, key: String, val: String)
    ensures
        pairs_view(final(res)@) == upsert(pairs_view(old(res)@), key@, val@),
{
    let n = res.len();
    let mut j: usize = 0;
    proof {
        assert(pairs_view(res@).skip(0) =~= pairs_view(res@));
        assert(pairs_view(res@).take(0) + upsert(pairs_view(res@).skip(0), key@, val@)
            =~= upsert(pairs_view(res@), key@, val@));
    }
    while j < n
        invariant
            0 <= j <= n,
            n == res@.len(),
            res@ == old(res)@,
            upsert(pairs_view(res@), key@, val@) == pairs_view(res@).take(j as int) + upsert(
                pairs_view(res@).skip(j as int),
                key@,
                val@,
            ),
        decreases n - j,
    {
        let ghost pv = pairs_view(res@);
        proof {
            assert(pv.skip(j as int)[0] == pv[j as int]);
            assert(pv.skip(j as int).drop_first() =~= pv.skip(j + 1));
        }
        if res[j].0 == key {
            res.set(j, (key, val));
            proof {
                assert(upsert(pv.skip(j as int), key@, val@) == pv.skip(j as int).update(
                    0,
                    (key@, val@),
                ));
                assert(pairs_view(res@) =~= pv.take(j as int) + upsert(
                    pv.skip(j as int),
                    key@,
                    val@,
                ));
            }
            return ;
        }
        proof {
            assert(upsert(pv.skip(j as int), key@, val@) == seq![pv[j as int]] + upsert(
                pv.skip(j + 1),
                key@,
                val@,
            ));
            assert(pv.take(j as int) + (seq![pv[j as int]] + upsert(pv.skip(j + 1), key@, val@))
                =~= pv.take(j + 1) + upsert(pv.skip(j + 1), key@, val@));
        }
        j = j + 1;
    }
    proof {
        assert(pairs_view(res@).skip(n as int) =~= Seq::<(Seq<char>, Seq<char>)>::empty());
        assert(pairs_view(res@).take(n as int) =~= pairs_view(res@));
    }
    res.push((key, val));
    proof {
        assert(pairs_view(res@) =~= pairs_view(old(res)@) + upsert(
            Seq::<(Seq<char>, Seq<char>)>::empty(),
            key@,
            val@,
        ));
    }
}

/// Move the string at `at` out of the vector, leaving an empty one
/// in its place.
fn take_string(v: &mut Vec<String>, at: usize) -> (r: String)
    requires
        at < old(v)@.len(),
    ensures
        r@ == old(v)@[at as int]@,
        final(v)@.len() == old(v)@.len(),
        strs_view(final(v)@) == strs_view(old(v)@).update(at as int, Seq::<char>::empty()),
{
    let mut tmp = String::new();
    v.set_and_swap(at, &mut tmp);
    proof {
        assert(strs_view(v@) =~= strs_view(old(v)@).update(at as int, Seq::<char>::empty()));
    }
    tmp
}

} // verus!
