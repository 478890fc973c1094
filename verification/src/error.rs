//! Diagnostics reported on a machine definition.

use vstd::prelude::*;
use crate::tokens::Delimiter;

verus! {

/// What the grammar would have accepted where parsing stopped.
#[derive(Clone, Copy, Debug, PartialEq, Eq, Structural)]
pub enum Expected {
    Identifier,
    /// `:`
    Colon,
    /// `+`
    Plus,
    /// `=>`
    FatArrow,
    CurlyBraces,
    SquareBrackets,
    Parentheses,
    BooleanLiteral,
    Type,
}

/// The role a user method plays; each role has its own signature.
#[derive(Clone, Copy, Debug, PartialEq, Eq, Structural)]
pub enum Role {
    Entry,
    Exit,
    Guard,
    Action,
    Unhandled,
    OnTransition,
}

/// What is wrong with a machine definition.
#[derive(Debug, PartialEq, Eq)]
pub enum ErrorKind {
    /// A token other than the grammar allows.
    Syntax { expected: Expected },
    /// The input ended where the grammar needs more.
    UnexpectedEnd { expected: Expected },
    /// Tokens left over inside a group closed by `delimiter`.
    UnexpectedToken { delimiter: Delimiter },
    /// An identifier position holds a keyword.
    KeywordAsIdent { keyword: String },
    /// A header key that the grammar does not know.
    UnknownKey { key: String },
    /// A header key given twice.
    DuplicateKey { key: String },
    /// A required header key is missing.
    MissingKey { key: String },
    /// A state option other than `entry` or `exit`.
    UnknownStateOption { option: String },
    /// Two transition rows without a comma between them.
    MissingRowComma,
    NoStates,
    NoEvents,
    ContextNotPlain,
    DuplicateState { name: String },
    DuplicateEvent { name: String },
    UnknownState { name: String },
    UnknownEvent { name: String },
    /// Two states of one level marked initial; `composite` is `None` for the
    /// top level.
    MultipleInitial { composite: Option<String>, first: String, other: String },
    MissingInitial { parent: String },
    RoleConflict { method: String, role: Role, other_role: Role },
    UnreachableRow,
    /// (state, event) pairs that no row covers, in state-major order.
    Unhandled { machine: String, missing: Vec<(String, String)> },
}

/// A diagnostic at a source position.
#[derive(Debug)]
pub struct Diagnostic {
    pub span: usize,
    pub kind: ErrorKind,
}

/// The mathematical form of an error kind.
pub enum ErrorSpec {
    Syntax { expected: Expected },
    UnexpectedEnd { expected: Expected },
    UnexpectedToken { delimiter: Delimiter },
    KeywordAsIdent { keyword: Seq<char> },
    UnknownKey { key: Seq<char> },
    DuplicateKey { key: Seq<char> },
    MissingKey { key: Seq<char> },
    UnknownStateOption { option: Seq<char> },
    MissingRowComma,
    NoStates,
    NoEvents,
    ContextNotPlain,
    DuplicateState { name: Seq<char> },
    DuplicateEvent { name: Seq<char> },
    UnknownState { name: Seq<char> },
    UnknownEvent { name: Seq<char> },
    MultipleInitial { composite: Option<Seq<char>>, first: Seq<char>, other: Seq<char> },
    MissingInitial { parent: Seq<char> },
    RoleConflict { method: Seq<char>, role: Role, other_role: Role },
    UnreachableRow,
    Unhandled { machine: Seq<char>, missing: Seq<(Seq<char>, Seq<char>)> },
}

/// The mathematical form of a diagnostic.
pub struct DiagnosticSpec {
    pub span: usize,
    pub kind: ErrorSpec,
}

/// An optional string by its characters.
pub open spec fn opt_view(o: Option<String>) -> Option<Seq<char>> {
    match o {
        Some(s) => Some(s@),
        None => None,
    }
}

impl View for ErrorKind {
    type V = ErrorSpec;

    open spec fn view(&self) -> ErrorSpec {
        match self {
            ErrorKind::Syntax { expected } => ErrorSpec::Syntax { expected: *expected },
            ErrorKind::UnexpectedEnd { expected } => ErrorSpec::UnexpectedEnd { expected: *expected },
            ErrorKind::UnexpectedToken { delimiter } => ErrorSpec::UnexpectedToken { delimiter: *delimiter },
            ErrorKind::KeywordAsIdent { keyword } => ErrorSpec::KeywordAsIdent { keyword: keyword@ },
            ErrorKind::UnknownKey { key } => ErrorSpec::UnknownKey { key: key@ },
            ErrorKind::DuplicateKey { key } => ErrorSpec::DuplicateKey { key: key@ },
            ErrorKind::MissingKey { key } => ErrorSpec::MissingKey { key: key@ },
            ErrorKind::UnknownStateOption { option } => ErrorSpec::UnknownStateOption { option: option@ },
            ErrorKind::MissingRowComma => ErrorSpec::MissingRowComma,
            ErrorKind::NoStates => ErrorSpec::NoStates,
            ErrorKind::NoEvents => ErrorSpec::NoEvents,
            ErrorKind::ContextNotPlain => ErrorSpec::ContextNotPlain,
            ErrorKind::DuplicateState { name } => ErrorSpec::DuplicateState { name: name@ },
            ErrorKind::DuplicateEvent { name } => ErrorSpec::DuplicateEvent { name: name@ },
            ErrorKind::UnknownState { name } => ErrorSpec::UnknownState { name: name@ },
            ErrorKind::UnknownEvent { name } => ErrorSpec::UnknownEvent { name: name@ },
            ErrorKind::MultipleInitial { composite, first, other } => ErrorSpec::MultipleInitial {
                composite: opt_view(*composite),
                first: first@,
                other: other@,
            },
            ErrorKind::MissingInitial { parent } => ErrorSpec::MissingInitial { parent: parent@ },
            ErrorKind::RoleConflict { method, role, other_role } => ErrorSpec::RoleConflict {
                method: method@,
                role: *role,
                other_role: *other_role,
            },
            ErrorKind::UnreachableRow => ErrorSpec::UnreachableRow,
            ErrorKind::Unhandled { machine, missing } => ErrorSpec::Unhandled {
                machine: machine@,
                missing: missing@.map_values(|p: (String, String)| (p.0@, p.1@)),
            },
        }
    }
}

impl View for Diagnostic {
    type V = DiagnosticSpec;

    open spec fn view(&self) -> DiagnosticSpec {
        DiagnosticSpec { span: self.span, kind: self.kind@ }
    }
}

/// The mathematical form of a list of diagnostics.
pub open spec fn diags_view(d: Seq<Diagnostic>) -> Seq<DiagnosticSpec> {
    d.map_values(|x: Diagnostic| x@)
}


/// How an expected token is named in messages.
pub open spec fn expected_text(e: Expected) -> Seq<char> {
    match e {
        Expected::Identifier => "identifier"@,
        Expected::Colon => "`:`"@,
        Expected::Plus => "`+`"@,
        Expected::FatArrow => "`=>`"@,
        Expected::CurlyBraces => "curly braces"@,
        Expected::SquareBrackets => "square brackets"@,
        Expected::Parentheses => "parentheses"@,
        Expected::BooleanLiteral => "boolean literal"@,
        Expected::Type => "type"@,
    }
}

/// How a role is named in messages.
pub open spec fn role_text(r: Role) -> Seq<char> {
    match r {
        Role::Entry => "entry"@,
        Role::Exit => "exit"@,
        Role::Guard => "guard"@,
        Role::Action => "action"@,
        Role::Unhandled => "unhandled"@,
        Role::OnTransition => "on_transition"@,
    }
}

/// The decimal digit `d`.
pub open spec fn digit_text(d: nat) -> Seq<char> {
    if d == 0 {
        "0"@
    } else if d == 1 {
        "1"@
    } else if d == 2 {
        "2"@
    } else if d == 3 {
        "3"@
    } else if d == 4 {
        "4"@
    } else if d == 5 {
        "5"@
    } else if d == 6 {
        "6"@
    } else if d == 7 {
        "7"@
    } else if d == 8 {
        "8"@
    } else {
        "9"@
    }
}

/// `n` in decimal notation.
pub open spec fn decimal_text(n: nat) -> Seq<char>
    decreases n,
{
    if n < 10 {
        digit_text(n)
    } else {
        decimal_text(n / 10) + digit_text(n % 10)
    }
}

/// A (state, event) pair as `(State, Event)`.
pub open spec fn pair_text(p: (Seq<char>, Seq<char>)) -> Seq<char> {
    "("@ + p.0 + ", "@ + p.1 + ")"@
}

/// Pairs separated by `, `.
pub open spec fn pairs_text(ps: Seq<(Seq<char>, Seq<char>)>) -> Seq<char>
    decreases ps.len(),
{
    if ps.len() == 0 {
        Seq::empty()
    } else if ps.len() == 1 {
        pair_text(ps[0])
    } else {
        pairs_text(ps.drop_last()) + ", "@ + pair_text(ps.last())
    }
}

/// At most eight pairs, then how many more there are.
pub open spec fn missing_text(ps: Seq<(Seq<char>, Seq<char>)>) -> Seq<char> {
    if ps.len() <= 8 {
        pairs_text(ps)
    } else {
        pairs_text(ps.take(8)) + " and "@ + decimal_text((ps.len() - 8) as nat) + " more"@
    }
}

/// The text of a diagnostic.
pub open spec fn message_of(k: ErrorSpec) -> Seq<char> {
    match k {
        ErrorSpec::Syntax { expected } => "expected "@ + expected_text(expected),
        ErrorSpec::UnexpectedEnd { expected } => "unexpected end of input, expected "@ + expected_text(expected),
        ErrorSpec::UnexpectedToken { delimiter } => match delimiter {
            Delimiter::Parenthesis => "unexpected token, expected `)`"@,
            Delimiter::Brace => "unexpected token, expected `}`"@,
            Delimiter::Bracket => "unexpected token, expected `]`"@,
            Delimiter::Invisible => "unexpected token"@,
        },
        ErrorSpec::KeywordAsIdent { keyword } => "expected identifier, found keyword `"@ + keyword + "`"@,
        ErrorSpec::UnknownKey { key } => "unknown key `"@ + key
            + "`; expected one of: name, context, serde, states, events, transitions, unhandled, on_transition"@,
        ErrorSpec::DuplicateKey { key } => "duplicate key `"@ + key + "`"@,
        ErrorSpec::MissingKey { key } => "unexpected end of input, missing required key `"@ + key + "`"@,
        ErrorSpec::UnknownStateOption { option } => "unknown state option `"@ + option + "`; expected `entry` or `exit`"@,
        ErrorSpec::MissingRowComma => "expected `,` between transitions"@,
        ErrorSpec::NoStates => "at least one state is required"@,
        ErrorSpec::NoEvents => "at least one event is required"@,
        ErrorSpec::ContextNotPlain => "context must be a plain, non-generic type (generic contexts are not supported yet)"@,
        ErrorSpec::DuplicateState { name } => "duplicate state `"@ + name + "`"@,
        ErrorSpec::DuplicateEvent { name } => "duplicate event `"@ + name + "`"@,
        ErrorSpec::UnknownState { name } => "unknown state `"@ + name + "`"@,
        ErrorSpec::UnknownEvent { name } => "unknown event `"@ + name + "`"@,
        ErrorSpec::MultipleInitial { composite, first, other } => "multiple initial states in "@ + match composite {
            Some(p) => "composite `"@ + p + "`"@,
            None => "the top level"@,
        } + ": `"@ + first + "` and `"@ + other + "`; only one state may be marked with `*`"@,
        ErrorSpec::MissingInitial { parent } => "composite state `"@ + parent + "` must mark exactly one initial child with `*`"@,
        ErrorSpec::RoleConflict { method, role, other_role } => "method `"@ + method + "` is used both as a "@
            + role_text(role) + " and as a "@ + role_text(other_role) + "; these roles have different signatures"@,
        ErrorSpec::UnreachableRow => "unreachable transition: all of its (state, event) pairs are already covered by earlier, more specific rows without guards"@,
        ErrorSpec::Unhandled { machine, missing } => "unhandled transitions in `"@ + machine + "`: "@ + missing_text(missing)
            + "\nadd transitions, a wildcard arm (`_ + Event => ...`), or an `unhandled:` policy"@,
    }
}

/// How an expected token is named in messages.
fn expected_str(e: Expected) -> (res: &'static str)
    ensures
        res@ == expected_text(e),
{
    match e {
        Expected::Identifier => "identifier",
        Expected::Colon => "`:`",
        Expected::Plus => "`+`",
        Expected::FatArrow => "`=>`",
        Expected::CurlyBraces => "curly braces",
        Expected::SquareBrackets => "square brackets",
        Expected::Parentheses => "parentheses",
        Expected::BooleanLiteral => "boolean literal",
        Expected::Type => "type",
    }
}

/// How a role is named in messages.
fn role_str(r: Role) -> (res: &'static str)
    ensures
        res@ == role_text(r),
{
    match r {
        Role::Entry => "entry",
        Role::Exit => "exit",
        Role::Guard => "guard",
        Role::Action => "action",
        Role::Unhandled => "unhandled",
        Role::OnTransition => "on_transition",
    }
}

/// The decimal digit `d`.
fn digit_str(d: usize) -> (res: &'static str)
    requires
        d < 10,
    ensures
        res@ == digit_text(d as nat),
{
    if d == 0 {
        "0"
    } else if d == 1 {
        "1"
    } else if d == 2 {
        "2"
    } else if d == 3 {
        "3"
    } else if d == 4 {
        "4"
    } else if d == 5 {
        "5"
    } else if d == 6 {
        "6"
    } else if d == 7 {
        "7"
    } else if d == 8 {
        "8"
    } else {
        "9"
    }
}

/// `n` in decimal notation.
pub fn decimal(n: usize) -> (res: String)
    ensures
        res@ == decimal_text(n as nat),
    decreases n,
{
    if n < 10 {
        String::from_str(digit_str(n))
    } else {
        let mut s = decimal(n / 10);
        s.append(digit_str(n % 10));
        s
    }
}

/// At most eight pairs, then how many more there are.
fn missing_str(ps: &Vec<(String, String)>) -> (res: String)
    ensures
        res@ == missing_text(ps@.map_values(|p: (String, String)| (p.0@, p.1@))),
{
    let ghost vs = ps@.map_values(|p: (String, String)| (p.0@, p.1@));
    let shown: usize = if ps.len() <= 8 { ps.len() } else { 8 };
    let mut out = String::new();
    let mut k: usize = 0;
    while k < shown
        invariant
            shown <= ps@.len(),
            vs == ps@.map_values(|p: (String, String)| (p.0@, p.1@)),
            k <= shown,
            out@ == pairs_text(vs.take(k as int)),
        decreases shown - k,
    {
        assert(vs.take(k + 1).drop_last() =~= vs.take(k as int));
        if k > 0 {
            out.append(", ");
        }
        out.append("(");
        out.append(ps[k].0.as_str());
        out.append(", ");
        out.append(ps[k].1.as_str());
        out.append(")");
        proof {
            let t = vs.take(k + 1);
            assert(t.last() == (ps@[k as int].0@, ps@[k as int].1@));
            if k == 0 {
                assert(t.len() == 1 && t[0] == t.last());
                assert(vs.take(0) =~= Seq::<(Seq<char>, Seq<char>)>::empty());
            }
        }
        k += 1;
    }
    if ps.len() > 8 {
        out.append(" and ");
        let more = decimal(ps.len() - 8);
        out.append(more.as_str());
        out.append(" more");
    } else {
        assert(vs.take(shown as int) =~= vs);
    }
    out
}

impl ErrorKind {
    /// The text of the diagnostic.
    pub fn message(&self) -> (res: String)
        ensures
            res@ == message_of(self@),
    {
        match self {
            ErrorKind::Syntax { expected } => {
                let mut s = String::from_str("expected ");
                s.append(expected_str(*expected));
                s
            },
            ErrorKind::UnexpectedEnd { expected } => {
                let mut s = String::from_str("unexpected end of input, expected ");
                s.append(expected_str(*expected));
                s
            },
            ErrorKind::UnexpectedToken { delimiter } => match delimiter {
                Delimiter::Parenthesis => String::from_str("unexpected token, expected `)`"),
                Delimiter::Brace => String::from_str("unexpected token, expected `}`"),
                Delimiter::Bracket => String::from_str("unexpected token, expected `]`"),
                Delimiter::Invisible => String::from_str("unexpected token"),
            },
            ErrorKind::KeywordAsIdent { keyword } => {
                let mut s = String::from_str("expected identifier, found keyword `");
                s.append(keyword.as_str());
                s.append("`");
                s
            },
            ErrorKind::UnknownKey { key } => {
                let mut s = String::from_str("unknown key `");
                s.append(key.as_str());
                s.append("`; expected one of: name, context, serde, states, events, transitions, unhandled, on_transition");
                s
            },
            ErrorKind::DuplicateKey { key } => {
                let mut s = String::from_str("duplicate key `");
                s.append(key.as_str());
                s.append("`");
                s
            },
            ErrorKind::MissingKey { key } => {
                let mut s = String::from_str("unexpected end of input, missing required key `");
                s.append(key.as_str());
                s.append("`");
                s
            },
            ErrorKind::UnknownStateOption { option } => {
                let mut s = String::from_str("unknown state option `");
                s.append(option.as_str());
                s.append("`; expected `entry` or `exit`");
                s
            },
            ErrorKind::MissingRowComma => String::from_str("expected `,` between transitions"),
            ErrorKind::NoStates => String::from_str("at least one state is required"),
            ErrorKind::NoEvents => String::from_str("at least one event is required"),
            ErrorKind::ContextNotPlain => String::from_str(
                "context must be a plain, non-generic type (generic contexts are not supported yet)",
            ),
            ErrorKind::DuplicateState { name } => {
                let mut s = String::from_str("duplicate state `");
                s.append(name.as_str());
                s.append("`");
                s
            },
            ErrorKind::DuplicateEvent { name } => {
                let mut s = String::from_str("duplicate event `");
                s.append(name.as_str());
                s.append("`");
                s
            },
            ErrorKind::UnknownState { name } => {
                let mut s = String::from_str("unknown state `");
                s.append(name.as_str());
                s.append("`");
                s
            },
            ErrorKind::UnknownEvent { name } => {
                let mut s = String::from_str("unknown event `");
                s.append(name.as_str());
                s.append("`");
                s
            },
            ErrorKind::MultipleInitial { composite, first, other } => {
                let mut s = String::from_str("multiple initial states in ");
                match composite {
                    Some(p) => {
                        s.append("composite `");
                        s.append(p.as_str());
                        s.append("`");
                    },
                    None => {
                        s.append("the top level");
                    },
                }
                s.append(": `");
                s.append(first.as_str());
                s.append("` and `");
                s.append(other.as_str());
                s.append("`; only one state may be marked with `*`");
                s
            },
            ErrorKind::MissingInitial { parent } => {
                let mut s = String::from_str("composite state `");
                s.append(parent.as_str());
                s.append("` must mark exactly one initial child with `*`");
                s
            },
            ErrorKind::RoleConflict { method, role, other_role } => {
                let mut s = String::from_str("method `");
                s.append(method.as_str());
                s.append("` is used both as a ");
                s.append(role_str(*role));
                s.append(" and as a ");
                s.append(role_str(*other_role));
                s.append("; these roles have different signatures");
                s
            },
            ErrorKind::UnreachableRow => String::from_str(
                "unreachable transition: all of its (state, event) pairs are already covered by earlier, more specific rows without guards",
            ),
            ErrorKind::Unhandled { machine, missing } => {
                let mut s = String::from_str("unhandled transitions in `");
                s.append(machine.as_str());
                s.append("`: ");
                let list = missing_str(missing);
                s.append(list.as_str());
                s.append("\nadd transitions, a wildcard arm (`_ + Event => ...`), or an `unhandled:` policy");
                s
            },
        }
    }
}

} // verus!
