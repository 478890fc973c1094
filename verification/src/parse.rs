//! The definition language: token trees in, a machine definition out.
//!
//! The grammar, in the order the parser reads it:
//!
//! ```text
//! machine     := (key `:` value `,`?)*
//! key         := name | context | serde | states | events | transitions
//!              | unhandled | on_transition
//! states      := `{` state-list `}`
//! state-list  := (state (`,` state)* `,`?)?
//! state       := `*`? Ident (`(` options `)`)? (`{` state-list `}`)?
//! options     := (option (`,` option)* `,`?)?
//! option      := (`entry` | `exit`) `:` callable
//! events      := `{` (Ident (`,` Ident)* `,`?)? `}`
//! transitions := `{` (row (`,` row)* `,`?)? `}`
//! row         := sources `+` row-events (`[` callable `]`)? (`/` callable)? `=>` target
//! sources     := `_` | `*`? Ident (`|` `*`? Ident)*
//! row-events  := `_` | Ident (`|` Ident)*
//! target      := `_` | Ident
//! callable    := `async`? Ident
//! unhandled   := `ignore` | callable
//! serde       := `true` | `false`
//! ```
//!
//! An identifier is never a keyword. A missing token is reported where the
//! grammar needed it (at the end of the enclosing group when the group ran
//! out); the first problem found ends parsing.
//!
//! The context type is the longest run of tokens after `context:` whose
//! text `syn` parses as one Rust type. Tokens left over inside a group are
//! reported, at the first such token, only when the rest of the input
//! parsed.

use vstd::prelude::*;
use crate::tokens::{Ident, Token, Delimiter, str_eq};
use crate::model::{
    Callable, Unhandled, StateDef, StateV, StateRef, SourcePattern, EventPattern, Target, Row, RowV, SourceV,
    EventsV, MachineDef, MachineV, ContextType, state_view, states_view, row_view,
};
use crate::error::{Diagnostic, ErrorKind, ErrorSpec, DiagnosticSpec, Expected};
use crate::validate::{diag, is_punct};

verus! {

/// The first group with tokens left over: its leftover token's position
/// and its delimiter.
pub type Leftover = Option<(usize, Delimiter)>;

/// Whether `s` is a Rust keyword (or `_`), which cannot be an identifier.
pub open spec fn is_keyword(s: Seq<char>) -> bool {
    ||| s == "_"@ ||| s == "abstract"@ ||| s == "as"@ ||| s == "async"@ ||| s == "await"@
    ||| s == "become"@ ||| s == "box"@ ||| s == "break"@ ||| s == "const"@ ||| s == "continue"@
    ||| s == "crate"@ ||| s == "do"@ ||| s == "dyn"@ ||| s == "else"@ ||| s == "enum"@
    ||| s == "extern"@ ||| s == "false"@ ||| s == "final"@ ||| s == "fn"@ ||| s == "for"@
    ||| s == "if"@ ||| s == "impl"@ ||| s == "in"@ ||| s == "let"@ ||| s == "loop"@
    ||| s == "macro"@ ||| s == "match"@ ||| s == "mod"@ ||| s == "move"@ ||| s == "mut"@
    ||| s == "override"@ ||| s == "priv"@ ||| s == "pub"@ ||| s == "ref"@ ||| s == "return"@
    ||| s == "Self"@ ||| s == "self"@ ||| s == "static"@ ||| s == "struct"@ ||| s == "super"@
    ||| s == "trait"@ ||| s == "true"@ ||| s == "try"@ ||| s == "type"@ ||| s == "typeof"@
    ||| s == "unsafe"@ ||| s == "unsized"@ ||| s == "use"@ ||| s == "virtual"@ ||| s == "where"@
    ||| s == "while"@ ||| s == "yield"@
}

/// Whether token `pos` is the punctuation character `c`.
pub open spec fn punct_at(ts: Seq<Token>, pos: int, c: char) -> bool {
    0 <= pos < ts.len() && is_punct(ts[pos], c)
}

/// Whether token `pos` is the identifier `w` (keywords included).
pub open spec fn word_at(ts: Seq<Token>, pos: int, w: Seq<char>) -> bool {
    0 <= pos < ts.len() && (ts[pos] matches Token::Ident(i) && i.text@ == w)
}

/// Whether token `pos` is `_`.
pub open spec fn underscore_at(ts: Seq<Token>, pos: int) -> bool {
    word_at(ts, pos, "_"@) || punct_at(ts, pos, '_')
}

/// Whether token `pos` is a group with delimiter `d`.
pub open spec fn group_at(ts: Seq<Token>, pos: int, d: Delimiter) -> bool {
    0 <= pos < ts.len() && (ts[pos] matches Token::Group { delimiter, .. } && delimiter == d)
}

/// The error for a missing `what` at token `pos`, or at the end.
pub open spec fn expected_at(ts: Seq<Token>, pos: int, end: usize, what: Expected) -> DiagnosticSpec {
    if 0 <= pos < ts.len() {
        diag(ts[pos].span_of(), ErrorSpec::Syntax { expected: what })
    } else {
        diag(end, ErrorSpec::UnexpectedEnd { expected: what })
    }
}

/// The position of token `pos`, or `end` past the last token.
pub open spec fn span_or(ts: Seq<Token>, pos: int, end: usize) -> usize {
    if 0 <= pos < ts.len() {
        ts[pos].span_of()
    } else {
        end
    }
}

/// An identifier that is not a keyword.
pub open spec fn p_ident(ts: Seq<Token>, pos: int, end: usize) -> Result<(Ident, int), DiagnosticSpec> {
    if 0 <= pos < ts.len() {
        match ts[pos] {
            Token::Ident(i) => if is_keyword(i.text@) {
                Err(diag(i.span, ErrorSpec::KeywordAsIdent { keyword: i.text@ }))
            } else {
                Ok((i, pos + 1))
            },
            _ => Err(diag(ts[pos].span_of(), ErrorSpec::Syntax { expected: Expected::Identifier })),
        }
    } else {
        Err(diag(end, ErrorSpec::UnexpectedEnd { expected: Expected::Identifier }))
    }
}

/// A single punctuation character `c`, described by `what`; a missing one
/// is reported at the token found there, or at the end.
pub open spec fn p_punct(ts: Seq<Token>, pos: int, end: usize, c: char, what: Expected) -> Result<int, DiagnosticSpec> {
    if punct_at(ts, pos, c) {
        Ok(pos + 1)
    } else {
        Err(diag(span_or(ts, pos, end), ErrorSpec::Syntax { expected: what }))
    }
}

/// `async`? Ident
pub open spec fn p_callable(ts: Seq<Token>, pos: int, end: usize) -> Result<(Callable, int), DiagnosticSpec> {
    let is_async = word_at(ts, pos, "async"@);
    match p_ident(ts, if is_async { pos + 1 } else { pos }, end) {
        Ok((name, p)) => Ok((Callable { is_async, name }, p)),
        Err(e) => Err(e),
    }
}

/// The `unhandled:` value: `ignore`, or a callable.
pub open spec fn p_unhandled(ts: Seq<Token>, pos: int, end: usize) -> Result<(Unhandled, int), DiagnosticSpec> {
    match p_callable(ts, pos, end) {
        Ok((c, p)) => if !c.is_async && c.name.text@ == "ignore"@ {
            Ok((Unhandled::Ignore, p))
        } else {
            Ok((Unhandled::Method(c), p))
        },
        Err(e) => Err(e),
    }
}

/// A result with a position, by its mathematical form.
pub open spec fn rview<T>(r: Result<(T, usize), Diagnostic>) -> Result<(T, int), DiagnosticSpec> {
    match r {
        Ok((v, p)) => Ok((v, p as int)),
        Err(e) => Err(e@),
    }
}

/// Whether `s` is a keyword (or `_`).
pub fn keyword(s: &str) -> (res: bool)
    ensures
        res == is_keyword(s@),
{
    str_eq(s, "_") || str_eq(s, "abstract") || str_eq(s, "as") || str_eq(s, "async") || str_eq(s, "await")
        || str_eq(s, "become") || str_eq(s, "box") || str_eq(s, "break") || str_eq(s, "const")
        || str_eq(s, "continue") || str_eq(s, "crate") || str_eq(s, "do") || str_eq(s, "dyn")
        || str_eq(s, "else") || str_eq(s, "enum") || str_eq(s, "extern") || str_eq(s, "false")
        || str_eq(s, "final") || str_eq(s, "fn") || str_eq(s, "for") || str_eq(s, "if") || str_eq(s, "impl")
        || str_eq(s, "in") || str_eq(s, "let") || str_eq(s, "loop") || str_eq(s, "macro")
        || str_eq(s, "match") || str_eq(s, "mod") || str_eq(s, "move") || str_eq(s, "mut")
        || str_eq(s, "override") || str_eq(s, "priv") || str_eq(s, "pub") || str_eq(s, "ref")
        || str_eq(s, "return") || str_eq(s, "Self") || str_eq(s, "self") || str_eq(s, "static")
        || str_eq(s, "struct") || str_eq(s, "super") || str_eq(s, "trait") || str_eq(s, "true")
        || str_eq(s, "try") || str_eq(s, "type") || str_eq(s, "typeof") || str_eq(s, "unsafe")
        || str_eq(s, "unsized") || str_eq(s, "use") || str_eq(s, "virtual") || str_eq(s, "where")
        || str_eq(s, "while") || str_eq(s, "yield")
}

/// Whether token `pos` is the punctuation character `c`.
fn is_punct_at(ts: &Vec<Token>, pos: usize, c: char) -> (res: bool)
    ensures
        res == punct_at(ts@, pos as int, c),
{
    if pos < ts.len() {
        match &ts[pos] {
            Token::Punct { ch, .. } => *ch == c,
            _ => false,
        }
    } else {
        false
    }
}

/// Whether token `pos` is a joint `=` followed by `>`.
fn is_fat_arrow_at(ts: &Vec<Token>, pos: usize) -> (res: bool)
    ensures
        res == fat_arrow_at(ts@, pos as int),
{
    if pos < ts.len() && is_punct_at(ts, pos + 1, '>') {
        match &ts[pos] {
            Token::Punct { ch, joint, .. } => *ch == '=' && *joint,
            _ => false,
        }
    } else {
        false
    }
}

/// Whether token `pos` is a joint `=` followed by `>`.
pub open spec fn fat_arrow_at(ts: Seq<Token>, pos: int) -> bool {
    &&& 0 <= pos < ts.len()
    &&& ts[pos] matches Token::Punct { ch, joint, .. } && ch == '=' && joint
    &&& punct_at(ts, pos + 1, '>')
}

/// Whether token `pos` is the identifier `w`.
fn is_word_at(ts: &Vec<Token>, pos: usize, w: &str) -> (res: bool)
    ensures
        res == word_at(ts@, pos as int, w@),
{
    if pos < ts.len() {
        match &ts[pos] {
            Token::Ident(i) => str_eq(i.text.as_str(), w),
            _ => false,
        }
    } else {
        false
    }
}

/// Whether token `pos` is `_`.
fn is_underscore_at(ts: &Vec<Token>, pos: usize) -> (res: bool)
    ensures
        res == underscore_at(ts@, pos as int),
{
    is_word_at(ts, pos, "_") || is_punct_at(ts, pos, '_')
}

/// Whether token `pos` is a group with delimiter `d`.
fn is_group_at(ts: &Vec<Token>, pos: usize, d: Delimiter) -> (res: bool)
    ensures
        res == group_at(ts@, pos as int, d),
{
    if pos < ts.len() {
        match &ts[pos] {
            Token::Group { delimiter, .. } => *delimiter == d,
            _ => false,
        }
    } else {
        false
    }
}

/// The position of token `pos`, or `end` past the last token.
fn span_at(ts: &Vec<Token>, pos: usize, end: usize) -> (res: usize)
    ensures
        res == span_or(ts@, pos as int, end),
{
    if pos < ts.len() {
        ts[pos].span()
    } else {
        end
    }
}

/// The error for a missing `what` at token `pos`, or at the end.
fn expected_error(ts: &Vec<Token>, pos: usize, end: usize, what: Expected) -> (res: Diagnostic)
    ensures
        res@ == expected_at(ts@, pos as int, end, what),
{
    if pos < ts.len() {
        Diagnostic { span: ts[pos].span(), kind: ErrorKind::Syntax { expected: what } }
    } else {
        Diagnostic { span: end, kind: ErrorKind::UnexpectedEnd { expected: what } }
    }
}

/// An identifier that is not a keyword.
pub fn parse_ident(ts: &Vec<Token>, pos: usize, end: usize) -> (res: Result<(Ident, usize), Diagnostic>)
    ensures
        rview(res) == p_ident(ts@, pos as int, end),
{
    if pos < ts.len() {
        match &ts[pos] {
            Token::Ident(i) => {
                if keyword(i.text.as_str()) {
                    Err(Diagnostic { span: i.span, kind: ErrorKind::KeywordAsIdent { keyword: i.text.clone() } })
                } else {
                    Ok((i.copy(), pos + 1))
                }
            },
            _ => Err(Diagnostic { span: ts[pos].span(), kind: ErrorKind::Syntax { expected: Expected::Identifier } }),
        }
    } else {
        Err(Diagnostic { span: end, kind: ErrorKind::UnexpectedEnd { expected: Expected::Identifier } })
    }
}

/// A single punctuation character.
pub fn parse_punct(ts: &Vec<Token>, pos: usize, end: usize, c: char, what: Expected) -> (res: Result<usize, Diagnostic>)
    ensures
        match res {
            Ok(p) => p_punct(ts@, pos as int, end, c, what) == Ok::<int, DiagnosticSpec>(p as int),
            Err(e) => p_punct(ts@, pos as int, end, c, what) == Err::<int, DiagnosticSpec>(e@),
        },
{
    let _n = ts.len();
    if is_punct_at(ts, pos, c) {
        Ok(pos + 1)
    } else {
        Err(Diagnostic { span: span_at(ts, pos, end), kind: ErrorKind::Syntax { expected: what } })
    }
}

/// `async`? Ident
pub fn parse_callable(ts: &Vec<Token>, pos: usize, end: usize) -> (res: Result<(Callable, usize), Diagnostic>)
    ensures
        rview(res) == p_callable(ts@, pos as int, end),
{
    let _n = ts.len();
    let is_async = is_word_at(ts, pos, "async");
    let at = if is_async { pos + 1 } else { pos };
    match parse_ident(ts, at, end) {
        Ok((name, p)) => Ok((Callable { is_async, name }, p)),
        Err(e) => Err(e),
    }
}

/// The `unhandled:` value: `ignore`, or a callable.
pub fn parse_unhandled(ts: &Vec<Token>, pos: usize, end: usize) -> (res: Result<(Unhandled, usize), Diagnostic>)
    ensures
        rview(res) == p_unhandled(ts@, pos as int, end),
{
    match parse_callable(ts, pos, end) {
        Ok((c, p)) => {
            if !c.is_async && str_eq(c.name.text.as_str(), "ignore") {
                Ok((Unhandled::Ignore, p))
            } else {
                Ok((Unhandled::Method(c), p))
            }
        },
        Err(e) => Err(e),
    }
}

/// Notes a group's leftover tokens (from position `p` of its content `ts`),
/// unless a group before it had some.
pub open spec fn note_leftover(un: Leftover, ts: Seq<Token>, p: int, d: Delimiter) -> Leftover {
    if un is None && 0 <= p < ts.len() {
        Some((ts[p].span_of(), d))
    } else {
        un
    }
}

/// State options, `entry` and `exit` each at most once, accumulated onto
/// `entry`/`exit`.
pub open spec fn p_options(
    ts: Seq<Token>,
    pos: int,
    end: usize,
    entry: Option<Callable>,
    exit: Option<Callable>,
) -> Result<(Option<Callable>, Option<Callable>, int), DiagnosticSpec>
    decreases ts.len() - pos,
{
    if pos < 0 || pos >= ts.len() {
        Ok((entry, exit, pos))
    } else {
        match p_ident(ts, pos, end) {
            Err(e) => Err(e),
            Ok((kw, p1)) => match p_punct(ts, p1, end, ':', Expected::Colon) {
                Err(e) => Err(e),
                Ok(p2) => if kw.text@ == "entry"@ || kw.text@ == "exit"@ {
                    match p_callable(ts, p2, end) {
                        Err(e) => Err(e),
                        Ok((c, p3)) => {
                            let is_entry = kw.text@ == "entry"@;
                            if (is_entry && entry is Some) || (!is_entry && exit is Some) {
                                Err(diag(kw.span, ErrorSpec::DuplicateKey { key: kw.text@ }))
                            } else {
                                let entry2 = if is_entry { Some(c) } else { entry };
                                let exit2 = if is_entry { exit } else { Some(c) };
                                if punct_at(ts, p3, ',') {
                                    p_options(ts, p3 + 1, end, entry2, exit2)
                                } else {
                                    Ok((entry2, exit2, p3))
                                }
                            }
                        },
                    }
                } else {
                    Err(diag(kw.span, ErrorSpec::UnknownStateOption { option: kw.text@ }))
                },
            },
        }
    }
}

/// The position after the state declared at `pos`: each of its groups is a
/// single token.
pub open spec fn state_end(ts: Seq<Token>, pos: int) -> int {
    let p0 = if punct_at(ts, pos, '*') { pos + 1 } else { pos };
    let p1 = p0 + 1;
    let p2 = if group_at(ts, p1, Delimiter::Parenthesis) { p1 + 1 } else { p1 };
    if group_at(ts, p2, Delimiter::Brace) { p2 + 1 } else { p2 }
}

/// One state declaration.
pub open spec fn p_state(ts: Seq<Token>, pos: int, end: usize, un: Leftover) -> Result<(StateV, Leftover), DiagnosticSpec>
    decreases ts, ts.len() - pos, 0int,
{
    let initial = punct_at(ts, pos, '*');
    let p0 = if initial { pos + 1 } else { pos };
    match p_ident(ts, p0, end) {
        Err(e) => Err(e),
        Ok((name, p1)) => {
            let opts: Result<(Option<Callable>, Option<Callable>, Leftover), DiagnosticSpec> =
                if group_at(ts, p1, Delimiter::Parenthesis) {
                    match ts[p1] {
                        Token::Group { tokens, span, .. } => match p_options(tokens@, 0, span, None, None) {
                            Err(e) => Err(e),
                            Ok((entry, exit, q)) => Ok((entry, exit, note_leftover(un, tokens@, q, Delimiter::Parenthesis))),
                        },
                        _ => Ok((None, None, un)),
                    }
                } else {
                    Ok((None, None, un))
                };
            let p2 = if group_at(ts, p1, Delimiter::Parenthesis) { p1 + 1 } else { p1 };
            match opts {
                Err(e) => Err(e),
                Ok((entry, exit, un1)) => if group_at(ts, p2, Delimiter::Brace) {
                    match ts[p2] {
                        Token::Group { tokens, span, .. } => match p_state_list(tokens@, 0, span, un1, Seq::empty()) {
                            Err(e) => Err(e),
                            Ok((children, q, un2)) => Ok((
                                StateV { name, initial, entry, exit, children },
                                note_leftover(un2, tokens@, q, Delimiter::Brace),
                            )),
                        },
                        _ => Ok((StateV { name, initial, entry, exit, children: Seq::empty() }, un1)),
                    }
                } else {
                    Ok((StateV { name, initial, entry, exit, children: Seq::empty() }, un1))
                },
            }
        },
    }
}

/// State declarations separated by commas, from `pos` on, after those
/// already in `acc`.
pub open spec fn p_state_list(ts: Seq<Token>, pos: int, end: usize, un: Leftover, acc: Seq<StateV>)
    -> Result<(Seq<StateV>, int, Leftover), DiagnosticSpec>
    decreases ts, ts.len() - pos, 1int,
{
    if pos < 0 || pos >= ts.len() {
        Ok((acc, pos, un))
    } else {
        match p_state(ts, pos, end, un) {
            Err(e) => Err(e),
            Ok((s, un2)) => {
                let p = state_end(ts, pos);
                if punct_at(ts, p, ',') {
                    p_state_list(ts, p + 1, end, un2, acc.push(s))
                } else {
                    Ok((acc.push(s), p, un2))
                }
            },
        }
    }
}

/// Notes a group's leftover tokens (from position `p` of its content `ts`),
/// unless a group before it had some.
fn leftover(un: Leftover, ts: &Vec<Token>, p: usize, d: Delimiter) -> (res: Leftover)
    ensures
        res == note_leftover(un, ts@, p as int, d),
{
    if un.is_none() && p < ts.len() {
        Some((ts[p].span(), d))
    } else {
        un
    }
}

/// State options inside the parentheses after a state's name.
fn parse_options(ts: &Vec<Token>, end: usize) -> (res: Result<(Option<Callable>, Option<Callable>, usize), Diagnostic>)
    ensures
        match res {
            Ok((entry, exit, p)) => p_options(ts@, 0, end, None, None) == Ok::<_, DiagnosticSpec>((entry, exit, p as int)),
            Err(e) => p_options(ts@, 0, end, None, None) == Err::<(Option<Callable>, Option<Callable>, int), _>(e@),
        },
{
    let n = ts.len();
    let mut entry: Option<Callable> = None;
    let mut exit: Option<Callable> = None;
    let mut pos: usize = 0;
    while pos < n
        invariant
            n == ts@.len(),
            pos <= n,
            p_options(ts@, pos as int, end, entry, exit) == p_options(ts@, 0, end, None, None),
        decreases n - pos,
    {
        let (kw, p1) = match parse_ident(ts, pos, end) {
            Ok(x) => x,
            Err(e) => return Err(e),
        };
        let p2 = match parse_punct(ts, p1, end, ':', Expected::Colon) {
            Ok(p) => p,
            Err(e) => return Err(e),
        };
        let is_entry = str_eq(kw.text.as_str(), "entry");
        if !is_entry && !str_eq(kw.text.as_str(), "exit") {
            return Err(Diagnostic { span: kw.span, kind: ErrorKind::UnknownStateOption { option: kw.text } });
        }
        let (c, p3) = match parse_callable(ts, p2, end) {
            Ok(x) => x,
            Err(e) => return Err(e),
        };
        if (is_entry && entry.is_some()) || (!is_entry && exit.is_some()) {
            return Err(Diagnostic { span: kw.span, kind: ErrorKind::DuplicateKey { key: kw.text } });
        }
        if is_entry {
            entry = Some(c);
        } else {
            exit = Some(c);
        }
        if is_punct_at(ts, p3, ',') {
            pos = p3 + 1;
        } else {
            return Ok((entry, exit, p3));
        }
    }
    Ok((entry, exit, pos))
}

/// A parsed state with its leftover note, by its mathematical form.
pub open spec fn sview(r: Result<(StateDef, Leftover), Diagnostic>) -> Result<(StateV, Leftover), DiagnosticSpec> {
    match r {
        Ok((s, un)) => Ok((state_view(s), un)),
        Err(e) => Err(e@),
    }
}

/// Parsed states with position and leftover note, by their mathematical form.
pub open spec fn lview(r: Result<(Vec<StateDef>, usize, Leftover), Diagnostic>) -> Result<(Seq<StateV>, int, Leftover), DiagnosticSpec> {
    match r {
        Ok((ss, p, un)) => Ok((states_view(ss@), p as int, un)),
        Err(e) => Err(e@),
    }
}

/// One state declaration, starting at `pos`.
fn parse_state(ts: &Vec<Token>, pos: usize, end: usize, un: Leftover) -> (res: Result<(StateDef, Leftover), Diagnostic>)
    ensures
        sview(res) == p_state(ts@, pos as int, end, un),
    decreases ts@, ts@.len() - pos, 0int,
{
    let n = ts.len();
    let initial = is_punct_at(ts, pos, '*');
    let p0 = if initial { pos + 1 } else { pos };
    let (name, p1) = match parse_ident(ts, p0, end) {
        Ok(x) => x,
        Err(e) => return Err(e),
    };
    let mut entry: Option<Callable> = None;
    let mut exit: Option<Callable> = None;
    let mut un1 = un;
    let mut p2 = p1;
    if is_group_at(ts, p1, Delimiter::Parenthesis) {
        if let Token::Group { tokens, span, .. } = &ts[p1] {
            match parse_options(tokens, *span) {
                Ok((en, ex, q)) => {
                    entry = en;
                    exit = ex;
                    un1 = leftover(un, tokens, q, Delimiter::Parenthesis);
                },
                Err(e) => return Err(e),
            }
        }
        p2 = p1 + 1;
    }
    let mut children: Vec<StateDef> = Vec::new();
    let mut un2 = un1;
    if is_group_at(ts, p2, Delimiter::Brace) {
        if let Token::Group { tokens, span, .. } = &ts[p2] {
            proof {
                assert(decreases_to!(ts@ => ts@[p2 as int]));
            }
            match parse_state_list(tokens, *span, un1) {
                Ok((cs, q, u)) => {
                    children = cs;
                    un2 = leftover(u, tokens, q, Delimiter::Brace);
                },
                Err(e) => return Err(e),
            }
        }
    }
    let s = StateDef { name, initial, entry, exit, children };
    proof {
        assert(states_view(Seq::<StateDef>::empty()) =~= Seq::<StateV>::empty());
    }
    Ok((s, un2))
}

/// State declarations separated by commas: the content of a braced group.
fn parse_state_list(ts: &Vec<Token>, end: usize, un: Leftover) -> (res: Result<(Vec<StateDef>, usize, Leftover), Diagnostic>)
    ensures
        lview(res) == p_state_list(ts@, 0, end, un, Seq::empty()),
    decreases ts@, ts@.len(), 1int,
{
    let n = ts.len();
    let mut out: Vec<StateDef> = Vec::new();
    let mut pos: usize = 0;
    let mut u = un;
    while pos < n
        invariant
            n == ts@.len(),
            pos <= n,
            p_state_list(ts@, pos as int, end, u, states_view(out@)) == p_state_list(ts@, 0, end, un, Seq::empty()),
        decreases n - pos,
    {
        let (s, u2) = match parse_state(ts, pos, end, u) {
            Ok(x) => x,
            Err(e) => return Err(e),
        };
        let ghost before = out@;
        out.push(s);
        proof {
            assert(out@.drop_last() == before);
            assert(states_view(out@) == states_view(before).push(state_view(s)));
        }
        let p = if is_punct_at(ts, pos, '*') { pos + 1 } else { pos } + 1;
        let p = if is_group_at(ts, p, Delimiter::Parenthesis) { p + 1 } else { p };
        let p = if is_group_at(ts, p, Delimiter::Brace) { p + 1 } else { p };
        u = u2;
        if is_punct_at(ts, p, ',') {
            pos = p + 1;
        } else {
            return Ok((out, p, u));
        }
    }
    proof {
        assert(states_view(Seq::<StateDef>::empty()) =~= Seq::<StateV>::empty());
    }
    Ok((out, pos, u))
}


/// Identifiers separated by commas (the event list), after those in `acc`.
pub open spec fn p_event_list(ts: Seq<Token>, pos: int, end: usize, acc: Seq<Ident>) -> Result<(Seq<Ident>, int), DiagnosticSpec>
    decreases ts.len() - pos,
{
    if pos < 0 || pos >= ts.len() {
        Ok((acc, pos))
    } else {
        match p_ident(ts, pos, end) {
            Err(e) => Err(e),
            Ok((e, p)) => if punct_at(ts, p, ',') {
                p_event_list(ts, p + 1, end, acc.push(e))
            } else {
                Ok((acc.push(e), p))
            },
        }
    }
}

/// Source states `*`? Ident (`|` `*`? Ident)*, after those in `acc`.
pub open spec fn p_refs(ts: Seq<Token>, pos: int, end: usize, acc: Seq<StateRef>) -> Result<(Seq<StateRef>, int), DiagnosticSpec>
    decreases ts.len() - pos,
{
    let marker = punct_at(ts, pos, '*');
    match p_ident(ts, if marker { pos + 1 } else { pos }, end) {
        Err(e) => Err(e),
        Ok((name, p)) => {
            let acc2 = acc.push(StateRef { name, initial_marker: marker });
            if punct_at(ts, p, '|') {
                p_refs(ts, p + 1, end, acc2)
            } else {
                Ok((acc2, p))
            }
        },
    }
}

/// Events Ident (`|` Ident)*, after those in `acc`.
pub open spec fn p_alts(ts: Seq<Token>, pos: int, end: usize, acc: Seq<Ident>) -> Result<(Seq<Ident>, int), DiagnosticSpec>
    decreases ts.len() - pos,
{
    match p_ident(ts, pos, end) {
        Err(e) => Err(e),
        Ok((e, p)) => if punct_at(ts, p, '|') {
            p_alts(ts, p + 1, end, acc.push(e))
        } else {
            Ok((acc.push(e), p))
        },
    }
}

/// The source column of a row.
pub open spec fn p_sources(ts: Seq<Token>, pos: int, end: usize) -> Result<(SourceV, int), DiagnosticSpec> {
    if underscore_at(ts, pos) {
        Ok((SourceV::Any, pos + 1))
    } else {
        match p_refs(ts, pos, end, Seq::empty()) {
            Ok((refs, p)) => Ok((SourceV::States(refs), p)),
            Err(e) => Err(e),
        }
    }
}

/// The event column of a row.
pub open spec fn p_events(ts: Seq<Token>, pos: int, end: usize) -> Result<(EventsV, int), DiagnosticSpec> {
    if underscore_at(ts, pos) {
        Ok((EventsV::Any, pos + 1))
    } else {
        match p_alts(ts, pos, end, Seq::empty()) {
            Ok((ids, p)) => Ok((EventsV::Events(ids), p)),
            Err(e) => Err(e),
        }
    }
}

/// An optional guard: a callable in square brackets.
pub open spec fn p_guard(ts: Seq<Token>, pos: int, un: Leftover) -> Result<(Option<Callable>, int, Leftover), DiagnosticSpec> {
    if group_at(ts, pos, Delimiter::Bracket) {
        match ts[pos] {
            Token::Group { tokens, span, .. } => match p_callable(tokens@, 0, span) {
                Err(e) => Err(e),
                Ok((c, q)) => Ok((Some(c), pos + 1, note_leftover(un, tokens@, q, Delimiter::Bracket))),
            },
            _ => Ok((None, pos, un)),
        }
    } else {
        Ok((None, pos, un))
    }
}

/// An optional action: `/` callable.
pub open spec fn p_action(ts: Seq<Token>, pos: int, end: usize) -> Result<(Option<Callable>, int), DiagnosticSpec> {
    if punct_at(ts, pos, '/') {
        match p_callable(ts, pos + 1, end) {
            Ok((c, p)) => Ok((Some(c), p)),
            Err(e) => Err(e),
        }
    } else {
        Ok((None, pos))
    }
}

/// The target column: `=>` then `_` or a state.
pub open spec fn p_target(ts: Seq<Token>, pos: int, end: usize) -> Result<(Target, int), DiagnosticSpec> {
    if !fat_arrow_at(ts, pos) {
        Err(diag(span_or(ts, pos, end), ErrorSpec::Syntax { expected: Expected::FatArrow }))
    } else if underscore_at(ts, pos + 2) {
        Ok((Target::Stay, pos + 3))
    } else {
        match p_ident(ts, pos + 2, end) {
            Ok((t, p)) => Ok((Target::State(t), p)),
            Err(e) => Err(e),
        }
    }
}

/// One transition row starting at token `pos`.
pub open spec fn p_row(ts: Seq<Token>, pos: int, end: usize, un: Leftover) -> Result<(RowV, int, Leftover), DiagnosticSpec> {
    match p_sources(ts, pos, end) {
        Err(e) => Err(e),
        Ok((sources, p1)) => match p_punct(ts, p1, end, '+', Expected::Plus) {
            Err(e) => Err(e),
            Ok(p2) => match p_events(ts, p2, end) {
                Err(e) => Err(e),
                Ok((events, p3)) => match p_guard(ts, p3, un) {
                    Err(e) => Err(e),
                    Ok((guard, p4, un1)) => match p_action(ts, p4, end) {
                        Err(e) => Err(e),
                        Ok((action, p5)) => match p_target(ts, p5, end) {
                            Err(e) => Err(e),
                            Ok((target, p6)) => Ok((
                                RowV { sources, events, guard, action, target, span: span_or(ts, pos, end) },
                                p6,
                                un1,
                            )),
                        },
                    },
                },
            },
        },
    }
}

/// Rows from `pos` on, after those in `acc`; rows must be separated by
/// commas.
pub open spec fn p_rows(ts: Seq<Token>, pos: int, end: usize, un: Leftover, acc: Seq<RowV>) -> Result<(Seq<RowV>, Leftover), DiagnosticSpec>
    decreases ts.len() - pos,
{
    if pos < 0 || pos >= ts.len() {
        Ok((acc, un))
    } else {
        match p_row(ts, pos, end, un) {
            Err(e) => Err(e),
            Ok((r, p, un2)) => {
                proof {
                    lemma_row_advances(ts, pos, end, un);
                }
                if punct_at(ts, p, ',') {
                    p_rows(ts, p + 1, end, un2, acc.push(r))
                } else if p < ts.len() {
                    Err(diag(ts[p].span_of(), ErrorSpec::MissingRowComma))
                } else {
                    Ok((acc.push(r), un2))
                }
            },
        }
    }
}


/// Source lists end after their start.
pub proof fn lemma_refs_advance(ts: Seq<Token>, pos: int, end: usize, acc: Seq<StateRef>)
    ensures
        p_refs(ts, pos, end, acc) matches Ok((_, p)) ==> p > pos,
    decreases ts.len() - pos,
{
    let marker = punct_at(ts, pos, '*');
    if let Ok((name, p)) = p_ident(ts, if marker { pos + 1 } else { pos }, end) {
        if punct_at(ts, p, '|') {
            lemma_refs_advance(ts, p + 1, end, acc.push(StateRef { name, initial_marker: marker }));
        }
    }
}

/// Event alternatives end after their start.
pub proof fn lemma_alts_advance(ts: Seq<Token>, pos: int, end: usize, acc: Seq<Ident>)
    ensures
        p_alts(ts, pos, end, acc) matches Ok((_, p)) ==> p > pos,
    decreases ts.len() - pos,
{
    if let Ok((e, p)) = p_ident(ts, pos, end) {
        if punct_at(ts, p, '|') {
            lemma_alts_advance(ts, p + 1, end, acc.push(e));
        }
    }
}

/// A row ends after its start.
pub proof fn lemma_row_advances(ts: Seq<Token>, pos: int, end: usize, un: Leftover)
    ensures
        p_row(ts, pos, end, un) matches Ok((_, p, _)) ==> p > pos,
{
    lemma_refs_advance(ts, pos, end, Seq::empty());
    if let Ok((_, p1)) = p_sources(ts, pos, end) {
        if let Ok(p2) = p_punct(ts, p1, end, '+', Expected::Plus) {
            lemma_alts_advance(ts, p2, end, Seq::empty());
        }
    }
}


/// A parsed list with a position, by its mathematical form.
pub open spec fn vview<T>(r: Result<(Vec<T>, usize), Diagnostic>) -> Result<(Seq<T>, int), DiagnosticSpec> {
    match r {
        Ok((v, p)) => Ok((v@, p as int)),
        Err(e) => Err(e@),
    }
}

/// Event names separated by commas: the content of the `events:` braces.
fn parse_event_list(ts: &Vec<Token>, end: usize) -> (res: Result<(Vec<Ident>, usize), Diagnostic>)
    ensures
        vview(res) == p_event_list(ts@, 0, end, Seq::empty()),
        res matches Ok((_, p)) ==> p <= ts@.len(),
{
    let n = ts.len();
    let mut out: Vec<Ident> = Vec::new();
    let mut pos: usize = 0;
    while pos < n
        invariant
            n == ts@.len(),
            pos <= n,
            p_event_list(ts@, pos as int, end, out@) == p_event_list(ts@, 0, end, Seq::empty()),
        decreases n - pos,
    {
        let (e, p) = match parse_ident(ts, pos, end) {
            Ok(x) => x,
            Err(e) => return Err(e),
        };
        out.push(e);
        if is_punct_at(ts, p, ',') {
            pos = p + 1;
        } else {
            return Ok((out, p));
        }
    }
    Ok((out, pos))
}

/// Source states `*`? Ident (`|` `*`? Ident)*.
fn parse_refs(ts: &Vec<Token>, pos: usize, end: usize) -> (res: Result<(Vec<StateRef>, usize), Diagnostic>)
    requires
        pos <= ts@.len(),
    ensures
        vview(res) == p_refs(ts@, pos as int, end, Seq::empty()),
        res matches Ok((_, p)) ==> p <= ts@.len(),
{
    let n = ts.len();
    let mut out: Vec<StateRef> = Vec::new();
    let mut cur: usize = pos;
    loop
        invariant
            n == ts@.len(),
            cur <= n,
            p_refs(ts@, cur as int, end, out@) == p_refs(ts@, pos as int, end, Seq::empty()),
        decreases n - cur,
    {
        let marker = is_punct_at(ts, cur, '*');
        let at = if marker { cur + 1 } else { cur };
        let (name, p) = match parse_ident(ts, at, end) {
            Ok(x) => x,
            Err(e) => return Err(e),
        };
        out.push(StateRef { name, initial_marker: marker });
        if is_punct_at(ts, p, '|') {
            cur = p + 1;
        } else {
            return Ok((out, p));
        }
    }
}

/// Events Ident (`|` Ident)*.
fn parse_alts(ts: &Vec<Token>, pos: usize, end: usize) -> (res: Result<(Vec<Ident>, usize), Diagnostic>)
    requires
        pos <= ts@.len(),
    ensures
        vview(res) == p_alts(ts@, pos as int, end, Seq::empty()),
        res matches Ok((_, p)) ==> p <= ts@.len(),
{
    let n = ts.len();
    let mut out: Vec<Ident> = Vec::new();
    let mut cur: usize = pos;
    loop
        invariant
            n == ts@.len(),
            cur <= n,
            p_alts(ts@, cur as int, end, out@) == p_alts(ts@, pos as int, end, Seq::empty()),
        decreases n - cur,
    {
        let (e, p) = match parse_ident(ts, cur, end) {
            Ok(x) => x,
            Err(e) => return Err(e),
        };
        out.push(e);
        if is_punct_at(ts, p, '|') {
            cur = p + 1;
        } else {
            return Ok((out, p));
        }
    }
}

/// One transition row starting at token `pos`.
fn parse_row(ts: &Vec<Token>, pos: usize, end: usize, un: Leftover) -> (res: Result<(Row, usize, Leftover), Diagnostic>)
    requires
        pos < ts@.len(),
    ensures
        match res {
            Ok((r, p, u)) => p_row(ts@, pos as int, end, un) == Ok::<_, DiagnosticSpec>((row_view(r), p as int, u))
                && p <= ts@.len(),
            Err(e) => p_row(ts@, pos as int, end, un) == Err::<(RowV, int, Leftover), _>(e@),
        },
{
    let n = ts.len();
    let span = ts[pos].span();
    let (sources, p1) = if is_underscore_at(ts, pos) {
        (SourcePattern::Any, pos + 1)
    } else {
        match parse_refs(ts, pos, end) {
            Ok((refs, p)) => (SourcePattern::States(refs), p),
            Err(e) => return Err(e),
        }
    };
    let p2 = match parse_punct(ts, p1, end, '+', Expected::Plus) {
        Ok(p) => p,
        Err(e) => return Err(e),
    };
    let (events, p3) = if is_underscore_at(ts, p2) {
        (EventPattern::Any, p2 + 1)
    } else {
        match parse_alts(ts, p2, end) {
            Ok((ids, p)) => (EventPattern::Events(ids), p),
            Err(e) => return Err(e),
        }
    };
    let mut guard: Option<Callable> = None;
    let mut p4 = p3;
    let mut un1 = un;
    if is_group_at(ts, p3, Delimiter::Bracket) {
        if let Token::Group { tokens, span: gspan, .. } = &ts[p3] {
            match parse_callable(tokens, 0, *gspan) {
                Ok((c, q)) => {
                    guard = Some(c);
                    un1 = leftover(un, tokens, q, Delimiter::Bracket);
                },
                Err(e) => return Err(e),
            }
        }
        p4 = p3 + 1;
    }
    let mut action: Option<Callable> = None;
    let mut p5 = p4;
    if is_punct_at(ts, p4, '/') {
        match parse_callable(ts, p4 + 1, end) {
            Ok((c, q)) => {
                action = Some(c);
                p5 = q;
            },
            Err(e) => return Err(e),
        }
    }
    if !is_fat_arrow_at(ts, p5) {
        return Err(Diagnostic { span: span_at(ts, p5, end), kind: ErrorKind::Syntax { expected: Expected::FatArrow } });
    }
    let (target, p6) = if is_underscore_at(ts, p5 + 2) {
        (Target::Stay, p5 + 3)
    } else {
        match parse_ident(ts, p5 + 2, end) {
            Ok((t, p)) => (Target::State(t), p),
            Err(e) => return Err(e),
        }
    };
    Ok((Row { sources, events, guard, action, target, span }, p6, un1))
}

/// Rows separated by commas: the content of the `transitions:` braces.
fn parse_rows(ts: &Vec<Token>, end: usize, un: Leftover) -> (res: Result<(Vec<Row>, Leftover), Diagnostic>)
    ensures
        match res {
            Ok((rows, u)) => p_rows(ts@, 0, end, un, Seq::empty())
                == Ok::<_, DiagnosticSpec>((rows@.map_values(|r: Row| row_view(r)), u)),
            Err(e) => p_rows(ts@, 0, end, un, Seq::empty()) == Err::<(Seq<RowV>, Leftover), _>(e@),
        },
{
    let n = ts.len();
    let mut out: Vec<Row> = Vec::new();
    let mut pos: usize = 0;
    let mut u = un;
    assert(out@.map_values(|r: Row| row_view(r)) =~= Seq::<RowV>::empty());
    while pos < n
        invariant
            n == ts@.len(),
            pos <= n,
            p_rows(ts@, pos as int, end, u, out@.map_values(|r: Row| row_view(r)))
                == p_rows(ts@, 0, end, un, Seq::empty()),
        decreases n - pos,
    {
        let (r, p, u2) = match parse_row(ts, pos, end, u) {
            Ok(x) => x,
            Err(e) => return Err(e),
        };
        proof {
            lemma_row_advances(ts@, pos as int, end, u);
        }
        let ghost before = out@;
        out.push(r);
        assert(out@.map_values(|r: Row| row_view(r)) =~= before.map_values(|r: Row| row_view(r)).push(row_view(r)));
        u = u2;
        if is_punct_at(ts, p, ',') {
            pos = p + 1;
        } else if p < n {
            return Err(Diagnostic { span: ts[p].span(), kind: ErrorKind::MissingRowComma });
        } else {
            return Ok((out, u));
        }
    }
    Ok((out, u))
}


/// The source text of a token tree.
pub open spec fn token_text(t: Token) -> Seq<char>
    decreases t,
{
    match t {
        Token::Ident(i) => i.text@,
        Token::Punct { ch, .. } => seq![ch],
        Token::Literal { text, .. } => text@,
        Token::Group { delimiter, tokens, .. } => match delimiter {
            Delimiter::Parenthesis => seq!['('] + tokens_text(tokens@) + seq![')'],
            Delimiter::Brace => seq!['{'] + tokens_text(tokens@) + seq!['}'],
            Delimiter::Bracket => seq!['['] + tokens_text(tokens@) + seq![']'],
            Delimiter::Invisible => tokens_text(tokens@),
        },
    }
}

/// What follows a token in source text: nothing after a punctuation
/// character joined to the next, a space otherwise.
pub open spec fn gap_after(t: Token) -> Seq<char> {
    match t {
        Token::Punct { joint, .. } => if joint { Seq::empty() } else { seq![' '] },
        _ => seq![' '],
    }
}

/// The source text of token trees, each followed by its gap.
pub open spec fn tokens_text(ts: Seq<Token>) -> Seq<char>
    decreases ts,
{
    if ts.len() == 0 {
        Seq::empty()
    } else {
        tokens_text(ts.drop_last()) + token_text(ts.last()) + gap_after(ts.last())
    }
}

/// Whether `syn` parses `text` as exactly one Rust type.
pub uninterp spec fn syn_accepts_type(text: Seq<char>) -> bool;

/// The number of tokens of the context type at `pos`: the longest run of at
/// most `k` tokens whose text `syn` parses as a type; 0 when there is none.
pub open spec fn type_len(ts: Seq<Token>, pos: int, k: int) -> int
    decreases k,
{
    if k <= 0 {
        0
    } else if syn_accepts_type(tokens_text(ts.subrange(pos, pos + k))) {
        k
    } else {
        type_len(ts, pos, k - 1)
    }
}

/// Where the context type starting at `pos` ends.
pub open spec fn type_end(ts: Seq<Token>, pos: int) -> int {
    pos + type_len(ts, pos, ts.len() - pos)
}

/// The header keys read so far, by their mathematical form.
pub struct HeaderV {
    pub name: Option<Ident>,
    /// The context type's first token, the token after its last, and the
    /// position of its first.
    pub context: Option<(int, int, usize)>,
    pub serde: bool,
    pub states: Option<Seq<StateV>>,
    pub events: Option<Seq<Ident>>,
    pub transitions: Option<Seq<RowV>>,
    pub unhandled: Option<Unhandled>,
    pub on_transition: Option<Callable>,
}

/// No header key read yet.
pub open spec fn empty_header() -> HeaderV {
    HeaderV {
        name: None,
        context: None,
        serde: false,
        states: None,
        events: None,
        transitions: None,
        unhandled: None,
        on_transition: None,
    }
}

/// The error for a header key given twice.
pub open spec fn duplicate(kw: Ident) -> DiagnosticSpec {
    diag(kw.span, ErrorSpec::DuplicateKey { key: kw.text@ })
}

/// The value of header key `kw` at `pos`, recorded into `h`.
pub open spec fn p_value(ts: Seq<Token>, pos: int, end: usize, kw: Ident, h: HeaderV, un: Leftover)
    -> Result<(HeaderV, int, Leftover), DiagnosticSpec>
{
    let k = kw.text@;
    if k == "name"@ {
        match p_ident(ts, pos, end) {
            Err(e) => Err(e),
            Ok((n, p)) => if h.name is Some { Err(duplicate(kw)) } else { Ok((HeaderV { name: Some(n), ..h }, p, un)) },
        }
    } else if k == "context"@ {
        let q = type_end(ts, pos);
        if q <= pos {
            Err(expected_at(ts, pos, end, Expected::Type))
        } else if h.context is Some {
            Err(duplicate(kw))
        } else {
            Ok((HeaderV { context: Some((pos, q, ts[pos].span_of())), ..h }, q, un))
        }
    } else if k == "serde"@ {
        if word_at(ts, pos, "true"@) {
            Ok((HeaderV { serde: true, ..h }, pos + 1, un))
        } else if word_at(ts, pos, "false"@) {
            Ok((HeaderV { serde: false, ..h }, pos + 1, un))
        } else {
            Err(expected_at(ts, pos, end, Expected::BooleanLiteral))
        }
    } else if k == "states"@ || k == "events"@ || k == "transitions"@ {
        if !group_at(ts, pos, Delimiter::Brace) {
            Err(expected_at(ts, pos, end, Expected::CurlyBraces))
        } else {
            match ts[pos] {
                Token::Group { tokens, span, .. } => if k == "states"@ {
                    match p_state_list(tokens@, 0, span, un, Seq::empty()) {
                        Err(e) => Err(e),
                        Ok((ss, q, un2)) => if h.states is Some {
                            Err(duplicate(kw))
                        } else {
                            Ok((HeaderV { states: Some(ss), ..h }, pos + 1, note_leftover(un2, tokens@, q, Delimiter::Brace)))
                        },
                    }
                } else if k == "events"@ {
                    match p_event_list(tokens@, 0, span, Seq::empty()) {
                        Err(e) => Err(e),
                        Ok((es, q)) => if h.events is Some {
                            Err(duplicate(kw))
                        } else {
                            Ok((HeaderV { events: Some(es), ..h }, pos + 1, note_leftover(un, tokens@, q, Delimiter::Brace)))
                        },
                    }
                } else {
                    match p_rows(tokens@, 0, span, un, Seq::empty()) {
                        Err(e) => Err(e),
                        Ok((rs, un2)) => if h.transitions is Some {
                            Err(duplicate(kw))
                        } else {
                            Ok((HeaderV { transitions: Some(rs), ..h }, pos + 1, un2))
                        },
                    }
                },
                _ => Err(expected_at(ts, pos, end, Expected::CurlyBraces)),
            }
        }
    } else if k == "unhandled"@ {
        match p_unhandled(ts, pos, end) {
            Err(e) => Err(e),
            Ok((u, p)) => if h.unhandled is Some { Err(duplicate(kw)) } else { Ok((HeaderV { unhandled: Some(u), ..h }, p, un)) },
        }
    } else if k == "on_transition"@ {
        match p_callable(ts, pos, end) {
            Err(e) => Err(e),
            Ok((c, p)) => if h.on_transition is Some {
                Err(duplicate(kw))
            } else {
                Ok((HeaderV { on_transition: Some(c), ..h }, p, un))
            },
        }
    } else {
        Err(diag(kw.span, ErrorSpec::UnknownKey { key: k }))
    }
}

/// Header entries `key: value`, each optionally followed by a comma, from
/// `pos` to the end.
pub open spec fn p_header(ts: Seq<Token>, pos: int, end: usize, h: HeaderV, un: Leftover) -> Result<(HeaderV, Leftover), DiagnosticSpec>
    decreases ts.len() - pos,
{
    if pos < 0 || pos >= ts.len() {
        Ok((h, un))
    } else {
        match p_ident(ts, pos, end) {
            Err(e) => Err(e),
            Ok((kw, p1)) => match p_punct(ts, p1, end, ':', Expected::Colon) {
                Err(e) => Err(e),
                Ok(p2) => match p_value(ts, p2, end, kw, h, un) {
                    Err(e) => Err(e),
                    Ok((h2, p3, un2)) => {
                        proof {
                            lemma_value_advances(ts, p2, end, kw, h, un);
                        }
                        p_header(ts, if punct_at(ts, p3, ',') { p3 + 1 } else { p3 }, end, h2, un2)
                    },
                },
            },
        }
    }
}

/// A value ends after its start, within the tokens.
pub proof fn lemma_value_advances(ts: Seq<Token>, pos: int, end: usize, kw: Ident, h: HeaderV, un: Leftover)
    requires
        0 <= pos,
    ensures
        p_value(ts, pos, end, kw, h, un) matches Ok((_, p, _)) ==> pos < p <= ts.len(),
{
    if pos <= ts.len() {
        lemma_type_len(ts, pos, ts.len() - pos);
    }
}

/// A type run is no longer than allowed.
pub proof fn lemma_type_len(ts: Seq<Token>, pos: int, k: int)
    ensures
        k >= 0 ==> 0 <= type_len(ts, pos, k) <= k,
        k < 0 ==> type_len(ts, pos, k) == 0,
    decreases k,
{
    if k > 0 {
        lemma_type_len(ts, pos, k - 1);
    }
}

/// A whole machine definition: the header, then the required keys, then
/// leftover tokens in groups.
pub open spec fn p_machine(ts: Seq<Token>, end: usize) -> Result<MachineV, DiagnosticSpec> {
    match p_header(ts, 0, end, empty_header(), None) {
        Err(e) => Err(e),
        Ok((h, un)) => if h.name is None {
            Err(diag(end, ErrorSpec::MissingKey { key: "name"@ }))
        } else if h.context is None {
            Err(diag(end, ErrorSpec::MissingKey { key: "context"@ }))
        } else if h.states is None {
            Err(diag(end, ErrorSpec::MissingKey { key: "states"@ }))
        } else if h.events is None {
            Err(diag(end, ErrorSpec::MissingKey { key: "events"@ }))
        } else if h.transitions is None {
            Err(diag(end, ErrorSpec::MissingKey { key: "transitions"@ }))
        } else if un is Some {
            Err(diag((un->0).0, ErrorSpec::UnexpectedToken { delimiter: (un->0).1 }))
        } else {
            let c = h.context->0;
            Ok(MachineV {
                name: h.name->0,
                context: ts.subrange(c.0, c.1),
                context_span: c.2,
                serde: h.serde,
                states: h.states->0,
                events: h.events->0,
                transitions: h.transitions->0,
                unhandled: h.unhandled,
                on_transition: h.on_transition,
            })
        },
    }
}


/// The header keys read so far.
pub struct Header {
    pub name: Option<Ident>,
    /// The context type's first token, the token after its last, and the
    /// position of its first.
    pub context: Option<(usize, usize, usize)>,
    pub serde: bool,
    pub states: Option<Vec<StateDef>>,
    pub events: Option<Vec<Ident>>,
    pub transitions: Option<Vec<Row>>,
    pub unhandled: Option<Unhandled>,
    pub on_transition: Option<Callable>,
}

/// The mathematical form of the header keys read so far.
pub open spec fn header_view(h: Header) -> HeaderV {
    HeaderV {
        name: h.name,
        context: match h.context {
            Some((a, b, c)) => Some((a as int, b as int, c)),
            None => None,
        },
        serde: h.serde,
        states: match h.states {
            Some(v) => Some(states_view(v@)),
            None => None,
        },
        events: match h.events {
            Some(v) => Some(v@),
            None => None,
        },
        transitions: match h.transitions {
            Some(v) => Some(v@.map_values(|r: Row| row_view(r))),
            None => None,
        },
        unhandled: h.unhandled,
        on_transition: h.on_transition,
    }
}

/// The context range lies within `n` tokens.
pub open spec fn context_within(h: Header, n: int) -> bool {
    h.context matches Some((a, b, _)) ==> a <= b <= n
}

/// Whether `syn` parses `text` as exactly one Rust type
/// (`syn::parse_str::<syn::Type>`); its result depends on the text alone.
#[verifier::external_body]
fn accepts_type(text: &Vec<char>) -> (res: bool)
    ensures
        res == syn_accepts_type(text@),
{
    let s: String = text.iter().collect();
    syn::parse_str::<syn::Type>(&s).is_ok()
}

/// Appends the characters of a string.
fn push_str_chars(s: &str, out: &mut Vec<char>)
    ensures
        final(out)@ == old(out)@ + s@,
{
    let n = s.unicode_len();
    let mut k: usize = 0;
    while k < n
        invariant
            n == s@.len(),
            k <= n,
            out@ == old(out)@ + s@.take(k as int),
        decreases n - k,
    {
        out.push(s.get_char(k));
        assert(s@.take(k + 1) =~= s@.take(k as int).push(s@[k as int]));
        k += 1;
    }
    assert(s@.take(n as int) =~= s@);
}

/// Appends the source text of a token tree.
fn push_token_text(t: &Token, out: &mut Vec<char>)
    ensures
        final(out)@ == old(out)@ + token_text(*t),
    decreases t,
{
    match t {
        Token::Ident(i) => push_str_chars(i.text.as_str(), out),
        Token::Punct { ch, .. } => {
            out.push(*ch);
            assert(out@ =~= old(out)@ + token_text(*t));
        },
        Token::Literal { text, .. } => push_str_chars(text.as_str(), out),
        Token::Group { delimiter, tokens, .. } => {
            let ghost start = out@;
            match delimiter {
                Delimiter::Parenthesis => out.push('('),
                Delimiter::Brace => out.push('{'),
                Delimiter::Bracket => out.push('['),
                Delimiter::Invisible => {},
            }
            let ghost opened = out@;
            push_tokens_text(tokens, 0, tokens.len(), out);
            assert(tokens@.subrange(0, tokens@.len() as int) =~= tokens@);
            match delimiter {
                Delimiter::Parenthesis => out.push(')'),
                Delimiter::Brace => out.push('}'),
                Delimiter::Bracket => out.push(']'),
                Delimiter::Invisible => {},
            }
            assert(out@ =~= old(out)@ + token_text(*t));
        },
    }
}

/// Appends the source text of tokens `from..to`.
fn push_tokens_text(ts: &Vec<Token>, from: usize, to: usize, out: &mut Vec<char>)
    requires
        from <= to <= ts@.len(),
    ensures
        final(out)@ == old(out)@ + tokens_text(ts@.subrange(from as int, to as int)),
    decreases ts@, 0int,
{
    let mut k = from;
    assert(ts@.subrange(from as int, from as int) =~= Seq::<Token>::empty());
    while k < to
        invariant
            from <= k <= to,
            to <= ts@.len(),
            out@ == old(out)@ + tokens_text(ts@.subrange(from as int, k as int)),
        decreases to - k,
    {
        proof {
            assert(decreases_to!(ts@ => ts@[k as int]));
        }
        let ghost before = out@;
        push_token_text(&ts[k], out);
        let ghost r = ts@.subrange(from as int, k + 1);
        assert(r.drop_last() =~= ts@.subrange(from as int, k as int));
        assert(r.last() == ts@[k as int]);
        match &ts[k] {
            Token::Punct { joint, .. } => {
                if !*joint {
                    out.push(' ');
                }
            },
            _ => out.push(' '),
        }
        assert(out@ =~= old(out)@ + tokens_text(r));
        k += 1;
    }
}

/// Where the context type starting at `pos` ends: after the longest run of
/// tokens whose text `syn` parses as a type.
fn find_type_end(ts: &Vec<Token>, pos: usize) -> (res: usize)
    requires
        pos <= ts@.len(),
    ensures
        res == type_end(ts@, pos as int),
{
    let n = ts.len();
    let mut k: usize = n - pos;
    while k > 0
        invariant
            n == ts@.len(),
            pos <= n,
            k <= n - pos,
            type_len(ts@, pos as int, (n - pos) as int) == type_len(ts@, pos as int, k as int),
        decreases k,
    {
        let mut text: Vec<char> = Vec::new();
        push_tokens_text(ts, pos, pos + k, &mut text);
        assert(text@ =~= tokens_text(ts@.subrange(pos as int, pos + k)));
        if accepts_type(&text) {
            return pos + k;
        }
        k -= 1;
    }
    pos
}

/// The error for a header key given twice.
fn duplicate_key(kw: Ident) -> (res: Diagnostic)
    ensures
        res@ == duplicate(kw),
{
    Diagnostic { span: kw.span, kind: ErrorKind::DuplicateKey { key: kw.text } }
}

/// The value of header key `kw` at `pos`, recorded into `h`.
fn parse_value(ts: &Vec<Token>, pos: usize, end: usize, kw: Ident, h: Header, un: Leftover)
    -> (res: Result<(Header, usize, Leftover), Diagnostic>)
    requires
        pos <= ts@.len(),
        context_within(h, ts@.len() as int),
    ensures
        match res {
            Ok((h2, p, u)) => p_value(ts@, pos as int, end, kw, header_view(h), un)
                == Ok::<_, DiagnosticSpec>((header_view(h2), p as int, u)) && context_within(h2, ts@.len() as int),
            Err(e) => p_value(ts@, pos as int, end, kw, header_view(h), un) == Err::<(HeaderV, int, Leftover), _>(e@),
        },
{
    let _n = ts.len();
    let mut h = h;
    if str_eq(kw.text.as_str(), "name") {
        match parse_ident(ts, pos, end) {
            Err(e) => Err(e),
            Ok((n, p)) => {
                if h.name.is_some() {
                    return Err(duplicate_key(kw));
                }
                h.name = Some(n);
                Ok((h, p, un))
            },
        }
    } else if str_eq(kw.text.as_str(), "context") {
        let q = find_type_end(ts, pos);
        if q <= pos {
            Err(expected_error(ts, pos, end, Expected::Type))
        } else if h.context.is_some() {
            Err(duplicate_key(kw))
        } else {
            proof {
                lemma_type_len(ts@, pos as int, ts@.len() - pos);
            }
            h.context = Some((pos, q, ts[pos].span()));
            Ok((h, q, un))
        }
    } else if str_eq(kw.text.as_str(), "serde") {
        if is_word_at(ts, pos, "true") {
            h.serde = true;
            Ok((h, pos + 1, un))
        } else if is_word_at(ts, pos, "false") {
            h.serde = false;
            Ok((h, pos + 1, un))
        } else {
            Err(expected_error(ts, pos, end, Expected::BooleanLiteral))
        }
    } else if str_eq(kw.text.as_str(), "states") || str_eq(kw.text.as_str(), "events") || str_eq(kw.text.as_str(), "transitions") {
        if !is_group_at(ts, pos, Delimiter::Brace) {
            return Err(expected_error(ts, pos, end, Expected::CurlyBraces));
        }
        match &ts[pos] {
            Token::Group { tokens, span, .. } => {
                if str_eq(kw.text.as_str(), "states") {
                    match parse_state_list(tokens, *span, un) {
                        Err(e) => Err(e),
                        Ok((ss, q, u2)) => {
                            if h.states.is_some() {
                                return Err(duplicate_key(kw));
                            }
                            h.states = Some(ss);
                            Ok((h, pos + 1, leftover(u2, tokens, q, Delimiter::Brace)))
                        },
                    }
                } else if str_eq(kw.text.as_str(), "events") {
                    match parse_event_list(tokens, *span) {
                        Err(e) => Err(e),
                        Ok((es, q)) => {
                            if h.events.is_some() {
                                return Err(duplicate_key(kw));
                            }
                            h.events = Some(es);
                            Ok((h, pos + 1, leftover(un, tokens, q, Delimiter::Brace)))
                        },
                    }
                } else {
                    match parse_rows(tokens, *span, un) {
                        Err(e) => Err(e),
                        Ok((rs, u2)) => {
                            if h.transitions.is_some() {
                                return Err(duplicate_key(kw));
                            }
                            h.transitions = Some(rs);
                            Ok((h, pos + 1, u2))
                        },
                    }
                }
            },
            _ => Err(expected_error(ts, pos, end, Expected::CurlyBraces)),
        }
    } else if str_eq(kw.text.as_str(), "unhandled") {
        match parse_unhandled(ts, pos, end) {
            Err(e) => Err(e),
            Ok((u, p)) => {
                if h.unhandled.is_some() {
                    return Err(duplicate_key(kw));
                }
                h.unhandled = Some(u);
                Ok((h, p, un))
            },
        }
    } else if str_eq(kw.text.as_str(), "on_transition") {
        match parse_callable(ts, pos, end) {
            Err(e) => Err(e),
            Ok((c, p)) => {
                if h.on_transition.is_some() {
                    return Err(duplicate_key(kw));
                }
                h.on_transition = Some(c);
                Ok((h, p, un))
            },
        }
    } else {
        Err(Diagnostic { span: kw.span, kind: ErrorKind::UnknownKey { key: kw.text } })
    }
}

/// The header entries, up to the end of the tokens.
fn parse_header(ts: &Vec<Token>, end: usize) -> (res: Result<(Header, Leftover), Diagnostic>)
    ensures
        match res {
            Ok((h, u)) => p_header(ts@, 0, end, empty_header(), None) == Ok::<_, DiagnosticSpec>((header_view(h), u))
                && context_within(h, ts@.len() as int),
            Err(e) => p_header(ts@, 0, end, empty_header(), None) == Err::<(HeaderV, Leftover), _>(e@),
        },
{
    let n = ts.len();
    let mut h = Header {
        name: None,
        context: None,
        serde: false,
        states: None,
        events: None,
        transitions: None,
        unhandled: None,
        on_transition: None,
    };
    let mut un: Leftover = None;
    let mut pos: usize = 0;
    while pos < n
        invariant
            n == ts@.len(),
            pos <= n,
            context_within(h, n as int),
            p_header(ts@, pos as int, end, header_view(h), un) == p_header(ts@, 0, end, empty_header(), None),
        decreases n - pos,
    {
        let (kw, p1) = match parse_ident(ts, pos, end) {
            Ok(x) => x,
            Err(e) => return Err(e),
        };
        let p2 = match parse_punct(ts, p1, end, ':', Expected::Colon) {
            Ok(p) => p,
            Err(e) => return Err(e),
        };
        let ghost kwv = kw;
        let ghost hv = header_view(h);
        let (h2, p3, u2) = match parse_value(ts, p2, end, kw, h, un) {
            Ok(x) => x,
            Err(e) => return Err(e),
        };
        proof {
            lemma_value_advances(ts@, p2 as int, end, kwv, hv, un);
        }
        h = h2;
        un = u2;
        pos = if is_punct_at(ts, p3, ',') { p3 + 1 } else { p3 };
    }
    Ok((h, un))
}

/// The error for a required header key that is missing.
fn missing_key(end: usize, key: &str) -> (res: Diagnostic)
    ensures
        res@ == diag(end, ErrorSpec::MissingKey { key: key@ }),
{
    Diagnostic { span: end, kind: ErrorKind::MissingKey { key: String::from_str(key) } }
}

/// Parses a machine definition from its tokens; `end` is the position
/// reported for errors at the end of the input.
pub fn parse_machine(tokens: Vec<Token>, end: usize) -> (res: Result<MachineDef, Diagnostic>)
    ensures
        match res {
            Ok(def) => p_machine(tokens@, end) == Ok::<MachineV, DiagnosticSpec>(def@),
            Err(e) => p_machine(tokens@, end) == Err::<MachineV, DiagnosticSpec>(e@),
        },
{
    let ghost ts = tokens@;
    let (h, un) = match parse_header(&tokens, end) {
        Ok(x) => x,
        Err(e) => return Err(e),
    };
    let Header { name, context, serde, states, events, transitions, unhandled, on_transition } = h;
    let name = match name {
        Some(n) => n,
        None => return Err(missing_key(end, "name")),
    };
    let (a, b, cspan) = match context {
        Some(c) => c,
        None => return Err(missing_key(end, "context")),
    };
    let states = match states {
        Some(s) => s,
        None => return Err(missing_key(end, "states")),
    };
    let events = match events {
        Some(e) => e,
        None => return Err(missing_key(end, "events")),
    };
    let transitions = match transitions {
        Some(t) => t,
        None => return Err(missing_key(end, "transitions")),
    };
    if let Some((span, d)) = un {
        return Err(Diagnostic { span, kind: ErrorKind::UnexpectedToken { delimiter: d } });
    }
    let mut v = tokens;
    let _rest = v.split_off(b);
    let ctx = v.split_off(a);
    assert(ctx@ =~= ts.subrange(a as int, b as int));
    let def = MachineDef {
        name,
        context: ContextType { tokens: ctx, span: cspan },
        serde,
        states,
        events,
        transitions,
        unhandled,
        on_transition,
    };
    Ok(def)
}

/// Reading the value of `serde` records exactly the boolean literal written
/// there: `true` gives `true`, `false` gives `false`, the value is one token
/// long, and no other header key changes; any other value is an error.
pub proof fn law_serde_value_is_literal(ts: Seq<Token>, pos: int, end: usize, kw: Ident, h: HeaderV, un: Leftover)
    requires
        kw.text@ == "serde"@,
    ensures
        word_at(ts, pos, "true"@) ==> p_value(ts, pos, end, kw, h, un) == Ok::<_, DiagnosticSpec>(
            (HeaderV { serde: true, ..h }, pos + 1, un),
        ),
        word_at(ts, pos, "false"@) ==> p_value(ts, pos, end, kw, h, un) == Ok::<_, DiagnosticSpec>(
            (HeaderV { serde: false, ..h }, pos + 1, un),
        ),
        !word_at(ts, pos, "true"@) && !word_at(ts, pos, "false"@) ==> p_value(ts, pos, end, kw, h, un) is Err,
{
    reveal_strlit("serde");
    reveal_strlit("name");
    reveal_strlit("context");
    reveal_strlit("true");
    reveal_strlit("false");
    assert(kw.text@ != "name"@) by {
        assert(kw.text@.len() != "name"@.len());
    }
    assert(kw.text@ != "context"@) by {
        assert(kw.text@.len() != "context"@.len());
    }
    assert(!(word_at(ts, pos, "true"@) && word_at(ts, pos, "false"@))) by {
        assert("true"@.len() != "false"@.len());
    }
}

} // verus!

