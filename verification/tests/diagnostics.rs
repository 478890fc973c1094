//! Diagnostics: what parsing and validation report, where, and in what
//! words.

use fsm_rs::error::{Diagnostic, ErrorKind, Expected, Role};
use fsm_rs::expand::expand;
use fsm_rs::parse::parse_machine;
use fsm_rs::tokens::{Delimiter, Ident, Token};

/// Token trees of a definition written as text; positions count tokens.
fn tokenize(src: &str) -> Vec<Token> {
    let chars: Vec<char> = src.chars().collect();
    let mut pos = 0;
    let mut next_span = 0;
    let tokens = tokens_until(&chars, &mut pos, None, &mut next_span);
    assert_eq!(pos, chars.len(), "unbalanced brackets");
    tokens
}

fn tokens_until(chars: &[char], pos: &mut usize, close: Option<char>, next_span: &mut usize) -> Vec<Token> {
    let mut out = Vec::new();
    while *pos < chars.len() {
        let c = chars[*pos];
        if c.is_whitespace() {
            *pos += 1;
        } else if c == '/' && *pos + 1 < chars.len() && chars[*pos + 1] == '/' {
            while *pos < chars.len() && chars[*pos] != '\n' {
                *pos += 1;
            }
        } else if Some(c) == close {
            *pos += 1;
            return out;
        } else if c == '(' || c == '{' || c == '[' {
            let (delimiter, closing) = match c {
                '(' => (Delimiter::Parenthesis, ')'),
                '{' => (Delimiter::Brace, '}'),
                _ => (Delimiter::Bracket, ']'),
            };
            let span = *next_span;
            *next_span += 1;
            *pos += 1;
            let tokens = tokens_until(chars, pos, Some(closing), next_span);
            out.push(Token::Group { delimiter, tokens, span });
        } else if c.is_alphanumeric() || c == '_' {
            let start = *pos;
            while *pos < chars.len() && (chars[*pos].is_alphanumeric() || chars[*pos] == '_') {
                *pos += 1;
            }
            let text: String = chars[start..*pos].iter().collect();
            let span = *next_span;
            *next_span += 1;
            if text.chars().next().unwrap().is_ascii_digit() {
                out.push(Token::Literal { text, span });
            } else {
                out.push(Token::Ident(Ident { text, span }));
            }
        } else {
            *pos += 1;
            let joint = c == '\'' || (*pos < chars.len() && "+-*/=<>!&|^%:;,.@#$?~".contains(chars[*pos]));
            let span = *next_span;
            *next_span += 1;
            out.push(Token::Punct { ch: c, joint, span });
        }
    }
    assert!(close.is_none(), "unclosed group");
    out
}


/// The text of the token at position `span`, searching nested groups.
fn text_at(tokens: &[Token], span: usize) -> Option<String> {
    for t in tokens {
        match t {
            Token::Ident(i) if i.span == span => return Some(i.text.clone()),
            Token::Punct { ch, span: s, .. } if *s == span => return Some(ch.to_string()),
            Token::Literal { text, span: s } if *s == span => return Some(text.clone()),
            Token::Group { span: s, .. } if *s == span => return Some("<group>".to_string()),
            Token::Group { tokens, .. } => {
                if let Some(found) = text_at(tokens, span) {
                    return Some(found);
                }
            },
            _ => {},
        }
    }
    None
}

const END: usize = 1_000_000;

/// The diagnostics for a definition, each with the text it points at
/// (`<end>` for the end of the input), in the order reported.
fn diagnose(src: &str) -> Vec<(String, String)> {
    let tokens = tokenize(src);
    let copy = tokenize(src);
    let at = |d: &Diagnostic| if d.span == END { "<end>".to_string() } else { text_at(&copy, d.span).expect("position") };
    match parse_machine(tokens, END) {
        Err(d) => vec![(d.kind.message(), at(&d))],
        Ok(mut def) => match expand(&mut def) {
            Ok(_) => Vec::new(),
            Err(ds) => ds.iter().map(|d| (d.kind.message(), at(d))).collect(),
        },
    }
}

/// The first diagnostic's message.
fn first(src: &str) -> String {
    diagnose(src).into_iter().next().expect("a diagnostic").0
}

fn kind_of(src: &str) -> ErrorKind {
    match parse_machine(tokenize(src), END) {
        Err(d) => d.kind,
        Ok(mut def) => expand(&mut def).err().expect("errors").remove(0).kind,
    }
}

const HEADER: &str = "name: M, context: Ctx,";

fn with(body: &str) -> String {
    format!("{HEADER} {body}")
}

#[test]
fn composite_two_initials() {
    let d = diagnose(&with("states: { *A, P { *B, *C } }, events: { Go }, transitions: { _ + Go => _, }"));
    assert_eq!(
        d,
        [(
            "multiple initial states in composite `P`: `B` and `C`; only one state may be marked with `*`".to_string(),
            "C".to_string()
        )]
    );
}

#[test]
fn multiple_initial() {
    let d = diagnose(&with("states: { *A, *B }, events: { Go }, transitions: { A + Go => B, B + Go => A, }"));
    assert_eq!(
        d,
        [(
            "multiple initial states in the top level: `A` and `B`; only one state may be marked with `*`".to_string(),
            "B".to_string()
        )]
    );
}

#[test]
fn unknown_state() {
    let d = diagnose(&with(
        "states: { *A, B }, events: { Go, Stop },
         transitions: { A + Go => Nowhere, B + Stop => A, A + Stop => _, B + Go => _, }",
    ));
    assert_eq!(d, [("unknown state `Nowhere`".to_string(), "Nowhere".to_string())]);
}

#[test]
fn unreachable_row() {
    let d = diagnose(&with(
        "states: { *A, B }, events: { Go, Stop },
         transitions: { A + Go => B, A + Go => A, B + Go => A, _ + Stop => _, }",
    ));
    assert_eq!(
        d,
        [(
            "unreachable transition: all of its (state, event) pairs are already covered by earlier, more specific rows without guards"
                .to_string(),
            "A".to_string()
        )]
    );
}

#[test]
fn missing_pairs_are_listed_with_a_count_of_the_rest() {
    let d = diagnose(&with("states: { *A, B, C }, events: { E1, E2, E3, E4 }, transitions: { A + E1 => B, }"));
    assert_eq!(d.len(), 1);
    assert_eq!(
        d[0].0,
        "unhandled transitions in `M`: (A, E2), (A, E3), (A, E4), (B, E1), (B, E2), (B, E3), (B, E4), (C, E1) and 3 more\n\
         add transitions, a wildcard arm (`_ + Event => ...`), or an `unhandled:` policy"
    );
    assert_eq!(d[0].1, "M");
    let d = diagnose(&with("states: { *A, B }, events: { Go }, transitions: { A + Go => B, }"));
    assert_eq!(
        d[0].0,
        "unhandled transitions in `M`: (B, Go)\nadd transitions, a wildcard arm (`_ + Event => ...`), or an `unhandled:` policy"
    );
    // A policy makes a partial table legal.
    assert!(diagnose(&with("states: { *A, B }, events: { Go }, transitions: { A + Go => B, } unhandled: ignore")).is_empty());
}

#[test]
fn names_are_checked() {
    let d = diagnose(&with(
        "states: { *A, B { *A } }, events: { Go, Go },
         transitions: { A | Q + Go | Nope => _, _ + _ => _ }",
    ));
    let messages: Vec<&str> = d.iter().map(|(m, _)| m.as_str()).collect();
    assert_eq!(
        messages,
        ["duplicate state `A`", "duplicate event `Go`", "unknown state `Q`", "unknown event `Nope`"]
    );
}

#[test]
fn empty_lists_are_rejected_alone() {
    assert_eq!(
        diagnose(&with("states: { }, events: { }, transitions: { }")),
        [
            ("at least one state is required".to_string(), "M".to_string()),
            ("at least one event is required".to_string(), "M".to_string())
        ]
    );
}

#[test]
fn context_must_be_a_plain_path() {
    let src = "name: M, context: Vec<u8>, states: { *A }, events: { Go }, transitions: { _ + _ => _ }";
    assert_eq!(
        diagnose(src),
        [("context must be a plain, non-generic type (generic contexts are not supported yet)".to_string(), "Vec".to_string())]
    );
    let src = "name: M, context: ::my::Ctx states: { *A }, events: { Go }, transitions: { _ + _ => _ }";
    assert!(diagnose(src).is_empty());
    let def = parse_machine(tokenize(src), END).unwrap();
    assert_eq!(def.context.tokens.len(), 6);
}

#[test]
fn composites_must_mark_an_initial_child() {
    assert_eq!(
        diagnose(&with("states: { *A, P { B, C } }, events: { Go }, transitions: { _ + Go => _ }")),
        [("composite state `P` must mark exactly one initial child with `*`".to_string(), "P".to_string())]
    );
    // A `*` on a row source marks the initial child instead.
    assert!(diagnose(&with("states: { *A, P { B, C } }, events: { Go }, transitions: { *B + Go => _, _ + Go => _ }"))
        .is_empty());
    assert!(diagnose(&with("states: { *A, P { B, C } }, events: { Go }, transitions: { *B + Go => _, A | C + Go => _ }"))
        .is_empty());
}

#[test]
fn one_method_one_role() {
    assert_eq!(
        first(&with(
            "states: { *A(entry: go), B }, events: { Go }, transitions: { A + Go [go] => B, B + Go => A }"
        )),
        "method `go` is used both as a entry and as a guard; these roles have different signatures"
    );
    assert_eq!(
        kind_of(&with("states: { *A(exit: f), B }, events: { Go }, transitions: { A + Go [f] => B, B + Go => A }")),
        ErrorKind::RoleConflict { method: "f".to_string(), role: Role::Exit, other_role: Role::Guard }
    );
}

#[test]
fn header_errors() {
    assert_eq!(
        diagnose("name: M, colour: red"),
        [(
            "unknown key `colour`; expected one of: name, context, serde, states, events, transitions, unhandled, on_transition"
                .to_string(),
            "colour".to_string()
        )]
    );
    assert_eq!(diagnose("name: M, name: N"), [("duplicate key `name`".to_string(), "name".to_string())]);
    assert_eq!(
        diagnose("name: M, context: C, states: { *A }, events: { E }"),
        [("unexpected end of input, missing required key `transitions`".to_string(), "<end>".to_string())]
    );
    assert_eq!(
        diagnose("context: C"),
        [("unexpected end of input, missing required key `name`".to_string(), "<end>".to_string())]
    );
    assert_eq!(diagnose("name M"), [("expected `:`".to_string(), "M".to_string())]);
    assert_eq!(diagnose("name:"), [("unexpected end of input, expected identifier".to_string(), "<end>".to_string())]);
    assert_eq!(diagnose("name: 5"), [("expected identifier".to_string(), "5".to_string())]);
    assert_eq!(
        diagnose("name: fn"),
        [("expected identifier, found keyword `fn`".to_string(), "fn".to_string())]
    );
    assert_eq!(diagnose("serde: yes"), [("expected boolean literal".to_string(), "yes".to_string())]);
    assert_eq!(diagnose("context: , name: M"), [("expected type".to_string(), ",".to_string())]);
    assert_eq!(diagnose("states: (A)"), [("expected curly braces".to_string(), "<group>".to_string())]);
    assert_eq!(kind_of("states: A"), ErrorKind::Syntax { expected: Expected::CurlyBraces });
    assert_eq!(kind_of("states:"), ErrorKind::UnexpectedEnd { expected: Expected::CurlyBraces });
}

#[test]
fn state_and_row_errors() {
    assert_eq!(
        first(&with("states: { *A(enter: f) }")),
        "unknown state option `enter`; expected `entry` or `exit`"
    );
    assert_eq!(first(&with("states: { *A(entry: f, entry: g) }")), "duplicate key `entry`");
    assert_eq!(first(&with("states: { *A }, events: { E }, transitions: { A => A }")), "expected `+`");
    assert_eq!(first(&with("states: { *A }, events: { E }, transitions: { A + E = A }")), "expected `=>`");
    assert_eq!(
        diagnose(&with("states: { *A }, events: { E }, transitions: { A + E => A A + E => A }")),
        [("expected `,` between transitions".to_string(), "A".to_string())]
    );
    assert_eq!(
        first(&with("states: { *A }, events: { E }, transitions: { A + E / => A }")),
        "expected identifier"
    );
}

#[test]
fn leftover_tokens_are_reported_after_the_rest_parsed() {
    assert_eq!(
        diagnose(&with("states: { *A B }, events: { E }, transitions: { _ + _ => _ }")),
        [("unexpected token, expected `}`".to_string(), "B".to_string())]
    );
    assert_eq!(
        diagnose(&with("states: { *A }, events: { E }, transitions: { A + E [g h] => _ }")),
        [("unexpected token, expected `]`".to_string(), "h".to_string())]
    );
    assert_eq!(
        diagnose(&with("states: { *A(entry: f g) }, events: { E }, transitions: { _ + _ => _ }")),
        [("unexpected token, expected `)`".to_string(), "g".to_string())]
    );
    // A later syntax error wins over an earlier leftover.
    assert_eq!(
        first(&with("states: { *A B }, events: { E }, transitions: { A E }")),
        "expected `+`"
    );
    assert_eq!(kind_of(&with("events: { E F }")), ErrorKind::MissingKey { key: "states".to_string() });
}

#[test]
fn decimal_counts() {
    assert_eq!(fsm_rs::error::decimal(0), "0");
    assert_eq!(fsm_rs::error::decimal(7), "7");
    assert_eq!(fsm_rs::error::decimal(1204), "1204");
}

#[test]
fn hooks_and_actions_share_a_signature() {
    // Entry hook, exit hook and action all take `&mut self`.
    assert!(diagnose(&with(
        "states: { *A(entry: log), B(exit: log) }, events: { Go }, transitions: { A + Go / log => B, B + Go => A }"
    ))
    .is_empty());
    assert_eq!(
        first(&with("states: { *A(entry: log), B }, events: { Go }, transitions: { A + Go / log => B, B + Go => A } on_transition: log")),
        "method `log` is used both as a entry and as a on_transition; these roles have different signatures"
    );
}

#[test]
fn arrows_inside_the_context_type_close_no_bracket() {
    let src = "name: M, context: Foo<fn() -> u8, X>, states: { *A }, events: { Go }, transitions: { _ + _ => _ }";
    assert_eq!(
        diagnose(src),
        [("context must be a plain, non-generic type (generic contexts are not supported yet)".to_string(), "Foo".to_string())]
    );
    let def = parse_machine(tokenize(src), END).unwrap();
    assert_eq!(def.context.tokens.len(), 10);
}

#[test]
fn the_context_type_is_what_syn_parses_as_a_type() {
    assert_eq!(
        diagnose("name: M, context: struct, states: { *A }, events: { Go }, transitions: { _ + _ => _ }"),
        [("expected type".to_string(), "struct".to_string())]
    );
    // `Ctx` is the type; `Foo` then starts the next key, which needs a `:`.
    assert_eq!(
        diagnose("name: M, context: Ctx Foo, states: { *A }, events: { Go }, transitions: { _ + _ => _ }"),
        [("expected `:`".to_string(), ",".to_string())]
    );
    let def = parse_machine(tokenize("name: M, context: &'static Ctx, states: { *A }"), END);
    assert!(matches!(def, Err(d) if d.kind == ErrorKind::MissingKey { key: "events".to_string() }));
}
