//! Parsing definitions, and what the plan makes of them.

use fsm_rs::coverage::row_infos;
use fsm_rs::expand::expand;
use fsm_rs::model::{EventPattern, SourcePattern, Target, Unhandled};
use fsm_rs::parse::parse_machine;
use fsm_rs::plan::{Fallback, MethodRole, Step};
use fsm_rs::runtime::Decision;
use fsm_rs::tree::Tree;
use fsm_rs::tokens::{Delimiter, Ident, Token};

/// Token trees of a definition written as text; positions count tokens.
fn tokenize(src: &str) -> Vec<Token> {
    let chars: Vec<char> = src.chars().collect();
    let mut pos = 0;
    let mut next_span = 0;
    let tokens = tokens_until(&chars, &mut pos, None, &mut next_span);
    assert_eq!(pos, chars.len(), "unbalanced brackets");
    tokens
}

fn tokens_until(chars: &[char], pos: &mut usize, close: Option<char>, next_span: &mut usize) -> Vec<Token> {
    let mut out = Vec::new();
    while *pos < chars.len() {
        let c = chars[*pos];
        if c.is_whitespace() {
            *pos += 1;
        } else if c == '/' && *pos + 1 < chars.len() && chars[*pos + 1] == '/' {
            while *pos < chars.len() && chars[*pos] != '\n' {
                *pos += 1;
            }
        } else if Some(c) == close {
            *pos += 1;
            return out;
        } else if c == '(' || c == '{' || c == '[' {
            let (delimiter, closing) = match c {
                '(' => (Delimiter::Parenthesis, ')'),
                '{' => (Delimiter::Brace, '}'),
                _ => (Delimiter::Bracket, ']'),
            };
            let span = *next_span;
            *next_span += 1;
            *pos += 1;
            let tokens = tokens_until(chars, pos, Some(closing), next_span);
            out.push(Token::Group { delimiter, tokens, span });
        } else if c.is_alphanumeric() || c == '_' {
            let start = *pos;
            while *pos < chars.len() && (chars[*pos].is_alphanumeric() || chars[*pos] == '_') {
                *pos += 1;
            }
            let text: String = chars[start..*pos].iter().collect();
            let span = *next_span;
            *next_span += 1;
            if text.chars().next().unwrap().is_ascii_digit() {
                out.push(Token::Literal { text, span });
            } else {
                out.push(Token::Ident(Ident { text, span }));
            }
        } else {
            *pos += 1;
            let joint = c == '\'' || (*pos < chars.len() && "+-*/=<>!&|^%:;,.@#$?~".contains(chars[*pos]));
            let span = *next_span;
            *next_span += 1;
            out.push(Token::Punct { ch: c, joint, span });
        }
    }
    assert!(close.is_none(), "unclosed group");
    out
}


const README_MACHINE: &str = "
    name: CircuitBreaker,
    context: Context,

    states: { *Closed, Open, HalfOpen },   // `*` marks the initial state
    events: { CallSucceeded, CallFailed, TimerFired },

    transitions: {
        Closed   + CallFailed [should_trip] / record_failure => Open,
        Closed   + CallFailed / record_failure => _,   // `_` target = stay
        Open     + TimerFired => HalfOpen,
        HalfOpen + CallSucceeded / reset => Closed,
        HalfOpen + CallFailed => Open,
        _ + TimerFired => _,                            // `_` source = any state
        _ + CallSucceeded => _,
    }

    on_transition: log_transition,         // optional hooks
    unhandled: ignore,                     // only needed if the table isn't exhaustive
";

fn texts(ids: &[Ident]) -> Vec<&str> {
    ids.iter().map(|i| i.text.as_str()).collect()
}

#[test]
fn parses_the_readme_machine() {
    let mut def = parse_machine(tokenize(README_MACHINE), 0).expect("parses");
    assert_eq!(def.name.text, "CircuitBreaker");
    assert!(!def.serde);
    assert_eq!(def.context.tokens.len(), 1);
    let states: Vec<(&str, bool)> = def.states.iter().map(|s| (s.name.text.as_str(), s.initial)).collect();
    assert_eq!(states, [("Closed", true), ("Open", false), ("HalfOpen", false)]);
    assert_eq!(texts(&def.events), ["CallSucceeded", "CallFailed", "TimerFired"]);
    assert_eq!(def.transitions.len(), 7);
    let first = &def.transitions[0];
    match &first.sources {
        SourcePattern::States(refs) => {
            assert_eq!(refs.len(), 1);
            assert_eq!(refs[0].name.text, "Closed");
            assert!(!refs[0].initial_marker);
        },
        SourcePattern::Any => panic!("a named source"),
    }
    match &first.events {
        EventPattern::Events(ids) => assert_eq!(texts(ids), ["CallFailed"]),
        EventPattern::Any => panic!("a named event"),
    }
    assert_eq!(first.guard.as_ref().unwrap().name.text, "should_trip");
    assert_eq!(first.action.as_ref().unwrap().name.text, "record_failure");
    assert!(matches!(&first.target, Target::State(t) if t.text == "Open"));
    assert!(matches!(def.transitions[1].target, Target::Stay));
    assert!(matches!(def.transitions[5].sources, SourcePattern::Any));
    assert!(matches!(def.unhandled, Some(Unhandled::Ignore)));
    assert_eq!(def.on_transition.as_ref().unwrap().name.text, "log_transition");

    let plan = expand(&mut def).expect("valid");
    assert_eq!(plan.trait_name, "CircuitBreakerContext");
    assert_eq!(texts(&plan.states), ["Closed", "Open", "HalfOpen"]);
    assert!(matches!(plan.fallback, Fallback::Ignore));
    let methods: Vec<(&str, MethodRole)> =
        plan.methods.iter().map(|m| (m.method.name.text.as_str(), m.role)).collect();
    assert_eq!(
        methods,
        [
            ("should_trip", MethodRole::Guard),
            ("record_failure", MethodRole::Mutation),
            ("reset", MethodRole::Mutation),
            ("log_transition", MethodRole::OnTransition)
        ]
    );
}

#[test]
fn nested_states_options_and_markers() {
    let src = "
        name: Battery, context: Log,
        states: { Idle, Active(entry: async on_active, exit: off_active,) { Charging(exit: off_charging), Discharging, }, Done },
        events: { PlugIn, Unplug },
        transitions: { *Idle + PlugIn => Active, *Charging | Discharging + Unplug | PlugIn => Idle, _ + _ => _, }
        unhandled: async report,
        serde: true,
    ";
    let mut def = parse_machine(tokenize(src), 0).expect("parses");
    assert!(def.serde);
    let active = &def.states[1];
    assert_eq!(active.entry.as_ref().map(|c| (c.is_async, c.name.text.as_str())), Some((true, "on_active")));
    assert_eq!(active.exit.as_ref().map(|c| (c.is_async, c.name.text.as_str())), Some((false, "off_active")));
    let children: Vec<&str> = active.children.iter().map(|s| s.name.text.as_str()).collect();
    assert_eq!(children, ["Charging", "Discharging"]);
    assert!(matches!(&def.unhandled, Some(Unhandled::Method(c)) if c.is_async && c.name.text == "report"));
    match &def.transitions[1].sources {
        SourcePattern::States(refs) => {
            let marked: Vec<(&str, bool)> = refs.iter().map(|r| (r.name.text.as_str(), r.initial_marker)).collect();
            assert_eq!(marked, [("Charging", true), ("Discharging", false)]);
        },
        SourcePattern::Any => panic!("named sources"),
    }

    // Every callable, anywhere: states in pre-order, rows, then the policy.
    let names: Vec<&str> = def.callables().iter().map(|c| c.name.text.as_str()).collect();
    assert_eq!(names, ["on_active", "off_active", "off_charging", "report"]);

    // Row markers make `Idle` and `Charging` initial; the machine is async.
    assert!(!def.states[0].initial && !def.states[1].children[0].initial);
    let plan = expand(&mut def).expect("valid");
    // The row markers are written into the definition.
    assert!(def.states[0].initial && def.states[1].children[0].initial);
    assert!(!def.states[1].children[1].initial);
    assert_eq!(texts(&plan.states), ["Idle", "Charging", "Discharging", "Done"]);
    assert_eq!(plan.initial_state(), 0);
    assert!(plan.any_async);
    assert!(plan.serde);
}

#[test]
fn methods_are_listed_once() {
    let src = "
        name: M, context: C,
        states: { *A(entry: touch), B(exit: touch) },
        events: { Go },
        transitions: { A + Go [ok] / act => B, B + Go [ok] => A, }
        unhandled: on_unhandled,
    ";
    let plan = expand(&mut parse_machine(tokenize(src), 0).unwrap()).unwrap();
    let methods: Vec<(&str, MethodRole)> =
        plan.methods.iter().map(|m| (m.method.name.text.as_str(), m.role)).collect();
    assert_eq!(
        methods,
        [
            ("touch", MethodRole::Mutation),
            ("ok", MethodRole::Guard),
            ("act", MethodRole::Mutation),
            ("on_unhandled", MethodRole::Unhandled)
        ]
    );
    assert!(matches!(&plan.fallback, Fallback::Method(c) if c.name.text == "on_unhandled"));
}

#[test]
fn block_steps_follow_the_uml_order() {
    let src = "
        name: M, context: C,
        states: { *P(exit: leave_p) { *A(exit: leave_a), B }, Q(entry: enter_q) { *R(entry: enter_r) } },
        events: { Go },
        transitions: { A + Go / act => Q, B | R + Go => _ }
        on_transition: note,
    ";
    let plan = expand(&mut parse_machine(tokenize(src), 0).unwrap()).unwrap();
    assert_eq!(texts(&plan.states), ["A", "B", "R"]);
    let steps: Vec<String> = plan.arms[0].blocks[0]
        .steps()
        .iter()
        .map(|s| match s {
            Step::Call(c) => c.name.text.clone(),
            Step::SetState(t) => format!("-> {}", plan.states[*t].text),
            Step::Notify(c) => format!("notify {}", c.name.text),
        })
        .collect();
    assert_eq!(steps, ["leave_a", "leave_p", "act", "-> R", "enter_q", "enter_r", "notify note"]);
    // A stay runs its action only.
    assert!(plan.arms[1].blocks[0].steps().is_empty());
}

#[test]
fn exhaustive_table_without_guards_always_fires() {
    let src = "
        name: M, context: C,
        states: { *A, P { *B, C } },
        events: { X, Y, Z },
        transitions: { A + X => P, P + X | Y => A, B + Z => C, _ + _ => _ }
    ";
    let plan = expand(&mut parse_machine(tokenize(src), 0).unwrap()).unwrap();
    for s in 0..plan.states.len() {
        for e in 0..plan.events.len() {
            assert!(matches!(plan.next_decision(s, e, 0), Decision::Fire { .. }), "({s}, {e})");
        }
    }
    // Child first: in B the leaf row for Z comes before the wildcard row.
    match plan.next_decision(1, 2, 0) {
        Decision::Fire { block } => assert_eq!(plan.block(1, block).row, 2),
        other => panic!("{other:?}"),
    }
    assert_eq!(plan.next_state(1, 0), 2);
}

#[test]
fn row_infos_list_leaves_in_first_appearance_order() {
    let src = "
        name: Battery, context: Ctx,
        states: {
            *Idle,
            Active(entry: enter_active, exit: exit_active) {
                *Charging(exit: exit_charging),
                Discharging(entry: enter_discharging),
            },
            Done,
        },
        events: { PlugIn, Unplug, Full, Empty, Poke },
        transitions: {
            Active | Charging + Full => _,
            _ + Poke | Poke | Nope => _,
            Done + _ => _,
        }
        unhandled: ignore,
    ";
    let def = parse_machine(tokenize(src), 0).unwrap();
    let tree = Tree::new(&def.states);
    let infos = row_infos(&def, &tree);
    assert_eq!(infos.len(), 3);
    // Charging is raised to depth 1 by the more specific source.
    assert_eq!(infos[0].leaf_specs, [(1, 1), (2, 0)]);
    assert_eq!(infos[0].ev_idxs, [2]);
    assert_eq!(infos[1].leaf_specs, [(0, -1), (1, -1), (2, -1), (3, -1)]);
    assert_eq!(infos[1].ev_idxs, [4, 4]);
    assert_eq!(infos[2].leaf_specs, [(3, 0)]);
    assert_eq!(infos[2].ev_idxs, [0, 1, 2, 3, 4]);
}
