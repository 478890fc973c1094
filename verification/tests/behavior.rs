//! Machines run over their plans: guards, stays, the unhandled policy and
//! the runtime error.

use fsm_rs::expand::expand;
use fsm_rs::parse::parse_machine;
use fsm_rs::plan::{Fallback, MachinePlan, Step};
use fsm_rs::runtime::{Decision, TransitionError};
use fsm_rs::tokens::{Delimiter, Ident, Token};

/// Token trees of a definition written as text; positions count tokens.
fn tokenize(src: &str) -> Vec<Token> {
    let chars: Vec<char> = src.chars().collect();
    let mut pos = 0;
    let mut next_span = 0;
    let tokens = tokens_until(&chars, &mut pos, None, &mut next_span);
    assert_eq!(pos, chars.len(), "unbalanced brackets");
    tokens
}

fn tokens_until(chars: &[char], pos: &mut usize, close: Option<char>, next_span: &mut usize) -> Vec<Token> {
    let mut out = Vec::new();
    while *pos < chars.len() {
        let c = chars[*pos];
        if c.is_whitespace() {
            *pos += 1;
        } else if c == '/' && *pos + 1 < chars.len() && chars[*pos + 1] == '/' {
            while *pos < chars.len() && chars[*pos] != '\n' {
                *pos += 1;
            }
        } else if Some(c) == close {
            *pos += 1;
            return out;
        } else if c == '(' || c == '{' || c == '[' {
            let (delimiter, closing) = match c {
                '(' => (Delimiter::Parenthesis, ')'),
                '{' => (Delimiter::Brace, '}'),
                _ => (Delimiter::Bracket, ']'),
            };
            let span = *next_span;
            *next_span += 1;
            *pos += 1;
            let tokens = tokens_until(chars, pos, Some(closing), next_span);
            out.push(Token::Group { delimiter, tokens, span });
        } else if c.is_alphanumeric() || c == '_' {
            let start = *pos;
            while *pos < chars.len() && (chars[*pos].is_alphanumeric() || chars[*pos] == '_') {
                *pos += 1;
            }
            let text: String = chars[start..*pos].iter().collect();
            let span = *next_span;
            *next_span += 1;
            if text.chars().next().unwrap().is_ascii_digit() {
                out.push(Token::Literal { text, span });
            } else {
                out.push(Token::Ident(Ident { text, span }));
            }
        } else {
            *pos += 1;
            let joint = c == '\'' || (*pos < chars.len() && "+-*/=<>!&|^%:;,.@#$?~".contains(chars[*pos]));
            let span = *next_span;
            *next_span += 1;
            out.push(Token::Punct { ch: c, joint, span });
        }
    }
    assert!(close.is_none(), "unclosed group");
    out
}

/// The plan of a definition that parses and passes validation.
fn plan_of(src: &str) -> MachinePlan {
    let mut def = parse_machine(tokenize(src), usize::MAX).expect("parses");
    expand(&mut def).expect("valid")
}

/// The user's methods, called by name.
trait Ctx {
    fn guard(&self, _method: &str) -> bool {
        true
    }
    fn call(&mut self, _method: &str) {}
    fn unhandled(&mut self, _method: &str, _state: &str, _event: &str) {}
    fn transition(&mut self, _method: &str, _from: &str, _to: &str, _event: &str) {}
}

/// A machine run over its plan: the host side of dispatch.
struct Machine<C: Ctx> {
    plan: MachinePlan,
    state: usize,
    ctx: C,
}

impl<C: Ctx> Machine<C> {
    fn new(src: &str, ctx: C) -> Self {
        let plan = plan_of(src);
        let state = plan.initial_state();
        Machine { plan, state, ctx }
    }

    fn state(&self) -> &str {
        &self.plan.states[self.state].text
    }

    fn process_event(&mut self, event: &str) -> Result<(), TransitionError<String, String>> {
        let e = self.plan.events.iter().position(|x| x.text == event).expect("declared event");
        let from = self.state;
        let mut k = 0;
        loop {
            match self.plan.next_decision(from, e, k) {
                Decision::Guard { block } => {
                    let g = self.plan.block(from, block).guard.as_ref().unwrap().name.text.clone();
                    if self.ctx.guard(&g) {
                        self.fire(block, e);
                        return Ok(());
                    }
                    k = block + 1;
                },
                Decision::Fire { block } => {
                    self.fire(block, e);
                    return Ok(());
                },
                Decision::NoMatch => {
                    if let Fallback::Method(c) = &self.plan.fallback {
                        let (m, s, ev) = (c.name.text.clone(), self.state().to_string(), event.to_string());
                        self.ctx.unhandled(&m, &s, &ev);
                    }
                    return self.plan.unhandled_outcome(from, e).map_err(|err| match err {
                        TransitionError::Unhandled { state, event } => TransitionError::Unhandled {
                            state: self.plan.states[state].text.clone(),
                            event: self.plan.events[event].text.clone(),
                        },
                    });
                },
            }
        }
    }

    fn fire(&mut self, block: usize, e: usize) {
        let from = self.state;
        for step in self.plan.block(from, block).steps() {
            match step {
                Step::Call(c) => self.ctx.call(&c.name.text),
                Step::SetState(target) => self.state = target,
                Step::Notify(c) => {
                    let (f, t, ev) = (
                        self.plan.states[from].text.clone(),
                        self.state().to_string(),
                        self.plan.events[e].text.clone(),
                    );
                    self.ctx.transition(&c.name.text, &f, &t, &ev);
                },
            }
        }
    }
}

// ---------------------------------------------------------------------------
// Sync machine with guards, actions, entry hook and on_transition.
// ---------------------------------------------------------------------------

const BREAKER: &str = "
    name: Breaker,
    context: Ctx,

    states: { *Closed, Open(entry: on_open), HalfOpen },
    events: { Success, Fail, Tick },

    transitions: {
        Closed + Fail [should_trip] / record => Open,
        Closed + Fail / record => _,
        Open + Tick => HalfOpen,
        Open + Fail / record => _,
        HalfOpen + Success / reset => Closed,
        HalfOpen + Fail => Open,
        _ + Success => _,
        Closed | HalfOpen + Tick => _,
    }

    on_transition: note,
";

struct BreakerCtx {
    failures: u32,
    log: Vec<String>,
}

impl Ctx for BreakerCtx {
    fn guard(&self, method: &str) -> bool {
        assert_eq!(method, "should_trip");
        self.failures >= 1
    }
    fn call(&mut self, method: &str) {
        match method {
            "record" => {
                self.failures += 1;
                self.log.push("record".into());
            },
            "reset" => {
                self.failures = 0;
                self.log.push("reset".into());
            },
            "on_open" => self.log.push("enter Open".into()),
            other => panic!("unexpected method {other}"),
        }
    }
    fn transition(&mut self, method: &str, from: &str, to: &str, _event: &str) {
        assert_eq!(method, "note");
        self.log.push(format!("{from} -> {to}"));
    }
}

fn breaker() -> Machine<BreakerCtx> {
    Machine::new(BREAKER, BreakerCtx { failures: 0, log: Vec::new() })
}

#[test]
fn guard_fallthrough_then_trip() {
    let mut m = breaker();
    assert_eq!(m.state(), "Closed");

    // Guard fails (failures == 0): second row fires, stay, no hooks.
    m.process_event("Fail").unwrap();
    assert_eq!(m.state(), "Closed");
    assert_eq!(m.ctx.log, ["record"]);

    // Guard passes now: transition to Open with action, entry hook and
    // on_transition.
    m.process_event("Fail").unwrap();
    assert_eq!(m.state(), "Open");
    assert_eq!(m.ctx.log, ["record", "record", "enter Open", "Closed -> Open"]);
}

#[test]
fn full_cycle_and_goto_self_fires_hooks() {
    let mut m = breaker();
    m.process_event("Fail").unwrap();
    m.process_event("Fail").unwrap();
    assert_eq!(m.state(), "Open");

    m.process_event("Tick").unwrap();
    assert_eq!(m.state(), "HalfOpen");

    // HalfOpen + Fail => Open: entry hook fires again (goto, not stay).
    m.process_event("Fail").unwrap();
    assert_eq!(m.state(), "Open");
    assert!(m.ctx.log.iter().any(|l| l == "HalfOpen -> Open"));

    // Back to Closed via HalfOpen + Success.
    m.process_event("Tick").unwrap();
    m.process_event("Success").unwrap();
    assert_eq!(m.state(), "Closed");
    assert_eq!(m.ctx.failures, 0);
}

#[test]
fn stay_does_not_fire_hooks() {
    let mut m = breaker();
    m.process_event("Success").unwrap(); // `_ + Success => _`
    assert_eq!(m.state(), "Closed");
    assert!(m.ctx.log.is_empty());
}

// ---------------------------------------------------------------------------
// Unhandled policy: method receives anything without a matching row.
// ---------------------------------------------------------------------------

struct DoorCtx {
    rejected: Vec<(String, String)>,
}

impl Ctx for DoorCtx {
    fn unhandled(&mut self, method: &str, state: &str, event: &str) {
        assert_eq!(method, "on_unhandled");
        self.rejected.push((state.to_string(), event.to_string()));
    }
}

#[test]
fn unhandled_method_receives_unmatched_events() {
    let mut m = Machine::new(
        "
        name: Door,
        context: Ctx,

        states: { *Locked, Unlocked },
        events: { Coin, Push, Kick },

        transitions: {
            Locked + Coin => Unlocked,
            Unlocked + Push => Locked,
        }

        unhandled: on_unhandled,
        ",
        DoorCtx { rejected: Vec::new() },
    );
    m.process_event("Kick").unwrap();
    m.process_event("Push").unwrap(); // only valid when Unlocked
    assert_eq!(m.state(), "Locked");
    assert_eq!(
        m.ctx.rejected,
        [("Locked".to_string(), "Kick".to_string()), ("Locked".to_string(), "Push".to_string())]
    );

    m.process_event("Coin").unwrap();
    assert_eq!(m.state(), "Unlocked");
}

// ---------------------------------------------------------------------------
// Guard failure with no fallback row and no policy -> runtime error.
// ---------------------------------------------------------------------------

struct StrictCtx {
    allowed: bool,
}

impl Ctx for StrictCtx {
    fn guard(&self, method: &str) -> bool {
        assert_eq!(method, "allowed");
        self.allowed
    }
}

#[test]
fn guard_failure_without_fallback_is_runtime_error() {
    let mut m = Machine::new(
        "
        name: Strict,
        context: Ctx,

        states: { *A, B },
        events: { Go, Stop },

        transitions: {
            A + Go [allowed] => B,
            B + Stop => A,
            A + Stop => _,
            B + Go => _,
        }
        ",
        StrictCtx { allowed: false },
    );
    let err = m.process_event("Go").unwrap_err();
    assert_eq!(err, TransitionError::Unhandled { state: "A".to_string(), event: "Go".to_string() });
    assert_eq!(m.state(), "A");

    m.ctx.allowed = true;
    m.process_event("Go").unwrap();
    assert_eq!(m.state(), "B");

    m.process_event("Stop").unwrap();
    assert_eq!(m.state(), "A");
}

// ---------------------------------------------------------------------------
// Async machine: async guard, action and exit hook. The plan marks the
// machine async; the dispatch order is the same.
// ---------------------------------------------------------------------------

const ASYNC_MACHINE: &str = "
    name: AsyncMachine,
    context: Ctx,

    states: { *Idle, Working(exit: async cleanup) },
    events: { Start, Finish, Ping },

    transitions: {
        Idle + Start [async can_start_guard] / async begin => Working,
        Idle + Start => _,
        Working + Finish => Idle,
        _ + Ping => _,
        Working + Start => _,
        Idle + Finish => _,
    }
";

struct AsyncCtx {
    can_start: bool,
    log: Vec<&'static str>,
}

impl Ctx for AsyncCtx {
    fn guard(&self, method: &str) -> bool {
        assert_eq!(method, "can_start_guard");
        self.can_start
    }
    fn call(&mut self, method: &str) {
        match method {
            "begin" => self.log.push("begin"),
            "cleanup" => self.log.push("cleanup"),
            other => panic!("unexpected method {other}"),
        }
    }
}

#[test]
fn async_machine() {
    let mut m = Machine::new(ASYNC_MACHINE, AsyncCtx { can_start: true, log: Vec::new() });
    assert!(m.plan.any_async);

    m.process_event("Ping").unwrap();
    assert_eq!(m.state(), "Idle"); // wildcard stay

    m.process_event("Start").unwrap();
    assert_eq!(m.state(), "Working");
    assert_eq!(m.ctx.log, ["begin"]);

    m.process_event("Finish").unwrap();
    assert_eq!(m.state(), "Idle");
    assert_eq!(m.ctx.log, ["begin", "cleanup"]);
}

#[test]
fn async_guard_fallthrough() {
    let mut m = Machine::new(ASYNC_MACHINE, AsyncCtx { can_start: false, log: Vec::new() });
    m.process_event("Start").unwrap();
    assert_eq!(m.state(), "Idle"); // second row: stay
    assert!(m.ctx.log.is_empty());
}

// ---------------------------------------------------------------------------
// Mixed machine: sync and async callbacks in one machine.
// ---------------------------------------------------------------------------

struct MixedCtx {
    log: Vec<&'static str>,
}

impl Ctx for MixedCtx {
    fn call(&mut self, method: &str) {
        match method {
            "act" => self.log.push("act"),
            "sync_exit" => self.log.push("exit"),
            other => panic!("unexpected method {other}"),
        }
    }
    fn transition(&mut self, method: &str, _from: &str, _to: &str, _event: &str) {
        assert_eq!(method, "sync_note");
        self.log.push("note");
    }
}

#[test]
fn mixed_sync_and_async_callbacks() {
    let mut m = Machine::new(
        "
        name: Mixed,
        context: Ctx,

        states: { *A, B(exit: sync_exit) },
        events: { Go, Back },

        transitions: {
            A + Go [sync_guard] / async act => B,
            B + Back => A,
            A + Back => _,
            B + Go => _,
        }

        on_transition: sync_note,
        ",
        MixedCtx { log: Vec::new() },
    );
    assert!(m.plan.any_async);
    m.process_event("Go").unwrap();
    assert_eq!(m.state(), "B");
    assert_eq!(m.ctx.log, ["act", "note"]);

    m.process_event("Back").unwrap();
    assert_eq!(m.state(), "A");
    assert_eq!(m.ctx.log, ["act", "note", "exit", "note"]);
}

#[test]
fn ignore_policy_accepts_unmatched_events() {
    let mut m = Machine::new(
        "
        name: Quiet,
        context: Ctx,
        states: { *A, B },
        events: { Go, Noise },
        transitions: { A + Go => B }
        unhandled: ignore,
        ",
        StrictCtx { allowed: true },
    );
    assert!(!m.plan.any_async);
    m.process_event("Noise").unwrap();
    assert_eq!(m.state(), "A");
    m.process_event("Go").unwrap();
    assert_eq!(m.state(), "B");
    m.process_event("Go").unwrap();
    assert_eq!(m.state(), "B");
}
