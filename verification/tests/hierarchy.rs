//! Hierarchical machines run over their plans: entering composites, the
//! exit/entry order through the common ancestor, and child-first dispatch.

use fsm_rs::expand::expand;
use fsm_rs::parse::parse_machine;
use fsm_rs::plan::{Fallback, MachinePlan, Step};
use fsm_rs::runtime::{Decision, TransitionError};
use fsm_rs::tokens::{Delimiter, Ident, Token};

/// Token trees of a definition written as text; positions count tokens.
fn tokenize(src: &str) -> Vec<Token> {
    let chars: Vec<char> = src.chars().collect();
    let mut pos = 0;
    let mut next_span = 0;
    let tokens = tokens_until(&chars, &mut pos, None, &mut next_span);
    assert_eq!(pos, chars.len(), "unbalanced brackets");
    tokens
}

fn tokens_until(chars: &[char], pos: &mut usize, close: Option<char>, next_span: &mut usize) -> Vec<Token> {
    let mut out = Vec::new();
    while *pos < chars.len() {
        let c = chars[*pos];
        if c.is_whitespace() {
            *pos += 1;
        } else if c == '/' && *pos + 1 < chars.len() && chars[*pos + 1] == '/' {
            while *pos < chars.len() && chars[*pos] != '\n' {
                *pos += 1;
            }
        } else if Some(c) == close {
            *pos += 1;
            return out;
        } else if c == '(' || c == '{' || c == '[' {
            let (delimiter, closing) = match c {
                '(' => (Delimiter::Parenthesis, ')'),
                '{' => (Delimiter::Brace, '}'),
                _ => (Delimiter::Bracket, ']'),
            };
            let span = *next_span;
            *next_span += 1;
            *pos += 1;
            let tokens = tokens_until(chars, pos, Some(closing), next_span);
            out.push(Token::Group { delimiter, tokens, span });
        } else if c.is_alphanumeric() || c == '_' {
            let start = *pos;
            while *pos < chars.len() && (chars[*pos].is_alphanumeric() || chars[*pos] == '_') {
                *pos += 1;
            }
            let text: String = chars[start..*pos].iter().collect();
            let span = *next_span;
            *next_span += 1;
            if text.chars().next().unwrap().is_ascii_digit() {
                out.push(Token::Literal { text, span });
            } else {
                out.push(Token::Ident(Ident { text, span }));
            }
        } else {
            *pos += 1;
            let joint = c == '\'' || (*pos < chars.len() && "+-*/=<>!&|^%:;,.@#$?~".contains(chars[*pos]));
            let span = *next_span;
            *next_span += 1;
            out.push(Token::Punct { ch: c, joint, span });
        }
    }
    assert!(close.is_none(), "unclosed group");
    out
}

/// The plan of a definition that parses and passes validation.
fn plan_of(src: &str) -> MachinePlan {
    let mut def = parse_machine(tokenize(src), usize::MAX).expect("parses");
    expand(&mut def).expect("valid")
}

/// The user's methods, called by name.
trait Ctx {
    fn guard(&self, _method: &str) -> bool {
        true
    }
    fn call(&mut self, _method: &str) {}
    fn unhandled(&mut self, _method: &str, _state: &str, _event: &str) {}
    fn transition(&mut self, _method: &str, _from: &str, _to: &str, _event: &str) {}
}

/// A machine run over its plan: the host side of dispatch.
struct Machine<C: Ctx> {
    plan: MachinePlan,
    state: usize,
    ctx: C,
}

impl<C: Ctx> Machine<C> {
    fn new(src: &str, ctx: C) -> Self {
        let plan = plan_of(src);
        let state = plan.initial_state();
        Machine { plan, state, ctx }
    }

    fn state(&self) -> &str {
        &self.plan.states[self.state].text
    }

    fn process_event(&mut self, event: &str) -> Result<(), TransitionError<String, String>> {
        let e = self.plan.events.iter().position(|x| x.text == event).expect("declared event");
        let from = self.state;
        let mut k = 0;
        loop {
            match self.plan.next_decision(from, e, k) {
                Decision::Guard { block } => {
                    let g = self.plan.block(from, block).guard.as_ref().unwrap().name.text.clone();
                    if self.ctx.guard(&g) {
                        self.fire(block, e);
                        return Ok(());
                    }
                    k = block + 1;
                },
                Decision::Fire { block } => {
                    self.fire(block, e);
                    return Ok(());
                },
                Decision::NoMatch => {
                    if let Fallback::Method(c) = &self.plan.fallback {
                        let (m, s, ev) = (c.name.text.clone(), self.state().to_string(), event.to_string());
                        self.ctx.unhandled(&m, &s, &ev);
                    }
                    return self.plan.unhandled_outcome(from, e).map_err(|err| match err {
                        TransitionError::Unhandled { state, event } => TransitionError::Unhandled {
                            state: self.plan.states[state].text.clone(),
                            event: self.plan.events[event].text.clone(),
                        },
                    });
                },
            }
        }
    }

    fn fire(&mut self, block: usize, e: usize) {
        let from = self.state;
        for step in self.plan.block(from, block).steps() {
            match step {
                Step::Call(c) => self.ctx.call(&c.name.text),
                Step::SetState(target) => self.state = target,
                Step::Notify(c) => {
                    let (f, t, ev) = (
                        self.plan.states[from].text.clone(),
                        self.state().to_string(),
                        self.plan.events[e].text.clone(),
                    );
                    self.ctx.transition(&c.name.text, &f, &t, &ev);
                },
            }
        }
    }
}

// ---------------------------------------------------------------------------
// LCA entry/exit ordering, entering composites, composite rows, self-transitions.
// ---------------------------------------------------------------------------

const BATTERY: &str = "
    name: Battery,
    context: Ctx,

    states: {
        *Idle,
        Active(entry: enter_active, exit: exit_active) {
            *Charging(exit: exit_charging),
            Discharging(entry: enter_discharging),
        },
        Done,
    },
    events: { PlugIn, Unplug, Full, Empty, Poke },

    transitions: {
        Idle + PlugIn => Active,            // enters initial: Charging
        Charging + Full => Discharging,     // sibling move
        Active + Unplug => Idle,            // composite row: any leaf of Active
        Charging + Empty => Done,
        Discharging + Empty => Done,
        Charging + PlugIn => Charging,      // explicit self-transition
        Discharging + PlugIn | Full => _,
        Idle + Unplug | Full | Empty => _,
        Done + PlugIn | Unplug | Full | Empty => _,
        _ + Poke => _,
    }

    on_transition: note,
";

struct LogCtx {
    log: Vec<String>,
}

impl Ctx for LogCtx {
    fn call(&mut self, method: &str) {
        let entry = match method {
            "enter_active" => "+Active",
            "exit_active" => "-Active",
            "exit_charging" => "-Charging",
            "enter_discharging" => "+Discharging",
            other => panic!("unexpected method {other}"),
        };
        self.log.push(entry.into());
    }
    fn transition(&mut self, method: &str, from: &str, to: &str, _event: &str) {
        assert_eq!(method, "note");
        self.log.push(format!("{from}->{to}"));
    }
}

fn battery() -> Machine<LogCtx> {
    Machine::new(BATTERY, LogCtx { log: Vec::new() })
}

#[test]
fn entering_composite_enters_initial_leaf_with_entry_chain() {
    let mut m = battery();
    assert_eq!(m.state(), "Idle");

    m.process_event("PlugIn").unwrap();
    assert_eq!(m.state(), "Charging");
    // exit(Idle: none) -> entry path [Active, Charging] -> on_transition
    assert_eq!(m.ctx.log, ["+Active", "Idle->Charging"]);
}

#[test]
fn sibling_transition_does_not_touch_composite_hooks() {
    let mut m = battery();
    m.process_event("PlugIn").unwrap();
    m.ctx.log.clear();

    m.process_event("Full").unwrap();
    assert_eq!(m.state(), "Discharging");
    assert_eq!(m.ctx.log, ["-Charging", "+Discharging", "Charging->Discharging"]);
}

#[test]
fn composite_row_fires_from_any_leaf_and_exits_innermost_first() {
    let mut m = battery();
    m.process_event("PlugIn").unwrap();
    m.process_event("Full").unwrap(); // now Discharging
    m.ctx.log.clear();

    // Active + Unplug covers Discharging too; exit path = [Discharging, Active].
    m.process_event("Unplug").unwrap();
    assert_eq!(m.state(), "Idle");
    assert_eq!(m.ctx.log, ["-Active", "Discharging->Idle"]);

    // From Charging the leaf exit hook runs first.
    let mut m = battery();
    m.process_event("PlugIn").unwrap();
    m.ctx.log.clear();
    m.process_event("Unplug").unwrap();
    assert_eq!(m.state(), "Idle");
    assert_eq!(m.ctx.log, ["-Charging", "-Active", "Charging->Idle"]);
}

#[test]
fn cross_boundary_exit_order_is_innermost_first() {
    let mut m = battery();
    m.process_event("PlugIn").unwrap();
    m.ctx.log.clear();

    // Charging -> Done crosses the Active boundary.
    m.process_event("Empty").unwrap();
    assert_eq!(m.state(), "Done");
    assert_eq!(m.ctx.log, ["-Charging", "-Active", "Charging->Done"]);
}

#[test]
fn self_transition_reenters_leaf_only() {
    let mut m = battery();
    m.process_event("PlugIn").unwrap();
    m.ctx.log.clear();

    m.process_event("PlugIn").unwrap(); // Charging => Charging
    assert_eq!(m.state(), "Charging");
    assert_eq!(m.ctx.log, ["-Charging", "Charging->Charging"]);

    m.process_event("Poke").unwrap(); // wildcard stay: no hooks
    assert_eq!(m.state(), "Charging");
    assert_eq!(m.ctx.log.len(), 2);
}

// ---------------------------------------------------------------------------
// Shadowing: leaf rows beat composite rows; guard fallthrough to composite.
// ---------------------------------------------------------------------------

const SHADOW: &str = "
    name: Shadow,
    context: Ctx,

    states: { *P { *A, B }, C },
    events: { E, F },

    transitions: {
        P + E => C,                  // declared first, but less specific than:
        A + E [flag_on] => B,        // leaf row wins for A when the guard passes
        C + E => P,                  // enters initial: A
        _ + F => _,
    }
";

struct FlagCtx {
    flag: bool,
}

impl Ctx for FlagCtx {
    fn guard(&self, method: &str) -> bool {
        assert_eq!(method, "flag_on");
        self.flag
    }
}

#[test]
fn leaf_row_shadows_composite_row_regardless_of_declaration_order() {
    let mut m = Machine::new(SHADOW, FlagCtx { flag: true });
    assert_eq!(m.state(), "A");
    m.process_event("E").unwrap();
    assert_eq!(m.state(), "B"); // leaf row fired, not the composite row

    m.process_event("F").unwrap(); // wildcard stay
    assert_eq!(m.state(), "B");
}

#[test]
fn guard_failure_falls_through_to_composite_row() {
    let mut m = Machine::new(SHADOW, FlagCtx { flag: false });
    m.process_event("E").unwrap();
    assert_eq!(m.state(), "C"); // leaf guard failed -> composite row fired

    // C + E => P enters the initial leaf.
    m.process_event("E").unwrap();
    assert_eq!(m.state(), "A");
}

// ---------------------------------------------------------------------------
// Partial shadowing stays legal: the composite row is still reachable.
// ---------------------------------------------------------------------------

#[test]
fn composite_row_remains_reachable_from_unshadowed_leaves() {
    let mut m = Machine::new(
        "
        name: Partial,
        context: Ctx,

        states: { *P { *A, B }, C },
        events: { G, H },

        transitions: {
            P + G => C,      // shadowed for A by the row below, live for B
            A + G => B,
            C + G => _,
            _ + H => _,
        }
        ",
        FlagCtx { flag: true },
    );
    m.process_event("G").unwrap();
    assert_eq!(m.state(), "B"); // leaf row

    m.process_event("G").unwrap();
    assert_eq!(m.state(), "C"); // composite row from B

    m.process_event("H").unwrap(); // wildcard stay
    assert_eq!(m.state(), "C");
}

// ---------------------------------------------------------------------------
// Async hooks in a hierarchy; UML ordering: exit before action.
// ---------------------------------------------------------------------------

struct OrderCtx {
    log: Vec<&'static str>,
}

impl Ctx for OrderCtx {
    fn call(&mut self, method: &str) {
        match method {
            "cleanup" => self.log.push("cleanup"),
            "act" => self.log.push("act"),
            other => panic!("unexpected method {other}"),
        }
    }
}

#[test]
fn async_exit_hook_runs_before_async_action() {
    let mut m = Machine::new(
        "
        name: AsyncH,
        context: Ctx,

        states: { *Outer { *A(exit: async cleanup), B }, C },
        events: { Go, Back, Ping },

        transitions: {
            A + Go / async act => C,   // cross-boundary: async exit, then action
            C + Back => Outer,         // enters initial: A
            B + Back => C,
            A + Back => _,
            B + Go => _,
            C + Go => _,
            A + Ping => B,
            B | C + Ping => _,
        }
        ",
        OrderCtx { log: Vec::new() },
    );
    assert!(m.plan.any_async);
    m.process_event("Go").unwrap();
    assert_eq!(m.state(), "C");
    assert_eq!(m.ctx.log, ["cleanup", "act"]); // exit -> action (UML order)

    m.process_event("Back").unwrap();
    assert_eq!(m.state(), "A"); // entering Outer resolves to initial leaf

    m.process_event("Ping").unwrap();
    assert_eq!(m.state(), "B");
    m.process_event("Ping").unwrap(); // stay
    assert_eq!(m.state(), "B");
}

#[test]
fn nested_machine_state_set_is_leaves_only() {
    // The persisted tag of a nested machine is its leaf: the state set holds
    // leaves only, and a machine moves between them directly.
    let mut m = Machine::new(
        "
        name: Dimmer,
        context: Ctx,
        serde: true,

        states: { *Off, On { *Low, High } },
        events: { Toggle, Up, Down },

        transitions: {
            Off + Toggle => On,      // -> Low
            Low + Up => High,
            High + Down => Low,
            On + Toggle => Off,
            Off + Up | Down => _,
            Low + Down => _,
            High + Up => _,
        }
        ",
        FlagCtx { flag: true },
    );
    assert!(m.plan.serde);
    let states: Vec<&str> = m.plan.states.iter().map(|s| s.text.as_str()).collect();
    assert_eq!(states, ["Off", "Low", "High"]);
    m.process_event("Toggle").unwrap();
    assert_eq!(m.state(), "Low");
    m.process_event("Up").unwrap();
    assert_eq!(m.state(), "High");
    // Restoring is not a transition: a machine put in `High` continues from there.
    m.state = 2;
    m.process_event("Down").unwrap();
    assert_eq!(m.state(), "Low");
}
