//! The parsed form of a machine definition.

use vstd::prelude::*;
use crate::tokens::{Ident, Token};

verus! {

/// A reference to a user-implemented method, optionally `async`.
#[derive(Debug)]
pub struct Callable {
    pub is_async: bool,
    pub name: Ident,
}

/// A state declaration; a state with children is a composite.
#[derive(Debug)]
pub struct StateDef {
    pub name: Ident,
    /// Marked with `*` in the `states:` list.
    pub initial: bool,
    pub entry: Option<Callable>,
    pub exit: Option<Callable>,
    pub children: Vec<StateDef>,
}

/// A state named as a transition source.
#[derive(Debug)]
pub struct StateRef {
    pub name: Ident,
    /// Marked with `*` in a transition row.
    pub initial_marker: bool,
}

/// The source column of a transition row.
#[derive(Debug)]
pub enum SourcePattern {
    /// `_`
    Any,
    States(Vec<StateRef>),
}

/// The event column of a transition row.
#[derive(Debug)]
pub enum EventPattern {
    /// `_`
    Any,
    Events(Vec<Ident>),
}

/// The target column of a transition row.
#[derive(Debug)]
pub enum Target {
    /// `=> _`: stay, no hooks fire.
    Stay,
    State(Ident),
}

/// One transition row.
#[derive(Debug)]
pub struct Row {
    pub sources: SourcePattern,
    pub events: EventPattern,
    pub guard: Option<Callable>,
    pub action: Option<Callable>,
    pub target: Target,
    pub span: usize,
}

/// The `unhandled:` policy.
#[derive(Debug)]
pub enum Unhandled {
    Ignore,
    Method(Callable),
}

/// The context type as written: its tokens and the position of the first.
#[derive(Debug)]
pub struct ContextType {
    pub tokens: Vec<Token>,
    pub span: usize,
}

/// A whole machine definition.
#[derive(Debug)]
pub struct MachineDef {
    pub name: Ident,
    pub context: ContextType,
    pub serde: bool,
    pub states: Vec<StateDef>,
    pub events: Vec<Ident>,
    pub transitions: Vec<Row>,
    pub unhandled: Option<Unhandled>,
    pub on_transition: Option<Callable>,
}

/// The mathematical form of a state declaration.
pub struct StateV {
    pub name: Ident,
    pub initial: bool,
    pub entry: Option<Callable>,
    pub exit: Option<Callable>,
    pub children: Seq<StateV>,
}

/// The mathematical form of a row's source column.
pub enum SourceV {
    Any,
    States(Seq<StateRef>),
}

/// The mathematical form of a row's event column.
pub enum EventsV {
    Any,
    Events(Seq<Ident>),
}

/// The mathematical form of a transition row.
pub struct RowV {
    pub sources: SourceV,
    pub events: EventsV,
    pub guard: Option<Callable>,
    pub action: Option<Callable>,
    pub target: Target,
    pub span: usize,
}

/// The mathematical form of a machine definition.
pub struct MachineV {
    pub name: Ident,
    pub context: Seq<Token>,
    pub context_span: usize,
    pub serde: bool,
    pub states: Seq<StateV>,
    pub events: Seq<Ident>,
    pub transitions: Seq<RowV>,
    pub unhandled: Option<Unhandled>,
    pub on_transition: Option<Callable>,
}

/// A state declaration by its mathematical form.
pub open spec fn state_view(s: StateDef) -> StateV
    decreases s,
{
    StateV {
        name: s.name,
        initial: s.initial,
        entry: s.entry,
        exit: s.exit,
        children: states_view(s.children@),
    }
}

/// State declarations by their mathematical forms.
pub open spec fn states_view(ss: Seq<StateDef>) -> Seq<StateV>
    decreases ss,
{
    if ss.len() == 0 {
        Seq::empty()
    } else {
        states_view(ss.drop_last()).push(state_view(ss.last()))
    }
}

/// A row by its mathematical form.
pub open spec fn row_view(r: Row) -> RowV {
    RowV {
        sources: match r.sources {
            SourcePattern::Any => SourceV::Any,
            SourcePattern::States(refs) => SourceV::States(refs@),
        },
        events: match r.events {
            EventPattern::Any => EventsV::Any,
            EventPattern::Events(ids) => EventsV::Events(ids@),
        },
        guard: r.guard,
        action: r.action,
        target: r.target,
        span: r.span,
    }
}

impl View for MachineDef {
    type V = MachineV;

    open spec fn view(&self) -> MachineV {
        MachineV {
            name: self.name,
            context: self.context.tokens@,
            context_span: self.context.span,
            serde: self.serde,
            states: states_view(self.states@),
            events: self.events@,
            transitions: self.transitions@.map_values(|r: Row| row_view(r)),
            unhandled: self.unhandled,
            on_transition: self.on_transition,
        }
    }
}

/// The callables that a state declares: entry, then exit.
pub open spec fn state_callables(s: StateDef) -> Seq<Callable> {
    opt_seq(s.entry) + opt_seq(s.exit)
}

/// The callables that a row names: guard, then action.
pub open spec fn row_callables(r: Row) -> Seq<Callable> {
    opt_seq(r.guard) + opt_seq(r.action)
}

/// An optional value as a sequence of length at most one.
pub open spec fn opt_seq<T>(o: Option<T>) -> Seq<T> {
    match o {
        Some(x) => seq![x],
        None => Seq::empty(),
    }
}

/// The callables of a forest of states in pre-order: each state's own,
/// then those of its children.
pub open spec fn states_callables(states: Seq<StateDef>) -> Seq<Callable>
    decreases states,
{
    if states.len() == 0 {
        Seq::empty()
    } else {
        states_callables(states.drop_last()) + state_callables(states.last())
            + states_callables(states.last().children@)
    }
}

/// Callables by value.
pub open spec fn derefs(s: Seq<&Callable>) -> Seq<Callable> {
    s.map_values(|c: &Callable| *c)
}

/// The callables of the rows in order.
pub open spec fn rows_callables(rows: Seq<Row>) -> Seq<Callable>
    decreases rows.len(),
{
    if rows.len() == 0 {
        Seq::empty()
    } else {
        rows_callables(rows.drop_last()) + row_callables(rows.last())
    }
}

impl MachineDef {
    /// All callables of the definition, in the order `callables` lists them.
    pub open spec fn spec_callables(self) -> Seq<Callable> {
        states_callables(self.states@) + rows_callables(self.transitions@)
            + match self.unhandled {
                Some(Unhandled::Method(c)) => seq![c],
                _ => Seq::empty(),
            }
            + opt_seq(self.on_transition)
    }

    /// All callables referenced anywhere in the definition: those of the
    /// states (pre-order), the rows, the `unhandled` policy and
    /// `on_transition`, in that order.
    pub fn callables(&self) -> (out: Vec<&Callable>)
        ensures
            derefs(out@) == self.spec_callables(),
    {
        let mut out: Vec<&Callable> = Vec::new();
        collect_state_callables(&self.states, &mut out);
        assert(derefs(out@) =~= states_callables(self.states@));
        let mut j: usize = 0;
        while j < self.transitions.len()
            invariant
                j <= self.transitions.len(),
                derefs(out@) == states_callables(self.states@) + rows_callables(self.transitions@.take(j as int)),
            decreases self.transitions.len() - j,
        {
            let r = &self.transitions[j];
            assert(self.transitions@.take(j + 1).drop_last() == self.transitions@.take(j as int));
            let ghost before = out@;
            if let Some(c) = &r.guard {
                out.push(c);
            }
            if let Some(c) = &r.action {
                out.push(c);
            }
            assert(derefs(out@) =~= derefs(before) + row_callables(*r));
            j += 1;
        }
        assert(self.transitions@.take(self.transitions.len() as int) == self.transitions@);
        if let Some(Unhandled::Method(c)) = &self.unhandled {
            out.push(c);
        }
        if let Some(c) = &self.on_transition {
            out.push(c);
        }
        assert(derefs(out@) =~= self.spec_callables());
        out
    }
}

/// Appends the callables of a forest of states, in pre-order.
fn collect_state_callables<'a>(states: &'a Vec<StateDef>, out: &mut Vec<&'a Callable>)
    ensures
        derefs(final(out)@) == derefs(old(out)@) + states_callables(states@),
    decreases states@,
{
    let mut i: usize = 0;
    while i < states.len()
        invariant
            i <= states@.len(),
            derefs(out@) == derefs(old(out)@) + states_callables(states@.take(i as int)),
        decreases states@.len() - i,
    {
        let s = &states[i];
        assert(states@.take(i + 1).drop_last() == states@.take(i as int));
        let ghost before = out@;
        if let Some(c) = &s.entry {
            out.push(c);
        }
        if let Some(c) = &s.exit {
            out.push(c);
        }
        assert(derefs(out@) =~= derefs(before) + state_callables(*s));
        proof {
            assert(decreases_to!(states@ => states@[i as int]));
        }
        collect_state_callables(&s.children, out);
        assert(derefs(out@) =~= derefs(old(out)@) + states_callables(states@.take(i + 1)));
        i += 1;
    }
    assert(states@.take(states@.len() as int) == states@);
}

} // verus!

verus! {

impl Callable {
    /// A copy of the callable.
    pub fn copy(&self) -> (res: Callable)
        ensures
            res == *self,
    {
        Callable { is_async: self.is_async, name: self.name.copy() }
    }
}

/// A copy of an optional callable.
pub fn copy_callable_opt(c: &Option<Callable>) -> (res: Option<Callable>)
    ensures
        res == *c,
{
    match c {
        Some(c) => Some(c.copy()),
        None => None,
    }
}

} // verus!
