//! How a generated machine processes an event: the dispatch decisions over
//! a machine plan, and the error it reports when nothing fires.
//!
//! Guards, actions and hooks are the user's methods; the host runs them.
//! The host asks `next_decision` which block to try, evaluates a guard when
//! told to, and carries out the chosen block's `Body` (or the fallback).

use vstd::prelude::*;
use crate::tokens::Ident;
use crate::model::{MachineDef, Row, EventPattern, Unhandled, Target};
use crate::tree::{Tree, Node, name_at, spec_exit_path, spec_entry_path};
use crate::coverage::{covers, event_covered, event_pos_from, source_spec, pos_is, lemma_event_pos_bound};
use crate::validate::{validation_errors, duplicate_event_errors, coverage_errors, missing_pairs, missing_of_leaf,
    covered_any, name_errors};
use crate::plan::{MachinePlan, RowBlock, Body, Fallback, Step, plan_of, arm_of, block_of, effective_order, tried_before,
    block_steps, call_steps, path_hooks, target_leaf};

verus! {

/// Error returned by `process_event` when no transition fired for an event.
///
/// This can only happen at runtime when every matching row had a guard that
/// evaluated to `false` and the table has no `unhandled:` policy. Machines
/// without guards and with an exhaustive table never produce this error (but
/// the `Result` is part of the uniform API).
#[derive(Debug, Clone, PartialEq, Eq)]
pub enum TransitionError<S, E> {
    /// The event had no matching transition in the current state, or all
    /// guards on matching rows evaluated to `false`.
    Unhandled {
        /// The state the machine was in.
        state: S,
        /// The event that could not be handled.
        event: E,
    },
}

/// The next step of dispatching one event.
#[derive(Debug, Clone, Copy, PartialEq, Eq, Structural)]
pub enum Decision {
    /// Evaluate the guard of block `block`; if it holds, carry the block
    /// out, else ask again from `block + 1`.
    Guard { block: usize },
    /// Carry out block `block`.
    Fire { block: usize },
    /// No further block accepts the event: apply the fallback.
    NoMatch,
}

/// Whether a block accepts the event at position `e` (by name).
pub open spec fn accepts(b: RowBlock, events: Seq<Ident>, e: int) -> bool {
    match b.events {
        None => true,
        Some(ids) => exists|m: int| 0 <= m < ids@.len() && ids@[m].text@ == events[e].text@,
    }
}

/// The first block at `k` or later that accepts event `e`.
pub open spec fn first_accepting(blocks: Seq<RowBlock>, events: Seq<Ident>, e: int, k: int) -> Option<int>
    decreases blocks.len() - k,
{
    if k < 0 || k >= blocks.len() {
        None
    } else if accepts(blocks[k], events, e) {
        Some(k)
    } else {
        first_accepting(blocks, events, e, k + 1)
    }
}

/// The block that fires, trying blocks from `k` on, when guard of block
/// `b` evaluates to `g(b)`: the first that accepts the event and whose guard
/// (if any) holds.
pub open spec fn fires_from(blocks: Seq<RowBlock>, events: Seq<Ident>, e: int, g: spec_fn(int) -> bool, k: int) -> Option<int>
    decreases blocks.len() - k,
{
    if k < 0 || k >= blocks.len() {
        None
    } else if accepts(blocks[k], events, e) && (blocks[k].guard is None || g(k)) {
        Some(k)
    } else {
        fires_from(blocks, events, e, g, k + 1)
    }
}

/// The block that fires for `event` in `state` under guard outcomes `g`.
pub open spec fn fires(p: MachinePlan, state: int, event: int, g: spec_fn(int) -> bool) -> Option<int> {
    fires_from(p.arms@[state].blocks@, p.events@, event, g, 0)
}

/// A search that skips rejecting blocks agrees with one started later.
pub proof fn lemma_fires_skip(blocks: Seq<RowBlock>, events: Seq<Ident>, e: int, g: spec_fn(int) -> bool, from: int, k: int)
    requires
        0 <= from <= k,
        forall|j: int| from <= j < k && j < blocks.len() ==> !accepts(blocks[j], events, e),
    ensures
        fires_from(blocks, events, e, g, from) == fires_from(blocks, events, e, g, k),
        first_accepting(blocks, events, e, from) == first_accepting(blocks, events, e, k),
    decreases k - from,
{
    if from < k {
        lemma_fires_skip(blocks, events, e, g, from + 1, k);
    }
}

impl MachinePlan {
    /// The state a new machine starts in.
    pub fn initial_state(&self) -> (res: usize)
        ensures
            res == self.initial,
    {
        self.initial
    }

    /// Whether block `k` of the arm of `state` accepts `event`.
    #[verifier::loop_isolation(false)]
    fn block_accepts(&self, state: usize, k: usize, event: usize) -> (res: bool)
        requires
            state < self.arms@.len(),
            k < self.arms@[state as int].blocks@.len(),
            event < self.events@.len(),
        ensures
            res == accepts(self.arms@[state as int].blocks@[k as int], self.events@, event as int),
    {
        let b = &self.arms[state].blocks[k];
        match &b.events {
            None => true,
            Some(ids) => {
                let mut m: usize = 0;
                while m < ids.len()
                    invariant
                        event < self.events@.len(),
                        m <= ids@.len(),
                        forall|a: int| 0 <= a < m ==> ids@[a].text@ != self.events@[event as int].text@,
                    decreases ids@.len() - m,
                {
                    if ids[m].text == self.events[event].text {
                        return true;
                    }
                    m += 1;
                }
                false
            },
        }
    }

    /// The next dispatch step for `event` in `state`, trying blocks from
    /// `from` on: the first block that accepts the event is tried; a guarded
    /// block asks for its guard first.
    pub fn next_decision(&self, state: usize, event: usize, from: usize) -> (res: Decision)
        requires
            state < self.arms@.len(),
            event < self.events@.len(),
        ensures
            ({
                let blocks = self.arms@[state as int].blocks@;
                &&& match first_accepting(blocks, self.events@, event as int, from as int) {
                    Some(k) => if blocks[k].guard is Some {
                        res == Decision::Guard { block: k as usize }
                    } else {
                        res == Decision::Fire { block: k as usize }
                    },
                    None => res is NoMatch,
                }
                &&& forall|g: spec_fn(int) -> bool| #[trigger] fires_from(blocks, self.events@, event as int, g, from as int) == match res {
                    Decision::Guard { block } => if g(block as int) {
                        Some(block as int)
                    } else {
                        fires_from(blocks, self.events@, event as int, g, block + 1)
                    },
                    Decision::Fire { block } => Some(block as int),
                    Decision::NoMatch => None,
                }
            }),
    {
        let ghost blocks = self.arms@[state as int].blocks@;
        let n = self.arms[state].blocks.len();
        let mut k = from;
        while k < n
            invariant
                state < self.arms@.len(),
                event < self.events@.len(),
                blocks == self.arms@[state as int].blocks@,
                n == blocks.len(),
                from <= k,
                forall|j: int| from <= j < k && j < blocks.len() ==> !accepts(blocks[j], self.events@, event as int),
            decreases n - k,
        {
            if self.block_accepts(state, k, event) {
                proof {
                    assert forall|g: spec_fn(int) -> bool| fires_from(blocks, self.events@, event as int, g, from as int)
                        == fires_from(blocks, self.events@, event as int, g, k as int) by {
                        lemma_fires_skip(blocks, self.events@, event as int, g, from as int, k as int);
                    }
                    lemma_fires_skip(blocks, self.events@, event as int, |j: int| true, from as int, k as int);
                }
                if self.arms[state].blocks[k].guard.is_some() {
                    return Decision::Guard { block: k };
                } else {
                    return Decision::Fire { block: k };
                }
            }
            k += 1;
        }
        proof {
            assert forall|g: spec_fn(int) -> bool| fires_from(blocks, self.events@, event as int, g, from as int) == None::<int> by {
                lemma_fires_skip(blocks, self.events@, event as int, g, from as int, k as int);
            }
            lemma_fires_skip(blocks, self.events@, event as int, |j: int| true, from as int, k as int);
        }
        Decision::NoMatch
    }

    /// Block `k` of the arm of `state`.
    pub fn block(&self, state: usize, k: usize) -> (res: &RowBlock)
        requires
            state < self.arms@.len(),
            k < self.arms@[state as int].blocks@.len(),
        ensures
            *res == self.arms@[state as int].blocks@[k as int],
    {
        &self.arms[state].blocks[k]
    }

    /// The state after block `k` of the arm of `state` fired: its target,
    /// or `state` itself for a stay.
    pub fn next_state(&self, state: usize, k: usize) -> (res: usize)
        requires
            state < self.arms@.len(),
            k < self.arms@[state as int].blocks@.len(),
        ensures
            res == match self.arms@[state as int].blocks@[k as int].body {
                Body::Goto { target, .. } => target,
                Body::Stay => state,
            },
    {
        match &self.arms[state].blocks[k].body {
            Body::Goto { target, .. } => *target,
            Body::Stay => state,
        }
    }

    /// The outcome when no block fired for `event` in `state`: an error
    /// without an `unhandled` policy, success otherwise (the host calls the
    /// policy's method first, if it names one).
    pub fn unhandled_outcome(&self, state: usize, event: usize) -> (res: Result<(), TransitionError<usize, usize>>)
        ensures
            match self.fallback {
                Fallback::Error => res == Err::<(), TransitionError<usize, usize>>(TransitionError::Unhandled { state, event }),
                _ => res is Ok,
            },
    {
        match &self.fallback {
            Fallback::Error => Err(TransitionError::Unhandled { state, event }),
            _ => Ok(()),
        }
    }
}


/// Without duplicate-event errors, event names are unique.
pub proof fn lemma_unique_event_names(events: Seq<Ident>)
    requires
        duplicate_event_errors(events).len() == 0,
    ensures
        forall|i: int, j: int| 0 <= i < j < events.len() ==> events[i].text@ != events[j].text@,
    decreases events.len(),
{
    if events.len() > 0 {
        let d = events.drop_last();
        lemma_unique_event_names(d);
        assert forall|i: int, j: int| 0 <= i < j < events.len() implies events[i].text@ != events[j].text@ by {
            if j < events.len() - 1 {
                assert(d[i] == events[i] && d[j] == events[j]);
            } else {
                if events[i].text@ == events[j].text@ {
                    assert(crate::validate::named_before(events, events.len() - 1, events.last().text@));
                }
            }
        }
    }
}

/// With unique names, the first position of the name at `e` is `e`.
pub proof fn lemma_event_pos_unique(events: Seq<Ident>, e: int, k: int)
    requires
        forall|i: int, j: int| 0 <= i < j < events.len() ==> events[i].text@ != events[j].text@,
        0 <= k <= e < events.len(),
        events.len() <= usize::MAX,
    ensures
        pos_is(event_pos_from(events, events[e].text@, k), e),
    decreases e - k,
{
    if k < e {
        assert(events[k].text@ != events[e].text@);
        lemma_event_pos_unique(events, e, k + 1);
    }
}

/// A found event position carries the name searched for.
pub proof fn lemma_event_pos_name(events: Seq<Ident>, name: Seq<char>, k: int)
    requires
        0 <= k,
        events.len() <= usize::MAX,
    ensures
        event_pos_from(events, name, k) matches Some(p) ==> events[p as int].text@ == name,
    decreases events.len() - k,
{
    if k < events.len() && events[k].text@ != name {
        lemma_event_pos_name(events, name, k + 1);
    }
}

/// A block accepts an event exactly when its row's event column covers it
/// (event names being unique).
pub proof fn lemma_accepts_covered(b: RowBlock, nodes: Seq<Node>, leaves: Seq<usize>, def: MachineDef, n: usize, ri: int, e: int)
    requires
        block_of(b, nodes, leaves, def, n, ri),
        0 <= ri < def.transitions@.len(),
        0 <= e < def.events@.len(),
        def.events@.len() <= usize::MAX,
        forall|i: int, j: int| 0 <= i < j < def.events@.len() ==> def.events@[i].text@ != def.events@[j].text@,
    ensures
        accepts(b, def.events@, e) == event_covered(def.events@, def.transitions@[ri].events, e),
{
    let events = def.events@;
    let row = def.transitions@[ri];
    if let EventPattern::Events(ids) = row.events {
        let v = b.events.unwrap();
        assert(v@ == ids@);
        if accepts(b, events, e) {
            let m = choose|m: int| 0 <= m < v@.len() && v@[m].text@ == events[e].text@;
            lemma_event_pos_unique(events, e, 0);
            assert(pos_is(event_pos_from(events, ids@[m].text@, 0), e));
        }
        if event_covered(events, row.events, e) {
            let m = choose|m: int| 0 <= m < ids@.len() && pos_is(event_pos_from(events, ids@[m].text@, 0), e);
            lemma_event_pos_name(events, ids@[m].text@, 0);
            assert(v@[m].text@ == events[e].text@);
        }
    }
}

/// Without missing pairs, every pair is covered.
pub proof fn lemma_missing_empty(nodes: Seq<Node>, leaves: Seq<usize>, events: Seq<Ident>, rows: Seq<Row>, n: int, l: int, e: int)
    requires
        missing_pairs(nodes, leaves, events, rows, n).len() == 0,
        0 <= l < n,
        0 <= e < events.len(),
    ensures
        covered_any(nodes, leaves, events, rows, l, e),
    decreases n,
{
    if l < n - 1 {
        lemma_missing_empty(nodes, leaves, events, rows, n - 1, l, e);
    } else {
        lemma_missing_leaf_empty(nodes, leaves, events, rows, l, events.len() as int, e);
    }
}

/// Without missing pairs for leaf `l`, its pairs are covered.
pub proof fn lemma_missing_leaf_empty(nodes: Seq<Node>, leaves: Seq<usize>, events: Seq<Ident>, rows: Seq<Row>, l: int, m: int, e: int)
    requires
        missing_of_leaf(nodes, leaves, events, rows, l, m).len() == 0,
        0 <= e < m,
    ensures
        covered_any(nodes, leaves, events, rows, l, e),
    decreases m,
{
    if e < m - 1 {
        lemma_missing_leaf_empty(nodes, leaves, events, rows, l, m - 1, e);
    }
}

/// Some block at `k` or later accepts and is unguarded or enabled: the
/// search fires.
pub proof fn lemma_fires_some(blocks: Seq<RowBlock>, events: Seq<Ident>, e: int, g: spec_fn(int) -> bool, k: int, w: int)
    requires
        0 <= k <= w < blocks.len(),
        accepts(blocks[w], events, e),
        blocks[w].guard is None || g(w),
    ensures
        fires_from(blocks, events, e, g, k) matches Some(x) && x <= w,
        first_accepting(blocks, events, e, k) matches Some(x) && x <= w,
    decreases w - k,
{
    if k < w {
        lemma_fires_some(blocks, events, e, g, k + 1, w);
    }
}

/// The fired block accepts and is enabled, and no earlier block from `k`
/// on does both.
pub proof fn lemma_fires_first(blocks: Seq<RowBlock>, events: Seq<Ident>, e: int, g: spec_fn(int) -> bool, k: int)
    requires
        0 <= k,
    ensures
        match fires_from(blocks, events, e, g, k) {
            Some(x) => k <= x < blocks.len() && accepts(blocks[x], events, e) && (blocks[x].guard is None || g(x))
                && forall|y: int| k <= y < x ==> !(accepts(blocks[y], events, e) && (blocks[y].guard is None || g(y))),
            None => forall|y: int| k <= y < blocks.len() ==> !(accepts(blocks[y], events, e) && (blocks[y].guard is None || g(y))),
        },
    decreases blocks.len() - k,
{
    if k < blocks.len() {
        lemma_fires_first(blocks, events, e, g, k + 1);
    }
}

/// Exhaustiveness: a machine that passed validation, has no `unhandled`
/// policy and no guards handles every event in every state: dispatch
/// always fires a row, so `TransitionError::Unhandled` never occurs.
pub proof fn law_exhaustive_machine_always_fires(p: MachinePlan, def: MachineDef, tree: Tree, s: int, e: int, g: spec_fn(int) -> bool)
    requires
        tree.wf(),
        plan_of(p, def, tree.all@, tree.leaves@),
        validation_errors(def, tree.all@, tree.leaves@).len() == 0,
        def.unhandled is None,
        forall|j: int| 0 <= j < def.transitions@.len() ==> (#[trigger] def.transitions@[j]).guard is None,
        def.states@.len() > 0,
        0 <= s < tree.leaves@.len(),
        0 <= e < def.events@.len(),
    ensures
        fires(p, s, e, g) is Some,
        first_accepting(p.arms@[s].blocks@, p.events@, e, 0) matches Some(k)
            && p.arms@[s].blocks@[k].guard is None,
{
    let nodes = tree.all@;
    let leaves = tree.leaves@;
    let rows = def.transitions@;
    let events = def.events@;
    assert(def.events@.len() == def.events.len());
    assert(def.transitions@.len() == def.transitions.len());
    assert(def.events@.len() > 0);
    assert(coverage_errors(nodes, leaves, def).len() == 0);
    let missing = missing_pairs(nodes, leaves, events, rows, leaves.len() as int);
    assert(missing.len() == 0);
    lemma_missing_empty(nodes, leaves, events, rows, leaves.len() as int, s, e);
    let j = choose|j: int| #![trigger rows[j]] 0 <= j < rows.len() && covers(nodes, leaves, events, rows[j], s, e);
    assert(arm_of(p.arms@[s], nodes, leaves, def, s));
    let order = choose|order: Seq<usize>| #![trigger effective_order(nodes, leaves, rows, s, order)]
        effective_order(nodes, leaves, rows, s, order) && p.arms@[s].blocks@.len() == order.len()
        && forall|k: int| 0 <= k < order.len() ==> block_of(p.arms@[s].blocks@[k], nodes, leaves, def, leaves[s], order[k] as int);
    assert(order.contains(j as usize));
    let k = choose|k: int| 0 <= k < order.len() && order[k] == j as usize;
    let blocks = p.arms@[s].blocks@;
    assert(block_of(blocks[k], nodes, leaves, def, leaves[s], j));
    let _ = rows[j];
    assert(name_errors(nodes, def).len() == 0);
    assert(duplicate_event_errors(events).len() == 0);
    lemma_unique_event_names(events);
    lemma_accepts_covered(blocks[k], nodes, leaves, def, leaves[s], j, e);
    assert(p.events@ == events);
    lemma_fires_some(blocks, events, e, g, 0, k);
    let x = first_accepting(blocks, events, e, 0).unwrap();
    lemma_first_accepting_is(blocks, events, e, 0);
    assert(block_of(blocks[x], nodes, leaves, def, leaves[s], order[x] as int));
    let _ = rows[order[x] as int];
}

/// The first accepting block accepts.
pub proof fn lemma_first_accepting_is(blocks: Seq<RowBlock>, events: Seq<Ident>, e: int, k: int)
    requires
        0 <= k,
    ensures
        first_accepting(blocks, events, e, k) matches Some(x) ==> k <= x < blocks.len() && accepts(blocks[x], events, e),
    decreases blocks.len() - k,
{
    if k < blocks.len() && !accepts(blocks[k], events, e) {
        lemma_first_accepting_is(blocks, events, e, k + 1);
    }
}

/// Child-first dispatch: the row that fires for `event` in leaf state `s`
/// covers the pair and its guard holds; every other row covering the pair
/// is in the state's arm, and each one tried before it (deeper source, or
/// as deep and declared earlier) has a guard that failed. When nothing
/// fires, every covering row has a failed guard.
pub proof fn law_dispatch_first_enabled(p: MachinePlan, def: MachineDef, tree: Tree, s: int, e: int, g: spec_fn(int) -> bool)
    requires
        tree.wf(),
        plan_of(p, def, tree.all@, tree.leaves@),
        validation_errors(def, tree.all@, tree.leaves@).len() == 0,
        def.states@.len() > 0,
        0 <= s < tree.leaves@.len(),
        0 <= e < def.events@.len(),
    ensures
        ({
            let blocks = p.arms@[s].blocks@;
            let rows = def.transitions@;
            let covered = |k: int| covers(tree.all@, tree.leaves@, def.events@, rows[blocks[k].row as int], s, e);
            &&& forall|j: int| 0 <= j < rows.len() && covers(tree.all@, tree.leaves@, def.events@, rows[j], s, e)
                ==> exists|k: int| 0 <= k < blocks.len() && blocks[k].row == j
            &&& forall|a: int, b: int| 0 <= a < b < blocks.len() ==> tried_before(tree.all@, tree.leaves@, rows, s, blocks[a].row as int, blocks[b].row as int)
            &&& forall|k: int| 0 <= k < blocks.len() ==> blocks[k].row < rows.len() && blocks[k].guard == rows[blocks[k].row as int].guard
            &&& match fires(p, s, e, g) {
                Some(k) => 0 <= k < blocks.len() && covered(k) && (blocks[k].guard is None || g(k))
                    && forall|y: int| 0 <= y < k && covered(y) ==> blocks[y].guard is Some && !g(y),
                None => forall|y: int| 0 <= y < blocks.len() && covered(y) ==> blocks[y].guard is Some && !g(y),
            }
        }),
{
    let nodes = tree.all@;
    let leaves = tree.leaves@;
    let rows = def.transitions@;
    let events = def.events@;
    let blocks = p.arms@[s].blocks@;
    lemma_valid_events(def, nodes, leaves);
    assert(p.events@ == events);
    assert(arm_of(p.arms@[s], nodes, leaves, def, s));
    lemma_arm_rows(p.arms@[s], nodes, leaves, def, s, e);
    let covered = |k: int| covers(nodes, leaves, events, rows[blocks[k].row as int], s, e);
    lemma_fires_covered(blocks, events, e, g, covered);
}

/// A definition without validation errors has events, with unique names.
pub proof fn lemma_valid_events(def: MachineDef, nodes: Seq<Node>, leaves: Seq<usize>)
    requires
        validation_errors(def, nodes, leaves).len() == 0,
        def.states@.len() > 0,
    ensures
        def.events@.len() > 0,
        def.events@.len() <= usize::MAX,
        def.transitions@.len() <= usize::MAX,
        forall|i: int, j: int| 0 <= i < j < def.events@.len() ==> def.events@[i].text@ != def.events@[j].text@,
{
    assert(def.events@.len() == def.events.len());
    assert(def.transitions@.len() == def.transitions.len());
    assert(def.events@.len() > 0);
    assert(name_errors(nodes, def).len() == 0);
    assert(duplicate_event_errors(def.events@).len() == 0);
    lemma_unique_event_names(def.events@);
}

/// The blocks of a leaf's arm are the rows covering the leaf in effective
/// order, with the rows' guards; a block accepts an event exactly when its
/// row covers the pair.
pub proof fn lemma_arm_rows(arm: crate::plan::Arm, nodes: Seq<Node>, leaves: Seq<usize>, def: MachineDef, s: int, e: int)
    requires
        arm_of(arm, nodes, leaves, def, s),
        0 <= s < leaves.len(),
        0 <= e < def.events@.len(),
        def.events@.len() <= usize::MAX,
        def.transitions@.len() <= usize::MAX,
        forall|i: int, j: int| 0 <= i < j < def.events@.len() ==> def.events@[i].text@ != def.events@[j].text@,
    ensures
        ({
            let blocks = arm.blocks@;
            let rows = def.transitions@;
            &&& forall|k: int| 0 <= k < blocks.len() ==> blocks[k].row < rows.len() && blocks[k].guard == rows[blocks[k].row as int].guard
                && accepts(blocks[k], def.events@, e) == covers(nodes, leaves, def.events@, rows[blocks[k].row as int], s, e)
            &&& forall|j: int| 0 <= j < rows.len() && covers(nodes, leaves, def.events@, rows[j], s, e)
                ==> exists|k: int| 0 <= k < blocks.len() && blocks[k].row == j
            &&& forall|a: int, b: int| 0 <= a < b < blocks.len() ==> tried_before(nodes, leaves, rows, s, blocks[a].row as int, blocks[b].row as int)
        }),
{
    let rows = def.transitions@;
    let events = def.events@;
    let blocks = arm.blocks@;
    let order = choose|order: Seq<usize>| #![trigger effective_order(nodes, leaves, rows, s, order)]
        effective_order(nodes, leaves, rows, s, order) && arm.blocks@.len() == order.len()
        && forall|k: int| 0 <= k < order.len() ==> block_of(arm.blocks@[k], nodes, leaves, def, leaves[s], order[k] as int);
    assert forall|k: int| 0 <= k < blocks.len() implies blocks[k].row < rows.len() && blocks[k].guard == rows[blocks[k].row as int].guard
        && accepts(blocks[k], events, e) == covers(nodes, leaves, events, rows[blocks[k].row as int], s, e) by {
        assert(block_of(blocks[k], nodes, leaves, def, leaves[s], order[k] as int));
        lemma_accepts_covered(blocks[k], nodes, leaves, def, leaves[s], order[k] as int, e);
    }
    assert forall|j: int| 0 <= j < rows.len() && covers(nodes, leaves, events, rows[j], s, e)
        implies exists|k: int| 0 <= k < blocks.len() && blocks[k].row == j by {
        assert(order.contains(j as usize));
        let k = choose|k: int| 0 <= k < order.len() && order[k] == j as usize;
        assert(block_of(blocks[k], nodes, leaves, def, leaves[s], order[k] as int));
    }
    assert forall|a: int, b: int| 0 <= a < b < blocks.len() implies tried_before(nodes, leaves, rows, s, blocks[a].row as int, blocks[b].row as int) by {
        assert(block_of(blocks[a], nodes, leaves, def, leaves[s], order[a] as int));
        assert(block_of(blocks[b], nodes, leaves, def, leaves[s], order[b] as int));
    }
}

/// The search fires the first block that a predicate equal to acceptance
/// holds of and whose guard (if any) holds.
pub proof fn lemma_fires_covered(blocks: Seq<RowBlock>, events: Seq<Ident>, e: int, g: spec_fn(int) -> bool, c: spec_fn(int) -> bool)
    requires
        forall|k: int| 0 <= k < blocks.len() ==> accepts(blocks[k], events, e) == c(k),
    ensures
        match fires_from(blocks, events, e, g, 0) {
            Some(k) => 0 <= k < blocks.len() && c(k) && (blocks[k].guard is None || g(k))
                && forall|y: int| 0 <= y < k && c(y) ==> blocks[y].guard is Some && !g(y),
            None => forall|y: int| 0 <= y < blocks.len() && c(y) ==> blocks[y].guard is Some && !g(y),
        },
{
    lemma_fires_first(blocks, events, e, g, 0);
}


/// The leaf position a block moves to; unused for a stay.
pub open spec fn goto_target(b: RowBlock) -> usize {
    match b.body {
        Body::Goto { target, .. } => target,
        Body::Stay => 0,
    }
}

/// UML order of a firing row. Block `k` of the arm of leaf position `s`
/// carries out its row: with a target, the exit hooks of the states from
/// the leaf up to (excluding) the least common ancestor with the target's
/// initial leaf, innermost first, then the row's action, then the move to
/// that leaf, then the entry hooks down to it, outermost first, then
/// `on_transition`; for a stay, the action only.
pub proof fn law_firing_row_steps(p: MachinePlan, def: MachineDef, tree: Tree, s: int, k: int)
    requires
        tree.wf(),
        plan_of(p, def, tree.all@, tree.leaves@),
        0 <= s < tree.leaves@.len(),
        0 <= k < p.arms@[s].blocks@.len(),
    ensures
        ({
            let nodes = tree.all@;
            let leaves = tree.leaves@;
            let b = p.arms@[s].blocks@[k];
            let row = def.transitions@[b.row as int];
            let action = match row.action {
                Some(a) => seq![Step::Call(a)],
                None => Seq::<Step>::empty(),
            };
            &&& b.row < def.transitions@.len()
            &&& match row.target {
                Target::Stay => block_steps(b) == action,
                Target::State(t) => {
                    let from = name_at(nodes, leaves[s]);
                    let to = name_at(nodes, target_leaf(nodes, t));
                    &&& goto_target(b) < leaves.len()
                    &&& leaves[goto_target(b) as int] == target_leaf(nodes, t)
                    &&& block_steps(b) == call_steps(path_hooks(nodes, spec_exit_path(nodes, from, to), true)) + action
                        + seq![Step::SetState(goto_target(b))] + call_steps(path_hooks(nodes, spec_entry_path(nodes, from, to), false))
                        + match def.on_transition {
                        Some(c) => seq![Step::Notify(c)],
                        None => Seq::<Step>::empty(),
                    }
                },
            }
        }),
{
    let nodes = tree.all@;
    let leaves = tree.leaves@;
    let rows = def.transitions@;
    let arm = p.arms@[s];
    assert(arm_of(arm, nodes, leaves, def, s));
    let order = choose|order: Seq<usize>| #![trigger effective_order(nodes, leaves, rows, s, order)]
        effective_order(nodes, leaves, rows, s, order) && arm.blocks@.len() == order.len()
        && forall|j: int| 0 <= j < order.len() ==> block_of(arm.blocks@[j], nodes, leaves, def, leaves[s], order[j] as int);
    let b = arm.blocks@[k];
    assert(block_of(b, nodes, leaves, def, leaves[s], order[k] as int));
    assert(order[k] < rows.len());
}

/// When no row fires for an event, the `unhandled` policy decides: without
/// one the machine reports an `Unhandled` error; `ignore` succeeds without a
/// call; a method succeeds after that method is called. Nothing else runs.
pub proof fn law_unmatched_event_falls_back(p: MachinePlan, def: MachineDef, tree: Tree)
    requires
        plan_of(p, def, tree.all@, tree.leaves@),
    ensures
        (p.fallback is Error) == (def.unhandled is None),
        (p.fallback is Ignore) == (def.unhandled matches Some(Unhandled::Ignore)),
        def.unhandled matches Some(Unhandled::Method(c)) ==> p.fallback == Fallback::Method(c),
{
}

} // verus!
