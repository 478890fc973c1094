//! The machine plan: everything the generated machine consists of, in a
//! form a code emitter prints one for one, and the dispatch order rows are
//! tried in.

use vstd::prelude::*;
use crate::tokens::Ident;
use crate::model::{Callable, MachineDef, Row, Target, EventPattern, Unhandled, opt_seq, copy_callable_opt};
use crate::tree::{Tree, Node, last_named, resolve_leaf, initials_present, spec_exit_path, spec_entry_path, name_at,
    lemma_leaf_indices, lemma_last_named_bound, lemma_resolve_leaf};
use crate::validate::{concat_map, lemma_concat_map_step, lemma_take_full, lemma_concat_map_empty, validation_errors,
    name_errors, row_name_errors, unknown_state_error, initial_errors, lemma_no_initial_errors};
use crate::coverage::{RowInfo, row_infos, source_spec, spec_at, entry_val, lemma_entry_val_some};

verus! {

/// Whether row `j` comes before row `i` for leaf `l`: more specific source,
/// or as specific and declared earlier.
pub open spec fn tried_before(nodes: Seq<Node>, leaves: Seq<usize>, rows: Seq<Row>, l: int, j: int, i: int) -> bool {
    spec_at(nodes, leaves, rows[j], l) > spec_at(nodes, leaves, rows[i], l) || (spec_at(
        nodes,
        leaves,
        rows[j],
        l,
    ) == spec_at(nodes, leaves, rows[i], l) && j < i)
}

/// `order` lists exactly the rows whose source covers leaf `l`, each once,
/// in effective order: deepest source first, ties by declaration order.
pub open spec fn effective_order(nodes: Seq<Node>, leaves: Seq<usize>, rows: Seq<Row>, l: int, order: Seq<usize>) -> bool {
    &&& forall|k: int| 0 <= k < order.len() ==> order[k] < rows.len() && source_spec(
        nodes,
        leaves,
        rows[order[k] as int].sources,
        l,
    ) is Some
    &&& forall|j: int| 0 <= j < rows.len() && source_spec(nodes, leaves, rows[j].sources, l) is Some
        ==> order.contains(j as usize)
    &&& forall|a: int, b: int| 0 <= a < b < order.len() ==> tried_before(nodes, leaves, rows, l, order[a] as int, order[b] as int)
}

/// The rows covering leaf position `l`, in effective order (more specific
/// sources first, then declaration order).
pub fn dispatch_order(def: &MachineDef, tree: &Tree, infos: &Vec<RowInfo>, l: usize) -> (res: Vec<usize>)
    requires
        infos@.len() == def.transitions@.len(),
        forall|a: int| 0 <= a < infos@.len() ==> infos@[a].describes(tree.all@, tree.leaves@, def.events@, def.transitions@[a]),
        l < tree.leaves@.len(),
    ensures
        effective_order(tree.all@, tree.leaves@, def.transitions@, l as int, res@),
{
    let ghost nodes = tree.all@;
    let ghost leaves = tree.leaves@;
    let ghost rows = def.transitions@;
    let mut v: Vec<(usize, i32)> = Vec::new();
    let mut j: usize = 0;
    while j < infos.len()
        invariant
            infos@.len() == rows.len(),
            nodes == tree.all@,
            leaves == tree.leaves@,
            rows == def.transitions@,
            forall|a: int| 0 <= a < infos@.len() ==> infos@[a].describes(nodes, leaves, def.events@, rows[a]),
            l < leaves.len(),
            j <= rows.len(),
            forall|k: int| 0 <= k < v@.len() ==> v@[k].0 < j && source_spec(nodes, leaves, rows[v@[k].0 as int].sources, l as int) is Some
                && v@[k].1 == spec_at(nodes, leaves, rows[v@[k].0 as int], l as int),
            forall|r: int| 0 <= r < j && source_spec(nodes, leaves, rows[r].sources, l as int) is Some
                ==> exists|k: int| 0 <= k < v@.len() && v@[k].0 == r,
            forall|a: int, b: int| 0 <= a < b < v@.len() ==> tried_before(nodes, leaves, rows, l as int, v@[a].0 as int, v@[b].0 as int),
        decreases rows.len() - j,
    {
        let info = &infos[j];
        assert(info.describes(nodes, leaves, def.events@, rows[j as int]));
        proof { lemma_entry_val_some(info.leaf_specs@, l as int); }
        let s = info.specificity(l);
        let mut has = false;
        let mut k: usize = 0;
        while k < info.leaf_specs.len()
            invariant
                k <= info.leaf_specs@.len(),
                has == exists|a: int| 0 <= a < k && info.leaf_specs@[a].0 == l,
            decreases info.leaf_specs@.len() - k,
        {
            if info.leaf_specs[k].0 == l {
                has = true;
            }
            k += 1;
        }
        if has {
            let mut p: usize = 0;
            while p < v.len() && v[p].1 >= s
                invariant
                    p <= v@.len(),
                    forall|a: int| 0 <= a < p ==> v@[a].1 >= s,
                decreases v@.len() - p,
            {
                p += 1;
            }
            let ghost v0 = v@;
            v.insert(p, (j, s));
            proof {
                let v1 = v@;
                assert forall|a: int, b: int| 0 <= a < b < v1.len() implies tried_before(nodes, leaves, rows, l as int, v1[a].0 as int, v1[b].0 as int) by {
                    if b < p {
                        assert(v1[a] == v0[a] && v1[b] == v0[b]);
                    } else if b == p {
                        assert(v1[a] == v0[a]);
                        assert(v0[a].1 >= s);
                        assert(v0[a].0 < j);
                    } else if a < p {
                        assert(v1[a] == v0[a] && v1[b] == v0[b - 1]);
                    } else if a == p {
                        assert(v1[b] == v0[b - 1]);
                        assert(v0[p as int].1 < s);
                        if b - 1 > p {
                            assert(tried_before(nodes, leaves, rows, l as int, v0[p as int].0 as int, v0[b - 1].0 as int));
                        }
                        assert(v0[b - 1].1 < s);
                    } else {
                        assert(v1[a] == v0[a - 1] && v1[b] == v0[b - 1]);
                    }
                }
                assert forall|k2: int| 0 <= k2 < v1.len() implies v1[k2].0 < j + 1 && source_spec(nodes, leaves, rows[v1[k2].0 as int].sources, l as int) is Some
                    && v1[k2].1 == spec_at(nodes, leaves, rows[v1[k2].0 as int], l as int) by {
                    if k2 < p {
                        assert(v1[k2] == v0[k2]);
                    } else if k2 > p {
                        assert(v1[k2] == v0[k2 - 1]);
                    }
                }
                assert forall|r: int| 0 <= r < j + 1 && source_spec(nodes, leaves, rows[r].sources, l as int) is Some
                    implies exists|k2: int| 0 <= k2 < v1.len() && v1[k2].0 == r by {
                    if r < j {
                        let k2 = choose|k2: int| 0 <= k2 < v0.len() && v0[k2].0 == r;
                        if k2 < p {
                            assert(v1[k2] == v0[k2]);
                        } else {
                            assert(v1[k2 + 1] == v0[k2]);
                        }
                    } else {
                        assert(v1[p as int].0 == r);
                    }
                }
            }
        }
        j += 1;
    }
    let mut out: Vec<usize> = Vec::new();
    let mut k: usize = 0;
    while k < v.len()
        invariant
            k <= v@.len(),
            out@.len() == k,
            forall|a: int| 0 <= a < k ==> out@[a] == v@[a].0,
        decreases v@.len() - k,
    {
        out.push(v[k].0);
        k += 1;
    }
    proof {
        assert forall|r: int| 0 <= r < rows.len() && source_spec(nodes, leaves, rows[r].sources, l as int) is Some
            implies out@.contains(r as usize) by {
            let k2 = choose|k2: int| 0 <= k2 < v@.len() && v@[k2].0 == r;
            assert(out@[k2] == r as usize);
        }
    }
    out
}


/// What a transition does once its row fires.
#[derive(Debug)]
pub enum Body {
    /// `=> _`: the action only; the state stays and no hook fires.
    Stay,
    /// Exit hooks (innermost first), the action, the state change to the
    /// leaf at position `target`, entry hooks (outermost first), then
    /// `on_transition`.
    Goto {
        exits: Vec<Callable>,
        target: usize,
        target_name: Ident,
        entries: Vec<Callable>,
        on_transition: Option<Callable>,
    },
}

/// One row as tried from one leaf state.
#[derive(Debug)]
pub struct RowBlock {
    /// The row's position in the table.
    pub row: usize,
    /// The events the row accepts; `None` for all.
    pub events: Option<Vec<Ident>>,
    pub guard: Option<Callable>,
    pub action: Option<Callable>,
    pub body: Body,
}

/// One thing a firing row does, in the order a generated machine does them.
#[derive(Debug)]
pub enum Step {
    /// Call a user method that takes no arguments: an exit hook, the
    /// action or an entry hook.
    Call(Callable),
    /// Move to the leaf at position `target`.
    SetState(usize),
    /// Call `on_transition` with the source state, the new state and the
    /// event.
    Notify(Callable),
}

/// Callables as `Call` steps.
pub open spec fn call_steps(cs: Seq<Callable>) -> Seq<Step> {
    cs.map_values(|c: Callable| Step::Call(c))
}

/// What a firing block does, in order: a stay runs the action only; a
/// transition runs the exit hooks, the action, the state change, the entry
/// hooks and `on_transition`.
pub open spec fn block_steps(b: RowBlock) -> Seq<Step> {
    let action = match b.action {
        Some(a) => seq![Step::Call(a)],
        None => Seq::empty(),
    };
    match b.body {
        Body::Stay => action,
        Body::Goto { exits, target, entries, on_transition, .. } => call_steps(exits@) + action
            + seq![Step::SetState(target)] + call_steps(entries@) + match on_transition {
            Some(c) => seq![Step::Notify(c)],
            None => Seq::empty(),
        },
    }
}

/// Appends each callable as a `Call` step.
fn push_calls(out: &mut Vec<Step>, cs: &Vec<Callable>)
    ensures
        final(out)@ == old(out)@ + call_steps(cs@),
{
    let mut k: usize = 0;
    while k < cs.len()
        invariant
            k <= cs@.len(),
            out@ == old(out)@ + call_steps(cs@.take(k as int)),
        decreases cs@.len() - k,
    {
        out.push(Step::Call(cs[k].copy()));
        assert(call_steps(cs@.take(k + 1)) =~= call_steps(cs@.take(k as int)).push(Step::Call(cs@[k as int])));
        k += 1;
    }
    assert(cs@.take(cs@.len() as int) =~= cs@);
}

impl RowBlock {
    /// What the block does when it fires, in order.
    pub fn steps(&self) -> (res: Vec<Step>)
        ensures
            res@ == block_steps(*self),
    {
        let mut out: Vec<Step> = Vec::new();
        match &self.body {
            Body::Stay => {
                if let Some(a) = &self.action {
                    out.push(Step::Call(a.copy()));
                }
                assert(out@ =~= block_steps(*self));
            },
            Body::Goto { exits, target, entries, on_transition, .. } => {
                push_calls(&mut out, exits);
                if let Some(a) = &self.action {
                    out.push(Step::Call(a.copy()));
                }
                out.push(Step::SetState(*target));
                push_calls(&mut out, entries);
                if let Some(c) = on_transition {
                    out.push(Step::Notify(c.copy()));
                }
                assert(out@ =~= block_steps(*self));
            },
        }
        out
    }
}

/// The hooks of the states along a path: their `exit` (or `entry`) methods.
pub open spec fn path_hooks(nodes: Seq<Node>, path: Seq<usize>, exits: bool) -> Seq<Callable> {
    concat_map(path, |k: usize| if exits { opt_seq(nodes[k as int].exit) } else { opt_seq(nodes[k as int].entry) })
}

/// The leaf a row's target resolves to.
pub open spec fn target_leaf(nodes: Seq<Node>, t: Ident) -> usize {
    resolve_leaf(nodes, last_named(nodes, t.text@).unwrap())
}

/// `b` is the block of row `ri` tried from leaf node `n`.
pub open spec fn block_of(b: RowBlock, nodes: Seq<Node>, leaves: Seq<usize>, def: MachineDef, n: usize, ri: int) -> bool {
    let row = def.transitions@[ri];
    &&& b.row == ri
    &&& match row.events {
        EventPattern::Any => b.events is None,
        EventPattern::Events(ids) => b.events matches Some(v) && v@ == ids@,
    }
    &&& b.guard == row.guard
    &&& b.action == row.action
    &&& match row.target {
        Target::Stay => b.body is Stay,
        Target::State(t) => match b.body {
            Body::Goto { exits, target, target_name, entries, on_transition } => {
                let tl = target_leaf(nodes, t);
                &&& target < leaves.len()
                &&& leaves[target as int] == tl
                &&& target_name == nodes[tl as int].name
                &&& exits@ == path_hooks(nodes, spec_exit_path(nodes, name_at(nodes, n), name_at(nodes, tl)), true)
                &&& entries@ == path_hooks(nodes, spec_entry_path(nodes, name_at(nodes, n), name_at(nodes, tl)), false)
                &&& on_transition == def.on_transition
            },
            Body::Stay => false,
        },
    }
}

/// The definition can be planned: it passed validation's structural needs.
pub open spec fn plan_ready(def: MachineDef, nodes: Seq<Node>) -> bool {
    &&& initials_present(nodes)
    &&& nodes.len() > 0
    &&& forall|ri: int| #![trigger def.transitions@[ri]] 0 <= ri < def.transitions@.len() ==> match def.transitions@[ri].target {
        Target::State(t) => last_named(nodes, t.text@) is Some,
        Target::Stay => true,
    }
}

/// A copy of a list of identifiers.
pub fn copy_idents(v: &Vec<Ident>) -> (res: Vec<Ident>)
    ensures
        res@ == v@,
{
    let mut out: Vec<Ident> = Vec::new();
    let mut k: usize = 0;
    while k < v.len()
        invariant
            k <= v@.len(),
            out@ == v@.take(k as int),
        decreases v@.len() - k,
    {
        out.push(v[k].copy());
        assert(out@ =~= v@.take(k + 1));
        k += 1;
    }
    assert(out@ =~= v@);
    out
}

/// The hooks of the states along `path`.
fn hooks_along(tree: &Tree, path: &Vec<usize>, exits: bool) -> (res: Vec<Callable>)
    requires
        forall|k: int| 0 <= k < path@.len() ==> path@[k] < tree.all@.len(),
    ensures
        res@ == path_hooks(tree.all@, path@, exits),
{
    let ghost nodes = tree.all@;
    let ghost f = |k: usize| if exits { opt_seq(nodes[k as int].exit) } else { opt_seq(nodes[k as int].entry) };
    let mut out: Vec<Callable> = Vec::new();
    let mut i: usize = 0;
    while i < path.len()
        invariant
            nodes == tree.all@,
            forall|k: int| 0 <= k < path@.len() ==> path@[k] < nodes.len(),
            f == (|k: usize| if exits { opt_seq(nodes[k as int].exit) } else { opt_seq(nodes[k as int].entry) }),
            i <= path@.len(),
            out@ == concat_map(path@.take(i as int), f),
        decreases path@.len() - i,
    {
        proof { lemma_concat_map_step(path@, f, i as int); }
        let n = &tree.all[path[i]];
        let h = if exits { &n.exit } else { &n.entry };
        let ghost before = out@;
        if let Some(c) = h {
            out.push(c.copy());
        }
        assert(out@ =~= before + f(path@[i as int]));
        i += 1;
    }
    proof { lemma_take_full(path@); }
    out
}

/// The dispatch block for one row within one leaf state's arm. The source
/// leaf is statically known here, so entry/exit hook sequences are fully
/// expanded.
pub fn row_block(def: &MachineDef, tree: &Tree, leaf: usize, ri: usize) -> (res: RowBlock)
    requires
        tree.wf(),
        plan_ready(*def, tree.all@),
        leaf < tree.all@.len(),
        ri < def.transitions@.len(),
    ensures
        block_of(res, tree.all@, tree.leaves@, *def, leaf, ri as int),
{
    let row = &def.transitions[ri];
    let events = match &row.events {
        EventPattern::Any => None,
        EventPattern::Events(ids) => Some(copy_idents(ids)),
    };
    let guard = copy_callable_opt(&row.guard);
    let action = copy_callable_opt(&row.action);
    let body = match &row.target {
        Target::Stay => Body::Stay,
        Target::State(t) => {
            assert(def.transitions@[ri as int] == *row);
            let tl = tree.resolve_initial(t.text.as_str());
            let from = tree.all[leaf].name.text.as_str();
            let to = tree.all[tl].name.text.as_str();
            let exit_nodes = tree.exit_path(from, to);
            let entry_nodes = tree.entry_path(from, to);
            let exits = hooks_along(tree, &exit_nodes, true);
            let entries = hooks_along(tree, &entry_nodes, false);
            proof { lemma_leaf_indices(tree.all@); }
            let target = leaf_pos(tree, tl);
            Body::Goto {
                exits,
                target,
                target_name: tree.all[tl].name.copy(),
                entries,
                on_transition: copy_callable_opt(&def.on_transition),
            }
        },
    };
    RowBlock { row: ri, events, guard, action, body }
}

/// The position of leaf node `n` among the leaves.
fn leaf_pos(tree: &Tree, n: usize) -> (res: usize)
    requires
        tree.leaves@.contains(n),
    ensures
        res < tree.leaves@.len(),
        tree.leaves@[res as int] == n,
{
    let mut q: usize = 0;
    while q < tree.leaves.len()
        invariant
            q <= tree.leaves@.len(),
            tree.leaves@.contains(n),
            forall|a: int| 0 <= a < q ==> tree.leaves@[a] != n,
        decreases tree.leaves@.len() - q,
    {
        if tree.leaves[q] == n {
            return q;
        }
        q += 1;
    }
    proof {
        let a = choose|a: int| 0 <= a < tree.leaves@.len() && tree.leaves@[a] == n;
    }
    0
}

/// A definition without validation errors can be planned.
#[verifier::spinoff_prover]
#[verifier::rlimit(30)]
pub proof fn lemma_valid_ready(def: MachineDef, tree: Tree)
    requires
        tree.wf(),
        validation_errors(def, tree.all@, tree.leaves@).len() == 0,
        def.states@.len() > 0 ==> tree.all@.len() > 0,
    ensures
        def.states@.len() > 0,
        def.events@.len() > 0,
        plan_ready(def, tree.all@),
{
    let nodes = tree.all@;
    assert(def.states@.len() > 0 && def.events@.len() > 0);
    assert(initial_errors(nodes).len() == 0);
    lemma_no_initial_errors(nodes);
    let f = |r: Row| row_name_errors(nodes, def.events@, r);
    assert(concat_map(def.transitions@, f).len() == 0);
    assert forall|ri: int| #![trigger def.transitions@[ri]] 0 <= ri < def.transitions@.len() implies match def.transitions@[ri].target {
        Target::State(t) => last_named(nodes, t.text@) is Some,
        Target::Stay => true,
    } by {
        let r = def.transitions@[ri];
        assert(def.transitions@.contains(r));
        lemma_concat_map_empty(def.transitions@, f, r);
        assert(f(r).len() == 0);
        if let Target::State(t) = r.target {
            assert(unknown_state_error(nodes, t).len() == 0);
        }
    }
}


/// Trait method signature roles.
#[derive(Clone, Copy, Debug, PartialEq, Eq, Structural)]
pub enum MethodRole {
    /// `fn(&self) -> bool`
    Guard,
    /// Actions and entry/exit hooks share `fn(&mut self)`.
    Mutation,
    /// `fn(&mut self, state: &State, event: &Event)`
    Unhandled,
    /// `fn(&mut self, from: &State, to: &State, event: &Event)`
    OnTransition,
}

/// A method of the generated context trait.
#[derive(Debug)]
pub struct TraitMethod {
    pub method: Callable,
    pub role: MethodRole,
}

/// An optional callable in a role.
pub open spec fn opt_cand(c: Option<Callable>, role: MethodRole) -> Seq<(Callable, MethodRole)> {
    match c {
        Some(c) => seq![(c, role)],
        None => Seq::empty(),
    }
}

/// Every method use in declaration order with its signature role.
pub open spec fn method_cands(nodes: Seq<Node>, def: MachineDef) -> Seq<(Callable, MethodRole)> {
    concat_map(
        nodes,
        |n: Node| opt_cand(n.entry, MethodRole::Mutation) + opt_cand(n.exit, MethodRole::Mutation),
    ) + concat_map(
        def.transitions@,
        |r: Row| opt_cand(r.guard, MethodRole::Guard) + opt_cand(r.action, MethodRole::Mutation),
    ) + unhandled_cand(def) + opt_cand(def.on_transition, MethodRole::OnTransition)
}

/// The `unhandled` method, if the policy names one.
pub open spec fn unhandled_cand(def: MachineDef) -> Seq<(Callable, MethodRole)> {
    match def.unhandled {
        Some(Unhandled::Method(c)) => seq![(c, MethodRole::Unhandled)],
        _ => Seq::empty(),
    }
}

/// Whether a candidate among `s` is named `name`.
pub open spec fn cand_named(s: Seq<(Callable, MethodRole)>, name: Seq<char>) -> bool {
    exists|k: int| 0 <= k < s.len() && s[k].0.name.text@ == name
}

/// The first use of every method name, in order.
pub open spec fn dedupe(s: Seq<(Callable, MethodRole)>) -> Seq<(Callable, MethodRole)>
    decreases s.len(),
{
    if s.len() == 0 {
        Seq::empty()
    } else if cand_named(s.drop_last(), s.last().0.name.text@) {
        dedupe(s.drop_last())
    } else {
        dedupe(s.drop_last()).push(s.last())
    }
}

/// The trait methods by their parts.
pub open spec fn methods_view(v: Seq<TraitMethod>) -> Seq<(Callable, MethodRole)> {
    v.map_values(|m: TraitMethod| (m.method, m.role))
}

/// Keeping the first use keeps every name.
pub proof fn lemma_dedupe_names(s: Seq<(Callable, MethodRole)>, name: Seq<char>)
    ensures
        cand_named(dedupe(s), name) == cand_named(s, name),
    decreases s.len(),
{
    if s.len() > 0 {
        let d = s.drop_last();
        lemma_dedupe_names(d, name);
        assert(s =~= d.push(s.last()));
        lemma_cand_named_push(d, s.last(), name);
        if !cand_named(d, s.last().0.name.text@) {
            lemma_cand_named_push(dedupe(d), s.last(), name);
        }
    }
}

/// A name occurs in an extended list when it occurs before or is the new one.
pub proof fn lemma_cand_named_push(s: Seq<(Callable, MethodRole)>, x: (Callable, MethodRole), name: Seq<char>)
    ensures
        cand_named(s.push(x), name) == (cand_named(s, name) || x.0.name.text@ == name),
{
    let t = s.push(x);
    if cand_named(s, name) {
        let k = choose|k: int| 0 <= k < s.len() && s[k].0.name.text@ == name;
        assert(t[k] == s[k]);
    }
    if x.0.name.text@ == name {
        assert(t[s.len() as int] == x);
    }
    if cand_named(t, name) {
        let k = choose|k: int| 0 <= k < t.len() && t[k].0.name.text@ == name;
        if k < s.len() {
            assert(t[k] == s[k]);
        }
    }
}

/// Adds a method unless one of that name is already listed.
fn push_method(methods: &mut Vec<TraitMethod>, c: &Callable, role: MethodRole, ghost_cands: Ghost<Seq<(Callable, MethodRole)>>)
    requires
        methods_view(old(methods)@) == dedupe(ghost_cands@),
    ensures
        methods_view(final(methods)@) == dedupe(ghost_cands@.push((*c, role))),
{
    let ghost cands = ghost_cands@;
    let ghost s = cands.push((*c, role));
    assert(s.drop_last() =~= cands);
    let mut seen = false;
    let mut k: usize = 0;
    while k < methods.len()
        invariant
            k <= methods@.len(),
            seen == exists|a: int| 0 <= a < k && methods@[a].method.name.text@ == c.name.text@,
        decreases methods@.len() - k,
    {
        if methods[k].method.name.text == c.name.text {
            seen = true;
        }
        k += 1;
    }
    proof {
        lemma_dedupe_names(cands, c.name.text@);
        let mv = methods_view(methods@);
        assert(seen == cand_named(mv, c.name.text@)) by {
            if seen {
                let a = choose|a: int| 0 <= a < methods@.len() && methods@[a].method.name.text@ == c.name.text@;
                assert(mv[a].0 == methods@[a].method);
            }
            if cand_named(mv, c.name.text@) {
                let a = choose|a: int| 0 <= a < mv.len() && mv[a].0.name.text@ == c.name.text@;
                assert(mv[a].0 == methods@[a].method);
            }
        }
    }
    if !seen {
        let ghost before = methods@;
        methods.push(TraitMethod { method: c.copy(), role });
        assert(methods_view(methods@) =~= methods_view(before).push((*c, role)));
    }
}

/// Adds the method of an optional callable.
fn push_opt_method(methods: &mut Vec<TraitMethod>, c: &Option<Callable>, role: MethodRole, ghost_cands: Ghost<Seq<(Callable, MethodRole)>>)
    requires
        methods_view(old(methods)@) == dedupe(ghost_cands@),
    ensures
        methods_view(final(methods)@) == dedupe(ghost_cands@ + opt_cand(*c, role)),
{
    if let Some(c) = c {
        push_method(methods, c, role, ghost_cands);
        assert(ghost_cands@ + opt_cand(Some(*c), role) =~= ghost_cands@.push((*c, role)));
    } else {
        assert(ghost_cands@ + opt_cand(None, role) =~= ghost_cands@);
    }
}

/// The generated context-trait methods, deduplicated by name (validation
/// guarantees consistent roles): state hooks in pre-order, then row guards
/// and actions, the `unhandled` method, `on_transition`.
pub fn trait_methods(def: &MachineDef, tree: &Tree) -> (res: Vec<TraitMethod>)
    ensures
        methods_view(res@) == dedupe(method_cands(tree.all@, *def)),
{
    let mut methods: Vec<TraitMethod> = Vec::new();
    let ghost fs = |n: Node| opt_cand(n.entry, MethodRole::Mutation) + opt_cand(n.exit, MethodRole::Mutation);
    let ghost fr = |r: Row| opt_cand(r.guard, MethodRole::Guard) + opt_cand(r.action, MethodRole::Mutation);
    assert(methods_view(methods@) =~= dedupe(Seq::<(Callable, MethodRole)>::empty()));
    let mut i: usize = 0;
    while i < tree.all.len()
        invariant
            i <= tree.all@.len(),
            fs == (|n: Node| opt_cand(n.entry, MethodRole::Mutation) + opt_cand(n.exit, MethodRole::Mutation)),
            methods_view(methods@) == dedupe(concat_map(tree.all@.take(i as int), fs)),
        decreases tree.all@.len() - i,
    {
        proof { lemma_concat_map_step(tree.all@, fs, i as int); }
        let ghost c0 = concat_map(tree.all@.take(i as int), fs);
        push_opt_method(&mut methods, &tree.all[i].entry, MethodRole::Mutation, Ghost(c0));
        let ghost c1 = c0 + opt_cand(tree.all@[i as int].entry, MethodRole::Mutation);
        push_opt_method(&mut methods, &tree.all[i].exit, MethodRole::Mutation, Ghost(c1));
        assert(c1 + opt_cand(tree.all@[i as int].exit, MethodRole::Mutation) =~= c0 + fs(tree.all@[i as int]));
        i += 1;
    }
    proof { lemma_take_full(tree.all@); }
    let ghost n0 = concat_map(tree.all@, fs);
    let mut j: usize = 0;
    while j < def.transitions.len()
        invariant
            j <= def.transitions@.len(),
            fr == (|r: Row| opt_cand(r.guard, MethodRole::Guard) + opt_cand(r.action, MethodRole::Mutation)),
            methods_view(methods@) == dedupe(n0 + concat_map(def.transitions@.take(j as int), fr)),
        decreases def.transitions@.len() - j,
    {
        proof { lemma_concat_map_step(def.transitions@, fr, j as int); }
        let ghost c0 = n0 + concat_map(def.transitions@.take(j as int), fr);
        push_opt_method(&mut methods, &def.transitions[j].guard, MethodRole::Guard, Ghost(c0));
        let ghost c1 = c0 + opt_cand(def.transitions@[j as int].guard, MethodRole::Guard);
        push_opt_method(&mut methods, &def.transitions[j].action, MethodRole::Mutation, Ghost(c1));
        assert(c1 + opt_cand(def.transitions@[j as int].action, MethodRole::Mutation) =~= n0 + concat_map(def.transitions@.take(j + 1), fr));
        j += 1;
    }
    proof { lemma_take_full(def.transitions@); }
    let ghost c2 = n0 + concat_map(def.transitions@, fr);
    let ghost c3 = c2 + unhandled_cand(*def);
    if let Some(Unhandled::Method(c)) = &def.unhandled {
        push_method(&mut methods, c, MethodRole::Unhandled, Ghost(c2));
        assert(c3 =~= c2.push((*c, MethodRole::Unhandled)));
    } else {
        assert(c3 =~= c2);
    }
    push_opt_method(&mut methods, &def.on_transition, MethodRole::OnTransition, Ghost(c3));
    assert(c3 + opt_cand(def.on_transition, MethodRole::OnTransition) =~= method_cands(tree.all@, *def));
    methods
}

/// What happens when no row fires.
#[derive(Debug)]
pub enum Fallback {
    /// `unhandled: ignore`: nothing, success.
    Ignore,
    /// `unhandled: method`: the method is called with the state and event,
    /// success.
    Method(Callable),
    /// No policy: an `Unhandled` error.
    Error,
}

/// What happens when no row fires: the `unhandled` policy or an error.
pub fn fallback_tokens(def: &MachineDef) -> (res: Fallback)
    ensures
        match def.unhandled {
            Some(Unhandled::Ignore) => res is Ignore,
            Some(Unhandled::Method(c)) => res == Fallback::Method(c),
            None => res is Error,
        },
{
    match &def.unhandled {
        Some(Unhandled::Ignore) => Fallback::Ignore,
        Some(Unhandled::Method(c)) => Fallback::Method(c.copy()),
        None => Fallback::Error,
    }
}


/// The rows tried from one leaf state, in effective order.
#[derive(Debug)]
pub struct Arm {
    pub leaf: Ident,
    pub blocks: Vec<RowBlock>,
}

/// `arm` is the dispatch arm of leaf position `l`.
pub open spec fn arm_of(arm: Arm, nodes: Seq<Node>, leaves: Seq<usize>, def: MachineDef, l: int) -> bool {
    &&& arm.leaf == nodes[leaves[l] as int].name
    &&& exists|order: Seq<usize>|
        #![trigger effective_order(nodes, leaves, def.transitions@, l, order)]
        effective_order(nodes, leaves, def.transitions@, l, order) && arm.blocks@.len() == order.len()
            && forall|k: int| 0 <= k < order.len() ==> block_of(arm.blocks@[k], nodes, leaves, def, leaves[l], order[k] as int)
}

/// Per-leaf dispatch arms: rows covering the leaf, in effective order (more
/// specific sources first, then declaration order).
pub fn dispatch_arms(def: &MachineDef, tree: &Tree, infos: &Vec<RowInfo>) -> (res: Vec<Arm>)
    requires
        tree.wf(),
        plan_ready(*def, tree.all@),
        infos@.len() == def.transitions@.len(),
        forall|a: int| 0 <= a < infos@.len() ==> infos@[a].describes(tree.all@, tree.leaves@, def.events@, def.transitions@[a]),
    ensures
        res@.len() == tree.leaves@.len(),
        forall|l: int| 0 <= l < res@.len() ==> arm_of(res@[l], tree.all@, tree.leaves@, *def, l),
{
    proof { lemma_leaf_indices(tree.all@); }
    let mut arms: Vec<Arm> = Vec::new();
    let mut l: usize = 0;
    while l < tree.leaves.len()
        invariant
            tree.wf(),
            plan_ready(*def, tree.all@),
            infos@.len() == def.transitions@.len(),
            forall|a: int| 0 <= a < infos@.len() ==> infos@[a].describes(tree.all@, tree.leaves@, def.events@, def.transitions@[a]),
            forall|m: int| 0 <= m < tree.leaves@.len() ==> tree.leaves@[m] < tree.all@.len(),
            l <= tree.leaves@.len(),
            arms@.len() == l,
            forall|a: int| 0 <= a < l ==> arm_of(arms@[a], tree.all@, tree.leaves@, *def, a),
        decreases tree.leaves@.len() - l,
    {
        let order = dispatch_order(def, tree, infos, l);
        let leaf = tree.leaves[l];
        let mut blocks: Vec<RowBlock> = Vec::new();
        let mut k: usize = 0;
        while k < order.len()
            invariant
                tree.wf(),
                plan_ready(*def, tree.all@),
                leaf < tree.all@.len(),
                effective_order(tree.all@, tree.leaves@, def.transitions@, l as int, order@),
                k <= order@.len(),
                blocks@.len() == k,
                forall|b: int| 0 <= b < k ==> block_of(blocks@[b], tree.all@, tree.leaves@, *def, leaf, order@[b] as int),
            decreases order@.len() - k,
        {
            blocks.push(row_block(def, tree, leaf, order[k]));
            k += 1;
        }
        let arm = Arm { leaf: tree.all[leaf].name.copy(), blocks };
        proof {
            assert(effective_order(tree.all@, tree.leaves@, def.transitions@, l as int, order@));
        }
        arms.push(arm);
        proof {
            assert(arm_of(arms@[l as int], tree.all@, tree.leaves@, *def, l as int));
        }
        l += 1;
    }
    arms
}

/// Whether one of the candidates is `async`.
pub open spec fn cands_async(s: Seq<(Callable, MethodRole)>) -> bool {
    exists|k: int| 0 <= k < s.len() && s[k].0.is_async
}

/// `async` anywhere in a concatenation is `async` in one of its parts.
pub proof fn lemma_cands_async_concat(a: Seq<(Callable, MethodRole)>, b: Seq<(Callable, MethodRole)>)
    ensures
        cands_async(a + b) == (cands_async(a) || cands_async(b)),
{
    let c = a + b;
    if cands_async(a) {
        let k = choose|k: int| 0 <= k < a.len() && a[k].0.is_async;
        assert(c[k] == a[k]);
    }
    if cands_async(b) {
        let k = choose|k: int| 0 <= k < b.len() && b[k].0.is_async;
        assert(c[a.len() + k] == b[k]);
    }
    if cands_async(c) {
        let k = choose|k: int| 0 <= k < c.len() && c[k].0.is_async;
        if k < a.len() {
            assert(c[k] == a[k]);
        } else {
            assert(c[k] == b[k - a.len()]);
        }
    }
}

/// Whether an optional callable is `async`.
fn opt_async(c: &Option<Callable>, role: MethodRole) -> (res: bool)
    ensures
        res == cands_async(opt_cand(*c, role)),
{
    match c {
        Some(c) => {
            assert(opt_cand(Some(*c), role)[0].0 == *c);
            c.is_async
        },
        None => false,
    }
}

/// Whether the `unhandled` method is `async`.
fn unhandled_async(def: &MachineDef) -> (res: bool)
    ensures
        res == cands_async(unhandled_cand(*def)),
{
    match &def.unhandled {
        Some(Unhandled::Method(c)) => {
            assert(unhandled_cand(*def)[0] == (*c, MethodRole::Unhandled));
            c.is_async
        },
        _ => false,
    }
}

/// Whether any method use of the definition is `async` (then
/// `process_event` is `async` too).
pub fn any_async(def: &MachineDef, tree: &Tree) -> (res: bool)
    ensures
        res == cands_async(method_cands(tree.all@, *def)),
{
    let ghost fs = |n: Node| opt_cand(n.entry, MethodRole::Mutation) + opt_cand(n.exit, MethodRole::Mutation);
    let ghost fr = |r: Row| opt_cand(r.guard, MethodRole::Guard) + opt_cand(r.action, MethodRole::Mutation);
    let mut found = false;
    let mut i: usize = 0;
    while i < tree.all.len()
        invariant
            i <= tree.all@.len(),
            fs == (|n: Node| opt_cand(n.entry, MethodRole::Mutation) + opt_cand(n.exit, MethodRole::Mutation)),
            found == cands_async(concat_map(tree.all@.take(i as int), fs)),
        decreases tree.all@.len() - i,
    {
        proof {
            lemma_concat_map_step(tree.all@, fs, i as int);
            lemma_cands_async_concat(concat_map(tree.all@.take(i as int), fs), fs(tree.all@[i as int]));
            lemma_cands_async_concat(opt_cand(tree.all@[i as int].entry, MethodRole::Mutation), opt_cand(tree.all@[i as int].exit, MethodRole::Mutation));
        }
        let a = opt_async(&tree.all[i].entry, MethodRole::Mutation);
        let b = opt_async(&tree.all[i].exit, MethodRole::Mutation);
        found = found || a || b;
        i += 1;
    }
    proof { lemma_take_full(tree.all@); }
    let mut j: usize = 0;
    while j < def.transitions.len()
        invariant
            j <= def.transitions@.len(),
            fs == (|n: Node| opt_cand(n.entry, MethodRole::Mutation) + opt_cand(n.exit, MethodRole::Mutation)),
            fr == (|r: Row| opt_cand(r.guard, MethodRole::Guard) + opt_cand(r.action, MethodRole::Mutation)),
            found == cands_async(concat_map(tree.all@, fs) + concat_map(def.transitions@.take(j as int), fr)),
        decreases def.transitions@.len() - j,
    {
        proof {
            lemma_concat_map_step(def.transitions@, fr, j as int);
            let r = def.transitions@[j as int];
            lemma_cands_async_concat(concat_map(tree.all@, fs), concat_map(def.transitions@.take(j as int), fr));
            lemma_cands_async_concat(concat_map(tree.all@, fs), concat_map(def.transitions@.take(j + 1), fr));
            lemma_cands_async_concat(concat_map(def.transitions@.take(j as int), fr), fr(r));
            lemma_cands_async_concat(opt_cand(r.guard, MethodRole::Guard), opt_cand(r.action, MethodRole::Mutation));
        }
        let a = opt_async(&def.transitions[j].guard, MethodRole::Guard);
        let b = opt_async(&def.transitions[j].action, MethodRole::Mutation);
        found = found || a || b;
        j += 1;
    }
    proof { lemma_take_full(def.transitions@); }
    let u = unhandled_async(def);
    let o = opt_async(&def.on_transition, MethodRole::OnTransition);
    proof {
        let x = concat_map(tree.all@, fs) + concat_map(def.transitions@, fr);
        lemma_cands_async_concat(x, unhandled_cand(*def));
        lemma_cands_async_concat(x + unhandled_cand(*def), opt_cand(def.on_transition, MethodRole::OnTransition));
    }
    found || u || o
}

/// Everything the generated machine consists of.
#[derive(Debug)]
pub struct MachinePlan {
    /// The machine type's name.
    pub name: Ident,
    /// The context trait's name: the machine's name followed by `Context`.
    pub trait_name: String,
    /// Derive serde's traits on the machine and its state type.
    pub serde: bool,
    /// `process_event` is `async`.
    pub any_async: bool,
    /// Position among `states` of the state a new machine starts in.
    pub initial: usize,
    /// The leaf states, in pre-order: the runtime state set.
    pub states: Vec<Ident>,
    /// The events, as declared.
    pub events: Vec<Ident>,
    /// The methods of the context trait.
    pub methods: Vec<TraitMethod>,
    /// One dispatch arm per leaf state, in the order of `states`.
    pub arms: Vec<Arm>,
    /// What happens when no row fires.
    pub fallback: Fallback,
}

/// The names of the leaves in order.
pub open spec fn leaf_names(nodes: Seq<Node>, leaves: Seq<usize>) -> Seq<Ident> {
    leaves.map_values(|k: usize| nodes[k as int].name)
}

/// The plan describes the machine defined by `def` over the hierarchy
/// `nodes`/`leaves`.
pub open spec fn plan_of(p: MachinePlan, def: MachineDef, nodes: Seq<Node>, leaves: Seq<usize>) -> bool {
    &&& p.name == def.name
    &&& p.trait_name@ == def.name.text@ + "Context"@
    &&& p.serde == def.serde
    &&& p.any_async == cands_async(method_cands(nodes, def))
    &&& p.initial < leaves.len()
    &&& leaves[p.initial as int] == crate::tree::initial_leaf_of(nodes)
    &&& p.states@ == leaf_names(nodes, leaves)
    &&& p.events@ == def.events@
    &&& methods_view(p.methods@) == dedupe(method_cands(nodes, def))
    &&& p.arms@.len() == leaves.len()
    &&& forall|l: int| 0 <= l < leaves.len() ==> arm_of(p.arms@[l], nodes, leaves, def, l)
    &&& match def.unhandled {
        Some(Unhandled::Ignore) => p.fallback is Ignore,
        Some(Unhandled::Method(c)) => p.fallback == Fallback::Method(c),
        None => p.fallback is Error,
    }
}

/// Builds the machine plan of a definition that can be planned. The
/// definition's context type is not copied: it stays with the definition.
pub fn generate(def: &MachineDef, tree: &Tree) -> (res: MachinePlan)
    requires
        tree.wf(),
        tree.all@.len() <= i32::MAX,
        plan_ready(*def, tree.all@),
    ensures
        plan_of(res, *def, tree.all@, tree.leaves@),
{
    let infos = row_infos(def, tree);
    proof { lemma_leaf_indices(tree.all@); }
    let initial_node = tree.initial_leaf();
    let initial = leaf_pos(tree, initial_node);
    let mut trait_name = def.name.text.clone();
    trait_name.append("Context");
    let mut states: Vec<Ident> = Vec::new();
    let mut l: usize = 0;
    while l < tree.leaves.len()
        invariant
            tree.wf(),
            forall|m: int| 0 <= m < tree.leaves@.len() ==> tree.leaves@[m] < tree.all@.len(),
            l <= tree.leaves@.len(),
            states@ == leaf_names(tree.all@, tree.leaves@.take(l as int)),
        decreases tree.leaves@.len() - l,
    {
        states.push(tree.all[tree.leaves[l]].name.copy());
        assert(states@ =~= leaf_names(tree.all@, tree.leaves@.take(l + 1)));
        l += 1;
    }
    assert(tree.leaves@.take(l as int) =~= tree.leaves@);
    let events = copy_idents(&def.events);
    let methods = trait_methods(def, tree);
    let arms = dispatch_arms(def, tree, &infos);
    let any_async = any_async(def, tree);
    let fallback = fallback_tokens(def);
    MachinePlan {
        name: def.name.copy(),
        trait_name,
        serde: def.serde,
        any_async,
        initial,
        states,
        events,
        methods,
        arms,
        fallback,
    }
}

} // verus!
