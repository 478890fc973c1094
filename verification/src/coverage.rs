//! Which (leaf state, event) pairs each transition row covers, and with
//! which specificity: the depth of the source state that names the leaf,
//! `-1` for the wildcard source.

use vstd::prelude::*;
use crate::tokens::{Ident, str_eq};
use crate::model::{MachineDef, Row, StateRef, SourcePattern, EventPattern};
use crate::tree::{Tree, Node, last_named, leaves_under_spec, lemma_leaf_indices,
    lemma_leaves_with_ancestor_sub, lemma_last_named_bound, name_ancestors, lemma_name_walk_len};

verus! {

/// Number of ancestors of the state called `name` (0 when unknown).
pub open spec fn depth_of(nodes: Seq<Node>, name: Seq<char>) -> int {
    name_ancestors(nodes, name).len() as int
}

/// The first leaf position at `k` or later whose state is named `name`.
pub open spec fn leaf_pos_named(nodes: Seq<Node>, leaves: Seq<usize>, name: Seq<char>, k: int) -> Option<usize>
    decreases leaves.len() - k,
{
    if k < 0 || k >= leaves.len() {
        None
    } else if nodes[leaves[k] as int].name.text@ == name {
        Some(k as usize)
    } else {
        leaf_pos_named(nodes, leaves, name, k + 1)
    }
}

/// The leaf positions of the states `xs`, each found by its name (the
/// first leaf of that name); states without a leaf of their name are
/// skipped.
pub open spec fn positions_of(nodes: Seq<Node>, leaves: Seq<usize>, xs: Seq<usize>) -> Seq<usize>
    decreases xs.len(),
{
    if xs.len() == 0 {
        Seq::empty()
    } else {
        positions_of(nodes, leaves, xs.drop_last()) + match leaf_pos_named(nodes, leaves, nodes[xs.last() as int].name.text@, 0) {
            Some(q) => seq![q],
            None => Seq::empty(),
        }
    }
}

/// The leaf positions inside the state called `name`, in order.
pub open spec fn under_positions(nodes: Seq<Node>, leaves: Seq<usize>, name: Seq<char>) -> Seq<usize> {
    positions_of(nodes, leaves, leaves_under_spec(nodes, leaves, name))
}

/// Whether the state called `name` encloses (or is) the leaf at position `l`.
pub open spec fn ref_covers(nodes: Seq<Node>, leaves: Seq<usize>, name: Seq<char>, l: int) -> bool {
    under_positions(nodes, leaves, name).contains(l as usize)
}

/// The keys of key/value pairs, in order.
pub open spec fn keys_of(v: Seq<(usize, i32)>) -> Seq<usize> {
    v.map_values(|p: (usize, i32)| p.0)
}

/// `s` followed by the elements of `add` not yet present, in order of first
/// appearance.
pub open spec fn push_new(s: Seq<usize>, add: Seq<usize>) -> Seq<usize>
    decreases add.len(),
{
    if add.len() == 0 {
        s
    } else {
        let t = push_new(s, add.drop_last());
        if t.contains(add.last()) {
            t
        } else {
            t.push(add.last())
        }
    }
}

/// The leaf positions named by a list of sources, in order of first
/// appearance: for each source in turn, the leaves inside it.
pub open spec fn ref_leaf_order(nodes: Seq<Node>, leaves: Seq<usize>, refs: Seq<StateRef>) -> Seq<usize>
    decreases refs.len(),
{
    if refs.len() == 0 {
        Seq::empty()
    } else {
        push_new(ref_leaf_order(nodes, leaves, refs.drop_last()), under_positions(nodes, leaves, refs.last().name.text@))
    }
}

/// The leaf positions a source column covers, in the order they are listed.
pub open spec fn source_order(nodes: Seq<Node>, leaves: Seq<usize>, src: SourcePattern) -> Seq<usize> {
    match src {
        SourcePattern::Any => Seq::new(leaves.len(), |i: int| i as usize),
        SourcePattern::States(refs) => ref_leaf_order(nodes, leaves, refs@),
    }
}

/// The declared positions of listed events, in the order listed; events
/// that are not declared are skipped.
pub open spec fn listed_positions(events: Seq<Ident>, ids: Seq<Ident>) -> Seq<usize>
    decreases ids.len(),
{
    if ids.len() == 0 {
        Seq::empty()
    } else {
        listed_positions(events, ids.drop_last()) + match event_pos_from(events, ids.last().text@, 0) {
            Some(p) => seq![p],
            None => Seq::empty(),
        }
    }
}

/// The event positions an event column lists: all of them, in order, for
/// `_`.
pub open spec fn event_positions(events: Seq<Ident>, pat: EventPattern) -> Seq<usize> {
    match pat {
        EventPattern::Any => Seq::new(events.len(), |i: int| i as usize),
        EventPattern::Events(ids) => listed_positions(events, ids@),
    }
}

/// The larger of an optional value and a value.
pub open spec fn max_opt(a: Option<int>, b: int) -> int {
    match a {
        Some(x) => if x > b { x } else { b },
        None => b,
    }
}

/// The deepest of the named sources that cover leaf `l`.
pub open spec fn refs_spec(nodes: Seq<Node>, leaves: Seq<usize>, refs: Seq<StateRef>, l: int) -> Option<int>
    decreases refs.len(),
{
    if refs.len() == 0 {
        None
    } else {
        let prev = refs_spec(nodes, leaves, refs.drop_last(), l);
        let r = refs.last();
        if ref_covers(nodes, leaves, r.name.text@, l) {
            Some(max_opt(prev, depth_of(nodes, r.name.text@)))
        } else {
            prev
        }
    }
}

/// The specificity with which a source column covers leaf position `l`;
/// `None` when it does not cover it.
pub open spec fn source_spec(nodes: Seq<Node>, leaves: Seq<usize>, src: SourcePattern, l: int) -> Option<int> {
    if 0 <= l < leaves.len() {
        match src {
            SourcePattern::Any => Some(-1),
            SourcePattern::States(refs) => refs_spec(nodes, leaves, refs@, l),
        }
    } else {
        None
    }
}

/// The first event at position `k` or later named `name`.
pub open spec fn event_pos_from(events: Seq<Ident>, name: Seq<char>, k: int) -> Option<usize>
    decreases events.len() - k,
{
    if k < 0 || k >= events.len() {
        None
    } else if events[k].text@ == name {
        Some(k as usize)
    } else {
        event_pos_from(events, name, k + 1)
    }
}

/// Whether an optional position is `e`.
pub open spec fn pos_is(o: Option<usize>, e: int) -> bool {
    match o {
        Some(p) => p as int == e,
        None => false,
    }
}

/// Whether an event column covers event position `e`.
pub open spec fn event_covered(events: Seq<Ident>, pat: EventPattern, e: int) -> bool {
    match pat {
        EventPattern::Any => 0 <= e < events.len(),
        EventPattern::Events(ids) => exists|m: int|
            0 <= m < ids@.len() && pos_is(event_pos_from(events, ids@[m].text@, 0), e),
    }
}

/// Whether a row covers the pair (leaf position `l`, event position `e`).
pub open spec fn covers(nodes: Seq<Node>, leaves: Seq<usize>, events: Seq<Ident>, row: Row, l: int, e: int) -> bool {
    source_spec(nodes, leaves, row.sources, l) is Some && event_covered(events, row.events, e)
}

/// The specificity of a row for leaf `l`; `i32::MIN` when it does not cover it.
pub open spec fn spec_at(nodes: Seq<Node>, leaves: Seq<usize>, row: Row, l: int) -> int {
    match source_spec(nodes, leaves, row.sources, l) {
        Some(s) => s,
        None => i32::MIN as int,
    }
}

/// The value stored for key `l`, if any.
pub open spec fn entry_val(v: Seq<(usize, i32)>, l: int) -> Option<int>
    decreases v.len(),
{
    if v.len() == 0 {
        None
    } else if v.last().0 == l {
        Some(v.last().1 as int)
    } else {
        entry_val(v.drop_last(), l)
    }
}

/// No key occurs twice.
pub open spec fn keys_distinct(v: Seq<(usize, i32)>) -> bool {
    forall|a: int, b: int| 0 <= a < b < v.len() ==> v[a].0 != v[b].0
}

/// A transition row with its expansion over the leaf set precomputed.
#[derive(Debug)]
pub struct RowInfo {
    /// The row has a guard.
    pub guarded: bool,
    /// (leaf position, specificity): specificity is the depth of the source
    /// that covers the leaf; wildcard sources count as -1.
    pub leaf_specs: Vec<(usize, i32)>,
    /// Positions of the events the row covers.
    pub ev_idxs: Vec<usize>,
}

impl RowInfo {
    /// The info describes `row` over the given leaves and events.
    pub open spec fn describes(self, nodes: Seq<Node>, leaves: Seq<usize>, events: Seq<Ident>, row: Row) -> bool {
        &&& self.guarded == row.guard is Some
        &&& keys_distinct(self.leaf_specs@)
        &&& forall|k: int| 0 <= k < self.leaf_specs@.len() ==> self.leaf_specs@[k].0 < leaves.len()
        &&& forall|l: int| 0 <= l < leaves.len() ==> entry_val(self.leaf_specs@, l) == source_spec(
            nodes,
            leaves,
            row.sources,
            l,
        )
        &&& keys_of(self.leaf_specs@) == source_order(nodes, leaves, row.sources)
        &&& forall|m: int| 0 <= m < self.ev_idxs@.len() ==> self.ev_idxs@[m] < events.len() && event_covered(events, row.events, self.ev_idxs@[m] as int)
        &&& forall|e: int| event_covered(events, row.events, e) ==> self.ev_idxs@.contains(e as usize)
        &&& self.ev_idxs@ == event_positions(events, row.events)
    }

    /// Whether the row covers (leaf `leaf`, event `event`).
    #[verifier::loop_isolation(false)]
    pub fn covers(&self, leaf: usize, event: usize) -> (res: bool)
        requires
            keys_distinct(self.leaf_specs@),
        ensures
            res == (entry_val(self.leaf_specs@, leaf as int) is Some && self.ev_idxs@.contains(event)),
    {
        let mut has_leaf = false;
        let mut k: usize = 0;
        while k < self.leaf_specs.len()
            invariant
                k <= self.leaf_specs@.len(),
                has_leaf == exists|a: int| 0 <= a < k && self.leaf_specs@[a].0 == leaf,
            decreases self.leaf_specs@.len() - k,
        {
            if self.leaf_specs[k].0 == leaf {
                has_leaf = true;
            }
            k += 1;
        }
        proof { lemma_entry_val_some(self.leaf_specs@, leaf as int); }
        if !has_leaf {
            return false;
        }
        let mut m: usize = 0;
        while m < self.ev_idxs.len()
            invariant
                m <= self.ev_idxs@.len(),
                forall|a: int| 0 <= a < m ==> self.ev_idxs@[a] != event,
            decreases self.ev_idxs@.len() - m,
        {
            if self.ev_idxs[m] == event {
                return true;
            }
            m += 1;
        }
        false
    }

    /// The specificity of the row for `leaf`; `i32::MIN` when it does not
    /// cover it.
    pub fn specificity(&self, leaf: usize) -> (res: i32)
        requires
            keys_distinct(self.leaf_specs@),
        ensures
            res == match entry_val(self.leaf_specs@, leaf as int) {
                Some(s) => s,
                None => i32::MIN as int,
            },
    {
        let mut best = i32::MIN;
        let mut k: usize = 0;
        proof { lemma_entry_val_some(self.leaf_specs@, leaf as int); }
        while k < self.leaf_specs.len()
            invariant
                k <= self.leaf_specs@.len(),
                keys_distinct(self.leaf_specs@),
                entry_val(self.leaf_specs@, leaf as int) is Some <==> exists|a: int|
                    0 <= a < self.leaf_specs@.len() && self.leaf_specs@[a].0 == leaf,
                forall|a: int| 0 <= a < self.leaf_specs@.len() && self.leaf_specs@[a].0 == leaf
                    ==> entry_val(self.leaf_specs@, leaf as int) == Some(self.leaf_specs@[a].1 as int),
                (exists|a: int| 0 <= a < k && self.leaf_specs@[a].0 == leaf) ==> best == entry_val(
                    self.leaf_specs@,
                    leaf as int,
                ).unwrap(),
                !(exists|a: int| 0 <= a < k && self.leaf_specs@[a].0 == leaf) ==> best == i32::MIN,
            decreases self.leaf_specs@.len() - k,
        {
            let (l, s) = self.leaf_specs[k];
            if l == leaf && s > best {
                best = s;
            }
            proof {
                if l == leaf {
                    assert(entry_val(self.leaf_specs@, leaf as int) == Some(s as int));
                }
            }
            k += 1;
        }
        best
    }

    /// Every covered (leaf, event) pair.
    pub fn pairs(&self) -> (res: Vec<(usize, usize)>)
        ensures
            forall|l: usize, e: usize| res@.contains((l, e)) <==> (exists|k: int|
                0 <= k < self.leaf_specs@.len() && self.leaf_specs@[k].0 == l) && self.ev_idxs@.contains(e),
    {
        let mut out: Vec<(usize, usize)> = Vec::new();
        let mut k: usize = 0;
        while k < self.leaf_specs.len()
            invariant
                k <= self.leaf_specs@.len(),
                forall|l: usize, e: usize| out@.contains((l, e)) <==> (exists|a: int|
                    0 <= a < k && self.leaf_specs@[a].0 == l) && self.ev_idxs@.contains(e),
            decreases self.leaf_specs@.len() - k,
        {
            let l = self.leaf_specs[k].0;
            let ghost before = out@;
            let mut m: usize = 0;
            while m < self.ev_idxs.len()
                invariant
                    k < self.leaf_specs@.len(),
                    l == self.leaf_specs@[k as int].0,
                    m <= self.ev_idxs@.len(),
                    out@.len() == before.len() + m,
                    forall|a: int| 0 <= a < before.len() ==> out@[a] == before[a],
                    forall|a: int| 0 <= a < m ==> out@[before.len() + a] == (l, self.ev_idxs@[a]),
                decreases self.ev_idxs@.len() - m,
            {
                out.push((l, self.ev_idxs[m]));
                m += 1;
            }
            assert forall|l2: usize, e: usize| out@.contains((l2, e)) <==> (exists|a: int|
                0 <= a < k + 1 && self.leaf_specs@[a].0 == l2) && self.ev_idxs@.contains(e) by {
                if out@.contains((l2, e)) {
                    let x = choose|x: int| 0 <= x < out@.len() && out@[x] == (l2, e);
                    if x < before.len() {
                        assert(before[x] == (l2, e));
                        assert(before.contains((l2, e)));
                    } else {
                        assert(self.ev_idxs@[x - before.len()] == e);
                    }
                }
                if (exists|a: int| 0 <= a < k + 1 && self.leaf_specs@[a].0 == l2) && self.ev_idxs@.contains(e) {
                    if exists|a: int| 0 <= a < k && self.leaf_specs@[a].0 == l2 {
                        assert(before.contains((l2, e)));
                        let x = choose|x: int| 0 <= x < before.len() && before[x] == (l2, e);
                        assert(out@[x] == (l2, e));
                    } else {
                        assert(l2 == l);
                        let y = choose|y: int| 0 <= y < self.ev_idxs@.len() && self.ev_idxs@[y] == e;
                        assert(out@[before.len() + y] == (l2, e));
                    }
                }
            }
            k += 1;
        }
        out
    }
}

/// A stored value exists exactly for keys that some entry carries, and with
/// distinct keys it is that entry's value.
pub proof fn lemma_entry_val_some(v: Seq<(usize, i32)>, l: int)
    requires
        keys_distinct(v),
    ensures
        entry_val(v, l) is Some <==> exists|a: int| 0 <= a < v.len() && v[a].0 == l,
        forall|a: int| 0 <= a < v.len() && v[a].0 == l ==> entry_val(v, l) == Some(v[a].1 as int),
    decreases v.len(),
{
    if v.len() > 0 {
        let d = v.drop_last();
        lemma_entry_val_some(d, l);
        assert forall|a: int| 0 <= a < d.len() implies d[a] == v[a] by {}
        if v.last().0 != l {
            if exists|a: int| 0 <= a < v.len() && v[a].0 == l {
                let a = choose|a: int| 0 <= a < v.len() && v[a].0 == l;
                assert(a < d.len());
                assert(d[a].0 == l);
            }
        }
    }
}


/// Raises the value stored for `idx` to at least `spec`, adding the key if
/// it is new.
fn raise_entry(specs: &mut Vec<(usize, i32)>, idx: usize, spec: i32)
    requires
        keys_distinct(old(specs)@),
    ensures
        keys_distinct(final(specs)@),
        forall|l: int| entry_val(final(specs)@, l) == if l == idx {
            Some(max_opt(entry_val(old(specs)@, idx as int), spec as int))
        } else {
            entry_val(old(specs)@, l)
        },
        forall|k: int| 0 <= k < final(specs)@.len() ==> final(specs)@[k].0 == idx || exists|a: int|
            0 <= a < old(specs)@.len() && old(specs)@[a].0 == final(specs)@[k].0,
        keys_of(final(specs)@) == if keys_of(old(specs)@).contains(idx) {
            keys_of(old(specs)@)
        } else {
            keys_of(old(specs)@).push(idx)
        },
{
    let ghost v0 = specs@;
    let mut k: usize = 0;
    while k < specs.len()
        invariant
            specs@ == v0,
            v0 == old(specs)@,
            keys_distinct(v0),
            k <= v0.len(),
            forall|a: int| 0 <= a < k ==> v0[a].0 != idx,
        decreases v0.len() - k,
    {
        if specs[k].0 == idx {
            let old_val = specs[k].1;
            let new_val = if old_val > spec { old_val } else { spec };
            specs.set(k, (idx, new_val));
            proof {
                lemma_entry_val_some(v0, idx as int);
                let v1 = specs@;
                assert forall|a: int, b: int| 0 <= a < b < v1.len() implies v1[a].0 != v1[b].0 by {
                    assert(v1[a].0 == v0[a].0);
                    assert(v1[b].0 == v0[b].0);
                }
                lemma_entry_val_some(v1, idx as int);
                assert forall|l: int| entry_val(v1, l) == if l == idx {
                    Some(max_opt(entry_val(v0, idx as int), spec as int))
                } else {
                    entry_val(v0, l)
                } by {
                    lemma_entry_val_some(v1, l);
                    lemma_entry_val_some(v0, l);
                    if l != idx {
                        if exists|a: int| 0 <= a < v0.len() && v0[a].0 == l {
                            let a = choose|a: int| 0 <= a < v0.len() && v0[a].0 == l;
                            assert(v1[a] == v0[a]);
                        }
                        if exists|a: int| 0 <= a < v1.len() && v1[a].0 == l {
                            let a = choose|a: int| 0 <= a < v1.len() && v1[a].0 == l;
                            assert(v1[a] == v0[a]);
                        }
                    } else {
                        assert(v1[k as int] == (idx, new_val));
                    }
                }
                assert forall|m: int| 0 <= m < v1.len() implies v1[m].0 == idx || exists|a: int|
                    0 <= a < v0.len() && v0[a].0 == v1[m].0 by {
                    assert(v1[m].0 == v0[m].0);
                }
                assert(keys_of(v0)[k as int] == idx);
                assert(keys_of(v1) =~= keys_of(v0));
            }
            return;
        }
        k += 1;
    }
    specs.push((idx, spec));
    proof {
        let v1 = specs@;
        assert(v1.drop_last() =~= v0);
        assert forall|a: int, b: int| 0 <= a < b < v1.len() implies v1[a].0 != v1[b].0 by {
            if b < v0.len() {
                assert(v1[a] == v0[a]);
                assert(v1[b] == v0[b]);
            } else {
                assert(v1[a] == v0[a]);
            }
        }
        lemma_entry_val_some(v0, idx as int);
        assert forall|m: int| 0 <= m < v1.len() implies v1[m].0 == idx || exists|a: int|
            0 <= a < v0.len() && v0[a].0 == v1[m].0 by {
            if m < v0.len() {
                assert(v1[m] == v0[m]);
            }
        }
        assert(!keys_of(v0).contains(idx)) by {
            if keys_of(v0).contains(idx) {
                let a = choose|a: int| 0 <= a < keys_of(v0).len() && keys_of(v0)[a] == idx;
                assert(v0[a].0 == idx);
            }
        }
        assert(keys_of(v1) =~= keys_of(v0).push(idx));
    }
}

/// The states inside the state called `name` are states.
proof fn lemma_leaves_under_bound(nodes: Seq<Node>, leaves: Seq<usize>, name: Seq<char>)
    requires
        nodes.len() <= usize::MAX,
        forall|m: int| 0 <= m < leaves.len() ==> leaves[m] < nodes.len(),
    ensures
        forall|a: int| 0 <= a < leaves_under_spec(nodes, leaves, name).len() ==> leaves_under_spec(nodes, leaves, name)[a] < nodes.len(),
{
    lemma_last_named_bound(nodes, name);
    lemma_leaves_with_ancestor_sub(nodes, leaves, name);
    let lus = leaves_under_spec(nodes, leaves, name);
    assert forall|a: int| 0 <= a < lus.len() implies lus[a] < nodes.len() by {
        if !(last_named(nodes, name) matches Some(i) && nodes[i as int].is_leaf) {
            let k = choose|k: int| 0 <= k < leaves.len() && leaves[k] == lus[a];
        }
    }
}

/// The first leaf position whose state is named `name`.
fn leaf_position_named(tree: &Tree, name: &str) -> (res: Option<usize>)
    requires
        tree.wf(),
    ensures
        res == leaf_pos_named(tree.all@, tree.leaves@, name@, 0),
        res matches Some(q) ==> q < tree.leaves@.len(),
{
    proof { lemma_leaf_indices(tree.all@); }
    let mut q: usize = 0;
    while q < tree.leaves.len()
        invariant
            tree.wf(),
            forall|m: int| 0 <= m < tree.leaves@.len() ==> tree.leaves@[m] < tree.all@.len(),
            q <= tree.leaves@.len(),
            leaf_pos_named(tree.all@, tree.leaves@, name@, 0) == leaf_pos_named(tree.all@, tree.leaves@, name@, q as int),
        decreases tree.leaves@.len() - q,
    {
        if str_eq(tree.all[tree.leaves[q]].name.text.as_str(), name) {
            return Some(q);
        }
        q += 1;
    }
    None
}

/// Raises the entries of the leaves of states `lu` to at least `d`, adding
/// the leaves not yet present in order.
fn raise_under(tree: &Tree, specs: &mut Vec<(usize, i32)>, lu: &Vec<usize>, d: i32)
    requires
        tree.wf(),
        forall|a: int| 0 <= a < lu@.len() ==> lu@[a] < tree.all@.len(),
        keys_distinct(old(specs)@),
        forall|a: int| 0 <= a < old(specs)@.len() ==> old(specs)@[a].0 < tree.leaves@.len(),
    ensures
        keys_distinct(final(specs)@),
        forall|a: int| 0 <= a < final(specs)@.len() ==> final(specs)@[a].0 < tree.leaves@.len(),
        forall|l: int| 0 <= l < tree.leaves@.len() ==> entry_val(final(specs)@, l) == if positions_of(tree.all@, tree.leaves@, lu@).contains(l as usize) {
            Some(max_opt(entry_val(old(specs)@, l), d as int))
        } else {
            entry_val(old(specs)@, l)
        },
        keys_of(final(specs)@) == push_new(keys_of(old(specs)@), positions_of(tree.all@, tree.leaves@, lu@)),
{
    let ghost nodes = tree.all@;
    let ghost leaves = tree.leaves@;
    let ghost prev = specs@;
    let _nl = tree.leaves.len();
    let mut m: usize = 0;
    while m < lu.len()
        invariant
            leaves.len() <= usize::MAX,
            tree.wf(),
            nodes == tree.all@,
            leaves == tree.leaves@,
            prev == old(specs)@,
            forall|a: int| 0 <= a < lu@.len() ==> lu@[a] < nodes.len(),
            m <= lu@.len(),
            keys_distinct(specs@),
            forall|a: int| 0 <= a < specs@.len() ==> specs@[a].0 < leaves.len(),
            forall|l: int| 0 <= l < leaves.len() ==> entry_val(specs@, l) == if positions_of(nodes, leaves, lu@.take(m as int)).contains(l as usize) {
                Some(max_opt(entry_val(prev, l), d as int))
            } else {
                entry_val(prev, l)
            },
            keys_of(specs@) == push_new(keys_of(prev), positions_of(nodes, leaves, lu@.take(m as int))),
        decreases lu@.len() - m,
    {
        let n = lu[m];
        let ghost before = specs@;
        let ghost ps0 = positions_of(nodes, leaves, lu@.take(m as int));
        let ghost ps1 = positions_of(nodes, leaves, lu@.take(m + 1));
        proof {
            assert(lu@.take(m + 1).drop_last() =~= lu@.take(m as int));
            assert(lu@.take(m + 1).last() == n);
        }
        match leaf_position_named(tree, tree.all[n].name.text.as_str()) {
            Some(q) => {
                raise_entry(specs, q, d);
                proof {
                    assert(ps1 =~= ps0.push(q));
                    assert(ps1.drop_last() =~= ps0);
                    assert forall|l: int| 0 <= l < leaves.len() implies entry_val(specs@, l) == if ps1.contains(l as usize) {
                        Some(max_opt(entry_val(prev, l), d as int))
                    } else {
                        entry_val(prev, l)
                    } by {
                        assert(entry_val(before, l) == if ps0.contains(l as usize) {
                            Some(max_opt(entry_val(prev, l), d as int))
                        } else {
                            entry_val(prev, l)
                        });
                        if ps0.contains(l as usize) {
                            let x = choose|x: int| 0 <= x < ps0.len() && ps0[x] == l as usize;
                            assert(ps1[x] == l as usize);
                        }
                        if l == q {
                            assert(ps1[ps0.len() as int] == q);
                        }
                        if ps1.contains(l as usize) && !ps0.contains(l as usize) {
                            let x = choose|x: int| 0 <= x < ps1.len() && ps1[x] == l as usize;
                            if x < ps0.len() {
                                assert(ps0[x] == l as usize);
                            }
                        }
                    }
                }
            },
            None => {
                proof {
                    assert(ps1 =~= ps0);
                }
            },
        }
        m += 1;
    }
    proof {
        assert(lu@.take(lu@.len() as int) =~= lu@);
    }
}

/// The leaf specificities of a list of named sources: for every leaf the
/// deepest source that encloses it, leaves in order of first appearance.
fn ref_leaf_specs(tree: &Tree, refs: &Vec<StateRef>) -> (res: Vec<(usize, i32)>)
    requires
        tree.wf(),
        tree.all@.len() <= i32::MAX,
    ensures
        keys_distinct(res@),
        forall|k: int| 0 <= k < res@.len() ==> res@[k].0 < tree.leaves@.len(),
        forall|l: int| 0 <= l < tree.leaves@.len() ==> entry_val(res@, l) == refs_spec(tree.all@, tree.leaves@, refs@, l),
        keys_of(res@) == ref_leaf_order(tree.all@, tree.leaves@, refs@),
{
    let ghost nodes = tree.all@;
    let ghost leaves = tree.leaves@;
    proof { lemma_leaf_indices(nodes); }
    let mut specs: Vec<(usize, i32)> = Vec::new();
    let mut k: usize = 0;
    while k < refs.len()
        invariant
            tree.wf(),
            tree.all@.len() <= i32::MAX,
            nodes == tree.all@,
            leaves == tree.leaves@,
            forall|m: int| 0 <= m < leaves.len() ==> leaves[m] < nodes.len(),
            k <= refs@.len(),
            keys_distinct(specs@),
            forall|a: int| 0 <= a < specs@.len() ==> specs@[a].0 < leaves.len(),
            forall|l: int| 0 <= l < leaves.len() ==> entry_val(specs@, l) == refs_spec(nodes, leaves, refs@.take(k as int), l),
            keys_of(specs@) == ref_leaf_order(nodes, leaves, refs@.take(k as int)),
        decreases refs@.len() - k,
    {
        let r = &refs[k];
        let name = r.name.text.as_str();
        let lu = tree.leaves_under(name);
        let d = tree.depth(name);
        proof {
            lemma_name_walk_len(nodes, name@, nodes.len());
            assert(refs@.take(k + 1).drop_last() =~= refs@.take(k as int));
            assert(refs@.take(k + 1).last() == refs@[k as int]);
            lemma_leaves_under_bound(nodes, leaves, name@);
        }
        let ghost prev = specs@;
        raise_under(tree, &mut specs, &lu, d);
        proof {
            assert(lu@ == leaves_under_spec(nodes, leaves, name@));
        }
        k += 1;
    }
    proof { assert(refs@.take(refs@.len() as int) =~= refs@); }
    specs
}

/// The first position of an event named `name`.
fn event_position(events: &Vec<Ident>, name: &String) -> (res: Option<usize>)
    ensures
        res == event_pos_from(events@, name@, 0),
{
    let mut k: usize = 0;
    while k < events.len()
        invariant
            k <= events@.len(),
            event_pos_from(events@, name@, 0) == event_pos_from(events@, name@, k as int),
        decreases events@.len() - k,
    {
        if events[k].text == *name {
            return Some(k);
        }
        k += 1;
    }
    None
}

/// A found event position lies within the events.
pub proof fn lemma_event_pos_bound(events: Seq<Ident>, name: Seq<char>, k: int)
    requires
        0 <= k,
        events.len() <= usize::MAX,
    ensures
        event_pos_from(events, name, k) matches Some(e) ==> k <= e < events.len(),
    decreases events.len() - k,
{
    if k < events.len() {
        lemma_event_pos_bound(events, name, k + 1);
    }
}

/// The positions of the events an event column covers.
fn event_idxs(events: &Vec<Ident>, pat: &EventPattern) -> (res: Vec<usize>)
    ensures
        forall|m: int| 0 <= m < res@.len() ==> res@[m] < events@.len() && event_covered(events@, *pat, res@[m] as int),
        forall|e: int| event_covered(events@, *pat, e) ==> res@.contains(e as usize),
        res@ == event_positions(events@, *pat),
{
    let mut out: Vec<usize> = Vec::new();
    match pat {
        EventPattern::Any => {
            let mut e: usize = 0;
            while e < events.len()
                invariant
                    e <= events@.len(),
                    out@.len() == e,
                    forall|m: int| 0 <= m < e ==> out@[m] == m,
                decreases events@.len() - e,
            {
                out.push(e);
                e += 1;
            }
            assert forall|e: int| event_covered(events@, *pat, e) implies out@.contains(e as usize) by {
                assert(out@[e] == e as usize);
            }
            assert(out@ =~= event_positions(events@, *pat));
        },
        EventPattern::Events(ids) => {
            let _n = events.len();
            let mut k: usize = 0;
            while k < ids.len()
                invariant
                    k <= ids@.len(),
                    *pat == EventPattern::Events(*ids),
                    events@.len() <= usize::MAX,
                    forall|m: int| 0 <= m < out@.len() ==> out@[m] < events@.len() && event_covered(events@, *pat, out@[m] as int),
                    forall|a: int| #![trigger ids@[a]] 0 <= a < k ==> match event_pos_from(events@, ids@[a].text@, 0) {
                        Some(e) => out@.contains(e),
                        None => true,
                    },
                    out@ == listed_positions(events@, ids@.take(k as int)),
                decreases ids@.len() - k,
            {
                let ghost before = out@;
                assert(ids@.take(k + 1).drop_last() =~= ids@.take(k as int));
                assert(ids@.take(k + 1).last() == ids@[k as int]);
                proof { lemma_event_pos_bound(events@, ids@[k as int].text@, 0); }
                match event_position(events, &ids[k].text) {
                    Some(e) => {
                        out.push(e);
                        proof {
                            assert(out@[out@.len() - 1] == e);
                            assert(event_pos_from(events@, ids@[k as int].text@, 0) == Some(e));
                            assert(*pat == EventPattern::Events(*ids));
                            assert(0 <= k < ids@.len() && pos_is(event_pos_from(events@, ids@[k as int].text@, 0), e as int));
                            assert(event_covered(events@, *pat, e as int));
                            assert forall|m: int| 0 <= m < out@.len() implies out@[m] < events@.len() && event_covered(events@, *pat, out@[m] as int) by {
                                if m < before.len() {
                                    assert(out@[m] == before[m]);
                                }
                            }
                            assert forall|a: int| #![trigger ids@[a]] 0 <= a < k implies match event_pos_from(events@, ids@[a].text@, 0) {
                                Some(e) => out@.contains(e),
                                None => true,
                            } by {
                                if let Some(e2) = event_pos_from(events@, ids@[a].text@, 0) {
                                    let x = choose|x: int| 0 <= x < before.len() && before[x] == e2;
                                    assert(out@[x] == e2);
                                }
                            }
                            assert(out@ =~= listed_positions(events@, ids@.take(k + 1)));
                        }
                    },
                    None => {
                        assert(out@ =~= listed_positions(events@, ids@.take(k + 1)));
                    },
                }
                k += 1;
            }
            assert forall|e: int| event_covered(events@, *pat, e) implies out@.contains(e as usize) by {
                let m = choose|m: int| 0 <= m < ids@.len() && pos_is(event_pos_from(events@, ids@[m].text@, 0), e);
                assert(ids@[m] == ids@[m]);
            }
            assert(ids@.take(ids@.len() as int) =~= ids@);
        },
    }
    out
}

/// Expands every row over the leaf and event sets.
pub fn row_infos(def: &MachineDef, tree: &Tree) -> (res: Vec<RowInfo>)
    requires
        tree.wf(),
        tree.all@.len() <= i32::MAX,
    ensures
        res@.len() == def.transitions@.len(),
        forall|i: int| 0 <= i < res@.len() ==> res@[i].describes(tree.all@, tree.leaves@, def.events@, def.transitions@[i]),
{
    let mut out: Vec<RowInfo> = Vec::new();
    let mut i: usize = 0;
    while i < def.transitions.len()
        invariant
            tree.wf(),
            tree.all@.len() <= i32::MAX,
            i <= def.transitions@.len(),
            out@.len() == i,
            forall|a: int| 0 <= a < i ==> out@[a].describes(tree.all@, tree.leaves@, def.events@, def.transitions@[a]),
        decreases def.transitions@.len() - i,
    {
        let row = &def.transitions[i];
        let leaf_specs = match &row.sources {
            SourcePattern::Any => {
                let mut v: Vec<(usize, i32)> = Vec::new();
                let mut l: usize = 0;
                while l < tree.leaves.len()
                    invariant
                        l <= tree.leaves@.len(),
                        v@.len() == l,
                        forall|a: int| 0 <= a < l ==> v@[a] == (a as usize, -1i32),
                    decreases tree.leaves@.len() - l,
                {
                    v.push((l, -1));
                    l += 1;
                }
                proof {
                    assert forall|l: int| 0 <= l < tree.leaves@.len() implies entry_val(v@, l) == Some(-1int) by {
                        lemma_entry_val_some(v@, l);
                        assert(v@[l].0 == l);
                    }
                    assert(keys_of(v@) =~= Seq::new(tree.leaves@.len(), |i: int| i as usize));
                }
                v
            },
            SourcePattern::States(refs) => ref_leaf_specs(tree, refs),
        };
        let ev_idxs = event_idxs(&def.events, &row.events);
        let info = RowInfo { guarded: row.guard.is_some(), leaf_specs, ev_idxs };
        out.push(info);
        proof {
            assert(out@[i as int].describes(tree.all@, tree.leaves@, def.events@, def.transitions@[i as int]));
        }
        i += 1;
    }
    out
}


/// A covered event position lies within the events.
pub proof fn lemma_event_covered_bound(events: Seq<Ident>, pat: EventPattern, e: int)
    requires
        events.len() <= usize::MAX,
        event_covered(events, pat, e),
    ensures
        0 <= e < events.len(),
{
    if let EventPattern::Events(ids) = pat {
        let m = choose|m: int| 0 <= m < ids@.len() && pos_is(event_pos_from(events, ids@[m].text@, 0), e);
        lemma_event_pos_bound(events, ids@[m].text@, 0);
    }
}

/// A row's info answers coverage questions: a pair is covered exactly when
/// the leaf has an entry and the event is listed.
pub proof fn lemma_describes_covers(info: RowInfo, nodes: Seq<Node>, leaves: Seq<usize>, events: Seq<Ident>, row: Row, l: int, e: int)
    requires
        info.describes(nodes, leaves, events, row),
        events.len() <= usize::MAX,
    ensures
        covers(nodes, leaves, events, row, l, e) <==> (0 <= l < leaves.len() && 0 <= e < events.len()
            && (exists|k: int| 0 <= k < info.leaf_specs@.len() && info.leaf_specs@[k].0 == l)
            && info.ev_idxs@.contains(e as usize)),
        covers(nodes, leaves, events, row, l, e) ==> spec_at(nodes, leaves, row, l) == entry_val(info.leaf_specs@, l).unwrap(),
{
    lemma_entry_val_some(info.leaf_specs@, l);
    if covers(nodes, leaves, events, row, l, e) {
        lemma_event_covered_bound(events, row.events, e);
    }
    if 0 <= l < leaves.len() && 0 <= e < events.len() && info.ev_idxs@.contains(e as usize) {
        let m = choose|m: int| 0 <= m < info.ev_idxs@.len() && info.ev_idxs@[m] == e as usize;
        assert(event_covered(events, row.events, info.ev_idxs@[m] as int));
    }
    if exists|k: int| 0 <= k < info.leaf_specs@.len() && info.leaf_specs@[k].0 == l {
        let k = choose|k: int| 0 <= k < info.leaf_specs@.len() && info.leaf_specs@[k].0 == l;
        assert(info.leaf_specs@[k].0 < leaves.len());
    }
}


/// The pairs listed for a row are exactly the pairs it covers.
pub proof fn lemma_pairs_cover(info: RowInfo, pairs: Seq<(usize, usize)>, nodes: Seq<Node>, leaves: Seq<usize>, events: Seq<Ident>, row: Row)
    requires
        info.describes(nodes, leaves, events, row),
        events.len() <= usize::MAX,
        leaves.len() <= usize::MAX,
        forall|l: usize, e: usize| pairs.contains((l, e)) <==> (exists|k: int|
            0 <= k < info.leaf_specs@.len() && info.leaf_specs@[k].0 == l) && info.ev_idxs@.contains(e),
    ensures
        forall|l: int, e: int| covers(nodes, leaves, events, row, l, e) <==> (0 <= l < leaves.len() && 0 <= e < events.len() && pairs.contains((l as usize, e as usize))),
        forall|a: int| 0 <= a < pairs.len() ==> pairs[a].0 < leaves.len() && pairs[a].1 < events.len(),
{
    assert forall|l: int, e: int| covers(nodes, leaves, events, row, l, e) <==> (0 <= l < leaves.len() && 0 <= e < events.len() && pairs.contains((l as usize, e as usize))) by {
        lemma_describes_covers(info, nodes, leaves, events, row, l, e);
        if 0 <= l < leaves.len() && 0 <= e < events.len() {
            let lu = l as usize;
            let eu = e as usize;
            assert(lu as int == l);
            assert(eu as int == e);
            if pairs.contains((lu, eu)) {
                assert((exists|k: int| 0 <= k < info.leaf_specs@.len() && info.leaf_specs@[k].0 == lu) && info.ev_idxs@.contains(eu));
            }
            if covers(nodes, leaves, events, row, l, e) {
                assert(exists|k: int| 0 <= k < info.leaf_specs@.len() && info.leaf_specs@[k].0 == lu);
                assert(info.ev_idxs@.contains(eu));
                assert(pairs.contains((lu, eu)));
            }
        }
    }
    assert forall|a: int| 0 <= a < pairs.len() implies pairs[a].0 < leaves.len() && pairs[a].1 < events.len() by {
        let p = pairs[a];
        assert(pairs.contains(p));
        assert(pairs.contains((p.0, p.1)));
        let k = choose|k: int| 0 <= k < info.leaf_specs@.len() && info.leaf_specs@[k].0 == p.0;
        let m = choose|m: int| 0 <= m < info.ev_idxs@.len() && info.ev_idxs@[m] == p.1;
    }
}

} // verus!
