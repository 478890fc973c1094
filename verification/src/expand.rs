//! From a parsed definition to a machine plan: initial markers on rows are
//! folded into the hierarchy, the definition is checked, the plan built.

use vstd::prelude::*;
use crate::model::{MachineDef, Row, SourcePattern, StateRef, StateDef};
use crate::tree::{Tree, Node, flatten, node_of, leaf_indices, parents_precede, find_mut, first_named_from};
use crate::error::{Diagnostic, diags_view};
use crate::validate::{validate, validation_errors};
use crate::plan::{MachinePlan, generate, plan_of, lemma_valid_ready};

verus! {

/// Whether one of `refs` carries a `*` and names node `i` (first
/// declaration of that name).
pub open spec fn marked_by_refs(nodes: Seq<Node>, refs: Seq<StateRef>, i: int) -> bool
    decreases refs.len(),
{
    if refs.len() == 0 {
        false
    } else {
        marked_by_refs(nodes, refs.drop_last(), i) || (refs.last().initial_marker
            && first_named_from(nodes, refs.last().name.text@, 0) == Some(i as usize))
    }
}

/// Whether a source of one of `rows` carries a `*` and names node `i`.
pub open spec fn marked_by_rows(nodes: Seq<Node>, rows: Seq<Row>, i: int) -> bool
    decreases rows.len(),
{
    if rows.len() == 0 {
        false
    } else {
        marked_by_rows(nodes, rows.drop_last(), i) || match rows.last().sources {
            SourcePattern::States(refs) => marked_by_refs(nodes, refs@, i),
            SourcePattern::Any => false,
        }
    }
}

/// The nodes with the initial markers of the rows applied.
pub open spec fn with_markers(nodes: Seq<Node>, rows: Seq<Row>) -> Seq<Node> {
    Seq::new(
        nodes.len(),
        |i: int| Node {
            name: nodes[i].name,
            initial: nodes[i].initial || marked_by_rows(nodes, rows, i),
            entry: nodes[i].entry,
            exit: nodes[i].exit,
            parent: nodes[i].parent,
            is_leaf: nodes[i].is_leaf,
        },
    )
}

/// The hierarchy of a definition: its states flattened, row markers applied.
pub open spec fn def_nodes(def: MachineDef) -> Seq<Node> {
    with_markers(flatten(def.states@, None, 0), def.transitions@)
}

/// Whether nodes agree in everything but the initial flag.
pub open spec fn same_but_initial(a: Seq<Node>, b: Seq<Node>) -> bool {
    &&& a.len() == b.len()
    &&& forall|i: int| #![trigger a[i], b[i]] 0 <= i < a.len() ==> a[i].name == b[i].name && a[i].entry == b[i].entry
        && a[i].exit == b[i].exit && a[i].parent == b[i].parent && a[i].is_leaf == b[i].is_leaf
}

/// Nodes that agree but for initial flags find the same names.
pub proof fn lemma_first_named_same(a: Seq<Node>, b: Seq<Node>, name: Seq<char>, k: int)
    requires
        same_but_initial(a, b),
    ensures
        first_named_from(a, name, k) == first_named_from(b, name, k),
    decreases a.len() - k,
{
    if 0 <= k < a.len() {
        assert(a[k].name == b[k].name);
        lemma_first_named_same(a, b, name, k + 1);
    }
}

/// Leaf indices depend on the leaf flags only.
pub proof fn lemma_leaf_indices_same(a: Seq<Node>, b: Seq<Node>)
    requires
        same_but_initial(a, b),
    ensures
        leaf_indices(a) == leaf_indices(b),
    decreases a.len(),
{
    if a.len() > 0 {
        let da = a.drop_last();
        let db = b.drop_last();
        assert forall|i: int| #![trigger da[i], db[i]] 0 <= i < da.len() implies da[i].name == db[i].name
            && da[i].entry == db[i].entry && da[i].exit == db[i].exit && da[i].parent == db[i].parent
            && da[i].is_leaf == db[i].is_leaf by {
            assert(da[i] == a[i] && db[i] == b[i]);
        }
        lemma_leaf_indices_same(da, db);
        assert(a.last().is_leaf == b.last().is_leaf);
    }
}

/// `*` markers on row sources are another way to designate initial states;
/// fold them into the hierarchy so it has a single source of truth. A
/// marker on an unknown name does nothing (validation reports the name).
pub fn apply_row_initial_markers(def: &MachineDef, tree: &mut Tree)
    requires
        old(tree).wf(),
    ensures
        final(tree).wf(),
        final(tree).all@ == with_markers(old(tree).all@, def.transitions@),
        final(tree).leaves@ == old(tree).leaves@,
{
    let ghost nodes0 = tree.all@;
    let ghost rows = def.transitions@;
    let mut ri: usize = 0;
    while ri < def.transitions.len()
        invariant
            ri <= rows.len(),
            rows == def.transitions@,
            nodes0 == old(tree).all@,
            nodes0.len() <= usize::MAX,
            tree.leaves@ == old(tree).leaves@,
            same_but_initial(nodes0, tree.all@),
            forall|i: int| #![trigger tree.all@[i]] 0 <= i < nodes0.len() ==> tree.all@[i].initial
                == (nodes0[i].initial || marked_by_rows(nodes0, rows.take(ri as int), i)),
        decreases rows.len() - ri,
    {
        assert(rows.take(ri + 1).drop_last() =~= rows.take(ri as int));
        assert(rows.take(ri + 1).last() == rows[ri as int]);
        let ghost before_row = tree.all@;
        if let SourcePattern::States(refs) = &def.transitions[ri].sources {
            let mut k: usize = 0;
            while k < refs.len()
                invariant
                    k <= refs@.len(),
                    nodes0.len() <= usize::MAX,
                    tree.leaves@ == old(tree).leaves@,
                    same_but_initial(nodes0, tree.all@),
                    same_but_initial(nodes0, before_row),
                    forall|i: int| #![trigger tree.all@[i]] 0 <= i < nodes0.len() ==> tree.all@[i].initial
                        == (before_row[i].initial || marked_by_refs(nodes0, refs@.take(k as int), i)),
                decreases refs@.len() - k,
            {
                assert(refs@.take(k + 1).drop_last() =~= refs@.take(k as int));
                assert(refs@.take(k + 1).last() == refs@[k as int]);
                let r: &StateRef = &refs[k];
                let ghost before = tree.all@;
                if r.initial_marker {
                    proof {
                        lemma_first_named_same(nodes0, before, r.name.text@, 0);
                    }
                    match find_mut(&mut tree.all, r.name.text.as_str()) {
                        Some(n) => {
                            n.initial = true;
                        },
                        None => {},
                    }
                }
                proof {
                    assert forall|i: int| #![trigger nodes0[i], tree.all@[i]] 0 <= i < nodes0.len() implies nodes0[i].name
                        == tree.all@[i].name && nodes0[i].entry == tree.all@[i].entry && nodes0[i].exit
                        == tree.all@[i].exit && nodes0[i].parent == tree.all@[i].parent && nodes0[i].is_leaf
                        == tree.all@[i].is_leaf by {
                        assert(before[i] == before[i]);
                    }
                    assert forall|i: int| #![trigger tree.all@[i]] 0 <= i < nodes0.len() implies tree.all@[i].initial
                        == (before_row[i].initial || marked_by_refs(nodes0, refs@.take(k + 1), i)) by {
                        assert(before[i].initial == (before_row[i].initial || marked_by_refs(nodes0, refs@.take(k as int), i)));
                        if r.initial_marker {
                            if let Some(j) = first_named_from(nodes0, r.name.text@, 0) {
                                assert(tree.all@ == before.update(j as int, tree.all@[j as int]));
                            }
                        }
                    }
                }
                k += 1;
            }
            assert(refs@.take(refs@.len() as int) =~= refs@);
        }
        ri += 1;
    }
    assert(rows.take(rows.len() as int) =~= rows);
    proof {
        let n1 = tree.all@;
        let w = with_markers(nodes0, rows);
        assert forall|i: int| 0 <= i < n1.len() implies n1[i] == w[i] by {
            assert(nodes0[i] == nodes0[i] && n1[i] == n1[i]);
        }
        assert(n1 =~= w);
        assert forall|i: int| #![trigger n1[i]] 0 <= i < n1.len() implies match n1[i].parent {
            Some(p) => p < i,
            None => true,
        } by {
            assert(nodes0[i] == nodes0[i]);
        }
        lemma_leaf_indices_same(nodes0, n1);
    }
}

/// The nodes `ns`, whose first lands at index `start`, with their initial
/// flags taken from `from`.
pub open spec fn initials_from(ns: Seq<Node>, from: Seq<Node>, start: int) -> Seq<Node> {
    Seq::new(
        ns.len(),
        |k: int| Node {
            name: ns[k].name,
            initial: from[start + k].initial,
            entry: ns[k].entry,
            exit: ns[k].exit,
            parent: ns[k].parent,
            is_leaf: ns[k].is_leaf,
        },
    )
}

/// A forest flattens to nothing exactly when it is empty.
pub proof fn lemma_flatten_empty(states: Seq<StateDef>, parent: Option<usize>, start: int)
    ensures
        (flatten(states, parent, start).len() == 0) == (states.len() == 0),
{
}

/// Copies the initial flags of `nodes`, from index `start` on, into the
/// states of a forest in pre-order; returns the index after its last state.
fn write_initials(states: &mut Vec<StateDef>, nodes: &Vec<Node>, start: usize, parent: Option<usize>) -> (next: usize)
    requires
        start + flatten(old(states)@, parent, start as int).len() <= nodes@.len(),
    ensures
        flatten(final(states)@, parent, start as int) == initials_from(flatten(old(states)@, parent, start as int), nodes@, start as int),
        next == start + flatten(old(states)@, parent, start as int).len(),
    decreases old(states)@,
{
    let ghost olds = states@;
    let _n = nodes.len();
    let mut pos = start;
    let mut i: usize = 0;
    while i < states.len()
        invariant
            nodes@.len() <= usize::MAX,
            olds == old(states)@,
            states@.len() == olds.len(),
            i <= olds.len(),
            forall|j: int| i <= j < olds.len() ==> states@[j] == olds[j],
            start + flatten(olds, parent, start as int).len() <= nodes@.len(),
            pos == start + flatten(olds.take(i as int), parent, start as int).len(),
            flatten(states@.take(i as int), parent, start as int) == initials_from(flatten(olds.take(i as int), parent, start as int), nodes@, start as int),
        decreases olds.len() - i,
    {
        proof {
            assert(olds.take(i + 1).drop_last() =~= olds.take(i as int));
            assert(olds.take(i + 1).last() == olds[i as int]);
            lemma_flatten_prefix_len(olds, parent, start as int, i + 1);
            let p0 = flatten(olds.take(i as int), parent, start as int);
            assert(flatten(olds.take(i + 1), parent, start as int) == p0 + seq![node_of(olds[i as int], parent)]
                + flatten(olds[i as int].children@, Some((start + p0.len()) as usize), start + p0.len() + 1));
        }
        let ghost before = states@;
        let ghost old_s = olds[i as int];
        let ghost pre_new = flatten(states@.take(i as int), parent, start as int);
        let s = &mut states[i];
        s.initial = nodes[pos].initial;
        proof {
            assert(decreases_to!(olds => olds[i as int]));
        }
        let after = write_initials(&mut s.children, nodes, pos + 1, Some(pos));
        proof {
            let pre_old = flatten(olds.take(i as int), parent, start as int);
            let new_s = states@[i as int];
            assert(states@.take(i + 1).drop_last() =~= before.take(i as int));
            assert(states@.take(i + 1).last() == new_s);
            lemma_flatten_empty(old_s.children@, Some(pos), pos + 1);
            lemma_flatten_empty(new_s.children@, Some(pos), pos + 1);
            let full_old = flatten(olds.take(i + 1), parent, start as int);
            let full_new = flatten(states@.take(i + 1), parent, start as int);
            assert(full_old == pre_old + seq![node_of(old_s, parent)] + flatten(old_s.children@, Some(pos), pos + 1));
            assert(full_new == pre_new + seq![node_of(new_s, parent)] + flatten(new_s.children@, Some(pos), pos + 1));
            assert(full_new =~= initials_from(full_old, nodes@, start as int));
        }
        pos = after;
        i += 1;
    }
    proof {
        assert(olds.take(olds.len() as int) =~= olds);
        assert(states@.take(olds.len() as int) =~= states@);
    }
    pos
}

/// The flattening of a prefix of a forest is a prefix of its flattening.
pub proof fn lemma_flatten_prefix_len(states: Seq<StateDef>, parent: Option<usize>, start: int, i: int)
    requires
        0 <= i <= states.len(),
    ensures
        flatten(states.take(i), parent, start).len() <= flatten(states, parent, start).len(),
    decreases states.len(),
{
    if i < states.len() {
        assert(states.drop_last().take(i) =~= states.take(i));
        lemma_flatten_prefix_len(states.drop_last(), parent, start, i);
    } else {
        assert(states.take(i) =~= states);
    }
}

/// Validates a definition and builds its machine plan. The `*` markers on
/// row sources are written into the definition's states first; validation
/// and the plan then see the marked definition. The plan is returned exactly
/// when validation finds nothing wrong; otherwise every problem is reported,
/// in the order validation finds it.
pub fn expand(def: &mut MachineDef) -> (res: Result<MachinePlan, Vec<Diagnostic>>)
    requires
        flatten(old(def).states@, None, 0).len() <= i32::MAX,
    ensures
        flatten(final(def).states@, None, 0) == def_nodes(*old(def)),
        *final(def) == (MachineDef { states: final(def).states, ..*old(def) }),
        match res {
            Ok(plan) => validation_errors(*final(def), def_nodes(*old(def)), leaf_indices(def_nodes(*old(def)))).len() == 0
                && plan_of(plan, *final(def), def_nodes(*old(def)), leaf_indices(def_nodes(*old(def)))),
            Err(errs) => diags_view(errs@) == validation_errors(*final(def), def_nodes(*old(def)), leaf_indices(def_nodes(*old(def))))
                && errs@.len() > 0,
        },
{
    let mut tree = Tree::new(def.states.as_slice());
    apply_row_initial_markers(def, &mut tree);
    let ghost flat = flatten(def.states@, None, 0);
    let _next = write_initials(&mut def.states, &tree.all, 0, None);
    proof {
        assert(initials_from(flat, tree.all@, 0) =~= tree.all@);
        lemma_flatten_empty(def.states@, None, 0);
    }
    match validate(def, &tree) {
        Err(errs) => Err(errs),
        Ok(()) => {
            proof {
                lemma_valid_ready(*def, tree);
            }
            Ok(generate(def, &tree))
        },
    }
}

} // verus!
