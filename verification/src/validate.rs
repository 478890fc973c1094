//! Validation of a machine definition: names, initial states, method roles,
//! unreachable rows and exhaustiveness over (leaf state, event) pairs.

use vstd::prelude::*;
use crate::tokens::{Ident, Token};
use crate::model::{Callable, MachineDef, Row, StateRef, SourcePattern, EventPattern, Target, Unhandled};
use crate::tree::{Tree, Node, last_named, name_at, initial_child, initial_child_from, initials_present, parents_precede};
use crate::coverage::{RowInfo, row_infos, covers, spec_at, refs_spec, entry_val, lemma_entry_val_some, lemma_describes_covers, lemma_pairs_cover};
use crate::error::{Diagnostic, DiagnosticSpec, ErrorKind, ErrorSpec, Role, diags_view};

verus! {

/// `f` applied to every element, the results concatenated in order.
pub open spec fn concat_map<A, B>(s: Seq<A>, f: spec_fn(A) -> Seq<B>) -> Seq<B>
    decreases s.len(),
{
    if s.len() == 0 {
        Seq::empty()
    } else {
        concat_map(s.drop_last(), f) + f(s.last())
    }
}

/// One step of `concat_map` over a growing prefix.
pub proof fn lemma_concat_map_step<A, B>(s: Seq<A>, f: spec_fn(A) -> Seq<B>, i: int)
    requires
        0 <= i < s.len(),
    ensures
        concat_map(s.take(i + 1), f) == concat_map(s.take(i), f) + f(s[i]),
{
    assert(s.take(i + 1).drop_last() =~= s.take(i));
    assert(s.take(i + 1).last() == s[i]);
}

/// The whole sequence as a prefix.
pub proof fn lemma_take_full<A>(s: Seq<A>)
    ensures
        s.take(s.len() as int) == s,
{
    assert(s.take(s.len() as int) =~= s);
}

/// A diagnostic with the given position and kind.
pub open spec fn diag(span: usize, kind: ErrorSpec) -> DiagnosticSpec {
    DiagnosticSpec { span, kind }
}

/// Whether an identifier among the first `k` carries `name`.
pub open spec fn named_before(ids: Seq<Ident>, k: int, name: Seq<char>) -> bool {
    exists|j: int| 0 <= j < k && ids[j].text@ == name
}

/// A duplicate-state error for every state whose name an earlier state
/// (in pre-order) already carries.
pub open spec fn duplicate_state_errors(nodes: Seq<Node>) -> Seq<DiagnosticSpec>
    decreases nodes.len(),
{
    if nodes.len() == 0 {
        Seq::empty()
    } else {
        let n = nodes.last();
        duplicate_state_errors(nodes.drop_last()) + if exists|j: int|
            0 <= j < nodes.len() - 1 && nodes[j].name.text@ == n.name.text@ {
            seq![diag(n.name.span, ErrorSpec::DuplicateState { name: n.name.text@ })]
        } else {
            Seq::empty()
        }
    }
}

/// A duplicate-event error for every event declared a second time.
pub open spec fn duplicate_event_errors(events: Seq<Ident>) -> Seq<DiagnosticSpec>
    decreases events.len(),
{
    if events.len() == 0 {
        Seq::empty()
    } else {
        let e = events.last();
        duplicate_event_errors(events.drop_last()) + if named_before(
            events,
            events.len() - 1,
            e.text@,
        ) {
            seq![diag(e.span, ErrorSpec::DuplicateEvent { name: e.text@ })]
        } else {
            Seq::empty()
        }
    }
}

/// An unknown-state error for a name no state carries.
pub open spec fn unknown_state_error(nodes: Seq<Node>, id: Ident) -> Seq<DiagnosticSpec> {
    if last_named(nodes, id.text@) is None {
        seq![diag(id.span, ErrorSpec::UnknownState { name: id.text@ })]
    } else {
        Seq::empty()
    }
}

/// An unknown-event error for a name no event carries.
pub open spec fn unknown_event_error(events: Seq<Ident>, id: Ident) -> Seq<DiagnosticSpec> {
    if !named_before(events, events.len() as int, id.text@) {
        seq![diag(id.span, ErrorSpec::UnknownEvent { name: id.text@ })]
    } else {
        Seq::empty()
    }
}

/// Errors for the names a row refers to: sources, events, target.
pub open spec fn row_name_errors(nodes: Seq<Node>, events: Seq<Ident>, row: Row) -> Seq<DiagnosticSpec> {
    (match row.sources {
        SourcePattern::States(refs) => concat_map(
            refs@,
            |r: StateRef| unknown_state_error(nodes, r.name),
        ),
        SourcePattern::Any => Seq::empty(),
    }) + (match row.events {
        EventPattern::Events(evs) => concat_map(evs@, |e: Ident| unknown_event_error(events, e)),
        EventPattern::Any => Seq::empty(),
    }) + (match row.target {
        Target::State(t) => unknown_state_error(nodes, t),
        Target::Stay => Seq::empty(),
    })
}

/// All name errors of a definition, in reporting order.
pub open spec fn name_errors(nodes: Seq<Node>, def: MachineDef) -> Seq<DiagnosticSpec> {
    duplicate_state_errors(nodes) + duplicate_event_errors(def.events@) + concat_map(
        def.transitions@,
        |r: Row| row_name_errors(nodes, def.events@, r),
    )
}

/// Whether a node before `i` carries the name of node `i`.
fn name_seen(nodes: &Vec<Node>, i: usize) -> (res: bool)
    requires
        i < nodes@.len(),
    ensures
        res == exists|m: int| 0 <= m < i && nodes@[m].name.text@ == nodes@[i as int].name.text@,
{
    let mut j: usize = 0;
    while j < i
        invariant
            i < nodes@.len(),
            j <= i,
            forall|m: int| 0 <= m < j ==> nodes@[m].name.text@ != nodes@[i as int].name.text@,
        decreases i - j,
    {
        if nodes[j].name.text == nodes[i].name.text {
            return true;
        }
        j += 1;
    }
    false
}

/// Whether one of `ids` carries `name`.
fn has_name(ids: &Vec<Ident>, k: usize, name: &String) -> (res: bool)
    requires
        k <= ids@.len(),
    ensures
        res == named_before(ids@, k as int, name@),
{
    let mut j: usize = 0;
    while j < k
        invariant
            k <= ids@.len(),
            j <= k,
            forall|m: int| 0 <= m < j ==> ids@[m].text@ != name@,
        decreases k - j,
    {
        if ids[j].text == *name {
            return true;
        }
        j += 1;
    }
    false
}

/// Duplicate names (states share one namespace across the whole tree) and
/// references to unknown states/events in rows.
fn validate_names(def: &MachineDef, tree: &Tree, errors: &mut Vec<Diagnostic>)
    requires
        tree.wf(),
    ensures
        diags_view(final(errors)@) == diags_view(old(errors)@) + name_errors(tree.all@, *def),
{
    let ghost e0 = diags_view(errors@);
    let mut i: usize = 0;
    while i < tree.all.len()
        invariant
            tree.wf(),
            i <= tree.all@.len(),
            diags_view(errors@) == e0 + duplicate_state_errors(tree.all@.take(i as int)),
        decreases tree.all@.len() - i,
    {
        let n = &tree.all[i];
        let ghost pre = tree.all@.take(i + 1);
        assert(pre.drop_last() =~= tree.all@.take(i as int));
        assert(pre.last() == tree.all@[i as int]);
        let seen = name_seen(&tree.all, i);
        proof {
            assert(seen == exists|m: int| 0 <= m < pre.len() - 1 && pre[m].name.text@ == pre.last().name.text@) by {
                if seen {
                    let m = choose|m: int| 0 <= m < i && tree.all@[m].name.text@ == tree.all@[i as int].name.text@;
                    assert(pre[m] == tree.all@[m]);
                }
                if exists|m: int| 0 <= m < pre.len() - 1 && pre[m].name.text@ == pre.last().name.text@ {
                    let m = choose|m: int| 0 <= m < pre.len() - 1 && pre[m].name.text@ == pre.last().name.text@;
                    assert(pre[m] == tree.all@[m]);
                }
            }
        }
        let ghost before = errors@;
        if seen {
            errors.push(Diagnostic { span: n.name.span, kind: ErrorKind::DuplicateState { name: n.name.text.clone() } });
            assert(diags_view(errors@) =~= diags_view(before) + seq![diag(n.name.span, ErrorSpec::DuplicateState { name: n.name.text@ })]);
        } else {
            assert(diags_view(errors@) =~= diags_view(before));
        }
        proof {
            assert(diags_view(errors@) =~= e0 + duplicate_state_errors(pre));
        }
        i += 1;
    }
    proof { lemma_take_full(tree.all@); }
    let ghost e1 = diags_view(errors@);
    let mut i: usize = 0;
    while i < def.events.len()
        invariant
            i <= def.events@.len(),
            diags_view(errors@) == e1 + duplicate_event_errors(def.events@.take(i as int)),
        decreases def.events@.len() - i,
    {
        let e = &def.events[i];
        let ghost pre = def.events@.take(i + 1);
        assert(pre.drop_last() =~= def.events@.take(i as int));
        assert(pre.last() == def.events@[i as int]);
        let seen = has_name(&def.events, i, &e.text);
        proof {
            assert(seen == named_before(pre, pre.len() - 1, pre.last().text@)) by {
                if seen {
                    let m = choose|m: int| 0 <= m < i && def.events@[m].text@ == e.text@;
                    assert(pre[m] == def.events@[m]);
                }
                if named_before(pre, pre.len() - 1, pre.last().text@) {
                    let m = choose|m: int| 0 <= m < pre.len() - 1 && pre[m].text@ == pre.last().text@;
                    assert(pre[m] == def.events@[m]);
                }
            }
        }
        let ghost before = errors@;
        if seen {
            errors.push(Diagnostic { span: e.span, kind: ErrorKind::DuplicateEvent { name: e.text.clone() } });
            assert(diags_view(errors@) =~= diags_view(before) + seq![diag(e.span, ErrorSpec::DuplicateEvent { name: e.text@ })]);
        } else {
            assert(diags_view(errors@) =~= diags_view(before));
        }
        proof {
            assert(diags_view(errors@) =~= e1 + duplicate_event_errors(pre));
        }
        i += 1;
    }
    proof { lemma_take_full(def.events@); }
    let ghost e2 = diags_view(errors@);
    let ghost f = |r: Row| row_name_errors(tree.all@, def.events@, r);
    let mut i: usize = 0;
    while i < def.transitions.len()
        invariant
            tree.wf(),
            i <= def.transitions@.len(),
            f == |r: Row| row_name_errors(tree.all@, def.events@, r),
            diags_view(errors@) == e2 + concat_map(def.transitions@.take(i as int), f),
        decreases def.transitions@.len() - i,
    {
        proof { lemma_concat_map_step(def.transitions@, f, i as int); }
        let ghost before = diags_view(errors@);
        check_row_names(tree, &def.events, &def.transitions[i], errors);
        assert(diags_view(errors@) =~= before + f(def.transitions@[i as int]));
        i += 1;
    }
    proof { lemma_take_full(def.transitions@); }
    assert(diags_view(errors@) =~= e0 + name_errors(tree.all@, *def));
}

/// Appends one error per unknown name that `row` refers to.
fn check_row_names(tree: &Tree, events: &Vec<Ident>, row: &Row, errors: &mut Vec<Diagnostic>)
    requires
        tree.wf(),
    ensures
        diags_view(final(errors)@) == diags_view(old(errors)@) + row_name_errors(tree.all@, events@, *row),
{
    let ghost e0 = diags_view(errors@);
    match &row.sources {
        SourcePattern::States(refs) => {
            let ghost f = |r: StateRef| unknown_state_error(tree.all@, r.name);
            let mut k: usize = 0;
            while k < refs.len()
                invariant
                    tree.wf(),
                    k <= refs@.len(),
                    f == |r: StateRef| unknown_state_error(tree.all@, r.name),
                    diags_view(errors@) == e0 + concat_map(refs@.take(k as int), f),
                decreases refs@.len() - k,
            {
                proof { lemma_concat_map_step(refs@, f, k as int); }
                let r = &refs[k];
                let ghost before = errors@;
                assert(f(refs@[k as int]) == unknown_state_error(tree.all@, refs@[k as int].name));
                if tree.get(r.name.text.as_str()).is_none() {
                    errors.push(Diagnostic { span: r.name.span, kind: ErrorKind::UnknownState { name: r.name.text.clone() } });
                    assert(diags_view(errors@) =~= diags_view(before) + f(refs@[k as int]));
                } else {
                    assert(f(refs@[k as int]) =~= Seq::<DiagnosticSpec>::empty());
                    assert(diags_view(errors@) =~= diags_view(before) + f(refs@[k as int]));
                }
                assert(diags_view(errors@) =~= e0 + concat_map(refs@.take(k + 1), f));
                k += 1;
            }
            proof { lemma_take_full(refs@); }
        },
        SourcePattern::Any => {},
    }
    let ghost e1 = diags_view(errors@);
    match &row.events {
        EventPattern::Events(evs) => {
            let ghost f = |e: Ident| unknown_event_error(events@, e);
            let mut k: usize = 0;
            while k < evs.len()
                invariant
                    k <= evs@.len(),
                    f == |e: Ident| unknown_event_error(events@, e),
                    diags_view(errors@) == e1 + concat_map(evs@.take(k as int), f),
                decreases evs@.len() - k,
            {
                proof { lemma_concat_map_step(evs@, f, k as int); }
                let e = &evs[k];
                let ghost before = errors@;
                assert(f(evs@[k as int]) == unknown_event_error(events@, evs@[k as int]));
                if !has_name(events, events.len(), &e.text) {
                    errors.push(Diagnostic { span: e.span, kind: ErrorKind::UnknownEvent { name: e.text.clone() } });
                    assert(diags_view(errors@) =~= diags_view(before) + f(evs@[k as int]));
                } else {
                    assert(f(evs@[k as int]) =~= Seq::<DiagnosticSpec>::empty());
                    assert(diags_view(errors@) =~= diags_view(before) + f(evs@[k as int]));
                }
                assert(diags_view(errors@) =~= e1 + concat_map(evs@.take(k + 1), f));
                k += 1;
            }
            proof { lemma_take_full(evs@); }
        },
        EventPattern::Any => {},
    }
    let ghost e2 = diags_view(errors@);
    let ghost before = errors@;
    match &row.target {
        Target::State(t) => {
            if tree.get(t.text.as_str()).is_none() {
                errors.push(Diagnostic { span: t.span, kind: ErrorKind::UnknownState { name: t.text.clone() } });
                assert(diags_view(errors@) =~= diags_view(before) + unknown_state_error(tree.all@, *t));
            } else {
                assert(diags_view(errors@) =~= diags_view(before) + unknown_state_error(tree.all@, *t));
            }
        },
        Target::Stay => {},
    }
    assert(diags_view(errors@) =~= e0 + row_name_errors(tree.all@, events@, *row));
}


/// The states among the first `n` that hang off `p` (`None`: the top level)
/// and are marked initial, in order.
pub open spec fn starred_upto(nodes: Seq<Node>, p: Option<usize>, n: int) -> Seq<usize>
    decreases n,
{
    if n <= 0 {
        Seq::empty()
    } else {
        starred_upto(nodes, p, n - 1) + if nodes[n - 1].parent == p && nodes[n - 1].initial {
            seq![(n - 1) as usize]
        } else {
            Seq::empty()
        }
    }
}

/// The states marked initial on the level below `p`.
pub open spec fn starred(nodes: Seq<Node>, p: Option<usize>) -> Seq<usize> {
    starred_upto(nodes, p, nodes.len() as int)
}

/// The composite states among the first `n`, in pre-order.
pub open spec fn composites_upto(nodes: Seq<Node>, n: int) -> Seq<usize>
    decreases n,
{
    if n <= 0 {
        Seq::empty()
    } else {
        composites_upto(nodes, n - 1) + if !nodes[n - 1].is_leaf {
            seq![(n - 1) as usize]
        } else {
            Seq::empty()
        }
    }
}

/// Initial-state errors of one level: a second differently named `*`, and
/// for a composite, no `*` at all.
pub open spec fn level_errors(nodes: Seq<Node>, p: Option<usize>) -> Seq<DiagnosticSpec> {
    let st = starred(nodes, p);
    let composite = match p {
        Some(k) => Some(name_at(nodes, k)),
        None => None,
    };
    (if st.len() == 0 {
        Seq::empty()
    } else {
        concat_map(
            st.drop_first(),
            |s: usize| if name_at(nodes, s) != name_at(nodes, st[0]) {
                seq![diag(nodes[s as int].name.span, ErrorSpec::MultipleInitial {
                    composite,
                    first: name_at(nodes, st[0]),
                    other: name_at(nodes, s),
                })]
            } else {
                Seq::empty()
            },
        )
    }) + match p {
        Some(k) => if st.len() == 0 {
            seq![diag(nodes[k as int].name.span, ErrorSpec::MissingInitial { parent: name_at(nodes, k) })]
        } else {
            Seq::empty()
        },
        None => Seq::empty(),
    }
}

/// Initial-state errors of the whole hierarchy: the top level first, then
/// every composite's level in pre-order.
pub open spec fn initial_errors(nodes: Seq<Node>) -> Seq<DiagnosticSpec> {
    level_errors(nodes, None) + concat_map(
        composites_upto(nodes, nodes.len() as int),
        |k: usize| level_errors(nodes, Some(k)),
    )
}

/// The states marked initial on the level below `p`.
fn starred_of(tree: &Tree, p: Option<usize>) -> (res: Vec<usize>)
    requires
        tree.wf(),
    ensures
        res@ == starred(tree.all@, p),
        forall|m: int| 0 <= m < res@.len() ==> res@[m] < tree.all@.len(),
{
    let mut out: Vec<usize> = Vec::new();
    let mut k: usize = 0;
    while k < tree.all.len()
        invariant
            tree.wf(),
            k <= tree.all@.len(),
            out@ == starred_upto(tree.all@, p, k as int),
            forall|m: int| 0 <= m < out@.len() ==> out@[m] < k,
        decreases tree.all@.len() - k,
    {
        let n = &tree.all[k];
        if n.parent == p && n.initial {
            out.push(k);
        }
        k += 1;
    }
    out
}

/// Reports the initial-state errors of the level below `p`.
fn check_level(tree: &Tree, p: Option<usize>, errors: &mut Vec<Diagnostic>)
    requires
        tree.wf(),
        p matches Some(k) ==> k < tree.all@.len(),
    ensures
        diags_view(final(errors)@) == diags_view(old(errors)@) + level_errors(tree.all@, p),
{
    let ghost e0 = diags_view(errors@);
    let st = starred_of(tree, p);
    let ghost nodes = tree.all@;
    let ghost composite = match p {
        Some(k) => Some(name_at(nodes, k)),
        None => None,
    };
    let ghost f = |s: usize| if name_at(nodes, s) != name_at(nodes, st@[0]) {
        seq![diag(nodes[s as int].name.span, ErrorSpec::MultipleInitial {
            composite,
            first: name_at(nodes, st@[0]),
            other: name_at(nodes, s),
        })]
    } else {
        Seq::empty()
    };
    if st.len() > 0 {
        let ghost rest = st@.drop_first();
        let mut k: usize = 1;
        assert(rest.take(0) =~= Seq::<usize>::empty());
        while k < st.len()
            invariant
                tree.wf(),
                nodes == tree.all@,
                st@ == starred(nodes, p),
                forall|m: int| 0 <= m < st@.len() ==> st@[m] < nodes.len(),
                1 <= k <= st@.len(),
                p matches Some(q) ==> q < nodes.len(),
                rest == st@.drop_first(),
                composite == match p {
                    Some(q) => Some(name_at(nodes, q)),
                    None => None::<Seq<char>>,
                },
                f == (|s: usize| if name_at(nodes, s) != name_at(nodes, st@[0]) {
                    seq![diag(nodes[s as int].name.span, ErrorSpec::MultipleInitial {
                        composite,
                        first: name_at(nodes, st@[0]),
                        other: name_at(nodes, s),
                    })]
                } else {
                    Seq::empty()
                }),
                diags_view(errors@) == e0 + concat_map(rest.take(k - 1), f),
            decreases st@.len() - k,
        {
            proof { lemma_concat_map_step(rest, f, k - 1); }
            assert(rest[k - 1] == st@[k as int]);
            let s = st[k];
            let first = st[0];
            let ghost before = errors@;
            if tree.all[s].name.text != tree.all[first].name.text {
                let composite_name = match p {
                    Some(q) => Some(tree.all[q].name.text.clone()),
                    None => None,
                };
                errors.push(Diagnostic {
                    span: tree.all[s].name.span,
                    kind: ErrorKind::MultipleInitial {
                        composite: composite_name,
                        first: tree.all[first].name.text.clone(),
                        other: tree.all[s].name.text.clone(),
                    },
                });
                assert(diags_view(errors@) =~= diags_view(before) + f(s));
            } else {
                assert(diags_view(errors@) =~= diags_view(before) + f(s));
            }
            k += 1;
        }
        proof { lemma_take_full(rest); }
    }
    let ghost e1 = diags_view(errors@);
    assert(st@.len() > 0 ==> e1 == e0 + concat_map(st@.drop_first(), f));
    assert(st@.len() == 0 ==> e1 == e0);
    let ghost before = errors@;
    if let Some(q) = p {
        if st.len() == 0 {
            errors.push(Diagnostic {
                span: tree.all[q].name.span,
                kind: ErrorKind::MissingInitial { parent: tree.all[q].name.text.clone() },
            });
        }
    }
    assert(diags_view(errors@) =~= e0 + level_errors(tree.all@, p));
}

/// Initial-state rules, checked per level: exactly one `*` child per
/// composite; at most one `*` at the top level (default: first state).
/// Levels are visited top level first, then composites in pre-order.
fn check_initial_levels(tree: &Tree, errors: &mut Vec<Diagnostic>)
    requires
        tree.wf(),
    ensures
        diags_view(final(errors)@) == diags_view(old(errors)@) + initial_errors(tree.all@),
{
    let ghost e0 = diags_view(errors@);
    check_level(tree, None, errors);
    let ghost e1 = diags_view(errors@);
    let ghost nodes = tree.all@;
    let ghost f = |k: usize| level_errors(nodes, Some(k));
    let mut k: usize = 0;
    while k < tree.all.len()
        invariant
            tree.wf(),
            nodes == tree.all@,
            k <= nodes.len(),
            f == (|k: usize| level_errors(nodes, Some(k))),
            diags_view(errors@) == e1 + concat_map(composites_upto(nodes, k as int), f),
        decreases nodes.len() - k,
    {
        let ghost before = diags_view(errors@);
        let ghost cs = composites_upto(nodes, k as int);
        if !tree.all[k].is_leaf {
            check_level(tree, Some(k), errors);
            assert(composites_upto(nodes, k + 1) == cs.push(k));
            assert(cs.push(k).drop_last() =~= cs);
            assert(diags_view(errors@) =~= e1 + concat_map(composites_upto(nodes, k + 1), f));
        } else {
            assert(composites_upto(nodes, k + 1) =~= cs);
        }
        k += 1;
    }
    assert(diags_view(errors@) =~= e0 + initial_errors(tree.all@));
}

/// An empty concatenation has empty parts.
pub proof fn lemma_concat_map_empty<A, B>(s: Seq<A>, f: spec_fn(A) -> Seq<B>, x: A)
    requires
        concat_map(s, f).len() == 0,
        s.contains(x),
    ensures
        f(x).len() == 0,
    decreases s.len(),
{
    if s.last() != x {
        let i = choose|i: int| 0 <= i < s.len() && s[i] == x;
        assert(s.drop_last()[i] == x);
        lemma_concat_map_empty(s.drop_last(), f, x);
    }
}

/// A state marked initial below `p` is found by the initial-child search.
pub proof fn lemma_starred_initial_child(nodes: Seq<Node>, k: usize, n: int)
    requires
        0 <= n <= nodes.len(),
        starred_upto(nodes, Some(k), n).len() > 0,
    ensures
        initial_child(nodes, k) is Some,
    decreases n,
{
    if n > 0 {
        if starred_upto(nodes, Some(k), n - 1).len() > 0 {
            lemma_starred_initial_child(nodes, k, n - 1);
        } else {
            lemma_initial_child_reaches(nodes, k, 0, n - 1);
        }
    }
}

/// The initial-child search from `m` finds something when a match lies at
/// `j >= m`.
pub proof fn lemma_initial_child_reaches(nodes: Seq<Node>, k: usize, m: int, j: int)
    requires
        0 <= m <= j < nodes.len(),
        nodes[j].parent == Some(k),
        nodes[j].initial,
    ensures
        initial_child_from(nodes, k, m) is Some,
    decreases j - m,
{
    if m < j {
        lemma_initial_child_reaches(nodes, k, m + 1, j);
    }
}

/// Every composite among the first `n` is listed.
pub proof fn lemma_composites_upto(nodes: Seq<Node>, n: int, i: int)
    requires
        0 <= i < n <= nodes.len(),
        nodes.len() <= usize::MAX,
        !nodes[i].is_leaf,
    ensures
        composites_upto(nodes, n).contains(i as usize),
    decreases n,
{
    if i < n - 1 {
        lemma_composites_upto(nodes, n - 1, i);
        let c = composites_upto(nodes, n - 1);
        let j = choose|j: int| 0 <= j < c.len() && c[j] == i as usize;
        assert(composites_upto(nodes, n)[j] == i as usize);
    } else {
        let c = composites_upto(nodes, n);
        assert(c[c.len() - 1] == i as usize);
    }
}

/// Without initial-state errors, every composite has an initial child.
pub proof fn lemma_no_initial_errors(nodes: Seq<Node>)
    requires
        initial_errors(nodes).len() == 0,
        nodes.len() <= usize::MAX,
    ensures
        initials_present(nodes),
{
    let f = |k: usize| level_errors(nodes, Some(k));
    assert forall|i: int| #![trigger nodes[i]] 0 <= i < nodes.len() && !nodes[i].is_leaf implies initial_child(nodes, i as usize) is Some by {
        lemma_composites_upto(nodes, nodes.len() as int, i);
        lemma_concat_map_empty(composites_upto(nodes, nodes.len() as int), f, i as usize);
        assert(f(i as usize).len() == 0);
        let st = starred(nodes, Some(i as usize));
        if st.len() == 0 {
            assert(level_errors(nodes, Some(i as usize)).len() > 0);
        }
        lemma_starred_initial_child(nodes, i as usize, nodes.len() as int);
    }
}


/// A method use: its name, its role and where it was written.
pub open spec fn note_of(c: Callable, role: Role) -> (Seq<char>, Role, usize) {
    (c.name.text@, role, c.name.span)
}

/// An optional method use.
pub open spec fn opt_note(c: Option<Callable>, role: Role) -> Seq<(Seq<char>, Role, usize)> {
    match c {
        Some(c) => seq![note_of(c, role)],
        None => Seq::empty(),
    }
}

/// Every method use of a definition, in declaration order: state hooks
/// (entry, exit) in pre-order, row guards and actions, the `unhandled`
/// method, `on_transition`.
pub open spec fn method_notes(nodes: Seq<Node>, def: MachineDef) -> Seq<(Seq<char>, Role, usize)> {
    concat_map(nodes, |n: Node| opt_note(n.entry, Role::Entry) + opt_note(n.exit, Role::Exit))
        + concat_map(
        def.transitions@,
        |r: Row| opt_note(r.guard, Role::Guard) + opt_note(r.action, Role::Action),
    ) + match def.unhandled {
        Some(Unhandled::Method(c)) => seq![note_of(c, Role::Unhandled)],
        _ => Seq::empty(),
    } + opt_note(def.on_transition, Role::OnTransition)
}

/// Whether two roles give a method the same signature: entry and exit hooks
/// and actions all take `&mut self` and return nothing.
pub open spec fn same_signature(a: Role, b: Role) -> bool {
    a == b || ((a is Entry || a is Exit || a is Action) && (b is Entry || b is Exit || b is Action))
}

/// Whether two roles give a method different signatures.
fn signatures_differ(a: Role, b: Role) -> (res: bool)
    ensures
        res == !same_signature(a, b),
{
    let mutation_a = a == Role::Entry || a == Role::Exit || a == Role::Action;
    let mutation_b = b == Role::Entry || b == Role::Exit || b == Role::Action;
    a != b && !(mutation_a && mutation_b)
}

/// Role conflicts between use `i` and the uses from `j` on: the same name
/// in roles with different signatures.
pub open spec fn conflicts_from(notes: Seq<(Seq<char>, Role, usize)>, i: int, j: int) -> Seq<DiagnosticSpec>
    decreases notes.len() - j,
{
    if j < 0 || j >= notes.len() {
        Seq::empty()
    } else {
        (if notes[i].0 == notes[j].0 && !same_signature(notes[i].1, notes[j].1) {
            seq![diag(notes[j].2, ErrorSpec::RoleConflict { method: notes[i].0, role: notes[i].1, other_role: notes[j].1 })]
        } else {
            Seq::empty()
        }) + conflicts_from(notes, i, j + 1)
    }
}

/// Role conflicts of every pair of uses `i < j` with `i` from `i` on, in
/// (i, j) order.
pub open spec fn conflicts_all(notes: Seq<(Seq<char>, Role, usize)>, i: int) -> Seq<DiagnosticSpec>
    decreases notes.len() - i,
{
    if i < 0 || i >= notes.len() {
        Seq::empty()
    } else {
        conflicts_from(notes, i, i + 1) + conflicts_all(notes, i + 1)
    }
}

/// The role-conflict errors of a definition.
pub open spec fn role_errors(nodes: Seq<Node>, def: MachineDef) -> Seq<DiagnosticSpec> {
    conflicts_all(method_notes(nodes, def), 0)
}

/// A note for one callable.
fn note(c: &Callable, role: Role) -> (res: (String, Role, usize))
    ensures
        (res.0@, res.1, res.2) == note_of(*c, role),
{
    (c.name.text.clone(), role, c.name.span)
}

/// Appends the note of an optional callable.
fn push_opt_note(out: &mut Vec<(String, Role, usize)>, c: &Option<Callable>, role: Role)
    ensures
        notes_view(final(out)@) == notes_view(old(out)@) + opt_note(*c, role),
{
    let ghost before = notes_view(out@);
    if let Some(c) = c {
        out.push(note(c, role));
    }
    assert(notes_view(out@) =~= before + opt_note(*c, role));
}

/// Notes by their characters.
pub open spec fn notes_view(v: Seq<(String, Role, usize)>) -> Seq<(Seq<char>, Role, usize)> {
    v.map_values(|x: (String, Role, usize)| (x.0@, x.1, x.2))
}

/// Collects every method use of a definition.
fn collect_notes(def: &MachineDef, tree: &Tree) -> (res: Vec<(String, Role, usize)>)
    ensures
        notes_view(res@) == method_notes(tree.all@, *def),
{
    let mut out: Vec<(String, Role, usize)> = Vec::new();
    let ghost fs = |n: Node| opt_note(n.entry, Role::Entry) + opt_note(n.exit, Role::Exit);
    let mut i: usize = 0;
    while i < tree.all.len()
        invariant
            i <= tree.all@.len(),
            fs == (|n: Node| opt_note(n.entry, Role::Entry) + opt_note(n.exit, Role::Exit)),
            notes_view(out@) == concat_map(tree.all@.take(i as int), fs),
        decreases tree.all@.len() - i,
    {
        proof { lemma_concat_map_step(tree.all@, fs, i as int); }
        let ghost before = notes_view(out@);
        push_opt_note(&mut out, &tree.all[i].entry, Role::Entry);
        push_opt_note(&mut out, &tree.all[i].exit, Role::Exit);
        assert(notes_view(out@) =~= before + fs(tree.all@[i as int]));
        i += 1;
    }
    proof { lemma_take_full(tree.all@); }
    let ghost n0 = notes_view(out@);
    let ghost fr = |r: Row| opt_note(r.guard, Role::Guard) + opt_note(r.action, Role::Action);
    let mut j: usize = 0;
    while j < def.transitions.len()
        invariant
            j <= def.transitions@.len(),
            fr == (|r: Row| opt_note(r.guard, Role::Guard) + opt_note(r.action, Role::Action)),
            notes_view(out@) == n0 + concat_map(def.transitions@.take(j as int), fr),
        decreases def.transitions@.len() - j,
    {
        proof { lemma_concat_map_step(def.transitions@, fr, j as int); }
        let ghost before = notes_view(out@);
        push_opt_note(&mut out, &def.transitions[j].guard, Role::Guard);
        push_opt_note(&mut out, &def.transitions[j].action, Role::Action);
        assert(notes_view(out@) =~= before + fr(def.transitions@[j as int]));
        j += 1;
    }
    proof { lemma_take_full(def.transitions@); }
    let ghost n1 = notes_view(out@);
    if let Some(Unhandled::Method(c)) = &def.unhandled {
        out.push(note(c, Role::Unhandled));
    }
    let ghost n2 = notes_view(out@);
    assert(n2 =~= n1 + match def.unhandled {
        Some(Unhandled::Method(c)) => seq![note_of(c, Role::Unhandled)],
        _ => Seq::empty(),
    });
    push_opt_note(&mut out, &def.on_transition, Role::OnTransition);
    assert(notes_view(out@) =~= method_notes(tree.all@, *def));
    out
}

/// Callable name/kind consistency: the same method name may not be used in
/// two roles with different signatures.
fn validate_callable_kinds(def: &MachineDef, tree: &Tree, errors: &mut Vec<Diagnostic>)
    ensures
        diags_view(final(errors)@) == diags_view(old(errors)@) + role_errors(tree.all@, *def),
{
    let notes = collect_notes(def, tree);
    let ghost nv = notes_view(notes@);
    let ghost e0 = diags_view(errors@);
    let mut i: usize = 0;
    while i < notes.len()
        invariant
            i <= notes@.len(),
            nv == notes_view(notes@),
            e0 + conflicts_all(nv, 0) == diags_view(errors@) + conflicts_all(nv, i as int),
        decreases notes@.len() - i,
    {
        let ghost ei = diags_view(errors@);
        let mut j: usize = i + 1;
        while j < notes.len()
            invariant
                i < notes@.len(),
                i + 1 <= j <= notes@.len(),
                nv == notes_view(notes@),
                ei + conflicts_from(nv, i as int, i + 1) == diags_view(errors@) + conflicts_from(nv, i as int, j as int),
            decreases notes@.len() - j,
        {
            let ghost before = diags_view(errors@);
            assert(nv[i as int] == (notes@[i as int].0@, notes@[i as int].1, notes@[i as int].2));
            assert(nv[j as int] == (notes@[j as int].0@, notes@[j as int].1, notes@[j as int].2));
            if notes[i].0 == notes[j].0 && signatures_differ(notes[i].1, notes[j].1) {
                errors.push(Diagnostic {
                    span: notes[j].2,
                    kind: ErrorKind::RoleConflict { method: notes[i].0.clone(), role: notes[i].1, other_role: notes[j].1 },
                });
                assert(diags_view(errors@) =~= before + seq![diag(nv[j as int].2, ErrorSpec::RoleConflict { method: nv[i as int].0, role: nv[i as int].1, other_role: nv[j as int].1 })]);
            } else {
                assert(diags_view(errors@) =~= before);
            }
            assert(diags_view(errors@) + conflicts_from(nv, i as int, j + 1) =~= before + conflicts_from(nv, i as int, j as int));
            j += 1;
        }
        assert(diags_view(errors@) + conflicts_all(nv, i + 1) =~= ei + conflicts_all(nv, i as int));
        i += 1;
    }
    assert(diags_view(errors@) =~= e0 + role_errors(tree.all@, *def));
}


/// Whether an unguarded row other than `i` takes the pair (leaf `l`, event
/// `e`) before row `i`: more specific, or as specific and declared earlier.
pub open spec fn shadowed(nodes: Seq<Node>, leaves: Seq<usize>, events: Seq<Ident>, rows: Seq<Row>, i: int, l: int, e: int) -> bool {
    exists|j: int|
        #![trigger rows[j]]
        0 <= j < rows.len() && j != i && rows[j].guard is None && covers(nodes, leaves, events, rows[j], l, e)
            && (spec_at(nodes, leaves, rows[j], l) > spec_at(nodes, leaves, rows[i], l) || (spec_at(
            nodes,
            leaves,
            rows[j],
            l,
        ) == spec_at(nodes, leaves, rows[i], l) && j < i))
}

/// A row is unreachable when it covers some pair and every pair it covers
/// is taken by an earlier unguarded row in effective order.
pub open spec fn unreachable(nodes: Seq<Node>, leaves: Seq<usize>, events: Seq<Ident>, rows: Seq<Row>, i: int) -> bool {
    &&& exists|l: int, e: int| covers(nodes, leaves, events, rows[i], l, e)
    &&& forall|l: int, e: int| covers(nodes, leaves, events, rows[i], l, e) ==> shadowed(nodes, leaves, events, rows, i, l, e)
}

/// An unreachable-row error for every unreachable row among the first `n`.
pub open spec fn unreachable_errors(nodes: Seq<Node>, leaves: Seq<usize>, events: Seq<Ident>, rows: Seq<Row>, n: int) -> Seq<DiagnosticSpec>
    decreases n,
{
    if n <= 0 {
        Seq::empty()
    } else {
        unreachable_errors(nodes, leaves, events, rows, n - 1) + if unreachable(nodes, leaves, events, rows, n - 1) {
            seq![diag(rows[n - 1].span, ErrorSpec::UnreachableRow)]
        } else {
            Seq::empty()
        }
    }
}

/// Whether some row covers (leaf `l`, event `e`).
pub open spec fn covered_any(nodes: Seq<Node>, leaves: Seq<usize>, events: Seq<Ident>, rows: Seq<Row>, l: int, e: int) -> bool {
    exists|j: int| #![trigger rows[j]] 0 <= j < rows.len() && covers(nodes, leaves, events, rows[j], l, e)
}

/// The uncovered pairs of leaf `l` among the first `m` events.
pub open spec fn missing_of_leaf(nodes: Seq<Node>, leaves: Seq<usize>, events: Seq<Ident>, rows: Seq<Row>, l: int, m: int) -> Seq<(Seq<char>, Seq<char>)>
    decreases m,
{
    if m <= 0 {
        Seq::empty()
    } else {
        missing_of_leaf(nodes, leaves, events, rows, l, m - 1) + if !covered_any(nodes, leaves, events, rows, l, m - 1) {
            seq![(name_at(nodes, leaves[l]), events[m - 1].text@)]
        } else {
            Seq::empty()
        }
    }
}

/// The uncovered (leaf, event) pairs among the first `n` leaves, leaf-major.
pub open spec fn missing_pairs(nodes: Seq<Node>, leaves: Seq<usize>, events: Seq<Ident>, rows: Seq<Row>, n: int) -> Seq<(Seq<char>, Seq<char>)>
    decreases n,
{
    if n <= 0 {
        Seq::empty()
    } else {
        missing_pairs(nodes, leaves, events, rows, n - 1) + missing_of_leaf(nodes, leaves, events, rows, n - 1, events.len() as int)
    }
}

/// Coverage errors: unreachable rows, then (without an `unhandled` policy)
/// the pairs that no row covers.
pub open spec fn coverage_errors(nodes: Seq<Node>, leaves: Seq<usize>, def: MachineDef) -> Seq<DiagnosticSpec> {
    let rows = def.transitions@;
    let missing = missing_pairs(nodes, leaves, def.events@, rows, leaves.len() as int);
    unreachable_errors(nodes, leaves, def.events@, rows, rows.len() as int) + if def.unhandled is None
        && missing.len() > 0 {
        seq![diag(def.name.span, ErrorSpec::Unhandled { machine: def.name.text@, missing })]
    } else {
        Seq::empty()
    }
}

/// Whether row `i` is shadowed for (`l`, `e`).
fn is_shadowed(def: &MachineDef, tree: &Tree, infos: &Vec<RowInfo>, i: usize, l: usize, e: usize) -> (res: bool)
    requires
        infos@.len() == def.transitions@.len(),
        forall|a: int| 0 <= a < infos@.len() ==> infos@[a].describes(tree.all@, tree.leaves@, def.events@, def.transitions@[a]),
        i < infos@.len(),
        l < tree.leaves@.len(),
    ensures
        res == shadowed(tree.all@, tree.leaves@, def.events@, def.transitions@, i as int, l as int, e as int),
{
    let ghost rows = def.transitions@;
    let si = infos[i].specificity(l);
    assert(si == spec_at(tree.all@, tree.leaves@, rows[i as int], l as int));
    let mut j: usize = 0;
    while j < infos.len()
        invariant
            infos@.len() == rows.len(),
            rows == def.transitions@,
            forall|a: int| 0 <= a < infos@.len() ==> infos@[a].describes(tree.all@, tree.leaves@, def.events@, rows[a]),
            l < tree.leaves@.len(),
            j <= infos@.len(),
            si == spec_at(tree.all@, tree.leaves@, rows[i as int], l as int),
            forall|a: int| #![trigger rows[a]] 0 <= a < j ==> !(a != i && rows[a].guard is None && covers(tree.all@, tree.leaves@, def.events@, rows[a], l as int, e as int)
                && (spec_at(tree.all@, tree.leaves@, rows[a], l as int) > si || (spec_at(tree.all@, tree.leaves@, rows[a], l as int) == si && a < i))),
        decreases infos@.len() - j,
    {
        let info = &infos[j];
        assert(info.describes(tree.all@, tree.leaves@, def.events@, rows[j as int]));
        if j != i && !info.guarded && info.covers(l, e) {
            let sj = info.specificity(l);
            assert(covers(tree.all@, tree.leaves@, def.events@, rows[j as int], l as int, e as int));
            if sj > si || (sj == si && j < i) {
                return true;
            }
        } else {
            proof {
                if covers(tree.all@, tree.leaves@, def.events@, rows[j as int], l as int, e as int) {
                    assert(info.ev_idxs@.contains(e));
                }
            }
        }
        j += 1;
    }
    false
}

/// Appends the unreachable-row and unhandled-pair errors.
fn validate_coverage(def: &MachineDef, tree: &Tree, errors: &mut Vec<Diagnostic>)
    requires
        tree.wf(),
        tree.all@.len() <= i32::MAX,
    ensures
        diags_view(final(errors)@) == diags_view(old(errors)@) + coverage_errors(tree.all@, tree.leaves@, *def),
{
    let infos = row_infos(def, tree);
    let ghost nodes = tree.all@;
    let ghost leaves = tree.leaves@;
    let ghost events = def.events@;
    let ghost rows = def.transitions@;
    let ghost e0 = diags_view(errors@);
    let mut i: usize = 0;
    while i < infos.len()
        invariant
            infos@.len() == rows.len(),
            nodes == tree.all@,
            leaves == tree.leaves@,
            events == def.events@,
            rows == def.transitions@,
            forall|a: int| 0 <= a < infos@.len() ==> infos@[a].describes(nodes, leaves, events, rows[a]),
            i <= infos@.len(),
            diags_view(errors@) == e0 + unreachable_errors(nodes, leaves, events, rows, i as int),
        decreases infos@.len() - i,
    {
        let pairs = infos[i].pairs();
        let _nl = tree.leaves.len();
        let ghost info = infos@[i as int];
        let _ne = def.events.len();
        proof {
            assert(info.describes(nodes, leaves, events, rows[i as int]));
            lemma_pairs_cover(info, pairs@, nodes, leaves, events, rows[i as int]);
        }
        let mut all_dead = pairs.len() > 0;
        let mut k: usize = 0;
        while k < pairs.len()
            invariant
                infos@.len() == rows.len(),
                nodes == tree.all@,
                leaves == tree.leaves@,
                events == def.events@,
                rows == def.transitions@,
                forall|a: int| 0 <= a < infos@.len() ==> infos@[a].describes(nodes, leaves, events, rows[a]),
                i < infos@.len(),
                k <= pairs@.len(),
                forall|l: int, e: int| covers(nodes, leaves, events, rows[i as int], l, e) <==> (0 <= l < leaves.len() && 0 <= e < events.len() && pairs@.contains((l as usize, e as usize))),
                forall|a: int| 0 <= a < pairs@.len() ==> pairs@[a].0 < leaves.len() && pairs@[a].1 < events.len(),
                all_dead == (pairs@.len() > 0 && forall|a: int| 0 <= a < k ==> shadowed(nodes, leaves, events, rows, i as int, pairs@[a].0 as int, pairs@[a].1 as int)),
            decreases pairs@.len() - k,
        {
            let (l, e) = pairs[k];
            assert(pairs@.contains((l, e)));
            let sh = is_shadowed(def, tree, &infos, i, l, e);
            if !sh {
                all_dead = false;
            }
            k += 1;
        }
        proof {
            assert(all_dead == unreachable(nodes, leaves, events, rows, i as int)) by {
                if all_dead {
                    let p = pairs@[0];
                    assert(pairs@.contains(p));
                    assert(covers(nodes, leaves, events, rows[i as int], p.0 as int, p.1 as int));
                    assert forall|l: int, e: int| covers(nodes, leaves, events, rows[i as int], l, e) implies shadowed(nodes, leaves, events, rows, i as int, l, e) by {
                        let a = choose|a: int| 0 <= a < pairs@.len() && pairs@[a] == (l as usize, e as usize);
                    }
                }
                if unreachable(nodes, leaves, events, rows, i as int) {
                    let (l, e) = choose|l: int, e: int| covers(nodes, leaves, events, rows[i as int], l, e);
                    assert(pairs@.contains((l as usize, e as usize)));
                    assert forall|a: int| 0 <= a < pairs@.len() implies shadowed(nodes, leaves, events, rows, i as int, pairs@[a].0 as int, pairs@[a].1 as int) by {
                        assert(pairs@.contains(pairs@[a]));
                        assert(covers(nodes, leaves, events, rows[i as int], pairs@[a].0 as int, pairs@[a].1 as int));
                    }
                }
            }
        }
        let ghost before = errors@;
        if all_dead {
            errors.push(Diagnostic { span: def.transitions[i].span, kind: ErrorKind::UnreachableRow });
            assert(diags_view(errors@) =~= diags_view(before) + seq![diag(rows[i as int].span, ErrorSpec::UnreachableRow)]);
        } else {
            assert(diags_view(errors@) =~= diags_view(before));
        }
        assert(diags_view(errors@) =~= e0 + unreachable_errors(nodes, leaves, events, rows, i + 1));
        i += 1;
    }
    assert(i == rows.len());
    let ghost e1 = diags_view(errors@);
    assert(e1 == e0 + unreachable_errors(nodes, leaves, events, rows, rows.len() as int));
    if def.unhandled.is_none() {
        let missing = collect_missing(def, tree, &infos);
        let ghost mv = pairs_view(missing@);
        if missing.len() > 0 {
            let ghost before = errors@;
            let ghost mname = def.name.text@;
            errors.push(Diagnostic {
                span: def.name.span,
                kind: ErrorKind::Unhandled { machine: def.name.text.clone(), missing },
            });
            assert(errors@[errors@.len() - 1]@ == diag(def.name.span, ErrorSpec::Unhandled { machine: mname, missing: mv }));
            assert(diags_view(errors@) =~= diags_view(before) + seq![diag(def.name.span, ErrorSpec::Unhandled { machine: mname, missing: mv })]);
            assert(diags_view(errors@) =~= e0 + coverage_errors(nodes, leaves, *def));
        } else {
            assert(diags_view(errors@) =~= e0 + coverage_errors(nodes, leaves, *def));
        }
    } else {
        assert(diags_view(errors@) =~= e0 + coverage_errors(nodes, leaves, *def));
    }
}

/// Pairs by their characters.
pub open spec fn pairs_view(v: Seq<(String, String)>) -> Seq<(Seq<char>, Seq<char>)> {
    v.map_values(|p: (String, String)| (p.0@, p.1@))
}

/// Whether some row covers (`l`, `e`).
fn any_covers(def: &MachineDef, tree: &Tree, infos: &Vec<RowInfo>, l: usize, e: usize) -> (res: bool)
    requires
        infos@.len() == def.transitions@.len(),
        forall|a: int| 0 <= a < infos@.len() ==> infos@[a].describes(tree.all@, tree.leaves@, def.events@, def.transitions@[a]),
        l < tree.leaves@.len(),
    ensures
        res == covered_any(tree.all@, tree.leaves@, def.events@, def.transitions@, l as int, e as int),
{
    let ghost rows = def.transitions@;
    let mut j: usize = 0;
    while j < infos.len()
        invariant
            infos@.len() == rows.len(),
            rows == def.transitions@,
            forall|a: int| 0 <= a < infos@.len() ==> infos@[a].describes(tree.all@, tree.leaves@, def.events@, rows[a]),
            l < tree.leaves@.len(),
            j <= infos@.len(),
            forall|a: int| #![trigger rows[a]] 0 <= a < j ==> !covers(tree.all@, tree.leaves@, def.events@, rows[a], l as int, e as int),
        decreases infos@.len() - j,
    {
        let info = &infos[j];
        assert(info.describes(tree.all@, tree.leaves@, def.events@, rows[j as int]));
        proof { lemma_entry_val_some(info.leaf_specs@, l as int); }
        if info.covers(l, e) {
            assert(covers(tree.all@, tree.leaves@, def.events@, rows[j as int], l as int, e as int));
            return true;
        }
        proof {
            if covers(tree.all@, tree.leaves@, def.events@, rows[j as int], l as int, e as int) {
                assert(info.ev_idxs@.contains(e));
            }
        }
        j += 1;
    }
    false
}

/// The (leaf, event) pairs that no row covers, leaf-major.
fn collect_missing(def: &MachineDef, tree: &Tree, infos: &Vec<RowInfo>) -> (res: Vec<(String, String)>)
    requires
        tree.wf(),
        infos@.len() == def.transitions@.len(),
        forall|a: int| 0 <= a < infos@.len() ==> infos@[a].describes(tree.all@, tree.leaves@, def.events@, def.transitions@[a]),
    ensures
        pairs_view(res@) == missing_pairs(tree.all@, tree.leaves@, def.events@, def.transitions@, tree.leaves@.len() as int),
{
    let ghost nodes = tree.all@;
    let ghost leaves = tree.leaves@;
    let ghost events = def.events@;
    let ghost rows = def.transitions@;
    proof { crate::tree::lemma_leaf_indices(nodes); }
    let mut out: Vec<(String, String)> = Vec::new();
    let mut l: usize = 0;
    while l < tree.leaves.len()
        invariant
            tree.wf(),
            nodes == tree.all@,
            leaves == tree.leaves@,
            events == def.events@,
            rows == def.transitions@,
            infos@.len() == rows.len(),
            forall|a: int| 0 <= a < infos@.len() ==> infos@[a].describes(nodes, leaves, events, rows[a]),
            forall|m: int| 0 <= m < leaves.len() ==> leaves[m] < nodes.len(),
            l <= leaves.len(),
            pairs_view(out@) == missing_pairs(nodes, leaves, events, rows, l as int),
        decreases leaves.len() - l,
    {
        let ghost base = pairs_view(out@);
        let mut e: usize = 0;
        while e < def.events.len()
            invariant
                tree.wf(),
                nodes == tree.all@,
                leaves == tree.leaves@,
                events == def.events@,
                rows == def.transitions@,
                infos@.len() == rows.len(),
                forall|a: int| 0 <= a < infos@.len() ==> infos@[a].describes(nodes, leaves, events, rows[a]),
                forall|m: int| 0 <= m < leaves.len() ==> leaves[m] < nodes.len(),
                l < leaves.len(),
                e <= events.len(),
                pairs_view(out@) == base + missing_of_leaf(nodes, leaves, events, rows, l as int, e as int),
            decreases events.len() - e,
        {
            let ghost before = out@;
            if !any_covers(def, tree, infos, l, e) {
                let leaf = tree.leaves[l];
                out.push((tree.all[leaf].name.text.clone(), def.events[e].text.clone()));
                assert(pairs_view(out@) =~= pairs_view(before) + seq![(name_at(nodes, leaves[l as int]), events[e as int].text@)]);
            } else {
                assert(pairs_view(out@) =~= pairs_view(before));
            }
            assert(pairs_view(out@) =~= base + missing_of_leaf(nodes, leaves, events, rows, l as int, e + 1));
            e += 1;
        }
        assert(pairs_view(out@) =~= missing_pairs(nodes, leaves, events, rows, l + 1));
        l += 1;
    }
    out
}


/// Whether a token is the punctuation character `c`.
pub open spec fn is_punct(t: Token, c: char) -> bool {
    t matches Token::Punct { ch, .. } && ch == c
}

/// Whether a token is an identifier.
pub open spec fn is_ident(t: Token) -> bool {
    t is Ident
}

/// `(:: Ident)*` to the end.
pub open spec fn path_tail(ts: Seq<Token>) -> bool
    decreases ts.len(),
{
    if ts.len() == 0 {
        true
    } else if ts.len() >= 3 && is_punct(ts[0], ':') && is_punct(ts[1], ':') && is_ident(ts[2]) {
        path_tail(ts.skip(3))
    } else {
        false
    }
}

/// A plain, non-generic type path: `::`? Ident (`::` Ident)*; a lone `_`
/// is the inferred type, not a path.
pub open spec fn plain_path(ts: Seq<Token>) -> bool {
    if ts.len() >= 1 && is_ident(ts[0]) && !(ts[0] matches Token::Ident(i) && i.text@ == "_"@) {
        path_tail(ts.skip(1))
    } else if ts.len() >= 3 && is_punct(ts[0], ':') && is_punct(ts[1], ':') && is_ident(ts[2]) {
        path_tail(ts.skip(3))
    } else {
        false
    }
}

/// Whether a token is the punctuation character `c`.
fn token_is_punct(t: &Token, c: char) -> (res: bool)
    ensures
        res == is_punct(*t, c),
{
    match t {
        Token::Punct { ch, .. } => *ch == c,
        _ => false,
    }
}

/// Whether `ts[from..]` is `(:: Ident)*`.
fn check_path_tail(ts: &Vec<Token>, from: usize) -> (res: bool)
    requires
        from <= ts@.len(),
    ensures
        res == path_tail(ts@.skip(from as int)),
{
    let mut k = from;
    while k < ts.len()
        invariant
            from <= k <= ts@.len(),
            path_tail(ts@.skip(from as int)) == path_tail(ts@.skip(k as int)),
        decreases ts@.len() - k,
    {
        let ghost rest = ts@.skip(k as int);
        if ts.len() - k >= 3 && token_is_punct(&ts[k], ':') && token_is_punct(&ts[k + 1], ':') && matches!(ts[k + 2], Token::Ident(_)) {
            assert(rest[0] == ts@[k as int] && rest[1] == ts@[k + 1] && rest[2] == ts@[k + 2]);
            assert(rest.skip(3) =~= ts@.skip(k + 3));
            k += 3;
        } else {
            proof {
                if rest.len() >= 3 {
                    assert(rest[0] == ts@[k as int] && rest[1] == ts@[k + 1] && rest[2] == ts@[k + 2]);
                }
            }
            return false;
        }
    }
    assert(ts@.skip(k as int) =~= Seq::<Token>::empty());
    true
}

/// Whether the tokens form a plain, non-generic type path.
pub fn is_plain_path(ts: &Vec<Token>) -> (res: bool)
    ensures
        res == plain_path(ts@),
{
    let lone_underscore = match &ts.get(0) {
        Some(Token::Ident(i)) => crate::tokens::str_eq(i.text.as_str(), "_"),
        _ => false,
    };
    if ts.len() >= 1 && matches!(ts[0], Token::Ident(_)) && !lone_underscore {
        check_path_tail(ts, 1)
    } else if ts.len() >= 3 && token_is_punct(&ts[0], ':') && token_is_punct(&ts[1], ':') && matches!(ts[2], Token::Ident(_)) {
        check_path_tail(ts, 3)
    } else {
        false
    }
}

/// Every error a definition has, in reporting order: missing states or
/// events (and nothing else when either is missing), then a non-plain
/// context type, names, initial states, method roles, coverage.
pub open spec fn validation_errors(def: MachineDef, nodes: Seq<Node>, leaves: Seq<usize>) -> Seq<DiagnosticSpec> {
    let base = (if def.states@.len() == 0 {
        seq![diag(def.name.span, ErrorSpec::NoStates)]
    } else {
        Seq::empty()
    }) + (if def.events@.len() == 0 {
        seq![diag(def.name.span, ErrorSpec::NoEvents)]
    } else {
        Seq::empty()
    });
    if def.states@.len() == 0 || def.events@.len() == 0 {
        base
    } else {
        (if !plain_path(def.context.tokens@) {
            seq![diag(def.context.span, ErrorSpec::ContextNotPlain)]
        } else {
            Seq::empty()
        }) + name_errors(nodes, def) + initial_errors(nodes) + role_errors(nodes, def)
            + coverage_errors(nodes, leaves, def)
    }
}

/// Validates a definition against its state hierarchy (built from its states,
/// with the initial markers of rows applied); every problem is reported.
pub fn validate(def: &MachineDef, tree: &Tree) -> (res: Result<(), Vec<Diagnostic>>)
    requires
        tree.wf(),
        tree.all@.len() <= i32::MAX,
    ensures
        match res {
            Ok(()) => validation_errors(*def, tree.all@, tree.leaves@).len() == 0,
            Err(errs) => diags_view(errs@) == validation_errors(*def, tree.all@, tree.leaves@)
                && errs@.len() > 0,
        },
{
    let mut errors: Vec<Diagnostic> = Vec::new();
    if def.states.len() == 0 {
        errors.push(Diagnostic { span: def.name.span, kind: ErrorKind::NoStates });
    }
    if def.events.len() == 0 {
        errors.push(Diagnostic { span: def.name.span, kind: ErrorKind::NoEvents });
    }
    if def.states.len() == 0 || def.events.len() == 0 {
        assert(diags_view(errors@) =~= validation_errors(*def, tree.all@, tree.leaves@));
        return Err(errors);
    }
    if !is_plain_path(&def.context.tokens) {
        errors.push(Diagnostic { span: def.context.span, kind: ErrorKind::ContextNotPlain });
    }
    let ghost e0 = diags_view(errors@);
    validate_names(def, tree, &mut errors);
    check_initial_levels(tree, &mut errors);
    validate_callable_kinds(def, tree, &mut errors);
    validate_coverage(def, tree, &mut errors);
    assert(diags_view(errors@) =~= validation_errors(*def, tree.all@, tree.leaves@));
    if errors.len() == 0 {
        Ok(())
    } else {
        Err(errors)
    }
}

/// What one part of a concatenation holds, the whole holds.
pub proof fn lemma_contains_concat<A>(a: Seq<A>, b: Seq<A>, x: A)
    ensures
        a.contains(x) ==> (a + b).contains(x),
        b.contains(x) ==> (a + b).contains(x),
{
    if a.contains(x) {
        let k = choose|k: int| 0 <= k < a.len() && a[k] == x;
        assert((a + b)[k] == x);
    }
    if b.contains(x) {
        let k = choose|k: int| 0 <= k < b.len() && b[k] == x;
        assert((a + b)[a.len() + k] == x);
    }
}

/// Errors of the checks that follow the context check, in reporting order,
/// all land in the validation errors of a definition with states and events.
pub proof fn lemma_validation_contains(def: MachineDef, nodes: Seq<Node>, leaves: Seq<usize>, x: DiagnosticSpec)
    requires
        def.states@.len() > 0,
        def.events@.len() > 0,
        duplicate_state_errors(nodes).contains(x) || coverage_errors(nodes, leaves, def).contains(x),
    ensures
        validation_errors(def, nodes, leaves).contains(x),
{
    let c = if !plain_path(def.context.tokens@) {
        seq![diag(def.context.span, ErrorSpec::ContextNotPlain)]
    } else {
        Seq::empty()
    };
    let d = duplicate_event_errors(def.events@) + concat_map(
        def.transitions@,
        |r: Row| row_name_errors(nodes, def.events@, r),
    );
    let ini = initial_errors(nodes);
    let rol = role_errors(nodes, def);
    let cov = coverage_errors(nodes, leaves, def);
    let dup = duplicate_state_errors(nodes);
    lemma_contains_concat(dup, d, x);
    assert(name_errors(nodes, def) =~= dup + d);
    lemma_contains_concat(c, name_errors(nodes, def), x);
    lemma_contains_concat(c + name_errors(nodes, def), ini, x);
    lemma_contains_concat(c + name_errors(nodes, def) + ini, rol, x);
    lemma_contains_concat(c + name_errors(nodes, def) + ini + rol, cov, x);
    assert(validation_errors(def, nodes, leaves) =~= c + name_errors(nodes, def) + ini + rol + cov);
}

/// A later state named as an earlier one has a duplicate error.
pub proof fn lemma_duplicate_state_listed(nodes: Seq<Node>, i: int, j: int)
    requires
        0 <= i < j < nodes.len(),
        nodes[i].name.text@ == nodes[j].name.text@,
    ensures
        duplicate_state_errors(nodes).contains(diag(nodes[j].name.span, ErrorSpec::DuplicateState { name: nodes[j].name.text@ })),
    decreases nodes.len(),
{
    let x = diag(nodes[j].name.span, ErrorSpec::DuplicateState { name: nodes[j].name.text@ });
    let pre = nodes.drop_last();
    if j == nodes.len() - 1 {
        assert(nodes[i] == nodes[i]);
        let tail = seq![x];
        assert(duplicate_state_errors(nodes) == duplicate_state_errors(pre) + tail);
        assert(tail[0] == x);
        lemma_contains_concat(duplicate_state_errors(pre), tail, x);
    } else {
        assert(pre[i] == nodes[i] && pre[j] == nodes[j]);
        lemma_duplicate_state_listed(pre, i, j);
        let n = nodes.last();
        let tail = if exists|m: int| 0 <= m < nodes.len() - 1 && nodes[m].name.text@ == n.name.text@ {
            seq![diag(n.name.span, ErrorSpec::DuplicateState { name: n.name.text@ })]
        } else {
            Seq::empty()
        };
        assert(duplicate_state_errors(nodes) == duplicate_state_errors(pre) + tail);
        lemma_contains_concat(duplicate_state_errors(pre), tail, x);
    }
}

/// Every state whose name an earlier state (in pre-order) already carries is
/// reported as a duplicate at its own name, wherever it sits in the
/// hierarchy, the top level included.
pub proof fn law_duplicate_state_reported(def: MachineDef, tree: Tree, i: int, j: int)
    requires
        def.states@.len() > 0,
        def.events@.len() > 0,
        0 <= i < j < tree.all@.len(),
        tree.all@[i].name.text@ == tree.all@[j].name.text@,
    ensures
        validation_errors(def, tree.all@, tree.leaves@).contains(
            diag(tree.all@[j].name.span, ErrorSpec::DuplicateState { name: tree.all@[j].name.text@ }),
        ),
{
    lemma_duplicate_state_listed(tree.all@, i, j);
    lemma_validation_contains(
        def,
        tree.all@,
        tree.leaves@,
        diag(tree.all@[j].name.span, ErrorSpec::DuplicateState { name: tree.all@[j].name.text@ }),
    );
}

/// An unreachable row among the first `n` has its error listed.
pub proof fn lemma_unreachable_listed(nodes: Seq<Node>, leaves: Seq<usize>, events: Seq<Ident>, rows: Seq<Row>, n: int, i: int)
    requires
        0 <= i < n,
        unreachable(nodes, leaves, events, rows, i),
    ensures
        unreachable_errors(nodes, leaves, events, rows, n).contains(diag(rows[i].span, ErrorSpec::UnreachableRow)),
    decreases n,
{
    let x = diag(rows[i].span, ErrorSpec::UnreachableRow);
    let prev = unreachable_errors(nodes, leaves, events, rows, n - 1);
    let tail = if unreachable(nodes, leaves, events, rows, n - 1) {
        seq![diag(rows[n - 1].span, ErrorSpec::UnreachableRow)]
    } else {
        Seq::empty()
    };
    assert(unreachable_errors(nodes, leaves, events, rows, n) == prev + tail);
    if i == n - 1 {
        assert(tail[0] == x);
    } else {
        lemma_unreachable_listed(nodes, leaves, events, rows, n - 1, i);
    }
    lemma_contains_concat(prev, tail, x);
}

/// A row that covers some (leaf, event) pair, each of whose pairs is also
/// covered by another unguarded row tried first for that leaf (one whose
/// source is deeper, the wildcard counting as -1, or as deep and declared
/// earlier), is reported as unreachable.
pub proof fn law_unreachable_row_reported(def: MachineDef, tree: Tree, i: int)
    requires
        def.states@.len() > 0,
        def.events@.len() > 0,
        0 <= i < def.transitions@.len(),
        exists|l: int, e: int| covers(tree.all@, tree.leaves@, def.events@, def.transitions@[i], l, e),
        forall|l: int, e: int|
            covers(tree.all@, tree.leaves@, def.events@, def.transitions@[i], l, e) ==> exists|j: int|
                0 <= j < def.transitions@.len() && j != i && (#[trigger] def.transitions@[j]).guard is None
                    && covers(tree.all@, tree.leaves@, def.events@, def.transitions@[j], l, e)
                    && (spec_at(tree.all@, tree.leaves@, def.transitions@[j], l) > spec_at(
                    tree.all@,
                    tree.leaves@,
                    def.transitions@[i],
                    l,
                ) || (spec_at(tree.all@, tree.leaves@, def.transitions@[j], l) == spec_at(
                    tree.all@,
                    tree.leaves@,
                    def.transitions@[i],
                    l,
                ) && j < i)),
    ensures
        validation_errors(def, tree.all@, tree.leaves@).contains(diag(def.transitions@[i].span, ErrorSpec::UnreachableRow)),
{
    let nodes = tree.all@;
    let leaves = tree.leaves@;
    let rows = def.transitions@;
    assert forall|l: int, e: int| covers(nodes, leaves, def.events@, rows[i], l, e) implies shadowed(
        nodes,
        leaves,
        def.events@,
        rows,
        i,
        l,
        e,
    ) by {
        let j = choose|j: int|
            0 <= j < rows.len() && j != i && (#[trigger] rows[j]).guard is None && covers(nodes, leaves, def.events@, rows[j], l, e)
                && (spec_at(nodes, leaves, rows[j], l) > spec_at(nodes, leaves, rows[i], l) || (spec_at(
                nodes,
                leaves,
                rows[j],
                l,
            ) == spec_at(nodes, leaves, rows[i], l) && j < i));
        assert(rows[j] == rows[j]);
    }
    lemma_unreachable_listed(nodes, leaves, def.events@, rows, rows.len() as int, i);
    let missing = missing_pairs(nodes, leaves, def.events@, rows, leaves.len() as int);
    let tail = if def.unhandled is None && missing.len() > 0 {
        seq![diag(def.name.span, ErrorSpec::Unhandled { machine: def.name.text@, missing })]
    } else {
        Seq::empty()
    };
    lemma_contains_concat(unreachable_errors(nodes, leaves, def.events@, rows, rows.len() as int), tail, diag(rows[i].span, ErrorSpec::UnreachableRow));
    lemma_validation_contains(def, nodes, leaves, diag(rows[i].span, ErrorSpec::UnreachableRow));
}

/// A named source covers a leaf with a specificity of at least 0.
pub proof fn lemma_refs_spec_nonneg(nodes: Seq<Node>, leaves: Seq<usize>, refs: Seq<StateRef>, l: int)
    ensures
        refs_spec(nodes, leaves, refs, l) matches Some(x) ==> x >= 0,
    decreases refs.len(),
{
    if refs.len() > 0 {
        lemma_refs_spec_nonneg(nodes, leaves, refs.drop_last(), l);
    }
}

/// A wildcard-source row each of whose (leaf, event) pairs is also covered
/// by an unguarded row with named sources is reported as unreachable,
/// wherever it is declared.
pub proof fn law_wildcard_row_after_named_rows_reported(def: MachineDef, tree: Tree, i: int)
    requires
        def.states@.len() > 0,
        def.events@.len() > 0,
        0 <= i < def.transitions@.len(),
        def.transitions@[i].sources is Any,
        exists|l: int, e: int| covers(tree.all@, tree.leaves@, def.events@, def.transitions@[i], l, e),
        forall|l: int, e: int|
            covers(tree.all@, tree.leaves@, def.events@, def.transitions@[i], l, e) ==> exists|j: int|
                0 <= j < def.transitions@.len() && j != i && (#[trigger] def.transitions@[j]).guard is None
                    && def.transitions@[j].sources is States
                    && covers(tree.all@, tree.leaves@, def.events@, def.transitions@[j], l, e),
    ensures
        validation_errors(def, tree.all@, tree.leaves@).contains(diag(def.transitions@[i].span, ErrorSpec::UnreachableRow)),
{
    let nodes = tree.all@;
    let leaves = tree.leaves@;
    let rows = def.transitions@;
    assert forall|l: int, e: int| covers(nodes, leaves, def.events@, rows[i], l, e) implies exists|j: int|
        0 <= j < rows.len() && j != i && (#[trigger] rows[j]).guard is None
            && covers(nodes, leaves, def.events@, rows[j], l, e)
            && (spec_at(nodes, leaves, rows[j], l) > spec_at(nodes, leaves, rows[i], l) || (spec_at(
            nodes,
            leaves,
            rows[j],
            l,
        ) == spec_at(nodes, leaves, rows[i], l) && j < i)) by {
        let j = choose|j: int|
            0 <= j < rows.len() && j != i && (#[trigger] rows[j]).guard is None && rows[j].sources is States
                && covers(nodes, leaves, def.events@, rows[j], l, e);
        assert(rows[j] == rows[j]);
        assert(spec_at(nodes, leaves, rows[i], l) == -1);
        match rows[j].sources {
            SourcePattern::States(refs) => {
                lemma_refs_spec_nonneg(nodes, leaves, refs@, l);
            },
            SourcePattern::Any => {},
        }
        assert(spec_at(nodes, leaves, rows[j], l) >= 0);
    }
    law_unreachable_row_reported(def, tree, i);
}

/// Appending `:: Ident` to a path tail keeps it a path tail.
pub proof fn lemma_path_tail_extend(s: Seq<Token>, c1: Token, c2: Token, x: Token)
    requires
        path_tail(s),
        is_punct(c1, ':'),
        is_punct(c2, ':'),
        is_ident(x),
    ensures
        path_tail(s + seq![c1, c2, x]),
    decreases s.len(),
{
    let t = seq![c1, c2, x];
    if s.len() == 0 {
        assert(s + t =~= t);
        assert(t.skip(3) =~= Seq::<Token>::empty());
        assert(path_tail(t.skip(3)));
        assert(t[0] == c1 && t[1] == c2 && t[2] == x);
    } else {
        lemma_path_tail_extend(s.skip(3), c1, c2, x);
        assert((s + t).skip(3) =~= s.skip(3) + t);
        assert((s + t)[0] == s[0] && (s + t)[1] == s[1] && (s + t)[2] == s[2]);
    }
}

/// A path tail holds nothing but identifiers and colons.
pub proof fn lemma_path_tail_tokens(s: Seq<Token>)
    requires
        path_tail(s),
    ensures
        forall|k: int| 0 <= k < s.len() ==> is_ident(#[trigger] s[k]) || is_punct(s[k], ':'),
    decreases s.len(),
{
    if s.len() > 0 {
        lemma_path_tail_tokens(s.skip(3));
        assert forall|k: int| 0 <= k < s.len() implies is_ident(#[trigger] s[k]) || is_punct(s[k], ':') by {
            if k >= 3 {
                assert(s[k] == s.skip(3)[k - 3]);
            }
        }
    }
}

/// Paths of identifiers joined by `::`, with or without a leading `::`, are
/// plain types: a lone identifier other than `_` is one, `:: Ident` is one,
/// and a plain path followed by `:: Ident` is one again.  Conversely a plain
/// path is made of identifiers and colons only (no generic arguments).
pub proof fn law_plain_paths(ts: Seq<Token>, c1: Token, c2: Token, x: Token)
    requires
        is_punct(c1, ':'),
        is_punct(c2, ':'),
        is_ident(x),
    ensures
        !(x matches Token::Ident(i) && i.text@ == "_"@) ==> plain_path(seq![x]),
        plain_path(seq![c1, c2, x]),
        plain_path(ts) ==> plain_path(ts + seq![c1, c2, x]),
        plain_path(ts) ==> ts.len() > 0 && forall|k: int| 0 <= k < ts.len() ==> is_ident(#[trigger] ts[k]) || is_punct(ts[k], ':'),
{
    let t = seq![c1, c2, x];
    assert(seq![x].skip(1) =~= Seq::<Token>::empty());
    assert(t.skip(3) =~= Seq::<Token>::empty());
    if plain_path(ts) {
        assert((ts + t)[0] == ts[0]);
        if ts.len() >= 1 && is_ident(ts[0]) && !(ts[0] matches Token::Ident(i) && i.text@ == "_"@) {
            lemma_path_tail_extend(ts.skip(1), c1, c2, x);
            assert((ts + t).skip(1) =~= ts.skip(1) + t);
            lemma_path_tail_tokens(ts.skip(1));
            assert forall|k: int| 0 <= k < ts.len() implies is_ident(#[trigger] ts[k]) || is_punct(ts[k], ':') by {
                if k >= 1 {
                    assert(ts[k] == ts.skip(1)[k - 1]);
                }
            }
        } else {
            assert((ts + t)[1] == ts[1] && (ts + t)[2] == ts[2]);
            lemma_path_tail_extend(ts.skip(3), c1, c2, x);
            assert((ts + t).skip(3) =~= ts.skip(3) + t);
            lemma_path_tail_tokens(ts.skip(3));
            assert forall|k: int| 0 <= k < ts.len() implies is_ident(#[trigger] ts[k]) || is_punct(ts[k], ':') by {
                if k >= 3 {
                    assert(ts[k] == ts.skip(3)[k - 3]);
                }
            }
        }
    }
}

/// Each duplicate-state error names a state whose name an earlier state
/// (in pre-order) already carries, at that state's own name.
pub proof fn law_duplicate_state_errors_sound(nodes: Seq<Node>, k: int)
    requires
        0 <= k < duplicate_state_errors(nodes).len(),
    ensures
        exists|i: int, j: int|
            0 <= i < j < nodes.len() && nodes[i].name.text@ == nodes[j].name.text@
                && duplicate_state_errors(nodes)[k] == diag(
                nodes[j].name.span,
                ErrorSpec::DuplicateState { name: nodes[j].name.text@ },
            ),
    decreases nodes.len(),
{
    let pre = nodes.drop_last();
    let n = nodes.last();
    let prev = duplicate_state_errors(pre);
    let tail = if exists|m: int| 0 <= m < nodes.len() - 1 && nodes[m].name.text@ == n.name.text@ {
        seq![diag(n.name.span, ErrorSpec::DuplicateState { name: n.name.text@ })]
    } else {
        Seq::empty()
    };
    assert(duplicate_state_errors(nodes) == prev + tail);
    if k < prev.len() {
        law_duplicate_state_errors_sound(pre, k);
        let (i, j) = choose|i: int, j: int|
            0 <= i < j < pre.len() && pre[i].name.text@ == pre[j].name.text@ && prev[k] == diag(
                pre[j].name.span,
                ErrorSpec::DuplicateState { name: pre[j].name.text@ },
            );
        assert(pre[i] == nodes[i] && pre[j] == nodes[j]);
    } else {
        let m = choose|m: int| 0 <= m < nodes.len() - 1 && nodes[m].name.text@ == n.name.text@;
        assert(nodes[nodes.len() - 1] == n);
        assert(0 <= m < nodes.len() - 1 && nodes[m].name.text@ == nodes[nodes.len() - 1].name.text@);
    }
}

/// Each error of the first `n` rows' unreachable list is that of a row among
/// them that is unreachable.
pub proof fn lemma_unreachable_errors_sound(nodes: Seq<Node>, leaves: Seq<usize>, events: Seq<Ident>, rows: Seq<Row>, n: int, k: int)
    requires
        0 <= k < unreachable_errors(nodes, leaves, events, rows, n).len(),
    ensures
        exists|i: int|
            0 <= i < n && unreachable(nodes, leaves, events, rows, i) && unreachable_errors(nodes, leaves, events, rows, n)[k]
                == diag(rows[i].span, ErrorSpec::UnreachableRow),
    decreases n,
{
    if n > 0 {
        let prev = unreachable_errors(nodes, leaves, events, rows, n - 1);
        let tail = if unreachable(nodes, leaves, events, rows, n - 1) {
            seq![diag(rows[n - 1].span, ErrorSpec::UnreachableRow)]
        } else {
            Seq::empty()
        };
        assert(unreachable_errors(nodes, leaves, events, rows, n) == prev + tail);
        if k < prev.len() {
            lemma_unreachable_errors_sound(nodes, leaves, events, rows, n - 1, k);
        } else {
            assert(unreachable(nodes, leaves, events, rows, n - 1));
        }
    }
}

/// Each unreachable-row error is that of a row that covers some (leaf,
/// event) pair and each of whose pairs another unguarded row covers and is
/// tried first for that leaf: a deeper source (the wildcard counting as -1),
/// or one as deep and declared earlier.
pub proof fn law_unreachable_errors_sound(def: MachineDef, tree: Tree, k: int)
    requires
        0 <= k < coverage_errors(tree.all@, tree.leaves@, def).len(),
        coverage_errors(tree.all@, tree.leaves@, def)[k].kind is UnreachableRow,
    ensures
        exists|i: int|
            #![trigger def.transitions@[i]]
            0 <= i < def.transitions@.len() && coverage_errors(tree.all@, tree.leaves@, def)[k] == diag(
                def.transitions@[i].span,
                ErrorSpec::UnreachableRow,
            ) && (exists|l: int, e: int| covers(tree.all@, tree.leaves@, def.events@, def.transitions@[i], l, e))
                && forall|l: int, e: int|
                covers(tree.all@, tree.leaves@, def.events@, def.transitions@[i], l, e) ==> exists|j: int|
                    0 <= j < def.transitions@.len() && j != i && (#[trigger] def.transitions@[j]).guard is None
                        && covers(tree.all@, tree.leaves@, def.events@, def.transitions@[j], l, e)
                        && (spec_at(tree.all@, tree.leaves@, def.transitions@[j], l) > spec_at(
                        tree.all@,
                        tree.leaves@,
                        def.transitions@[i],
                        l,
                    ) || (spec_at(tree.all@, tree.leaves@, def.transitions@[j], l) == spec_at(
                        tree.all@,
                        tree.leaves@,
                        def.transitions@[i],
                        l,
                    ) && j < i)),
{
    let nodes = tree.all@;
    let leaves = tree.leaves@;
    let rows = def.transitions@;
    let ue = unreachable_errors(nodes, leaves, def.events@, rows, rows.len() as int);
    let missing = missing_pairs(nodes, leaves, def.events@, rows, leaves.len() as int);
    let tail = if def.unhandled is None && missing.len() > 0 {
        seq![diag(def.name.span, ErrorSpec::Unhandled { machine: def.name.text@, missing })]
    } else {
        Seq::empty()
    };
    assert(coverage_errors(nodes, leaves, def) == ue + tail);
    if k >= ue.len() {
        assert(tail[k - ue.len()].kind is Unhandled);
    }
    lemma_unreachable_errors_sound(nodes, leaves, def.events@, rows, rows.len() as int, k);
    let i = choose|i: int|
        0 <= i < rows.len() && unreachable(nodes, leaves, def.events@, rows, i) && ue[k] == diag(rows[i].span, ErrorSpec::UnreachableRow);
    assert forall|l: int, e: int| covers(nodes, leaves, def.events@, rows[i], l, e) implies exists|j: int|
        0 <= j < rows.len() && j != i && (#[trigger] rows[j]).guard is None
            && covers(nodes, leaves, def.events@, rows[j], l, e)
            && (spec_at(nodes, leaves, rows[j], l) > spec_at(nodes, leaves, rows[i], l) || (spec_at(
            nodes,
            leaves,
            rows[j],
            l,
        ) == spec_at(nodes, leaves, rows[i], l) && j < i)) by {
        assert(shadowed(nodes, leaves, def.events@, rows, i, l, e));
    }
    assert(rows[i] == rows[i]);
}

/// A path tail is a run of `:: Ident` triples, and nothing else.
pub proof fn lemma_path_tail_shape(s: Seq<Token>)
    ensures
        path_tail(s) <==> (s.len() % 3 == 0 && forall|k: int|
            0 <= k < s.len() ==> if k % 3 == 2 {
                is_ident(#[trigger] s[k])
            } else {
                is_punct(s[k], ':')
            }),
    decreases s.len(),
{
    if s.len() > 0 {
        let r = s.skip(3);
        if s.len() >= 3 {
            lemma_path_tail_shape(r);
            assert forall|k: int| 3 <= k < s.len() implies #[trigger] s[k] == r[k - 3] && (k - 3) % 3 == k % 3 by {}
            if s.len() % 3 == 0 && forall|k: int|
                0 <= k < s.len() ==> if k % 3 == 2 {
                    is_ident(#[trigger] s[k])
                } else {
                    is_punct(s[k], ':')
                } {
                assert(is_punct(s[0], ':') && is_punct(s[1], ':') && is_ident(s[2])) by {
                    assert(0int % 3 == 0 && 1int % 3 == 1 && 2int % 3 == 2);
                }
                assert forall|k: int| 0 <= k < r.len() implies if k % 3 == 2 {
                    is_ident(#[trigger] r[k])
                } else {
                    is_punct(r[k], ':')
                } by {
                    assert(s[k + 3] == r[k]);
                    assert((k + 3) % 3 == k % 3);
                }
            }
            if path_tail(s) {
                assert forall|k: int| 0 <= k < s.len() implies if k % 3 == 2 {
                    is_ident(#[trigger] s[k])
                } else {
                    is_punct(s[k], ':')
                } by {
                    if k >= 3 {
                        assert(s[k] == r[k - 3]);
                        assert((k - 3) % 3 == k % 3);
                    } else {
                        assert(k % 3 == k);
                    }
                }
            }
        }
    }
}

/// The plain context types are exactly the paths of identifiers joined by
/// `::`: an identifier other than `_` followed by `:: Ident` any number of
/// times, or `:: Ident` one or more times.
pub proof fn law_plain_path_shape(ts: Seq<Token>)
    ensures
        plain_path(ts) <==> (ts.len() % 3 == 1 && !(ts[0] matches Token::Ident(i) && i.text@ == "_"@) && forall|k: int|
            0 <= k < ts.len() ==> if k % 3 == 0 {
                is_ident(#[trigger] ts[k])
            } else {
                is_punct(ts[k], ':')
            }) || (ts.len() % 3 == 0 && ts.len() > 0 && forall|k: int|
            0 <= k < ts.len() ==> if k % 3 == 2 {
                is_ident(#[trigger] ts[k])
            } else {
                is_punct(ts[k], ':')
            }),
{
    if ts.len() >= 1 {
        let r1 = ts.skip(1);
        lemma_path_tail_shape(r1);
        assert forall|k: int| 1 <= k < ts.len() implies #[trigger] ts[k] == r1[k - 1] && ((k - 1) % 3 == 2 <==> k % 3 == 0) by {}
        assert(0int % 3 == 0);
        if ts.len() % 3 == 1 && forall|k: int|
            0 <= k < ts.len() ==> if k % 3 == 0 {
                is_ident(#[trigger] ts[k])
            } else {
                is_punct(ts[k], ':')
            } {
            assert forall|k: int| 0 <= k < r1.len() implies if k % 3 == 2 {
                is_ident(#[trigger] r1[k])
            } else {
                is_punct(r1[k], ':')
            } by {
                assert(ts[k + 1] == r1[k]);
                assert((k + 1) % 3 == 0 <==> k % 3 == 2);
            }
        }
        if ts.len() >= 3 {
            let r3 = ts.skip(3);
            lemma_path_tail_shape(r3);
            assert forall|k: int| 3 <= k < ts.len() implies #[trigger] ts[k] == r3[k - 3] && (k - 3) % 3 == k % 3 by {}
            assert(1int % 3 == 1 && 2int % 3 == 2);
            if ts.len() % 3 == 0 && forall|k: int|
                0 <= k < ts.len() ==> if k % 3 == 2 {
                    is_ident(#[trigger] ts[k])
                } else {
                    is_punct(ts[k], ':')
                } {
                assert forall|k: int| 0 <= k < r3.len() implies if k % 3 == 2 {
                    is_ident(#[trigger] r3[k])
                } else {
                    is_punct(r3[k], ':')
                } by {
                    assert(ts[k + 3] == r3[k]);
                    assert((k + 3) % 3 == k % 3);
                }
            }
        }
    }
}

} // verus!





