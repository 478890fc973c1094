//! Static view over the state hierarchy: the states flattened in pre-order
//! with parent links, leaf enumeration, initial-leaf resolution, and the
//! entry/exit paths through the least common ancestor.

use vstd::prelude::*;
use crate::tokens::{Ident, str_eq};
use crate::model::{Callable, StateDef, copy_callable_opt};

verus! {

/// One state of the hierarchy, flattened.
#[derive(Debug)]
pub struct Node {
    pub name: Ident,
    pub initial: bool,
    pub entry: Option<Callable>,
    pub exit: Option<Callable>,
    /// Index of the enclosing composite; `None` at the top level.
    pub parent: Option<usize>,
    /// A state without children.
    pub is_leaf: bool,
}

/// The hierarchy: every state in pre-order, and the leaves among them.
#[derive(Debug)]
pub struct Tree {
    /// Indices into `all` of the leaf states, in pre-order; these form the
    /// runtime state set.
    pub leaves: Vec<usize>,
    /// All states (leaves and composites) in pre-order.
    pub all: Vec<Node>,
}

/// The flattened form of one state declaration.
pub open spec fn node_of(s: StateDef, parent: Option<usize>) -> Node {
    Node {
        name: s.name,
        initial: s.initial,
        entry: s.entry,
        exit: s.exit,
        parent,
        is_leaf: s.children@.len() == 0,
    }
}

/// Pre-order flattening of a forest of state declarations whose first node
/// lands at index `start`, the top level hanging off `parent`.
pub open spec fn flatten(states: Seq<StateDef>, parent: Option<usize>, start: int) -> Seq<Node>
    decreases states,
{
    if states.len() == 0 {
        Seq::empty()
    } else {
        let pre = flatten(states.drop_last(), parent, start);
        let pos = start + pre.len();
        let s = states.last();
        pre + seq![node_of(s, parent)] + flatten(s.children@, Some(pos as usize), pos + 1)
    }
}

/// Indices of the leaves among `nodes`, in order.
pub open spec fn leaf_indices(nodes: Seq<Node>) -> Seq<usize>
    decreases nodes.len(),
{
    if nodes.len() == 0 {
        Seq::empty()
    } else {
        leaf_indices(nodes.drop_last()) + if nodes.last().is_leaf {
            seq![(nodes.len() - 1) as usize]
        } else {
            Seq::empty()
        }
    }
}

/// Every parent link points backwards.
pub open spec fn parents_precede(nodes: Seq<Node>) -> bool {
    forall|i: int| #![trigger nodes[i]] 0 <= i < nodes.len() ==> match nodes[i].parent {
        Some(p) => p < i,
        None => true,
    }
}

/// Nodes in the flattening of a forest hang off `parent` or off a node that
/// the flattening placed before them.
pub proof fn lemma_flatten_parents(states: Seq<StateDef>, parent: Option<usize>, start: int)
    requires
        0 <= start,
        start + flatten(states, parent, start).len() <= usize::MAX + 1,
        parent matches Some(p) ==> p < start,
    ensures
        ({
            let f = flatten(states, parent, start);
            forall|k: int| #![trigger f[k]] 0 <= k < f.len() ==> f[k].parent == parent || (
                f[k].parent matches Some(q) && start <= q < start + k)
        }),
    decreases states,
{
    if states.len() > 0 {
        let pre = flatten(states.drop_last(), parent, start);
        let pos = start + pre.len();
        let s = states.last();
        let post = flatten(s.children@, Some(pos as usize), pos + 1);
        lemma_flatten_parents(states.drop_last(), parent, start);
        lemma_flatten_parents(s.children@, Some(pos as usize), pos + 1);
        let f = flatten(states, parent, start);
        assert forall|k: int| #![trigger f[k]] 0 <= k < f.len() implies f[k].parent == parent || (
            f[k].parent matches Some(q) && start <= q < start + k) by {
            if k < pre.len() {
                assert(f[k] == pre[k]);
            } else if k == pre.len() {
            } else {
                assert(f[k] == post[k - pre.len() - 1]);
            }
        }
    }
}

/// Leaf indices grow by one entry per appended leaf.
pub proof fn lemma_leaf_indices_push(nodes: Seq<Node>, n: Node)
    ensures
        leaf_indices(nodes.push(n)) == leaf_indices(nodes) + if n.is_leaf {
            seq![nodes.len() as usize]
        } else {
            Seq::<usize>::empty()
        },
{
    assert(nodes.push(n).drop_last() =~= nodes);
}

impl Tree {
    /// The structural invariant of a hierarchy.
    pub open spec fn wf(self) -> bool {
        &&& parents_precede(self.all@)
        &&& self.leaves@ == leaf_indices(self.all@)
        &&& self.all@.len() <= usize::MAX
    }

    /// Flattens the forest of state declarations in pre-order.
    pub fn new(states: &[StateDef]) -> (tree: Tree)
        ensures
            tree.all@ == flatten(states@, None, 0),
            tree.wf(),
    {
        let mut tree = Tree { leaves: Vec::new(), all: Vec::new() };
        Self::walk(states, None, &mut tree);
        let _n = tree.all.len();
        proof {
            assert(tree.all@ =~= flatten(states@, None, 0));
            lemma_flatten_parents(states@, None, 0);
            assert forall|i: int| #![trigger tree.all@[i]] 0 <= i < tree.all@.len()
                implies match tree.all@[i].parent { Some(p) => p < i, None => true } by {
                assert(tree.all@[i] == flatten(states@, None, 0)[i]);
            }
        }
        tree
    }

    fn walk(states: &[StateDef], parent: Option<usize>, tree: &mut Tree)
        requires
            old(tree).leaves@ == leaf_indices(old(tree).all@),
        ensures
            final(tree).all@ == old(tree).all@ + flatten(states@, parent, old(tree).all@.len() as int),
            final(tree).leaves@ == leaf_indices(final(tree).all@),
        decreases states@,
    {
        let ghost start = tree.all@.len() as int;
        let ghost all0 = tree.all@;
        let mut i: usize = 0;
        while i < states.len()
            invariant
                i <= states@.len(),
                start == all0.len(),
                tree.all@ == all0 + flatten(states@.take(i as int), parent, start),
                tree.leaves@ == leaf_indices(tree.all@),
            decreases states@.len() - i,
        {
            let s = &states[i];
            let ghost before = tree.all@;
            proof {
                assert(states@.take(i + 1).drop_last() =~= states@.take(i as int));
                assert(states@.take(i + 1).last() == states@[i as int]);
            }
            let pos = tree.all.len();
            assert(pos == all0.len() + flatten(states@.take(i as int), parent, start).len());
            let node = Node {
                name: s.name.copy(),
                initial: s.initial,
                entry: copy_callable_opt(&s.entry),
                exit: copy_callable_opt(&s.exit),
                parent,
                is_leaf: s.children.len() == 0,
            };
            let leaf = node.is_leaf;
            proof {
                lemma_leaf_indices_push(tree.all@, node);
            }
            tree.all.push(node);
            if leaf {
                tree.leaves.push(pos);
            }
            proof {
                assert(tree.all@ == before.push(node_of(*s, parent)));
                assert(tree.leaves@ == leaf_indices(tree.all@));
            }
            proof {
                assert(decreases_to!(states@ => states@[i as int]));
            }
            Self::walk(s.children.as_slice(), Some(pos), tree);
            proof {
                let pre = flatten(states@.take(i as int), parent, start);
                assert(start + pre.len() == pos);
                assert(flatten(states@.take(i + 1), parent, start) == pre + seq![node_of(*s, parent)]
                    + flatten(s.children@, Some(pos), pos + 1));
                assert(tree.all@ =~= all0 + flatten(states@.take(i + 1), parent, start));
            }
            i += 1;
        }
        proof {
            assert(states@.take(states@.len() as int) =~= states@);
        }
    }
}


/// The ancestor chain of node `i`, the node itself first, then its parent,
/// and so on up to the top level.
pub open spec fn chain_of(nodes: Seq<Node>, i: usize) -> Seq<usize>
    decreases i,
{
    if i < nodes.len() {
        match nodes[i as int].parent {
            Some(p) => if p < i {
                seq![i] + chain_of(nodes, p)
            } else {
                seq![i]
            },
            None => seq![i],
        }
    } else {
        seq![i]
    }
}

/// Strings by their characters.
pub open spec fn strings_view(v: Seq<String>) -> Seq<Seq<char>> {
    v.map_values(|x: String| x@)
}

/// The name of node `i`.
pub open spec fn name_at(nodes: Seq<Node>, i: usize) -> Seq<char> {
    nodes[i as int].name.text@
}

/// The last node named `name`, if any.
pub open spec fn last_named(nodes: Seq<Node>, name: Seq<char>) -> Option<usize>
    decreases nodes.len(),
{
    if nodes.len() == 0 {
        None
    } else if nodes.last().name.text@ == name {
        Some((nodes.len() - 1) as usize)
    } else {
        last_named(nodes.drop_last(), name)
    }
}

/// No two states share a name.
pub open spec fn names_unique(nodes: Seq<Node>) -> bool {
    forall|i: int, j: int|
        #![trigger nodes[i], nodes[j]]
        0 <= i < nodes.len() && 0 <= j < nodes.len() && i != j ==> nodes[i].name.text@
            != nodes[j].name.text@
}

/// The name of the parent of the last state called `name`.
pub open spec fn name_parent(nodes: Seq<Node>, name: Seq<char>) -> Option<Seq<char>> {
    match last_named(nodes, name) {
        Some(i) => match nodes[i as int].parent {
            Some(p) => Some(name_at(nodes, p)),
            None => None,
        },
        None => None,
    }
}

/// The ancestors of the state called `name`, by name and innermost first,
/// at most `fuel` of them: each step looks up the parent of the last state
/// that carries the current name.
pub open spec fn name_walk(nodes: Seq<Node>, name: Seq<char>, fuel: nat) -> Seq<Seq<char>>
    decreases fuel,
{
    if fuel == 0 {
        Seq::empty()
    } else {
        match name_parent(nodes, name) {
            Some(p) => seq![p] + name_walk(nodes, p, (fuel - 1) as nat),
            None => Seq::empty(),
        }
    }
}

/// The ancestors of the state called `name`, by name and innermost first.
/// With unique names this is the chain of parents; when repeated names make
/// the lookups go round in circles, the walk stops after as many steps as
/// there are states.
pub open spec fn name_ancestors(nodes: Seq<Node>, name: Seq<char>) -> Seq<Seq<char>> {
    name_walk(nodes, name, nodes.len())
}

/// A walk never takes more steps than its fuel.
pub proof fn lemma_name_walk_len(nodes: Seq<Node>, name: Seq<char>, fuel: nat)
    ensures
        name_walk(nodes, name, fuel).len() <= fuel,
    decreases fuel,
{
    if fuel > 0 {
        if let Some(p) = name_parent(nodes, name) {
            lemma_name_walk_len(nodes, p, (fuel - 1) as nat);
        }
    }
}

/// Whether an ancestor (by name) of the state named as node `i` is named
/// `name`.
pub open spec fn has_ancestor_named(nodes: Seq<Node>, i: usize, name: Seq<char>) -> bool {
    name_ancestors(nodes, name_at(nodes, i)).contains(name)
}

/// The leaves among `leaves` with an ancestor named `name`, in order.
pub open spec fn leaves_with_ancestor(nodes: Seq<Node>, leaves: Seq<usize>, name: Seq<char>) -> Seq<usize>
    decreases leaves.len(),
{
    if leaves.len() == 0 {
        Seq::empty()
    } else {
        leaves_with_ancestor(nodes, leaves.drop_last(), name) + if has_ancestor_named(
            nodes,
            leaves.last(),
            name,
        ) {
            seq![leaves.last()]
        } else {
            Seq::empty()
        }
    }
}

/// The first node at index `k` or later that is an initial child of `i`.
pub open spec fn initial_child_from(nodes: Seq<Node>, i: usize, k: int) -> Option<usize>
    decreases nodes.len() - k,
{
    if k < 0 || k >= nodes.len() {
        None
    } else if nodes[k].parent == Some(i) && nodes[k].initial {
        Some(k as usize)
    } else {
        initial_child_from(nodes, i, k + 1)
    }
}

/// The first initial child of node `i`.
pub open spec fn initial_child(nodes: Seq<Node>, i: usize) -> Option<usize> {
    initial_child_from(nodes, i, 0)
}

/// Every composite state has an initial child.
pub open spec fn initials_present(nodes: Seq<Node>) -> bool {
    forall|i: int|
        #![trigger nodes[i]]
        0 <= i < nodes.len() && !nodes[i].is_leaf ==> initial_child(nodes, i as usize) is Some
}

/// The leaf reached from node `i` by following initial children.
pub open spec fn resolve_leaf(nodes: Seq<Node>, i: usize) -> usize
    decreases nodes.len() - i,
{
    if i >= nodes.len() || nodes[i as int].is_leaf {
        i
    } else {
        match initial_child(nodes, i) {
            Some(j) => if i < j && j < nodes.len() {
                resolve_leaf(nodes, j)
            } else {
                i
            },
            None => i,
        }
    }
}

/// The top-level state a machine starts in: the first one marked initial,
/// else the first one.
pub open spec fn initial_start(nodes: Seq<Node>) -> usize {
    match top_initial_from(nodes, 0) {
        Some(t) => t,
        None => 0,
    }
}

/// The leaf a machine starts in: the starting top-level state, looked up by
/// its name (the last state of that name), resolved down to a leaf.
pub open spec fn initial_leaf_of(nodes: Seq<Node>) -> usize {
    resolve_leaf(nodes, last_named(nodes, name_at(nodes, initial_start(nodes))).unwrap())
}

/// The first top-level node marked initial at index `k` or later.
pub open spec fn top_initial_from(nodes: Seq<Node>, k: int) -> Option<usize>
    decreases nodes.len() - k,
{
    if k < 0 || k >= nodes.len() {
        None
    } else if nodes[k].parent is None && nodes[k].initial {
        Some(k as usize)
    } else {
        top_initial_from(nodes, k + 1)
    }
}

/// The names along the ancestor chain of the state called `name`, the name
/// itself first; ancestors are looked up by name.
pub open spec fn name_chain(nodes: Seq<Node>, name: Seq<char>) -> Seq<Seq<char>> {
    seq![name] + name_ancestors(nodes, name)
}

/// The states along the ancestor chain of the state called `name`, found by
/// name (the last state of each name), the state itself first; at most
/// `fuel` ancestors.
pub open spec fn lookup_chain(nodes: Seq<Node>, name: Seq<char>, fuel: nat) -> Seq<usize>
    decreases fuel,
{
    match last_named(nodes, name) {
        None => Seq::empty(),
        Some(i) => seq![i] + if fuel == 0 {
            Seq::empty()
        } else {
            match nodes[i as int].parent {
                Some(q) => lookup_chain(nodes, name_at(nodes, q), (fuel - 1) as nat),
                None => Seq::empty(),
            }
        },
    }
}

/// The first element of `a` that also occurs in `b`.
pub open spec fn first_common(a: Seq<Seq<char>>, b: Seq<Seq<char>>) -> Option<Seq<char>>
    decreases a.len(),
{
    if a.len() == 0 {
        None
    } else if b.contains(a[0]) {
        Some(a[0])
    } else {
        first_common(a.drop_first(), b)
    }
}

/// The name of the least common ancestor of the states `a` and `b`; for
/// `a == b` the parent of `a`. `None` is the virtual root.
pub open spec fn lca_name(nodes: Seq<Node>, a: Seq<char>, b: Seq<char>) -> Option<Seq<char>> {
    if a == b {
        match last_named(nodes, a) {
            Some(i) => match nodes[i as int].parent {
                Some(p) => Some(name_at(nodes, p)),
                None => None,
            },
            None => None,
        }
    } else {
        first_common(name_chain(nodes, a), name_chain(nodes, b))
    }
}

/// The leading part of the chain `c` up to (excluding) the node named `stop`.
pub open spec fn prefix_until(nodes: Seq<Node>, c: Seq<usize>, stop: Option<Seq<char>>) -> Seq<usize>
    decreases c.len(),
{
    if c.len() == 0 {
        Seq::empty()
    } else if Some(name_at(nodes, c[0])) == stop {
        Seq::empty()
    } else {
        seq![c[0]] + prefix_until(nodes, c.drop_first(), stop)
    }
}

/// The states whose exit hooks fire on the way from `from` to `to`,
/// innermost first.
pub open spec fn spec_exit_path(nodes: Seq<Node>, from: Seq<char>, to: Seq<char>) -> Seq<usize> {
    prefix_until(nodes, lookup_chain(nodes, from, nodes.len()), lca_name(nodes, from, to))
}

/// The states whose entry hooks fire on the way from `from` to `to`,
/// outermost first.
pub open spec fn spec_entry_path(nodes: Seq<Node>, from: Seq<char>, to: Seq<char>) -> Seq<usize> {
    prefix_until(nodes, lookup_chain(nodes, to, nodes.len()), lca_name(nodes, from, to)).reverse()
}

impl Tree {
    /// The last state named `name` (states share one namespace; a later
    /// declaration shadows an earlier one).
    pub fn get(&self, name: &str) -> (res: Option<usize>)
        ensures
            res == last_named(self.all@, name@),
    {
        let mut i = self.all.len();
        assert(self.all@.take(i as int) =~= self.all@);
        while i > 0
            invariant
                i <= self.all@.len(),
                last_named(self.all@, name@) == last_named(self.all@.take(i as int), name@),
            decreases i,
        {
            let ghost t = self.all@.take(i as int);
            assert(t.drop_last() =~= self.all@.take(i - 1));
            if str_eq(self.all[i - 1].name.text.as_str(), name) {
                return Some(i - 1);
            }
            i -= 1;
        }
        None
    }

    /// The name of the parent of the state called `name`.
    pub fn parent_of(&self, name: &str) -> (res: Option<&str>)
        requires
            self.wf(),
        ensures
            match last_named(self.all@, name@) {
                Some(i) => match self.all@[i as int].parent {
                    Some(p) => res matches Some(r) && r@ == name_at(self.all@, p),
                    None => res is None,
                },
                None => res is None,
            },
    {
        match self.get(name) {
            Some(i) => {
                proof { lemma_last_named_bound(self.all@, name@); }
                match self.all[i].parent {
                    Some(p) => {
                        assert(self.all@[i as int].parent == Some(p));
                        Some(self.all[p].name.text.as_str())
                    },
                    None => None,
                }
            },
            None => None,
        }
    }

    /// Number of ancestors of the state called `name`; top-level states (and
    /// unknown names) have depth 0.
    pub fn depth(&self, name: &str) -> (res: i32)
        requires
            self.wf(),
            self.all@.len() <= i32::MAX,
        ensures
            res == name_ancestors(self.all@, name@).len(),
    {
        let n = self.all.len();
        let mut cur = String::from_str(name);
        let mut fuel: usize = n;
        let mut d: i32 = 0;
        proof {
            lemma_name_walk_len(self.all@, name@, n as nat);
        }
        loop
            invariant
                self.wf(),
                n == self.all@.len(),
                n <= i32::MAX,
                fuel <= n,
                0 <= d <= n - fuel,
                d + name_walk(self.all@, cur@, fuel as nat).len() == name_ancestors(self.all@, name@).len(),
            decreases fuel,
        {
            if fuel == 0 {
                return d;
            }
            match self.parent_of(cur.as_str()) {
                None => return d,
                Some(p) => {
                    cur = String::from_str(p);
                    d += 1;
                    fuel -= 1;
                },
            }
        }
    }

    /// Whether an ancestor of the state called `name` is named `ancestor`;
    /// ancestors are looked up by name, the last state of a name counting.
    pub fn is_ancestor(&self, ancestor: &str, name: &str) -> (res: bool)
        requires
            self.wf(),
        ensures
            res == name_ancestors(self.all@, name@).contains(ancestor@),
    {
        let n = self.all.len();
        let mut cur = String::from_str(name);
        let mut fuel: usize = n;
        loop
            invariant
                self.wf(),
                fuel <= n,
                n == self.all@.len(),
                name_ancestors(self.all@, name@).contains(ancestor@) == name_walk(self.all@, cur@, fuel as nat).contains(ancestor@),
            decreases fuel,
        {
            if fuel == 0 {
                return false;
            }
            match self.parent_of(cur.as_str()) {
                None => return false,
                Some(p) => {
                    let ghost w = name_walk(self.all@, p@, (fuel - 1) as nat);
                    assert((seq![p@] + w)[0] == p@);
                    if str_eq(p, ancestor) {
                        return true;
                    }
                    assert((seq![p@] + w).contains(ancestor@) == w.contains(ancestor@)) by {
                        if w.contains(ancestor@) {
                            let k = choose|k: int| 0 <= k < w.len() && w[k] == ancestor@;
                            assert((seq![p@] + w)[k + 1] == ancestor@);
                        }
                        if (seq![p@] + w).contains(ancestor@) {
                            let k = choose|k: int| 0 <= k < (seq![p@] + w).len() && (seq![p@] + w)[k] == ancestor@;
                            assert(w[k - 1] == ancestor@);
                        }
                    }
                    cur = String::from_str(p);
                    fuel -= 1;
                },
            }
        }
    }

    /// All leaves inside the state called `name` (the state itself if it
    /// is a leaf).
    pub fn leaves_under(&self, name: &str) -> (res: Vec<usize>)
        requires
            self.wf(),
        ensures
            res@ == leaves_under_spec(self.all@, self.leaves@, name@),
    {
        if let Some(i) = self.get(name) {
            proof { lemma_last_named_bound(self.all@, name@); }
            if self.all[i].is_leaf {
                let mut v: Vec<usize> = Vec::new();
                v.push(i);
                return v;
            }
        }
        let mut out: Vec<usize> = Vec::new();
        let mut k: usize = 0;
        proof { lemma_leaf_indices_bound(self.all@); }
        while k < self.leaves.len()
            invariant
                self.wf(),
                k <= self.leaves@.len(),
                forall|m: int| 0 <= m < self.leaves@.len() ==> self.leaves@[m] < self.all@.len(),
                out@ == leaves_with_ancestor(self.all@, self.leaves@.take(k as int), name@),
            decreases self.leaves@.len() - k,
        {
            let l = self.leaves[k];
            assert(self.leaves@.take(k + 1).drop_last() =~= self.leaves@.take(k as int));
            if self.is_ancestor(name, self.all[l].name.text.as_str()) {
                out.push(l);
            }
            k += 1;
        }
        assert(self.leaves@.take(self.leaves@.len() as int) =~= self.leaves@);
        out
    }
}

impl Tree {
    /// The first initial child of node `i`.
    fn initial_child_of(&self, i: usize) -> (res: Option<usize>)
        ensures
            res == initial_child(self.all@, i),
    {
        let mut k: usize = 0;
        while k < self.all.len()
            invariant
                k <= self.all@.len(),
                initial_child(self.all@, i) == initial_child_from(self.all@, i, k as int),
            decreases self.all@.len() - k,
        {
            let n = &self.all[k];
            if n.parent == Some(i) && n.initial {
                return Some(k);
            }
            k += 1;
        }
        None
    }

    /// Follows initial-child chains from node `i` down to a leaf.
    fn resolve_from(&self, i: usize) -> (res: usize)
        requires
            self.wf(),
            initials_present(self.all@),
            i < self.all@.len(),
        ensures
            res == resolve_leaf(self.all@, i),
    {
        let mut cur = i;
        loop
            invariant
                self.wf(),
                initials_present(self.all@),
                cur < self.all@.len(),
                resolve_leaf(self.all@, cur) == resolve_leaf(self.all@, i),
            decreases self.all@.len() - cur,
        {
            if self.all[cur].is_leaf {
                return cur;
            }
            assert(self.all@[cur as int] == self.all@[cur as int]);
            let j = self.initial_child_of(cur).unwrap();
            proof {
                lemma_initial_child_found(self.all@, cur, 0);
                assert(self.all@[j as int] == self.all@[j as int]);
            }
            cur = j;
        }
    }

    /// Follows initial-child chains from the state called `name` down to a
    /// leaf; the state itself when it is a leaf.
    pub fn resolve_initial(&self, name: &str) -> (res: usize)
        requires
            self.wf(),
            initials_present(self.all@),
            last_named(self.all@, name@) is Some,
        ensures
            res == resolve_leaf(self.all@, last_named(self.all@, name@).unwrap()),
            res < self.all@.len(),
            self.all@[res as int].is_leaf,
    {
        let i = self.get(name).unwrap();
        proof {
            lemma_last_named_bound(self.all@, name@);
            lemma_resolve_leaf(self.all@, i);
        }
        self.resolve_from(i)
    }

    /// The machine's initial leaf: the first top-level state marked initial
    /// (or else the first state) resolved down to a leaf.
    pub fn initial_leaf(&self) -> (res: usize)
        requires
            self.wf(),
            initials_present(self.all@),
            self.all@.len() > 0,
        ensures
            res == initial_leaf_of(self.all@),
            res < self.all@.len(),
            self.all@[res as int].is_leaf,
    {
        let start = match self.top_initial() {
            Some(t) => t,
            None => 0,
        };
        proof {
            lemma_top_initial_bound(self.all@, 0);
            lemma_last_named_bound(self.all@, name_at(self.all@, start));
            assert(self.all@[start as int].name.text@ == name_at(self.all@, start));
        }
        self.resolve_initial(self.all[start].name.text.as_str())
    }

    /// The first top-level state marked initial.
    fn top_initial(&self) -> (res: Option<usize>)
        ensures
            res == top_initial_from(self.all@, 0),
    {
        let mut k: usize = 0;
        while k < self.all.len()
            invariant
                k <= self.all@.len(),
                top_initial_from(self.all@, 0) == top_initial_from(self.all@, k as int),
            decreases self.all@.len() - k,
        {
            let n = &self.all[k];
            if n.parent.is_none() && n.initial {
                return Some(k);
            }
            k += 1;
        }
        None
    }

    /// The names along the ancestor chain of the state called `name`.
    fn name_chain(&self, name: &str) -> (res: Vec<String>)
        requires
            self.wf(),
        ensures
            res@.len() == name_chain(self.all@, name@).len(),
            forall|k: int| 0 <= k < res@.len() ==> res@[k]@ == name_chain(self.all@, name@)[k],
    {
        let n = self.all.len();
        let mut out: Vec<String> = Vec::new();
        out.push(String::from_str(name));
        let mut cur = String::from_str(name);
        let mut fuel: usize = n;
        loop
            invariant
                self.wf(),
                n == self.all@.len(),
                fuel <= n,
                strings_view(out@) + name_walk(self.all@, cur@, fuel as nat) == name_chain(self.all@, name@),
            ensures
                strings_view(out@) == name_chain(self.all@, name@),
            decreases fuel,
        {
            if fuel == 0 {
                assert(strings_view(out@) + name_walk(self.all@, cur@, fuel as nat) =~= strings_view(out@));
                break;
            }
            match self.parent_of(cur.as_str()) {
                None => {
                    assert(strings_view(out@) + name_walk(self.all@, cur@, fuel as nat) =~= strings_view(out@));
                    break;
                },
                Some(p) => {
                    let ghost before = strings_view(out@);
                    out.push(String::from_str(p));
                    assert(strings_view(out@) =~= before.push(p@));
                    assert(before + name_walk(self.all@, cur@, fuel as nat) =~= strings_view(out@) + name_walk(self.all@, p@, (fuel - 1) as nat));
                    cur = String::from_str(p);
                    fuel -= 1;
                },
            }
        }
        assert forall|k: int| 0 <= k < out@.len() implies out@[k]@ == name_chain(self.all@, name@)[k] by {
            assert(strings_view(out@)[k] == out@[k]@);
        }
        out
    }

    /// The states along the ancestor chain of the state called `name`, found
    /// by name, the state itself first.
    fn lookup_chain_of(&self, name: &str) -> (res: Vec<usize>)
        requires
            self.wf(),
        ensures
            res@ == lookup_chain(self.all@, name@, self.all@.len() as nat),
            forall|k: int| 0 <= k < res@.len() ==> res@[k] < self.all@.len(),
    {
        let n = self.all.len();
        let mut out: Vec<usize> = Vec::new();
        let mut cur = String::from_str(name);
        let mut fuel: usize = n;
        loop
            invariant
                self.wf(),
                n == self.all@.len(),
                fuel <= n,
                out@ + lookup_chain(self.all@, cur@, fuel as nat) == lookup_chain(self.all@, name@, n as nat),
                forall|k: int| 0 <= k < out@.len() ==> out@[k] < n,
            decreases fuel,
        {
            match self.get(cur.as_str()) {
                None => {
                    assert(out@ + lookup_chain(self.all@, cur@, fuel as nat) =~= out@);
                    return out;
                },
                Some(i) => {
                    proof { lemma_last_named_bound(self.all@, cur@); }
                    let ghost before = out@;
                    out.push(i);
                    if fuel == 0 {
                        assert(out@ =~= before + lookup_chain(self.all@, cur@, fuel as nat));
                        return out;
                    }
                    match self.all[i].parent {
                        None => {
                            assert(out@ =~= before + lookup_chain(self.all@, cur@, fuel as nat));
                            return out;
                        },
                        Some(q) => {
                            proof {
                                assert(self.all@[i as int] == self.all@[i as int]);
                            }
                            assert(q < i);
                            assert(before + lookup_chain(self.all@, cur@, fuel as nat) =~= out@ + lookup_chain(self.all@, name_at(self.all@, q), (fuel - 1) as nat));
                            cur = self.all[q].name.text.clone();
                            fuel -= 1;
                        },
                    }
                },
            }
        }
    }

    /// Least common ancestor of two states, by name. `None` means the
    /// virtual root (no shared composite). For `a == b` the parent is
    /// returned: a self-transition exits and re-enters the state only.
    #[verifier::loop_isolation(false)]
    pub fn lca(&self, a: &str, b: &str) -> (res: Option<String>)
        requires
            self.wf(),
        ensures
            match lca_name(self.all@, a@, b@) {
                Some(n) => res matches Some(r) && r@ == n,
                None => res is None,
            },
    {
        if str_eq(a, b) {
            return match self.parent_of(a) {
                Some(p) => Some(String::from_str(p)),
                None => None,
            };
        }
        let ca = self.name_chain(a);
        let cb = self.name_chain(b);
        let ghost sa = name_chain(self.all@, a@);
        let ghost sb = name_chain(self.all@, b@);
        assert(sa.skip(0) =~= sa);
        let mut k: usize = 0;
        while k < ca.len()
            invariant
                k <= ca@.len(),
                ca@.len() == sa.len(),
                cb@.len() == sb.len(),
                forall|m: int| 0 <= m < ca@.len() ==> ca@[m]@ == sa[m],
                forall|m: int| 0 <= m < cb@.len() ==> cb@[m]@ == sb[m],
                first_common(sa, sb) == first_common(sa.skip(k as int), sb),
            decreases ca@.len() - k,
        {
            let ghost rest = sa.skip(k as int);
            assert(rest[0] == sa[k as int]);
            assert(rest.drop_first() =~= sa.skip(k + 1));
            let mut j: usize = 0;
            while j < cb.len()
                invariant
                    j <= cb@.len(),
                    k < ca@.len(),
                    cb@.len() == sb.len(),
                    forall|m: int| 0 <= m < cb@.len() ==> cb@[m]@ == sb[m],
                    forall|m: int| 0 <= m < j ==> sb[m] != ca@[k as int]@,
                decreases cb@.len() - j,
            {
                if ca[k] == cb[j] {
                    assert(sb[j as int] == sa[k as int]);
                    assert(sb.contains(sa[k as int]));
                    return Some(ca[k].clone());
                }
                j += 1;
            }
            assert(!sb.contains(sa[k as int]));
            k += 1;
        }
        None
    }

    /// The leading part of chain `c` up to (excluding) the state named `stop`.
    #[verifier::loop_isolation(false)]
    fn take_until(&self, c: &Vec<usize>, stop: &Option<String>) -> (res: Vec<usize>)
        requires
            forall|m: int| 0 <= m < c@.len() ==> c@[m] < self.all@.len(),
        ensures
            res@ == prefix_until(
                self.all@,
                c@,
                match stop {
                    Some(s) => Some(s@),
                    None => None,
                },
            ),
    {
        let ghost st = match stop {
            Some(s) => Some(s@),
            None => None::<Seq<char>>,
        };
        let mut out: Vec<usize> = Vec::new();
        let mut k: usize = 0;
        assert(c@.skip(0) =~= c@);
        while k < c.len()
            invariant
                k <= c@.len(),
                forall|m: int| 0 <= m < c@.len() ==> c@[m] < self.all@.len(),
                prefix_until(self.all@, c@, st) == out@ + prefix_until(self.all@, c@.skip(k as int), st),
            decreases c@.len() - k,
        {
            let ghost rest = c@.skip(k as int);
            assert(rest[0] == c@[k as int]);
            assert(rest.drop_first() =~= c@.skip(k + 1));
            let hit = match stop {
                Some(s) => self.all[c[k]].name.text == *s,
                None => false,
            };
            if hit {
                assert(prefix_until(self.all@, rest, st) == Seq::<usize>::empty());
                assert(out@ + prefix_until(self.all@, c@.skip(k as int), st) =~= out@);
                return out;
            }
            assert(prefix_until(self.all@, rest, st) == seq![c@[k as int]] + prefix_until(self.all@, c@.skip(k + 1), st));
            let ghost before = out@;
            out.push(c[k]);
            assert(out@ + prefix_until(self.all@, c@.skip(k + 1), st) =~= before + prefix_until(self.all@, c@.skip(k as int), st));
            k += 1;
        }
        assert(c@.skip(k as int) =~= Seq::<usize>::empty());
        assert(out@ + Seq::<usize>::empty() =~= out@);
        out
    }

    /// The states whose exit hooks fire when leaving `from` for `to`: from
    /// `from` up to (excluding) the least common ancestor, innermost first.
    pub fn exit_path(&self, from: &str, to: &str) -> (res: Vec<usize>)
        requires
            self.wf(),
        ensures
            res@ == spec_exit_path(self.all@, from@, to@),
            forall|k: int| 0 <= k < res@.len() ==> res@[k] < self.all@.len(),
    {
        let lca = self.lca(from, to);
        let c = self.lookup_chain_of(from);
        let r = self.take_until(&c, &lca);
        proof {
            lemma_prefix_until_sub(self.all@, c@, match lca { Some(s) => Some(s@), None => None });
            assert forall|k: int| 0 <= k < r@.len() implies r@[k] < self.all@.len() by {
                assert(r@[k] == c@[k]);
            }
        }
        r
    }

    /// The states whose entry hooks fire when entering `to` from `from`:
    /// from (excluding) the least common ancestor down to `to`, outermost
    /// first.
    pub fn entry_path(&self, from: &str, to: &str) -> (res: Vec<usize>)
        requires
            self.wf(),
        ensures
            res@ == spec_entry_path(self.all@, from@, to@),
            forall|k: int| 0 <= k < res@.len() ==> res@[k] < self.all@.len(),
    {
        let lca = self.lca(from, to);
        {
            {
                let c = self.lookup_chain_of(to);
                let path = self.take_until(&c, &lca);
                proof {
                    lemma_prefix_until_sub(self.all@, c@, match lca { Some(s) => Some(s@), None => None });
                    assert forall|k: int| 0 <= k < path@.len() implies path@[k] < self.all@.len() by {
                        assert(path@[k] == c@[k]);
                    }
                }
                let mut out: Vec<usize> = Vec::new();
                let mut k = path.len();
                while k > 0
                    invariant
                        k <= path@.len(),
                        out@ == path@.skip(k as int).reverse(),
                    decreases k,
                {
                    assert(path@.skip(k - 1) =~= seq![path@[k - 1]] + path@.skip(k as int));
                    assert(path@.skip(k - 1).reverse() =~= path@.skip(k as int).reverse().push(path@[k - 1]));
                    out.push(path[k - 1]);
                    k -= 1;
                }
                assert(path@.skip(0) =~= path@);
                proof {
                    assert forall|k: int| 0 <= k < out@.len() implies out@[k] < self.all@.len() by {
                        assert(out@[k] == path@[path@.len() - 1 - k]);
                    }
                }
                out
            }
        }
    }
}

/// A found initial child lies within the nodes, below `i`.
pub proof fn lemma_initial_child_found(nodes: Seq<Node>, i: usize, k: int)
    requires
        parents_precede(nodes),
        nodes.len() <= usize::MAX,
        0 <= k,
    ensures
        initial_child_from(nodes, i, k) matches Some(j) ==> i < j < nodes.len() && k <= j
            && nodes[j as int].parent == Some(i) && nodes[j as int].initial,
    decreases nodes.len() - k,
{
    if k < nodes.len() {
        assert(nodes[k] == nodes[k]);
        lemma_initial_child_found(nodes, i, k + 1);
    }
}

/// The first top-level initial state lies within the nodes.
pub proof fn lemma_top_initial_bound(nodes: Seq<Node>, k: int)
    requires
        nodes.len() <= usize::MAX,
        0 <= k,
    ensures
        top_initial_from(nodes, k) matches Some(t) ==> k <= t < nodes.len(),
    decreases nodes.len() - k,
{
    if k < nodes.len() {
        lemma_top_initial_bound(nodes, k + 1);
    }
}

/// Resolving through initial children ends at a leaf.
pub proof fn lemma_resolve_leaf(nodes: Seq<Node>, i: usize)
    requires
        parents_precede(nodes),
        initials_present(nodes),
        nodes.len() <= usize::MAX,
        i < nodes.len(),
    ensures
        resolve_leaf(nodes, i) < nodes.len(),
        nodes[resolve_leaf(nodes, i) as int].is_leaf,
    decreases nodes.len() - i,
{
    assert(nodes[i as int] == nodes[i as int]);
    if !nodes[i as int].is_leaf {
        lemma_initial_child_found(nodes, i, 0);
        let j = initial_child(nodes, i).unwrap();
        lemma_resolve_leaf(nodes, j);
    }
}

/// A found name lies within the nodes and is carried by that node.
pub proof fn lemma_last_named_bound(nodes: Seq<Node>, name: Seq<char>)
    requires
        nodes.len() <= usize::MAX,
    ensures
        last_named(nodes, name) matches Some(i) ==> i < nodes.len() && name_at(nodes, i) == name,
        last_named(nodes, name) is None ==> forall|j: int| 0 <= j < nodes.len() ==> nodes[j].name.text@ != name,
    decreases nodes.len(),
{
    if nodes.len() > 0 {
        lemma_last_named_bound(nodes.drop_last(), name);
        if nodes.last().name.text@ != name {
            assert forall|j: int| 0 <= j < nodes.len() - 1 implies nodes[j] == nodes.drop_last()[j] by {}
            if let Some(i) = last_named(nodes.drop_last(), name) {
                assert(nodes[i as int] == nodes.drop_last()[i as int]);
            }
        }
    }
}

/// With unique names, the last node named like node `i` is `i`.
pub proof fn lemma_last_named_unique(nodes: Seq<Node>, i: usize)
    requires
        nodes.len() <= usize::MAX,
        names_unique(nodes),
        i < nodes.len(),
    ensures
        last_named(nodes, name_at(nodes, i)) == Some(i),
{
    lemma_last_named_bound(nodes, name_at(nodes, i));
    let r = last_named(nodes, name_at(nodes, i));
    if r is None {
        assert(nodes[i as int].name.text@ == name_at(nodes, i));
    } else {
        let j = r.unwrap();
        if j != i {
            assert(nodes[j as int].name.text@ != nodes[i as int].name.text@);
        }
    }
}

/// The chain of a node is never empty and at most as long as the index.
pub proof fn lemma_chain_len(nodes: Seq<Node>, i: usize)
    ensures
        1 <= chain_of(nodes, i).len() <= i + 1,
        chain_of(nodes, i)[0] == i,
    decreases i,
{
    if i < nodes.len() {
        if let Some(p) = nodes[i as int].parent {
            if p < i {
                lemma_chain_len(nodes, p);
            }
        }
    }
}

/// Consecutive chain elements are parent links, every element lies in the
/// nodes, and the last one is at the top level.
pub proof fn lemma_chain_elems(nodes: Seq<Node>, i: usize)
    requires
        parents_precede(nodes),
        i < nodes.len(),
    ensures
        ({
            let c = chain_of(nodes, i);
            &&& c[0] == i
            &&& forall|m: int| 0 <= m < c.len() ==> c[m] < nodes.len()
            &&& forall|m: int| 0 <= m < c.len() - 1 ==> nodes[c[m] as int].parent == Some(c[m + 1])
            &&& nodes[c.last() as int].parent is None
            &&& forall|m: int, n: int| 0 <= m < n < c.len() ==> c[n] < c[m]
        }),
    decreases i,
{
    assert(nodes[i as int] == nodes[i as int]);
    if let Some(p) = nodes[i as int].parent {
        lemma_chain_elems(nodes, p);
        let c = chain_of(nodes, i);
        let cp = chain_of(nodes, p);
        assert(c == seq![i] + cp);
        assert forall|m: int| 0 <= m < c.len() - 1 implies nodes[c[m] as int].parent == Some(c[m + 1]) by {
            if m > 0 {
                assert(c[m] == cp[m - 1]);
                assert(c[m + 1] == cp[m]);
            }
        }
        assert forall|m: int, n: int| 0 <= m < n < c.len() implies c[n] < c[m] by {
            if m > 0 {
                assert(c[m] == cp[m - 1]);
            } else {
                assert(c[n] == cp[n - 1]);
                assert(cp[n - 1] <= p);
                if n - 1 > 0 {
                    assert(cp[n - 1] < cp[0]);
                }
            }
            assert(c[n] == cp[n - 1]);
        }
    }
}

/// Leaf indices point into the nodes.
pub proof fn lemma_leaf_indices_bound(nodes: Seq<Node>)
    requires
        nodes.len() <= usize::MAX,
    ensures
        forall|m: int| 0 <= m < leaf_indices(nodes).len() ==> leaf_indices(nodes)[m] < nodes.len(),
    decreases nodes.len(),
{
    if nodes.len() > 0 {
        lemma_leaf_indices_bound(nodes.drop_last());
        let pre = leaf_indices(nodes.drop_last());
        assert forall|m: int| 0 <= m < leaf_indices(nodes).len() implies leaf_indices(nodes)[m] < nodes.len() by {
            if m < pre.len() {
                assert(leaf_indices(nodes)[m] == pre[m]);
            }
        }
    }
}


/// Position in `a` of the first element that `b` also holds (`a.len()` when
/// none does).
pub open spec fn first_shared_pos(a: Seq<usize>, b: Seq<usize>) -> int
    decreases a.len(),
{
    if a.len() == 0 {
        0
    } else if b.contains(a[0]) {
        0
    } else {
        1 + first_shared_pos(a.drop_first(), b)
    }
}

/// `first_shared_pos` is the least position whose element `b` holds.
pub proof fn lemma_first_shared_pos(a: Seq<usize>, b: Seq<usize>)
    ensures
        0 <= first_shared_pos(a, b) <= a.len(),
        first_shared_pos(a, b) < a.len() ==> b.contains(a[first_shared_pos(a, b)]),
        forall|k: int| 0 <= k < first_shared_pos(a, b) ==> !b.contains(#[trigger] a[k]),
    decreases a.len(),
{
    if a.len() > 0 && !b.contains(a[0]) {
        lemma_first_shared_pos(a.drop_first(), b);
        assert forall|k: int| 0 <= k < first_shared_pos(a, b) implies !b.contains(#[trigger] a[k]) by {
            if k > 0 {
                assert(a[k] == a.drop_first()[k - 1]);
            }
        }
    }
}

/// With unique names, comparing names along two node sequences is comparing
/// the nodes.
pub proof fn lemma_first_common_names(nodes: Seq<Node>, a: Seq<usize>, b: Seq<usize>)
    requires
        names_unique(nodes),
        forall|k: int| 0 <= k < a.len() ==> a[k] < nodes.len(),
        forall|k: int| 0 <= k < b.len() ==> b[k] < nodes.len(),
    ensures
        first_common(
            a.map_values(|k: usize| name_at(nodes, k)),
            b.map_values(|k: usize| name_at(nodes, k)),
        ) == if first_shared_pos(a, b) < a.len() {
            Some(name_at(nodes, a[first_shared_pos(a, b)]))
        } else {
            None
        },
    decreases a.len(),
{
    let f = |k: usize| name_at(nodes, k);
    let an = a.map_values(f);
    let bn = b.map_values(f);
    if a.len() > 0 {
        assert(an[0] == name_at(nodes, a[0]));
        if b.contains(a[0]) {
            let j = choose|j: int| 0 <= j < b.len() && b[j] == a[0];
            assert(bn[j] == an[0]);
        } else {
            assert forall|j: int| 0 <= j < bn.len() implies bn[j] != an[0] by {
                assert(bn[j] == name_at(nodes, b[j]));
                assert(b[j] != a[0]);
                assert(nodes[b[j] as int] == nodes[b[j] as int]);
                assert(nodes[a[0] as int] == nodes[a[0] as int]);
            }
            assert(!bn.contains(an[0]));
            assert(an.drop_first() =~= a.drop_first().map_values(f));
            lemma_first_common_names(nodes, a.drop_first(), b);
            let p = first_shared_pos(a.drop_first(), b);
            lemma_first_shared_pos(a.drop_first(), b);
            assert(first_shared_pos(a, b) == 1 + p);
            if p < a.len() - 1 {
                assert(a[1 + p] == a.drop_first()[p]);
            }
            assert(first_common(an, bn) == first_common(an.drop_first(), bn));
        }
    }
}

/// Cutting a sequence of nodes with distinct names at a name is taking the
/// part before the node that carries it.
pub proof fn lemma_prefix_until_take(nodes: Seq<Node>, c: Seq<usize>, m: int)
    requires
        names_unique(nodes),
        forall|k: int| 0 <= k < c.len() ==> c[k] < nodes.len(),
        forall|i: int, j: int| 0 <= i < j < c.len() ==> c[i] != c[j],
        0 <= m <= c.len(),
    ensures
        prefix_until(nodes, c, if m < c.len() { Some(name_at(nodes, c[m])) } else { None }) == c.take(m),
    decreases c.len(),
{
    let stop = if m < c.len() { Some(name_at(nodes, c[m])) } else { None };
    if c.len() > 0 {
        if m == 0 {
            assert(c.take(0) =~= Seq::<usize>::empty());
        } else {
            assert(nodes[c[0] as int] == nodes[c[0] as int]);
            if m < c.len() {
                assert(c[0] != c[m]);
                assert(nodes[c[m] as int] == nodes[c[m] as int]);
                assert(name_at(nodes, c[0]) != name_at(nodes, c[m]));
                assert(c.drop_first()[m - 1] == c[m]);
            }
            lemma_prefix_until_take(nodes, c.drop_first(), m - 1);
            assert(c.take(m) =~= seq![c[0]] + c.drop_first().take(m - 1));
        }
    }
}

/// With unique names, the name chain of a state is the names of its node
/// chain.
pub proof fn lemma_name_chain_unique(nodes: Seq<Node>, i: usize)
    requires
        names_unique(nodes),
        parents_precede(nodes),
        nodes.len() <= usize::MAX,
        i < nodes.len(),
    ensures
        name_chain(nodes, name_at(nodes, i)) == chain_of(nodes, i).map_values(|k: usize| name_at(nodes, k)),
        lookup_chain(nodes, name_at(nodes, i), nodes.len()) == chain_of(nodes, i),
{
    lemma_chain_len(nodes, i);
    lemma_name_walk_unique(nodes, i, nodes.len());
    lemma_lookup_chain_unique(nodes, i, nodes.len());
    let c = chain_of(nodes, i);
    assert(name_chain(nodes, name_at(nodes, i)) =~= c.map_values(|k: usize| name_at(nodes, k)));
}

/// With unique names, walking parents by name from node `i` visits the
/// names of its node chain.
pub proof fn lemma_name_walk_unique(nodes: Seq<Node>, i: usize, fuel: nat)
    requires
        names_unique(nodes),
        parents_precede(nodes),
        nodes.len() <= usize::MAX,
        i < nodes.len(),
        fuel + 1 >= chain_of(nodes, i).len(),
    ensures
        name_walk(nodes, name_at(nodes, i), fuel) == chain_of(nodes, i).drop_first().map_values(|k: usize| name_at(nodes, k)),
    decreases i,
{
    lemma_last_named_unique(nodes, i);
    assert(nodes[i as int] == nodes[i as int]);
    let c = chain_of(nodes, i);
    match nodes[i as int].parent {
        Some(q) => {
            lemma_chain_len(nodes, q);
            assert(c == seq![i] + chain_of(nodes, q));
            lemma_name_walk_unique(nodes, q, (fuel - 1) as nat);
            let cq = chain_of(nodes, q);
            assert(c.drop_first() =~= cq);
            assert(cq.map_values(|k: usize| name_at(nodes, k)) =~= seq![name_at(nodes, q)] + cq.drop_first().map_values(|k: usize| name_at(nodes, k)));
        },
        None => {
            assert(c.drop_first() =~= Seq::<usize>::empty());
            assert(c.drop_first().map_values(|k: usize| name_at(nodes, k)) =~= Seq::<Seq<char>>::empty());
        },
    }
}

/// With unique names, looking up the chain of node `i` by names gives its
/// node chain.
pub proof fn lemma_lookup_chain_unique(nodes: Seq<Node>, i: usize, fuel: nat)
    requires
        names_unique(nodes),
        parents_precede(nodes),
        nodes.len() <= usize::MAX,
        i < nodes.len(),
        fuel + 1 >= chain_of(nodes, i).len(),
    ensures
        lookup_chain(nodes, name_at(nodes, i), fuel) == chain_of(nodes, i),
    decreases i,
{
    lemma_last_named_unique(nodes, i);
    assert(nodes[i as int] == nodes[i as int]);
    match nodes[i as int].parent {
        Some(q) => {
            lemma_chain_len(nodes, q);
            lemma_lookup_chain_unique(nodes, q, (fuel - 1) as nat);
        },
        None => {},
    }
}

/// Chain positions run from the node towards the root: an element seen
/// later in one chain and earlier in another cannot be shared past the
/// first shared element.
pub proof fn lemma_first_shared_symmetric(nodes: Seq<Node>, a: usize, b: usize)
    requires
        parents_precede(nodes),
        a < nodes.len(),
        b < nodes.len(),
    ensures
        ({
            let ca = chain_of(nodes, a);
            let cb = chain_of(nodes, b);
            let m = first_shared_pos(ca, cb);
            let n = first_shared_pos(cb, ca);
            &&& (m < ca.len()) == (n < cb.len())
            &&& m < ca.len() ==> ca[m] == cb[n]
        }),
{
    let ca = chain_of(nodes, a);
    let cb = chain_of(nodes, b);
    lemma_chain_elems(nodes, a);
    lemma_chain_elems(nodes, b);
    lemma_first_shared_pos(ca, cb);
    lemma_first_shared_pos(cb, ca);
    let m = first_shared_pos(ca, cb);
    let n = first_shared_pos(cb, ca);
    if m < ca.len() {
        let j = choose|j: int| 0 <= j < cb.len() && cb[j] == ca[m];
        assert(ca.contains(cb[j]));
        assert(n <= j) by {
            if n > j {
                assert(!ca.contains(cb[j]));
            }
        }
        assert(n < cb.len());
        let q = choose|q: int| 0 <= q < ca.len() && ca[q] == cb[n];
        // cb[n] is an ancestor-or-self of cb[j] == ca[m]; ca[q] too.
        if n < j {
            assert(cb[j] < cb[n]);
            assert(q >= m) by {
                if q < m {
                    assert(!cb.contains(ca[q]));
                    assert(cb.contains(cb[n]));
                }
            }
            if q > m {
                assert(ca[q] < ca[m]);
            }
            assert(false);
        }
    } else {
        if n < cb.len() {
            let q = choose|q: int| 0 <= q < ca.len() && ca[q] == cb[n];
            assert(cb.contains(ca[q]));
            assert(!cb.contains(ca[q]));
        }
    }
}

/// UML LCA rule: leaving state `a` for a different state `b`, exit hooks fire
/// for `a` and its ancestors up to (excluding) their least common ancestor,
/// innermost first; entry hooks fire from below that ancestor down to `b`,
/// outermost first; no state that encloses (or is) both `a` and `b` exits
/// or enters.
pub proof fn law_paths_through_lca(tree: Tree, a: usize, b: usize)
    requires
        tree.wf(),
        names_unique(tree.all@),
        a < tree.all@.len(),
        b < tree.all@.len(),
        a != b,
    ensures
        ({
            let nodes = tree.all@;
            let ca = chain_of(nodes, a);
            let cb = chain_of(nodes, b);
            let exit = spec_exit_path(nodes, name_at(nodes, a), name_at(nodes, b));
            let entry = spec_entry_path(nodes, name_at(nodes, a), name_at(nodes, b));
            &&& exit == ca.take(first_shared_pos(ca, cb))
            &&& entry == cb.take(first_shared_pos(cb, ca)).reverse()
            &&& first_shared_pos(ca, cb) < ca.len() ==> ca[first_shared_pos(ca, cb)]
                == cb[first_shared_pos(cb, ca)]
            &&& forall|x: usize| ca.contains(x) && cb.contains(x) ==> !exit.contains(x)
                && !entry.contains(x)
        }),
{
    let nodes = tree.all@;
    let ca = chain_of(nodes, a);
    let cb = chain_of(nodes, b);
    let na = name_at(nodes, a);
    let nb = name_at(nodes, b);
    assert(nodes[a as int] == nodes[a as int]);
    assert(nodes[b as int] == nodes[b as int]);
    assert(na != nb);
    lemma_chain_elems(nodes, a);
    lemma_chain_elems(nodes, b);
    lemma_name_chain_unique(nodes, a);
    lemma_name_chain_unique(nodes, b);
    lemma_last_named_unique(nodes, a);
    lemma_last_named_unique(nodes, b);
    lemma_first_common_names(nodes, ca, cb);
    lemma_first_shared_pos(ca, cb);
    lemma_first_shared_pos(cb, ca);
    lemma_first_shared_symmetric(nodes, a, b);
    let m = first_shared_pos(ca, cb);
    let n = first_shared_pos(cb, ca);
    assert forall|i: int, j: int| 0 <= i < j < ca.len() implies ca[i] != ca[j] by {}
    assert forall|i: int, j: int| 0 <= i < j < cb.len() implies cb[i] != cb[j] by {}
    lemma_prefix_until_take(nodes, ca, m);
    lemma_prefix_until_take(nodes, cb, n);
    let exit = spec_exit_path(nodes, na, nb);
    let entry = spec_entry_path(nodes, na, nb);
    assert(exit == ca.take(m));
    assert(entry == cb.take(n).reverse());
    assert forall|x: usize| ca.contains(x) && cb.contains(x) implies !exit.contains(x) && !entry.contains(x) by {
        if exit.contains(x) {
            let k = choose|k: int| 0 <= k < exit.len() && exit[k] == x;
            assert(ca[k] == x);
            assert(!cb.contains(ca[k]));
        }
        if entry.contains(x) {
            let k = choose|k: int| 0 <= k < entry.len() && entry[k] == x;
            let t = cb.take(n);
            assert(entry[k] == t[t.len() - 1 - k]);
            assert(cb[n - 1 - k] == x);
            assert(!ca.contains(cb[n - 1 - k]));
        }
    }
}

/// With unique names, looking a state up by its name finds it (`get`), and
/// its parent by name (`parent_of`) is the composite that encloses it,
/// `None` at the top level.
pub proof fn law_lookup_by_unique_name(tree: Tree, i: usize)
    requires
        tree.wf(),
        names_unique(tree.all@),
        i < tree.all@.len(),
    ensures
        last_named(tree.all@, name_at(tree.all@, i)) == Some(i),
        name_parent(tree.all@, name_at(tree.all@, i)) == match tree.all@[i as int].parent {
            Some(q) => Some(name_at(tree.all@, q)),
            None => None::<Seq<char>>,
        },
{
    lemma_last_named_unique(tree.all@, i);
}

/// With unique names, the least common ancestor of two states does not
/// depend on their order, and the entry path from `a` to `b` is the exit
/// path from `b` to `a` reversed.
pub proof fn law_entry_path_reverses_exit_path(tree: Tree, a: usize, b: usize)
    requires
        tree.wf(),
        names_unique(tree.all@),
        a < tree.all@.len(),
        b < tree.all@.len(),
    ensures
        lca_name(tree.all@, name_at(tree.all@, a), name_at(tree.all@, b)) == lca_name(tree.all@, name_at(tree.all@, b), name_at(tree.all@, a)),
        spec_entry_path(tree.all@, name_at(tree.all@, a), name_at(tree.all@, b))
            == spec_exit_path(tree.all@, name_at(tree.all@, b), name_at(tree.all@, a)).reverse(),
{
    let nodes = tree.all@;
    if a != b {
        assert(nodes[a as int] == nodes[a as int] && nodes[b as int] == nodes[b as int]);
        assert(name_at(nodes, a) != name_at(nodes, b));
        lemma_name_chain_unique(nodes, a);
        lemma_name_chain_unique(nodes, b);
        lemma_chain_elems(nodes, a);
        lemma_chain_elems(nodes, b);
        let ca = chain_of(nodes, a);
        let cb = chain_of(nodes, b);
        lemma_first_common_names(nodes, ca, cb);
        lemma_first_common_names(nodes, cb, ca);
        lemma_first_shared_symmetric(nodes, a, b);
    }
}

/// A self-transition exits and re-enters the state only.
pub proof fn law_self_transition_paths(tree: Tree, a: usize)
    requires
        tree.wf(),
        names_unique(tree.all@),
        a < tree.all@.len(),
    ensures
        spec_exit_path(tree.all@, name_at(tree.all@, a), name_at(tree.all@, a)) == seq![a],
        spec_entry_path(tree.all@, name_at(tree.all@, a), name_at(tree.all@, a)) == seq![a],
{
    let nodes = tree.all@;
    lemma_last_named_unique(nodes, a);
    lemma_name_chain_unique(nodes, a);
    lemma_chain_elems(nodes, a);
    let c = chain_of(nodes, a);
    assert forall|i: int, j: int| 0 <= i < j < c.len() implies c[i] != c[j] by {}
    assert(nodes[a as int] == nodes[a as int]);
    lemma_prefix_until_take(nodes, c, 1);
    match nodes[a as int].parent {
        Some(p) => {
            assert(c[1] == p);
        },
        None => {
            assert(c.len() == 1);
        },
    }
    assert(c.take(1) =~= seq![a]);
    assert(seq![a].reverse() =~= seq![a]);
}


/// The first node named `name` at index `k` or later.
pub open spec fn first_named_from(nodes: Seq<Node>, name: Seq<char>, k: int) -> Option<usize>
    decreases nodes.len() - k,
{
    if k < 0 || k >= nodes.len() {
        None
    } else if nodes[k].name.text@ == name {
        Some(k as usize)
    } else {
        first_named_from(nodes, name, k + 1)
    }
}

/// Finds the first state named `name` in pre-order, mutably.
pub fn find_mut<'a>(nodes: &'a mut Vec<Node>, name: &str) -> (res: Option<&'a mut Node>)
    ensures
        match first_named_from(old(nodes)@, name@, 0) {
            Some(i) => res matches Some(r) && i < old(nodes)@.len() && *r == old(nodes)@[i as int]
                && final(nodes)@ == old(nodes)@.update(i as int, *final(r)),
            None => res is None && final(nodes)@ == old(nodes)@,
        },
{
    let mut k: usize = 0;
    while k < nodes.len()
        invariant
            k <= nodes@.len(),
            nodes@ == old(nodes)@,
            first_named_from(nodes@, name@, 0) == first_named_from(nodes@, name@, k as int),
        decreases nodes@.len() - k,
    {
        if str_eq(nodes[k].name.text.as_str(), name) {
            return Some(&mut nodes[k]);
        }
        k += 1;
    }
    None
}


/// The leaves inside the state called `name`: the state itself when it is a
/// leaf, else the leaves with an ancestor of that name.
pub open spec fn leaves_under_spec(nodes: Seq<Node>, leaves: Seq<usize>, name: Seq<char>) -> Seq<usize> {
    match last_named(nodes, name) {
        Some(i) => if nodes[i as int].is_leaf {
            seq![i]
        } else {
            leaves_with_ancestor(nodes, leaves, name)
        },
        None => leaves_with_ancestor(nodes, leaves, name),
    }
}

/// Leaf indices are increasing, and list exactly the leaves.
pub proof fn lemma_leaf_indices(nodes: Seq<Node>)
    requires
        nodes.len() <= usize::MAX,
    ensures
        forall|a: int, b: int| 0 <= a < b < leaf_indices(nodes).len() ==> leaf_indices(nodes)[a] < leaf_indices(nodes)[b],
        forall|m: int| 0 <= m < leaf_indices(nodes).len() ==> leaf_indices(nodes)[m] < nodes.len()
            && nodes[leaf_indices(nodes)[m] as int].is_leaf,
        forall|i: int| 0 <= i < nodes.len() && nodes[i].is_leaf ==> leaf_indices(nodes).contains(i as usize),
    decreases nodes.len(),
{
    if nodes.len() > 0 {
        let d = nodes.drop_last();
        lemma_leaf_indices(d);
        let pre = leaf_indices(d);
        let li = leaf_indices(nodes);
        assert forall|m: int| 0 <= m < pre.len() implies li[m] == pre[m] by {}
        assert forall|m: int| 0 <= m < li.len() implies li[m] < nodes.len() && nodes[li[m] as int].is_leaf by {
            if m < pre.len() {
                assert(nodes[pre[m] as int] == d[pre[m] as int]);
            }
        }
        assert forall|i: int| 0 <= i < nodes.len() && nodes[i].is_leaf implies li.contains(i as usize) by {
            if i < nodes.len() - 1 {
                assert(d[i] == nodes[i]);
                let m = choose|m: int| 0 <= m < pre.len() && pre[m] == i as usize;
                assert(li[m] == i as usize);
            } else {
                assert(li[li.len() - 1] == i as usize);
            }
        }
    }
}

/// The leaves with a named ancestor are among the given leaves, in order.
pub proof fn lemma_leaves_with_ancestor_sub(nodes: Seq<Node>, leaves: Seq<usize>, name: Seq<char>)
    ensures
        forall|m: int| 0 <= m < leaves_with_ancestor(nodes, leaves, name).len() ==> leaves.contains(
            leaves_with_ancestor(nodes, leaves, name)[m],
        ),
    decreases leaves.len(),
{
    if leaves.len() > 0 {
        let d = leaves.drop_last();
        lemma_leaves_with_ancestor_sub(nodes, d, name);
        let pre = leaves_with_ancestor(nodes, d, name);
        let cur = leaves_with_ancestor(nodes, leaves, name);
        assert forall|m: int| 0 <= m < cur.len() implies leaves.contains(cur[m]) by {
            if m < pre.len() {
                assert(cur[m] == pre[m]);
                let k = choose|k: int| 0 <= k < d.len() && d[k] == pre[m];
                assert(leaves[k] == d[k]);
            } else {
                assert(leaves[leaves.len() - 1] == cur[m]);
            }
        }
    }
}

/// A leaf lies among the leaves with a named ancestor exactly when it has
/// an ancestor of that name.
pub proof fn lemma_leaves_with_ancestor_contains(nodes: Seq<Node>, leaves: Seq<usize>, name: Seq<char>, x: usize)
    requires
        leaves.contains(x),
    ensures
        leaves_with_ancestor(nodes, leaves, name).contains(x) == has_ancestor_named(nodes, x, name),
    decreases leaves.len(),
{
    let d = leaves.drop_last();
    let pre = leaves_with_ancestor(nodes, d, name);
    let cur = leaves_with_ancestor(nodes, leaves, name);
    lemma_leaves_with_ancestor_sub(nodes, d, name);
    if d.contains(x) {
        lemma_leaves_with_ancestor_contains(nodes, d, name, x);
        if pre.contains(x) {
            let m = choose|m: int| 0 <= m < pre.len() && pre[m] == x;
            assert(cur[m] == x);
        } else if cur.contains(x) {
            let m = choose|m: int| 0 <= m < cur.len() && cur[m] == x;
            if m < pre.len() {
                assert(pre[m] == x);
            }
        }
    } else {
        assert(leaves.last() == x) by {
            let k = choose|k: int| 0 <= k < leaves.len() && leaves[k] == x;
            if k < leaves.len() - 1 {
                assert(d[k] == x);
            }
        }
        if cur.contains(x) {
            let m = choose|m: int| 0 <= m < cur.len() && cur[m] == x;
            if m < pre.len() {
                assert(pre[m] == x);
                assert(d.contains(pre[m]));
            }
        }
        if has_ancestor_named(nodes, x, name) {
            assert(cur[cur.len() - 1] == x);
        }
    }
}


/// The cut chain holds only elements of the chain.
pub proof fn lemma_prefix_until_sub(nodes: Seq<Node>, c: Seq<usize>, stop: Option<Seq<char>>)
    ensures
        prefix_until(nodes, c, stop).len() <= c.len(),
        forall|k: int| 0 <= k < prefix_until(nodes, c, stop).len() ==> prefix_until(nodes, c, stop)[k] == c[k],
    decreases c.len(),
{
    if c.len() > 0 && Some(name_at(nodes, c[0])) != stop {
        lemma_prefix_until_sub(nodes, c.drop_first(), stop);
        let p = prefix_until(nodes, c, stop);
        assert forall|k: int| 0 <= k < p.len() implies p[k] == c[k] by {
            assert(p == seq![c[0]] + prefix_until(nodes, c.drop_first(), stop));
            if k > 0 {
                assert(p[k] == prefix_until(nodes, c.drop_first(), stop)[k - 1]);
                assert(c.drop_first()[k - 1] == c[k]);
            }
        }
    }
}

/// The first top-level node marked initial at `m` or later: none when no
/// such node is marked, else the first marked one.
pub proof fn lemma_top_initial_first(nodes: Seq<Node>, m: int, k: int)
    requires
        0 <= m,
        nodes.len() <= usize::MAX,
    ensures
        (forall|t: int| m <= t < nodes.len() && (#[trigger] nodes[t]).parent is None ==> !nodes[t].initial)
            ==> top_initial_from(nodes, m) is None,
        (m <= k < nodes.len() && nodes[k].parent is None && nodes[k].initial && forall|t: int|
            m <= t < k && (#[trigger] nodes[t]).parent is None ==> !nodes[t].initial) ==> top_initial_from(nodes, m)
            == Some(k as usize),
    decreases nodes.len() - m,
{
    if m < nodes.len() {
        assert(nodes[m] == nodes[m]);
        lemma_top_initial_first(nodes, m + 1, k);
    }
}

/// A machine starts in the first top-level state marked initial or, when no
/// top-level state is marked, in the first top-level state, which is the
/// first state of all; that state is looked up by its name and resolved
/// through initial children down to a leaf.
pub proof fn law_initial_leaf_first_marked_or_first(tree: Tree, k: int)
    requires
        tree.wf(),
        tree.all@.len() > 0,
    ensures
        tree.all@[0].parent is None,
        (forall|t: int| 0 <= t < tree.all@.len() && (#[trigger] tree.all@[t]).parent is None ==> !tree.all@[t].initial)
            ==> initial_leaf_of(tree.all@) == resolve_leaf(
            tree.all@,
            last_named(tree.all@, tree.all@[0].name.text@).unwrap(),
        ),
        (0 <= k < tree.all@.len() && tree.all@[k].parent is None && tree.all@[k].initial && forall|t: int|
            0 <= t < k && (#[trigger] tree.all@[t]).parent is None ==> !tree.all@[t].initial) ==> initial_leaf_of(tree.all@)
            == resolve_leaf(tree.all@, last_named(tree.all@, tree.all@[k].name.text@).unwrap()),
{
    let nodes = tree.all@;
    assert(nodes[0] == nodes[0]);
    lemma_top_initial_first(nodes, 0, k);
}

/// A found initial child is the first one at `k` or later.
pub proof fn lemma_initial_child_first(nodes: Seq<Node>, i: usize, k: int)
    requires
        0 <= k,
    ensures
        initial_child_from(nodes, i, k) matches Some(j) ==> forall|q: int|
            k <= q < j && (#[trigger] nodes[q]).parent == Some(i) ==> !nodes[q].initial,
    decreases nodes.len() - k,
{
    if k < nodes.len() {
        lemma_initial_child_first(nodes, i, k + 1);
    }
}

/// Resolving a state ends at a leaf inside it (or at the state itself when
/// it is a leaf), reached through initial children only: on the way down
/// from the state to the leaf, every state entered is marked initial and is
/// the first child of its parent so marked.
pub proof fn law_resolve_follows_initial_children(tree: Tree, i: usize)
    requires
        tree.wf(),
        initials_present(tree.all@),
        i < tree.all@.len(),
    ensures
        ({
            let nodes = tree.all@;
            let r = resolve_leaf(nodes, i);
            let c = chain_of(nodes, r);
            &&& r < nodes.len()
            &&& nodes[r as int].is_leaf
            &&& exists|mi: int|
                0 <= mi < c.len() && c[mi] == i && forall|m: int|
                    #![trigger c[m]]
                    0 <= m < mi ==> nodes[c[m] as int].initial && forall|q: int|
                        0 <= q < c[m] && (#[trigger] nodes[q]).parent == Some(c[m + 1]) ==> !nodes[q].initial
        }),
    decreases tree.all@.len() - i,
{
    let nodes = tree.all@;
    lemma_resolve_leaf(nodes, i);
    let r = resolve_leaf(nodes, i);
    lemma_chain_elems(nodes, r);
    assert(nodes[i as int] == nodes[i as int]);
    let c = chain_of(nodes, r);
    if nodes[i as int].is_leaf {
        assert(r == i);
        assert(c[0] == i);
    } else {
        lemma_initial_child_found(nodes, i, 0);
        lemma_initial_child_first(nodes, i, 0);
        let j = initial_child(nodes, i).unwrap();
        assert(resolve_leaf(nodes, i) == resolve_leaf(nodes, j));
        law_resolve_follows_initial_children(tree, j);
        let mj = choose|mi: int|
            0 <= mi < c.len() && c[mi] == j && forall|m: int|
                #![trigger c[m]]
                0 <= m < mi ==> nodes[c[m] as int].initial && forall|q: int|
                    0 <= q < c[m] && (#[trigger] nodes[q]).parent == Some(c[m + 1]) ==> !nodes[q].initial;
        assert(nodes[j as int].parent == Some(i));
        if mj == c.len() - 1 {
            assert(nodes[c.last() as int].parent is None);
        }
        assert(nodes[c[mj] as int].parent == Some(c[mj + 1]));
        assert(c[mj + 1] == i);
        assert forall|m: int|
            #![trigger c[m]]
            0 <= m < mj + 1 implies nodes[c[m] as int].initial && forall|q: int|
                0 <= q < c[m] && (#[trigger] nodes[q]).parent == Some(c[m + 1]) ==> !nodes[q].initial by {
            if m == mj {
                assert(c[m] == j);
            }
        }
    }
}

} // verus!


