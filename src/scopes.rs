use crate::diagnostic::Span;
use crate::module::{BindingKind, Module, Node, ScopeKind};
use vstd::prelude::*;

verus! {

/// Where and how a name was declared.
#[derive(Clone, Copy, Debug, PartialEq, Eq, Structural)]
pub struct BindingInfo {
    pub kind: BindingKind,
    pub span: Span,
}

/// A declaration recorded in the scope with index `scope`.
#[derive(Debug)]
pub struct Binding {
    pub scope: usize,
    pub name: String,
    pub info: BindingInfo,
}

pub struct BindingView {
    pub scope: nat,
    pub name: Seq<char>,
    pub info: BindingInfo,
}

impl View for Binding {
    type V = BindingView;

    open spec fn view(&self) -> BindingView {
        BindingView { scope: self.scope as nat, name: self.name@, info: self.info }
    }
}

/// The lexical scopes of a module, as an arena: scope `i` has kind `kinds[i]`
/// and parent `parents[i]`; scope 0 is the module scope. `bindings` holds the
/// declarations in the order they were met; within one scope the latest
/// declaration of a name is the one that counts.
#[derive(Debug)]
pub struct ScopeTree {
    pub kinds: Vec<ScopeKind>,
    pub parents: Vec<Option<usize>>,
    pub bindings: Vec<Binding>,
}

pub struct ScopeTreeView {
    pub kinds: Seq<ScopeKind>,
    pub parents: Seq<Option<usize>>,
    pub bindings: Seq<BindingView>,
}

impl View for ScopeTree {
    type V = ScopeTreeView;

    open spec fn view(&self) -> ScopeTreeView {
        ScopeTreeView {
            kinds: self.kinds@,
            parents: self.parents@,
            bindings: self.bindings@.map_values(|b: Binding| b@),
        }
    }
}

impl ScopeTreeView {
    /// One scope per kind and parent, a single root at index 0, every other
    /// scope's parent created before it, every binding in an existing scope.
    pub open spec fn wf(&self) -> bool {
        &&& self.kinds.len() == self.parents.len()
        &&& self.parents.len() >= 1
        &&& self.parents[0] is None
        &&& forall|i: int|
            0 < i < self.parents.len() ==> (#[trigger] self.parents[i]) is Some
                && self.parents[i]->0 < i
        &&& forall|k: int|
            0 <= k < self.bindings.len() ==> (#[trigger] self.bindings[k]).scope
                < self.parents.len()
    }
}

/// The binding of `name` declared in scope `scope` itself: the latest one.
pub open spec fn declared_in(bs: Seq<BindingView>, scope: nat, name: Seq<char>) -> Option<
    BindingInfo,
>
    decreases bs.len(),
{
    if bs.len() == 0 {
        None
    } else if bs.last().scope == scope && bs.last().name == name {
        Some(bs.last().info)
    } else {
        declared_in(bs.drop_last(), scope, name)
    }
}

/// The scope whose binding `name` means inside scope `scope`: the innermost
/// one, walking from `scope` out to the module scope, that declares it.
pub open spec fn resolve(t: ScopeTreeView, scope: int, name: Seq<char>) -> Option<nat>
    decreases scope,
{
    if scope < 0 || scope >= t.parents.len() {
        None
    } else if declared_in(t.bindings, scope as nat, name) is Some {
        Some(scope as nat)
    } else {
        match t.parents[scope] {
            Some(p) => if p < scope {
                resolve(t, p as int, name)
            } else {
                None
            },
            None => None,
        }
    }
}

/// `a` is `s` or one of the scopes that enclose it.
pub open spec fn encloses(t: ScopeTreeView, a: int, s: int) -> bool
    decreases s,
{
    if s == a {
        true
    } else if 0 <= s < t.parents.len() {
        match t.parents[s] {
            Some(p) => p < s && encloses(t, a, p as int),
            None => false,
        }
    } else {
        false
    }
}

/// The resolver's state in its walk: the scopes so far and the current one.
pub struct ResolverState {
    pub tree: ScopeTreeView,
    pub current: nat,
}

/// A tree holding only the module scope.
pub open spec fn initial_state() -> ResolverState {
    ResolverState {
        tree: ScopeTreeView {
            kinds: seq![ScopeKind::Module],
            parents: seq![None],
            bindings: Seq::empty(),
        },
        current: 0,
    }
}

/// What meeting one node does: `Enter` opens a child of the current scope and
/// makes it current, `Exit` returns to the parent, `Declare` records a binding
/// in the current scope; other nodes change nothing.
pub open spec fn step(s: ResolverState, n: Node) -> ResolverState {
    match n {
        Node::Enter { kind, .. } => ResolverState {
            tree: ScopeTreeView {
                kinds: s.tree.kinds.push(kind),
                parents: s.tree.parents.push(Some(s.current as usize)),
                bindings: s.tree.bindings,
            },
            current: s.tree.parents.len(),
        },
        Node::Exit => ResolverState {
            tree: s.tree,
            current: match s.tree.parents[s.current as int] {
                Some(p) => p as nat,
                None => s.current,
            },
        },
        Node::Declare { name, kind, span } => ResolverState {
            tree: ScopeTreeView {
                kinds: s.tree.kinds,
                parents: s.tree.parents,
                bindings: s.tree.bindings.push(
                    BindingView { scope: s.current, name: name@, info: BindingInfo { kind, span } },
                ),
            },
            current: s.current,
        },
        _ => s,
    }
}

/// The state after the first `k` nodes of `nodes`.
pub open spec fn state_after(nodes: Seq<Node>, k: int) -> ResolverState
    decreases k,
{
    if k <= 0 {
        initial_state()
    } else {
        step(state_after(nodes, k - 1), nodes[k - 1])
    }
}

/// The scope tree of a module.
pub open spec fn scopes_of(nodes: Seq<Node>) -> ScopeTreeView {
    state_after(nodes, nodes.len() as int).tree
}

impl ScopeTree {
    /// Builds the scope tree of `module` in one pre-order pass over its nodes.
    pub fn from_module(module: &Module) -> (r: ScopeTree)
        ensures
            r@ == scopes_of(module.body@),
            r@.wf(),
    {
        let mut kinds: Vec<ScopeKind> = vec![ScopeKind::Module];
        let mut parents: Vec<Option<usize>> = vec![None];
        let mut bindings: Vec<Binding> = Vec::new();
        let mut current: usize = 0;
        let nodes = &module.body;
        let mut k: usize = 0;
        assert(kinds@ =~= initial_state().tree.kinds);
        assert(parents@ =~= initial_state().tree.parents);
        assert(bindings@.map_values(|b: Binding| b@) =~= initial_state().tree.bindings);
        while k < nodes.len()
            invariant
                k <= nodes@.len(),
                ({
                    let st = state_after(nodes@, k as int);
                    &&& st.tree == (ScopeTree { kinds, parents, bindings })@
                    &&& st.current == current
                }),
                (ScopeTree { kinds, parents, bindings })@.wf(),
                current < parents@.len(),
                parents@.len() == kinds@.len(),
            decreases nodes@.len() - k,
        {
            let ghost before = (ScopeTree { kinds, parents, bindings })@;
            assert(bindings@.map_values(|b: Binding| b@) == before.bindings);
            match &nodes[k] {
                Node::Enter { kind, .. } => {
                    let id = parents.len();
                    kinds.push(*kind);
                    parents.push(Some(current));
                    current = id;
                },
                Node::Exit => {
                    match parents[current] {
                        Some(p) => {
                            current = p;
                        },
                        None => {},
                    }
                },
                Node::Declare { name, kind, span } => {
                    bindings.push(
                        Binding {
                            scope: current,
                            name: name.clone(),
                            info: BindingInfo { kind: *kind, span: *span },
                        },
                    );
                    assert(bindings@.map_values(|b: Binding| b@) =~= before.bindings.push(
                        bindings@.last()@,
                    ));
                },
                _ => {},
            }
            k = k + 1;
            assert(state_after(nodes@, k as int) == step(
                state_after(nodes@, k - 1),
                nodes@[k - 1],
            ));
            assert(state_after(nodes@, k as int).tree =~= (ScopeTree { kinds, parents, bindings })@);
        }
        ScopeTree { kinds, parents, bindings }
    }

    /// The binding of `name` declared in scope `scope` itself.
    pub fn declared_in(&self, scope: usize, name: &String) -> (r: Option<BindingInfo>)
        ensures
            r == declared_in(self@.bindings, scope as nat, name@),
    {
        let ghost bs = self@.bindings;
        let mut j: usize = self.bindings.len();
        assert(bs.take(j as int) =~= bs);
        while j > 0
            invariant
                j <= bs.len(),
                bs == self@.bindings,
                declared_in(bs.take(j as int), scope as nat, name@) == declared_in(
                    bs,
                    scope as nat,
                    name@,
                ),
            decreases j,
        {
            let b = &self.bindings[j - 1];
            assert(bs.take(j as int).drop_last() =~= bs.take(j - 1));
            if b.scope == scope && b.name == *name {
                return Some(b.info);
            }
            j = j - 1;
        }
        assert(bs.take(0).len() == 0);
        None
    }

    /// The scope whose binding `name` means inside `scope`: the innermost
    /// enclosing scope (`scope` itself included) that declares it.
    pub fn lookup(&self, scope: usize, name: &String) -> (r: Option<usize>)
        requires
            self@.wf(),
        ensures
            r matches Some(s) ==> resolve(self@, scope as int, name@) == Some(s as nat),
            r is None ==> resolve(self@, scope as int, name@) is None,
    {
        if scope >= self.parents.len() {
            return None;
        }
        let mut cur: usize = scope;
        loop
            invariant
                self@.wf(),
                cur < self@.parents.len(),
                resolve(self@, cur as int, name@) == resolve(self@, scope as int, name@),
            decreases cur,
        {
            if self.declared_in(cur, name).is_some() {
                return Some(cur);
            }
            match self.parents[cur] {
                Some(p) => {
                    if cur == 0 {
                        return None;
                    }
                    cur = p;
                },
                None => {
                    return None;
                },
            }
        }
    }

    /// What `name` means inside `scope`: its binding in the innermost enclosing
    /// scope that declares it.
    pub fn lookup_binding(&self, scope: usize, name: &String) -> (r: Option<BindingInfo>)
        requires
            self@.wf(),
        ensures
            r == match resolve(self@, scope as int, name@) {
                Some(s) => declared_in(self@.bindings, s, name@),
                None => None,
            },
    {
        match self.lookup(scope, name) {
            Some(s) => self.declared_in(s, name),
            None => None,
        }
    }

    /// The scopes directly inside `scope`, in the order they open in the source.
    pub fn children(&self, scope: usize) -> (r: Vec<usize>)
        ensures
            forall|i: int| 0 <= i < r@.len() ==> self@.parents[#[trigger] r@[i] as int] == Some(scope),
            forall|c: int|
                0 <= c < self@.parents.len() && self@.parents[c] == Some(scope) ==> r@.contains(
                    c as usize,
                ),
            forall|i: int, j: int| 0 <= i < j < r@.len() ==> r@[i] < r@[j],
    {
        let mut r: Vec<usize> = Vec::new();
        let mut c: usize = 0;
        while c < self.parents.len()
            invariant
                c <= self@.parents.len(),
                forall|i: int| 0 <= i < r@.len() ==> self@.parents[#[trigger] r@[i] as int] == Some(scope),
                forall|d: int| 0 <= d < c && self@.parents[d] == Some(scope) ==> r@.contains(d as usize),
                forall|i: int, j: int| 0 <= i < j < r@.len() ==> r@[i] < r@[j],
                forall|i: int| 0 <= i < r@.len() ==> r@[i] < c,
            decreases self@.parents.len() - c,
        {
            let ghost old_r = r@;
            if self.parents[c] == Some(scope) {
                r.push(c);
                assert(r@[r@.len() - 1] == c);
            }
            assert forall|d: int|
                0 <= d <= c && self@.parents[d] == Some(scope) implies r@.contains(d as usize) by {
                if d < c {
                    let i = choose|i: int| 0 <= i < old_r.len() && old_r[i] == d as usize;
                    assert(r@[i] == d as usize);
                } else {
                    assert(r@[r@.len() - 1] == c);
                }
            }
            c = c + 1;
        }
        r
    }
}

/// Lookup finds a scope that encloses the one it starts from and that declares
/// the name.
pub proof fn lemma_resolved_scope_encloses(t: ScopeTreeView, s: int, name: Seq<char>)
    requires
        t.wf(),
        resolve(t, s, name) is Some,
    ensures
        encloses(t, resolve(t, s, name)->0 as int, s),
        declared_in(t.bindings, resolve(t, s, name)->0, name) is Some,
    decreases s,
{
    if declared_in(t.bindings, s as nat, name) is None {
        let p = t.parents[s]->0 as int;
        lemma_resolved_scope_encloses(t, p, name);
    }
}

/// A binding visible from a scope but not declared there is visible, with the
/// same declaring scope, from that scope's parent; so it is found on the chain
/// of the parent's ancestors and nowhere else.
pub proof fn lemma_visible_through_parent(t: ScopeTreeView, s: int, name: Seq<char>)
    requires
        t.wf(),
        0 <= s < t.parents.len(),
        resolve(t, s, name) is Some,
        resolve(t, s, name)->0 != s,
    ensures
        t.parents[s] is Some,
        resolve(t, t.parents[s]->0 as int, name) == resolve(t, s, name),
        encloses(t, resolve(t, s, name)->0 as int, t.parents[s]->0 as int),
{
    lemma_resolved_scope_encloses(t, t.parents[s]->0 as int, name);
}

/// A declaration in an inner scope shadows an outer one of the same name:
/// lookup from the inner scope finds the inner scope, while lookup from a
/// sibling that does not declare the name finds what lookup from their common
/// parent finds.
pub proof fn lemma_shadowing(t: ScopeTreeView, inner: int, sibling: int, name: Seq<char>)
    requires
        t.wf(),
        0 <= inner < t.parents.len(),
        0 <= sibling < t.parents.len(),
        inner != sibling,
        t.parents[inner] is Some,
        t.parents[sibling] == t.parents[inner],
        declared_in(t.bindings, inner as nat, name) is Some,
        declared_in(t.bindings, sibling as nat, name) is None,
    ensures
        resolve(t, inner, name) == Some(inner as nat),
        resolve(t, sibling, name) == resolve(t, t.parents[inner]->0 as int, name),
{
}

/// Every state of the walk has a well-formed tree and a current scope in it.
pub proof fn lemma_state_wf(nodes: Seq<Node>, k: int)
    requires
        0 <= k <= nodes.len(),
    ensures
        state_after(nodes, k).tree.wf(),
        state_after(nodes, k).current < state_after(nodes, k).tree.parents.len(),
    decreases k,
{
    if k > 0 {
        lemma_state_wf(nodes, k - 1);
        let s = state_after(nodes, k - 1);
        let t = state_after(nodes, k);
        match nodes[k - 1] {
            Node::Enter { .. } => {
                assert forall|i: int| 0 < i < t.tree.parents.len() implies (#[trigger] t.tree.parents[i]) is Some
                    && t.tree.parents[i]->0 < i by {
                    if i < s.tree.parents.len() {
                        assert(t.tree.parents[i] == s.tree.parents[i]);
                    }
                }
            },
            Node::Declare { .. } => {
                assert forall|j: int| 0 <= j < t.tree.bindings.len() implies (#[trigger] t.tree.bindings[j]).scope
                    < t.tree.parents.len() by {
                    if j < s.tree.bindings.len() {
                        assert(t.tree.bindings[j] == s.tree.bindings[j]);
                    }
                }
            },
            _ => {},
        }
    }
}

/// Scopes, once opened, keep their parents for the rest of the walk.
pub proof fn lemma_parents_kept(nodes: Seq<Node>, k: int, j: int)
    requires
        0 <= k <= j <= nodes.len(),
    ensures
        state_after(nodes, k).tree.parents.len() <= state_after(nodes, j).tree.parents.len(),
        state_after(nodes, k).tree.parents == state_after(nodes, j).tree.parents.take(
            state_after(nodes, k).tree.parents.len() as int,
        ),
    decreases j - k,
{
    if k < j {
        lemma_parents_kept(nodes, k, j - 1);
        lemma_state_wf(nodes, j - 1);
        let a = state_after(nodes, k).tree.parents;
        let b = state_after(nodes, j - 1).tree.parents;
        let c = state_after(nodes, j).tree.parents;
        assert(a =~= c.take(a.len() as int));
    } else {
        assert(state_after(nodes, k).tree.parents =~= state_after(nodes, j).tree.parents.take(
            state_after(nodes, k).tree.parents.len() as int,
        ));
    }
}

impl ScopeTree {
    /// The scope that each node of `module` stands in, where `self` is the
    /// scope tree of `module`: for `Enter` the scope it opens, for `Exit` the
    /// scope it returns to, for any other node the current scope.
    pub fn node_scopes(&self, module: &Module) -> (r: Vec<usize>)
        requires
            self@ == scopes_of(module.body@),
        ensures
            r@.len() == module.body@.len(),
            forall|k: int|
                0 <= k < r@.len() ==> #[trigger] r@[k] == state_after(module.body@, k + 1).current,
    {
        let ghost nodes = module.body@;
        let mut r: Vec<usize> = Vec::new();
        let mut current: usize = 0;
        let mut opened: usize = 1;
        let total = self.parents.len();
        let mut k: usize = 0;
        while k < module.body.len()
            invariant
                nodes == module.body@,
                opened == state_after(nodes, k as int).tree.parents.len(),
                total == self@.parents.len(),
                self@ == scopes_of(nodes),
                k <= nodes.len(),
                current == state_after(nodes, k as int).current,
                r@.len() == k,
                forall|i: int| 0 <= i < k ==> #[trigger] r@[i] == state_after(nodes, i + 1).current,
            decreases nodes.len() - k,
        {
            proof {
                lemma_state_wf(nodes, k as int);
                lemma_parents_kept(nodes, k as int, nodes.len() as int);
                assert(self@.parents[current as int] == state_after(nodes, k as int).tree.parents[current as int]);
            }
            match &module.body[k] {
                Node::Enter { .. } => {
                    proof {
                        lemma_parents_kept(nodes, k + 1, nodes.len() as int);
                        assert(state_after(nodes, k + 1).tree.parents.len() == opened + 1);
                    }
                    current = opened;
                    opened = opened + 1;
                },
                Node::Exit => {
                    match self.parents[current] {
                        Some(p) => {
                            current = p;
                        },
                        None => {},
                    }
                },
                _ => {},
            }
            r.push(current);
            k = k + 1;
        }
        r
    }
}

/// The current scope at any point of the walk is a scope of the final tree.
pub proof fn lemma_current_in_tree(nodes: Seq<Node>, k: int)
    requires
        0 <= k <= nodes.len(),
    ensures
        state_after(nodes, k).current < scopes_of(nodes).parents.len(),
        scopes_of(nodes).wf(),
{
    lemma_state_wf(nodes, k);
    lemma_state_wf(nodes, nodes.len() as int);
    lemma_parents_kept(nodes, k, nodes.len() as int);
}

} // verus!
