//! The type-indexed singleton store.
//!
//! A [`Graph`] maps a type key (a `u64` tag standing for a type identity) to
//! a stored node: the instance identity of the singleton registered under
//! that key, the instance identities of the dependencies it was constructed
//! from, and, for directly provided values, the shared payload itself.
//! A key is bound at most once; a second registration under the same key is
//! a silent no-op and the first registration wins.

use std::sync::Arc;
use vstd::prelude::*;

verus! {

/// Identity of a stored singleton: the type key it is registered under and
/// the identity of the underlying instance. Two handles with the same
/// `instance` refer to the identical constructed object.
#[derive(Clone, Copy, PartialEq, Eq, Structural, Debug)]
pub struct Handle {
    pub key: u64,
    pub instance: u64,
}

/// Mathematical image of a stored node: the payload is the plain value
/// behind the shared pointer, the dependency list a sequence.
pub struct NodeView<D> {
    pub key: u64,
    pub instance: u64,
    pub deps: Seq<u64>,
    pub data: Option<D>,
}

/// One entry of a registry: a singleton registered under `key`, with its
/// instance identity, the instance identities of the singletons that were
/// injected into it, and the payload for directly provided values
/// (constructed providers carry `None`).
pub struct Node<D> {
    pub key: u64,
    pub instance: u64,
    pub deps: Vec<u64>,
    pub data: Option<Arc<D>>,
}

impl<D> View for Node<D> {
    type V = NodeView<D>;

    open spec fn view(&self) -> NodeView<D> {
        NodeView {
            key: self.key,
            instance: self.instance,
            deps: self.deps@,
            data: match self.data {
                Some(a) => Some(*a),
                None => None,
            },
        }
    }
}

/// True when no two entries of `s` share a key.
pub open spec fn distinct_keys<D>(s: Seq<Node<D>>) -> bool {
    forall|i: int, j: int| 0 <= i < j < s.len() ==> s[i].key != s[j].key
}

/// The mapping from key to stored node that a sequence of entries denotes;
/// a later entry would shadow an earlier one, but under [`distinct_keys`]
/// the question does not arise.
pub open spec fn nodes_map<D>(s: Seq<Node<D>>) -> Map<u64, NodeView<D>>
    decreases s.len(),
{
    if s.len() == 0 {
        Map::empty()
    } else {
        nodes_map(s.drop_last()).insert(s.last().key, s.last()@)
    }
}

proof fn lemma_nodes_map_contains<D>(s: Seq<Node<D>>, key: u64)
    ensures
        nodes_map(s).contains_key(key) <==> exists|i: int| 0 <= i < s.len() && s[i].key == key,
    decreases s.len(),
{
    if s.len() > 0 {
        lemma_nodes_map_contains(s.drop_last(), key);
        if s.last().key == key {
            assert(s[s.len() - 1].key == key);
        } else if nodes_map(s).contains_key(key) {
            let i = choose|i: int| 0 <= i < s.drop_last().len() && s.drop_last()[i].key == key;
            assert(s[i].key == key);
        } else if exists|i: int| 0 <= i < s.len() && s[i].key == key {
            let i = choose|i: int| 0 <= i < s.len() && s[i].key == key;
            assert(s.drop_last()[i].key == key);
        }
    }
}

proof fn lemma_nodes_map_index<D>(s: Seq<Node<D>>, i: int)
    requires
        distinct_keys(s),
        0 <= i < s.len(),
    ensures
        nodes_map(s).contains_key(s[i].key),
        nodes_map(s)[s[i].key] == s[i]@,
    decreases s.len(),
{
    if i < s.len() - 1 {
        assert(s.drop_last()[i] == s[i]);
        lemma_nodes_map_index(s.drop_last(), i);
        assert(s[s.len() - 1].key != s[i].key);
    }
}

proof fn lemma_nodes_map_push<D>(s: Seq<Node<D>>, n: Node<D>)
    ensures
        nodes_map(s.push(n)) == nodes_map(s).insert(n.key, n@),
{
    assert(s.push(n).drop_last() =~= s);
    assert(s.push(n).last() == n);
}

/// The registries of a sequence of graphs, as maps, in the same order.
pub open spec fn graph_views<D>(gs: Seq<Graph<D>>) -> Seq<Map<u64, NodeView<D>>> {
    gs.map_values(|g: Graph<D>| g@)
}

/// The first binding of `key` over an ordered sequence of registries:
/// the fallback search order.
pub open spec fn first_hit<D>(ms: Seq<Map<u64, NodeView<D>>>, key: u64) -> Option<NodeView<D>>
    decreases ms.len(),
{
    if ms.len() == 0 {
        None
    } else if ms[0].contains_key(key) {
        Some(ms[0][key])
    } else {
        first_hit(ms.drop_first(), key)
    }
}

proof fn lemma_first_hit_skip<D>(ms: Seq<Map<u64, NodeView<D>>>, key: u64, i: int)
    requires
        0 <= i <= ms.len(),
        forall|j: int| 0 <= j < i ==> !ms[j].contains_key(key),
    ensures
        first_hit(ms, key) == first_hit(ms.skip(i), key),
    decreases i,
{
    if i > 0 {
        assert(!ms[0].contains_key(key));
        assert forall|j: int| 0 <= j < i - 1 implies !(#[trigger] ms.drop_first()[j]).contains_key(
            key,
        ) by {
            assert(ms.drop_first()[j] == ms[j + 1]);
        }
        lemma_first_hit_skip(ms.drop_first(), key, i - 1);
        assert(ms.drop_first().skip(i - 1) =~= ms.skip(i));
    } else {
        assert(ms.skip(0) =~= ms);
    }
}

/// A plain value tagged with the type key it is registered under: the
/// manual type tag that stands in for a compile-time type identity.
/// Plain values are registered explicitly and never auto-constructed.
#[derive(Clone, Debug)]
pub struct Value<D> {
    pub key: u64,
    pub value: D,
}

/// How an injectable type resolves: a `Plain` value must have been provided
/// explicitly and resolution of it faults, a `Composite` type is constructed
/// from the singletons its dependency keys resolve to.
#[derive(Clone, Copy, PartialEq, Eq, Structural, Debug)]
pub enum InjectKind {
    Plain,
    Composite,
}

/// Mathematical image of an [`InjectSpec`].
pub struct InjectView {
    pub key: u64,
    pub kind: InjectKind,
    pub deps: Seq<u64>,
}

/// The resolution recipe of an injectable type: its own type key, how it
/// resolves, and the type keys of its structural dependencies, fixed when
/// the type is defined.
#[derive(Clone, Debug)]
pub struct InjectSpec {
    pub key: u64,
    pub kind: InjectKind,
    pub deps: Vec<u64>,
}

impl View for InjectSpec {
    type V = InjectView;

    open spec fn view(&self) -> InjectView {
        InjectView { key: self.key, kind: self.kind, deps: self.deps@ }
    }
}

/// The capability every injectable type exposes: how a value of it is
/// resolved against a registry and a list of fallback registries.
pub trait Injected {
    /// The recipe, at the specification level.
    spec fn injection(&self) -> InjectView;

    /// The recipe, as a value the module builder consumes.
    fn injected_spec(&self) -> (r: InjectSpec)
        ensures
            r@ == self.injection(),
    ;
}

/// A plain value resolves as itself and is never auto-constructed:
/// attempting to resolve an unprovided plain value faults.
impl<D> Injected for Value<D> {
    open spec fn injection(&self) -> InjectView {
        InjectView { key: self.key, kind: InjectKind::Plain, deps: Seq::empty() }
    }

    fn injected_spec(&self) -> (r: InjectSpec) {
        InjectSpec { key: self.key, kind: InjectKind::Plain, deps: Vec::new() }
    }
}

/// A shared pointer resolves exactly as its pointee does.
impl<T: Injected> Injected for Arc<T> {
    open spec fn injection(&self) -> InjectView {
        (**self).injection()
    }

    fn injected_spec(&self) -> (r: InjectSpec) {
        (**self).injected_spec()
    }
}

/// The one failure of the build pass: some type key could not be resolved
/// anywhere in scope. It identifies the missing type and is meant to abort
/// application startup.
#[derive(Clone, Copy, PartialEq, Eq, Structural, Debug)]
pub enum BuildError {
    Unresolved { key: u64 },
}

/// Where a key resolves during provider resolution: the local registry
/// first, then the ordered fallback registries.
pub open spec fn lookup<D>(
    g: Map<u64, NodeView<D>>,
    fbs: Seq<Map<u64, NodeView<D>>>,
    key: u64,
) -> Option<NodeView<D>> {
    if g.contains_key(key) {
        Some(g[key])
    } else {
        first_hit(fbs, key)
    }
}

/// Every dependency key resolves somewhere in scope.
pub open spec fn deps_ok<D>(
    g: Map<u64, NodeView<D>>,
    fbs: Seq<Map<u64, NodeView<D>>>,
    deps: Seq<u64>,
) -> bool {
    forall|i: int| 0 <= i < deps.len() ==> (#[trigger] lookup(g, fbs, deps[i])) is Some
}

/// The first dependency key that resolves nowhere: the type a resolution
/// fault identifies.
pub open spec fn first_missing<D>(
    g: Map<u64, NodeView<D>>,
    fbs: Seq<Map<u64, NodeView<D>>>,
    deps: Seq<u64>,
) -> u64
    decreases deps.len(),
{
    if deps.len() == 0 {
        0
    } else if lookup(g, fbs, deps[0]) is None {
        deps[0]
    } else {
        first_missing(g, fbs, deps.drop_first())
    }
}

/// The instance identities the dependency keys resolve to, in order.
pub open spec fn dep_instances<D>(
    g: Map<u64, NodeView<D>>,
    fbs: Seq<Map<u64, NodeView<D>>>,
    deps: Seq<u64>,
) -> Seq<u64> {
    Seq::new(
        deps.len(),
        |i: int|
            match lookup(g, fbs, deps[i]) {
                Some(n) => n.instance,
                None => 0,
            },
    )
}

proof fn lemma_first_missing_skip<D>(
    g: Map<u64, NodeView<D>>,
    fbs: Seq<Map<u64, NodeView<D>>>,
    deps: Seq<u64>,
    i: int,
)
    requires
        0 <= i <= deps.len(),
        forall|j: int| 0 <= j < i ==> (#[trigger] lookup(g, fbs, deps[j])) is Some,
    ensures
        first_missing(g, fbs, deps) == first_missing(g, fbs, deps.skip(i)),
    decreases i,
{
    if i > 0 {
        assert(lookup(g, fbs, deps[0]) is Some);
        assert forall|j: int| 0 <= j < i - 1 implies (#[trigger] lookup(
            g,
            fbs,
            deps.drop_first()[j],
        )) is Some by {
            assert(deps.drop_first()[j] == deps[j + 1]);
        }
        lemma_first_missing_skip(g, fbs, deps.drop_first(), i - 1);
        assert(deps.drop_first().skip(i - 1) =~= deps.skip(i));
    } else {
        assert(deps.skip(0) =~= deps);
    }
}

/// The singleton registry: at most one stored node per key.
pub struct Graph<D> {
    nodes: Vec<Node<D>>,
}

impl<D> View for Graph<D> {
    type V = Map<u64, NodeView<D>>;

    closed spec fn view(&self) -> Map<u64, NodeView<D>> {
        nodes_map(self.nodes@)
    }
}

impl<D> Graph<D> {
    /// Well-formedness: no key is bound twice.
    pub closed spec fn wf(&self) -> bool {
        distinct_keys(self.nodes@)
    }

    /// An empty registry.
    pub fn new() -> (g: Self)
        ensures
            g.wf(),
            g@ == Map::<u64, NodeView<D>>::empty(),
    {
        Graph { nodes: Vec::new() }
    }

    fn index_of(&self, key: u64) -> (r: Option<usize>)
        ensures
            match r {
                Some(i) => i < self.nodes@.len() && self.nodes@[i as int].key == key,
                None => !self@.contains_key(key),
            },
    {
        let mut i: usize = 0;
        while i < self.nodes.len()
            invariant
                i <= self.nodes@.len(),
                forall|j: int| 0 <= j < i ==> self.nodes@[j].key != key,
            decreases self.nodes@.len() - i,
        {
            if self.nodes[i].key == key {
                return Some(i);
            }
            i = i + 1;
        }
        proof {
            lemma_nodes_map_contains(self.nodes@, key);
        }
        None
    }

    /// Existence check by type key.
    pub fn contains(&self, key: u64) -> (b: bool)
        ensures
            b == self@.contains_key(key),
    {
        proof {
            lemma_nodes_map_contains(self.nodes@, key);
        }
        match self.index_of(key) {
            Some(_) => true,
            None => false,
        }
    }

    /// Typed lookup: the node stored under `key`, if any.
    pub fn get_node(&self, key: u64) -> (r: Option<&Node<D>>)
        requires
            self.wf(),
        ensures
            match r {
                Some(n) => self@.contains_key(key) && n@ == self@[key] && n.key == key,
                None => !self@.contains_key(key),
            },
    {
        match self.index_of(key) {
            Some(i) => {
                proof {
                    lemma_nodes_map_index(self.nodes@, i as int);
                }
                Some(&self.nodes[i])
            },
            None => None,
        }
    }

    /// Inserts `node` under its own key, unless that key is already bound:
    /// the first registration wins and a duplicate is silently ignored.
    /// Returns the instance identity of the node that occupies the key
    /// after the call, which is the pre-existing one on a duplicate.
    pub fn provide(&mut self, node: Node<D>) -> (r: u64)
        requires
            old(self).wf(),
        ensures
            final(self).wf(),
            old(self)@.contains_key(node.key) ==> final(self)@ == old(self)@ && r == old(
                self,
            )@[node.key].instance,
            !old(self)@.contains_key(node.key) ==> final(self)@ == old(self)@.insert(
                node.key,
                node@,
            ) && r == node.instance,
    {
        match self.index_of(node.key) {
            Some(i) => {
                proof {
                    lemma_nodes_map_index(self.nodes@, i as int);
                }
                self.nodes[i].instance
            },
            None => {
                let inst = node.instance;
                proof {
                    lemma_nodes_map_contains(self.nodes@, node.key);
                    lemma_nodes_map_push(self.nodes@, node);
                }
                self.nodes.push(node);
                inst
            },
        }
    }

    /// A shared handle to the payload stored under `key`, if the key is
    /// bound to a directly provided value.
    pub fn get_ptr(&self, key: u64) -> (r: Option<Arc<D>>)
        requires
            self.wf(),
        ensures
            match r {
                Some(a) => self@.contains_key(key) && self@[key].data == Some(*a),
                None => !self@.contains_key(key) || self@[key].data is None,
            },
    {
        match self.get_node(key) {
            Some(n) => match &n.data {
                Some(a) => Some(Arc::clone(a)),
                None => None,
            },
            None => None,
        }
    }

    /// Scans an ordered list of registries and returns the first node bound
    /// to `key`: the fallback search order of provider resolution.
    pub fn search_all<'a>(graphs: &'a Vec<Self>, key: u64) -> (r: Option<&'a Node<D>>)
        requires
            forall|i: int| 0 <= i < graphs@.len() ==> (#[trigger] graphs@[i]).wf(),
        ensures
            match r {
                Some(n) => first_hit(graph_views(graphs@), key) == Some(n@) && n.key == key,
                None => first_hit(graph_views(graphs@), key) is None,
            },
    {
        let ghost views = graph_views(graphs@);
        let mut i: usize = 0;
        while i < graphs.len()
            invariant
                i <= graphs@.len(),
                views == graph_views(graphs@),
                forall|j: int| 0 <= j < graphs@.len() ==> (#[trigger] graphs@[j]).wf(),
                forall|j: int| 0 <= j < i ==> !(#[trigger] views[j]).contains_key(key),
            decreases graphs@.len() - i,
        {
            proof {
                assert(views[i as int] == graphs@[i as int]@);
            }
            match graphs[i].get_node(key) {
                Some(n) => {
                    proof {
                        lemma_first_hit_skip(views, key, i as int);
                        assert(views.skip(i as int)[0] == views[i as int]);
                    }
                    return Some(n);
                },
                None => {},
            }
            i = i + 1;
        }
        proof {
            lemma_first_hit_skip(views, key, i as int);
            assert(views.skip(i as int) =~= Seq::empty());
        }
        None
    }

    fn duplicate_node(n: &Node<D>) -> (m: Node<D>)
        ensures
            m@ == n@,
            m.key == n.key,
            m.instance == n.instance,
    {
        Node {
            key: n.key,
            instance: n.instance,
            deps: copy_ids(&n.deps),
            data: match &n.data {
                Some(a) => Some(Arc::clone(a)),
                None => None,
            },
        }
    }

    /// A structurally independent copy: the entries are copied, the stored
    /// payloads remain shared.
    pub(crate) fn duplicate(&self) -> (g: Self)
        requires
            self.wf(),
        ensures
            g.wf(),
            g@ == self@,
    {
        let mut out = Self::new();
        let mut i: usize = 0;
        while i < self.nodes.len()
            invariant
                i <= self.nodes@.len(),
                self.wf(),
                out.wf(),
                out@ == nodes_map(self.nodes@.take(i as int)),
            decreases self.nodes@.len() - i,
        {
            let node = Self::duplicate_node(&self.nodes[i]);
            proof {
                lemma_nodes_map_contains(self.nodes@.take(i as int), node.key);
                assert(forall|j: int|
                    0 <= j < i ==> self.nodes@.take(i as int)[j] == self.nodes@[j]);
                assert(!out@.contains_key(node.key));
                assert(self.nodes@.take(i as int).push(self.nodes@[i as int]) =~= self.nodes@.take(
                    i as int + 1,
                ));
                lemma_nodes_map_push(self.nodes@.take(i as int), self.nodes@[i as int]);
            }
            out.provide(node);
            i = i + 1;
        }
        proof {
            assert(self.nodes@.take(i as int) =~= self.nodes@);
        }
        out
    }

    /// A new registry holding exactly the entries of `self` whose key is in
    /// `keys`: computes the export graph of a module. The copied entries
    /// still share their payloads with `self`.
    pub fn filter_by(&self, keys: &Vec<u64>) -> (g: Self)
        requires
            self.wf(),
        ensures
            g.wf(),
            g@ == self@.restrict(keys@.to_set()),
    {
        let ghost kset = keys@.to_set();
        let mut out = Self::new();
        let mut i: usize = 0;
        proof {
            assert(Map::<u64, NodeView<D>>::empty() =~= nodes_map(
                self.nodes@.take(0),
            ).restrict(kset));
        }
        while i < self.nodes.len()
            invariant
                i <= self.nodes@.len(),
                self.wf(),
                out.wf(),
                kset == keys@.to_set(),
                out@ == nodes_map(self.nodes@.take(i as int)).restrict(kset),
            decreases self.nodes@.len() - i,
        {
            let ghost prefix = nodes_map(self.nodes@.take(i as int));
            proof {
                assert(self.nodes@.take(i as int).push(self.nodes@[i as int]) =~= self.nodes@.take(
                    i as int + 1,
                ));
                lemma_nodes_map_push(self.nodes@.take(i as int), self.nodes@[i as int]);
            }
            if contains_id(keys, self.nodes[i].key) {
                let node = Self::duplicate_node(&self.nodes[i]);
                proof {
                    lemma_nodes_map_contains(self.nodes@.take(i as int), node.key);
                    assert(forall|j: int|
                        0 <= j < i ==> self.nodes@.take(i as int)[j] == self.nodes@[j]);
                    assert(!prefix.restrict(kset).contains_key(node.key));
                    assert(prefix.insert(node.key, node@).restrict(kset) =~= prefix.restrict(
                        kset,
                    ).insert(node.key, node@));
                }
                out.provide(node);
            } else {
                proof {
                    assert(prefix.insert(self.nodes@[i as int].key, self.nodes@[i as int]@).restrict(
                        kset,
                    ) =~= prefix.restrict(kset));
                }
            }
            i = i + 1;
        }
        proof {
            assert(self.nodes@.take(i as int) =~= self.nodes@);
        }
        out
    }

    /// Resolves the injectable type described by `inj` to a singleton.
    /// A locally stored node is reused as it stands; otherwise the ordered
    /// fallback registries are searched for a pre-resolved node, which is
    /// reused without being copied into the local registry; otherwise a new
    /// instance is constructed from the resolved dependencies, stored under
    /// the key, and given a fresh instance identity drawn from `counter`.
    /// Resolution is all-or-nothing: on a fault, which names the first type
    /// key that resolves nowhere, the registry and the counter are
    /// unchanged.
    pub fn resolve(&mut self, fallbacks: &Vec<Self>, inj: &InjectSpec, counter: &mut u64) -> (r:
        Result<Handle, BuildError>)
        requires
            old(self).wf(),
            forall|i: int| 0 <= i < fallbacks@.len() ==> (#[trigger] fallbacks@[i]).wf(),
            *old(counter) < u64::MAX,
        ensures
            final(self).wf(),
            *old(counter) <= *final(counter) <= *old(counter) + 1,
            old(self)@.contains_key(inj.key) ==> ({
                &&& final(self)@ == old(self)@
                &&& *final(counter) == *old(counter)
                &&& r == Ok::<Handle, BuildError>(
                    Handle { key: inj.key, instance: old(self)@[inj.key].instance },
                )
            }),
            (!old(self)@.contains_key(inj.key) && first_hit(graph_views(fallbacks@), inj.key)
                is Some) ==> ({
                &&& final(self)@ == old(self)@
                &&& *final(counter) == *old(counter)
                &&& r == Ok::<Handle, BuildError>(
                    Handle {
                        key: inj.key,
                        instance: first_hit(graph_views(fallbacks@), inj.key)->0.instance,
                    },
                )
            }),
            (lookup(old(self)@, graph_views(fallbacks@), inj.key) is None && inj.kind
                is Plain) ==> ({
                &&& final(self)@ == old(self)@
                &&& *final(counter) == *old(counter)
                &&& r == Err::<Handle, BuildError>(BuildError::Unresolved { key: inj.key })
            }),
            (lookup(old(self)@, graph_views(fallbacks@), inj.key) is None && inj.kind is Composite
                && !deps_ok(old(self)@, graph_views(fallbacks@), inj.deps@)) ==> ({
                &&& final(self)@ == old(self)@
                &&& *final(counter) == *old(counter)
                &&& r == Err::<Handle, BuildError>(
                    BuildError::Unresolved {
                        key: first_missing(old(self)@, graph_views(fallbacks@), inj.deps@),
                    },
                )
            }),
            (lookup(old(self)@, graph_views(fallbacks@), inj.key) is None && inj.kind is Composite
                && deps_ok(old(self)@, graph_views(fallbacks@), inj.deps@)) ==> ({
                &&& final(self)@ == old(self)@.insert(
                    inj.key,
                    NodeView {
                        key: inj.key,
                        instance: *old(counter),
                        deps: dep_instances(old(self)@, graph_views(fallbacks@), inj.deps@),
                        data: None,
                    },
                )
                &&& *final(counter) == *old(counter) + 1
                &&& r == Ok::<Handle, BuildError>(Handle { key: inj.key, instance: *old(counter) })
            }),
    {
        let ghost g0 = self@;
        let ghost fbs = graph_views(fallbacks@);
        if let Some(n) = self.get_node(inj.key) {
            return Ok(Handle { key: inj.key, instance: n.instance });
        }
        if let Some(n) = Self::search_all(fallbacks, inj.key) {
            return Ok(Handle { key: inj.key, instance: n.instance });
        }
        match inj.kind {
            InjectKind::Plain => Err(BuildError::Unresolved { key: inj.key }),
            InjectKind::Composite => {
                let mut insts: Vec<u64> = Vec::new();
                let mut i: usize = 0;
                while i < inj.deps.len()
                    invariant
                        i <= inj.deps@.len(),
                        self.wf(),
                        self@ == g0,
                        *counter == *old(counter),
                        *old(counter) < u64::MAX,
                        g0 == old(self)@,
                        !g0.contains_key(inj.key),
                        first_hit(fbs, inj.key) is None,
                        inj.kind is Composite,
                        fbs == graph_views(fallbacks@),
                        forall|j: int| 0 <= j < fallbacks@.len() ==> (#[trigger] fallbacks@[j]).wf(),
                        forall|j: int|
                            0 <= j < i ==> (#[trigger] lookup(g0, fbs, inj.deps@[j])) is Some,
                        insts@ == dep_instances(g0, fbs, inj.deps@).take(i as int),
                    decreases inj.deps@.len() - i,
                {
                    let d = inj.deps[i];
                    let inst_d: u64;
                    match self.get_node(d) {
                        Some(n) => {
                            inst_d = n.instance;
                        },
                        None => {
                            match Self::search_all(fallbacks, d) {
                                Some(n) => {
                                    inst_d = n.instance;
                                },
                                None => {
                                    proof {
                                        assert(lookup(g0, fbs, inj.deps@[i as int]) is None);
                                        assert(!deps_ok(g0, fbs, inj.deps@));
                                        lemma_first_missing_skip(g0, fbs, inj.deps@, i as int);
                                        assert(inj.deps@.skip(i as int)[0] == inj.deps@[i as int]);
                                    }
                                    return Err(BuildError::Unresolved { key: d });
                                },
                            }
                        },
                    }
                    proof {
                        assert(lookup(g0, fbs, inj.deps@[i as int]) is Some);
                        assert(dep_instances(g0, fbs, inj.deps@).take(i as int).push(inst_d)
                            =~= dep_instances(g0, fbs, inj.deps@).take(i as int + 1));
                    }
                    insts.push(inst_d);
                    i = i + 1;
                }
                let inst = *counter;
                *counter = *counter + 1;
                proof {
                    assert(insts@ =~= dep_instances(g0, fbs, inj.deps@));
                }
                let node = Node { key: inj.key, instance: inst, deps: insts, data: None };
                proof {
                    assert(node@ == NodeView {
                        key: inj.key,
                        instance: inst,
                        deps: dep_instances(g0, fbs, inj.deps@),
                        data: None::<D>,
                    });
                }
                self.provide(node);
                Ok(Handle { key: inj.key, instance: inst })
            },
        }
    }
}

fn copy_ids(v: &Vec<u64>) -> (r: Vec<u64>)
    ensures
        r@ == v@,
{
    let mut r: Vec<u64> = Vec::new();
    let mut i: usize = 0;
    while i < v.len()
        invariant
            i <= v@.len(),
            r@ == v@.take(i as int),
        decreases v@.len() - i,
    {
        r.push(v[i]);
        proof {
            assert(v@.take(i as int).push(v@[i as int]) =~= v@.take(i as int + 1));
        }
        i = i + 1;
    }
    proof {
        assert(v@.take(i as int) =~= v@);
    }
    r
}

/// Whether `keys` holds `k`: membership in the declared export set.
pub(crate) fn contains_id(keys: &Vec<u64>, k: u64) -> (b: bool)
    ensures
        b == keys@.to_set().contains(k),
{
    let mut i: usize = 0;
    while i < keys.len()
        invariant
            i <= keys@.len(),
            forall|j: int| 0 <= j < i ==> keys@[j] != k,
        decreases keys@.len() - i,
    {
        if keys[i] == k {
            proof {
                assert(keys@.contains(k));
            }
            return true;
        }
        i = i + 1;
    }
    proof {
        assert(!keys@.contains(k));
    }
    false
}

} // verus!
