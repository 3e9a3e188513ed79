//! Module composition and the build algorithm.
//!
//! A [`Module`] is a declarative description of one unit of the object
//! graph: the modules it imports, the plain values it provides directly,
//! the provider and consumer types it declares, and the set of type keys it
//! exports. Building a module against a [`Context`] runs five phases in a
//! fixed order — imports, values, providers, consumers, export — and yields
//! an immutable [`ResolvedModule`]. The context caches resolved modules by
//! factory key, so a module imported along several paths (a diamond) is
//! built exactly once and every importer holds the identical instance.
//!
//! A module description is a finite value — an import tree with sharing
//! expressed through factory keys — so a cyclic import structure cannot
//! be declared, and every build terminates.

use crate::graph::{
    dep_instances, deps_ok, first_hit, first_missing, graph_views, BuildError, Graph,
    Handle, InjectSpec, InjectView, Node, NodeView, Value,
};
use std::sync::Arc;
use vstd::prelude::*;

verus! {

/// One declared import: the factory key the imported module is identified
/// by for deduplication, and the module description to build when no module
/// is cached under that key yet.
pub struct Import<D> {
    pub key: u64,
    pub factory: Module<D>,
}

/// A declarative module description, consumed exactly once by
/// [`Module::build`].
pub struct Module<D> {
    exported_providers: Vec<u64>,
    entities: Vec<u64>,
    imports: Vec<Import<D>>,
    provider_values: Vec<Value<D>>,
    providers: Vec<InjectSpec>,
    controllers: Vec<InjectSpec>,
}

/// The views of a sequence of resolution recipes, in order.
pub open spec fn inject_views(specs: Seq<InjectSpec>) -> Seq<InjectView> {
    specs.map_values(|s: InjectSpec| s@)
}

impl<D> Module<D> {
    /// The declared export type keys, in declaration order.
    pub closed spec fn spec_exports(&self) -> Seq<u64> {
        self.exported_providers@
    }

    /// Every entity key ever registered with this builder.
    pub closed spec fn spec_entities(&self) -> Seq<u64> {
        self.entities@
    }

    /// The declared imports, in declaration order.
    pub closed spec fn spec_imports(&self) -> Seq<Import<D>> {
        self.imports@
    }

    /// The directly provided values, in declaration order.
    pub closed spec fn spec_values(&self) -> Seq<Value<D>> {
        self.provider_values@
    }

    /// The declared provider recipes, in declaration order.
    pub closed spec fn spec_providers(&self) -> Seq<InjectView> {
        inject_views(self.providers@)
    }

    /// The declared consumer recipes, in declaration order.
    pub closed spec fn spec_controllers(&self) -> Seq<InjectView> {
        inject_views(self.controllers@)
    }

    /// An empty module description.
    pub fn new() -> (m: Self)
        ensures
            m.spec_exports() == Seq::<u64>::empty(),
            m.spec_entities() == Seq::<u64>::empty(),
            m.spec_imports() == Seq::<Import<D>>::empty(),
            m.spec_values() == Seq::<Value<D>>::empty(),
            m.spec_providers() == Seq::<InjectView>::empty(),
            m.spec_controllers() == Seq::<InjectView>::empty(),
    {
        Module {
            exported_providers: Vec::new(),
            entities: Vec::new(),
            imports: Vec::new(),
            provider_values: Vec::new(),
            providers: Vec::new(),
            controllers: Vec::new(),
        }
    }

    /// Declares an import: on build, the module cached under `key` is
    /// attached, and `factory` is built only when none is cached yet.
    pub fn import(self, key: u64, factory: Module<D>) -> (m: Self)
        ensures
            m.spec_imports() == self.spec_imports().push(Import { key, factory }),
            m.spec_exports() == self.spec_exports(),
            m.spec_entities() == self.spec_entities(),
            m.spec_values() == self.spec_values(),
            m.spec_providers() == self.spec_providers(),
            m.spec_controllers() == self.spec_controllers(),
    {
        let mut m = self;
        m.imports.push(Import { key, factory });
        m
    }

    /// Declares the provider registered under `key` as exported.
    pub fn export(self, key: u64) -> (m: Self)
        ensures
            m.spec_exports() == self.spec_exports().push(key),
            m.spec_entities() == self.spec_entities(),
            m.spec_imports() == self.spec_imports(),
            m.spec_values() == self.spec_values(),
            m.spec_providers() == self.spec_providers(),
            m.spec_controllers() == self.spec_controllers(),
    {
        let mut m = self;
        m.exported_providers.push(key);
        m
    }

    /// Declares a directly provided value as exported, keyed by its tag.
    pub fn export_val(self, val: &Value<D>) -> (m: Self)
        ensures
            m.spec_exports() == self.spec_exports().push(val.key),
            m.spec_entities() == self.spec_entities(),
            m.spec_imports() == self.spec_imports(),
            m.spec_values() == self.spec_values(),
            m.spec_providers() == self.spec_providers(),
            m.spec_controllers() == self.spec_controllers(),
    {
        let mut m = self;
        m.exported_providers.push(val.key);
        m
    }

    /// Registers an externally constructed value to be stored directly
    /// under its tag during the value phase, bypassing resolution.
    pub fn provide_value(self, t: Value<D>) -> (m: Self)
        ensures
            m.spec_values() == self.spec_values().push(t),
            m.spec_entities() == self.spec_entities().push(t.key),
            m.spec_exports() == self.spec_exports(),
            m.spec_imports() == self.spec_imports(),
            m.spec_providers() == self.spec_providers(),
            m.spec_controllers() == self.spec_controllers(),
    {
        let mut m = self;
        m.entities.push(t.key);
        m.provider_values.push(t);
        m
    }

    /// Declares a provider type, described by its resolution recipe, to be
    /// resolved during the provider phase.
    pub fn provide(self, inj: InjectSpec) -> (m: Self)
        ensures
            m.spec_providers() == self.spec_providers().push(inj@),
            m.spec_entities() == self.spec_entities().push(inj.key),
            m.spec_exports() == self.spec_exports(),
            m.spec_imports() == self.spec_imports(),
            m.spec_values() == self.spec_values(),
            m.spec_controllers() == self.spec_controllers(),
    {
        let mut m = self;
        m.entities.push(inj.key);
        proof {
            assert(inject_views(m.providers@.push(inj)) =~= inject_views(m.providers@).push(inj@));
        }
        m.providers.push(inj);
        m
    }

    /// Declares a consumer type: resolved exactly as a provider, and the
    /// resolved instance is additionally registered in the consumer list.
    pub fn controller(self, inj: InjectSpec) -> (m: Self)
        ensures
            m.spec_controllers() == self.spec_controllers().push(inj@),
            m.spec_entities() == self.spec_entities().push(inj.key),
            m.spec_exports() == self.spec_exports(),
            m.spec_imports() == self.spec_imports(),
            m.spec_values() == self.spec_values(),
            m.spec_providers() == self.spec_providers(),
    {
        let mut m = self;
        m.entities.push(inj.key);
        proof {
            assert(inject_views(m.controllers@.push(inj)) =~= inject_views(m.controllers@).push(
                inj@,
            ));
        }
        m.controllers.push(inj);
        m
    }
}

/// An upper bound on how many instance identities building `m` can draw:
/// every directly provided value and every declared provider and consumer,
/// over the whole import tree.
pub open spec fn weight<D>(m: Module<D>) -> nat
    decreases m,
{
    m.spec_values().len() + m.spec_providers().len() + m.spec_controllers().len()
        + weight_imports(m.spec_imports())
}

/// The summed weight of a list of imports.
pub open spec fn weight_imports<D>(s: Seq<Import<D>>) -> nat
    decreases s,
{
    if s.len() == 0 {
        0
    } else {
        weight(s[0].factory) + weight_imports(s.drop_first())
    }
}

/// The state the value, provider and consumer phases of one build thread
/// through: the local registry under construction, the consumer handles
/// registered so far, the next fresh instance identity, and the first
/// resolution fault, if one happened.
pub struct PhaseView<D> {
    pub graph: Map<u64, NodeView<D>>,
    pub controllers: Seq<Handle>,
    pub next: u64,
    pub fail: Option<u64>,
}

/// One step of the value phase: a directly provided value is stored under
/// its tag unless the tag is already taken — the first registration wins.
pub open spec fn value_step<D>(ph: PhaseView<D>, v: Value<D>) -> PhaseView<D> {
    if ph.graph.contains_key(v.key) {
        ph
    } else {
        PhaseView {
            graph: ph.graph.insert(
                v.key,
                NodeView { key: v.key, instance: ph.next, deps: Seq::empty(), data: Some(v.value) },
            ),
            controllers: ph.controllers,
            next: (ph.next + 1) as u64,
            fail: ph.fail,
        }
    }
}

/// The value phase: every directly provided value, in declaration order.
pub open spec fn values_run<D>(ph: PhaseView<D>, vals: Seq<Value<D>>) -> PhaseView<D>
    decreases vals.len(),
{
    if vals.len() == 0 {
        ph
    } else {
        values_run(value_step(ph, vals[0]), vals.drop_first())
    }
}

/// One step of the provider or consumer phase, mirroring
/// [`Graph::resolve`]: reuse the local node, else reuse the first fallback
/// node, else construct from the resolved dependencies, else fault. A
/// consumer's resolved handle is additionally registered.
pub open spec fn inject_step<D>(
    ph: PhaseView<D>,
    fbs: Seq<Map<u64, NodeView<D>>>,
    inj: InjectView,
    is_consumer: bool,
) -> PhaseView<D> {
    if ph.fail is Some {
        ph
    } else if ph.graph.contains_key(inj.key) {
        let h = Handle { key: inj.key, instance: ph.graph[inj.key].instance };
        PhaseView {
            graph: ph.graph,
            controllers: if is_consumer {
                ph.controllers.push(h)
            } else {
                ph.controllers
            },
            next: ph.next,
            fail: ph.fail,
        }
    } else if first_hit(fbs, inj.key) is Some {
        let h = Handle { key: inj.key, instance: first_hit(fbs, inj.key)->0.instance };
        PhaseView {
            graph: ph.graph,
            controllers: if is_consumer {
                ph.controllers.push(h)
            } else {
                ph.controllers
            },
            next: ph.next,
            fail: ph.fail,
        }
    } else if inj.kind is Plain {
        PhaseView { graph: ph.graph, controllers: ph.controllers, next: ph.next, fail: Some(inj.key) }
    } else if !deps_ok(ph.graph, fbs, inj.deps) {
        PhaseView {
            graph: ph.graph,
            controllers: ph.controllers,
            next: ph.next,
            fail: Some(first_missing(ph.graph, fbs, inj.deps)),
        }
    } else {
        PhaseView {
            graph: ph.graph.insert(
                inj.key,
                NodeView {
                    key: inj.key,
                    instance: ph.next,
                    deps: dep_instances(ph.graph, fbs, inj.deps),
                    data: None,
                },
            ),
            controllers: if is_consumer {
                ph.controllers.push(Handle { key: inj.key, instance: ph.next })
            } else {
                ph.controllers
            },
            next: (ph.next + 1) as u64,
            fail: ph.fail,
        }
    }
}

/// The provider or consumer phase: every declared recipe, in order,
/// stopping at the first fault.
pub open spec fn injects_run<D>(
    ph: PhaseView<D>,
    fbs: Seq<Map<u64, NodeView<D>>>,
    injs: Seq<InjectView>,
    is_consumer: bool,
) -> PhaseView<D>
    decreases injs.len(),
{
    if injs.len() == 0 {
        ph
    } else {
        injects_run(inject_step(ph, fbs, injs[0], is_consumer), fbs, injs.drop_first(), is_consumer)
    }
}

/// The export registries of the attached imports, in attachment order:
/// together with the global registry these are the fallback registries of
/// provider resolution.
pub open spec fn export_views<D>(s: Seq<Arc<ResolvedModule<D>>>) -> Seq<Map<u64, NodeView<D>>> {
    Seq::new(s.len(), |i: int| (*s[i]).exported_graph@)
}

/// The three local phases of a build, from an empty registry, with `start`
/// the first fresh instance identity.
pub open spec fn local_phases<D>(
    vals: Seq<Value<D>>,
    provs: Seq<InjectView>,
    ctrls: Seq<InjectView>,
    fbs: Seq<Map<u64, NodeView<D>>>,
    start: u64,
) -> PhaseView<D> {
    injects_run(
        injects_run(
            values_run(
                PhaseView {
                    graph: Map::<u64, NodeView<D>>::empty(),
                    controllers: Seq::<Handle>::empty(),
                    next: start,
                    fail: None,
                },
                vals,
            ),
            fbs,
            provs,
            false,
        ),
        fbs,
        ctrls,
        true,
    )
}

proof fn lemma_values_run_snoc<D>(ph: PhaseView<D>, vals: Seq<Value<D>>, v: Value<D>)
    ensures
        values_run(ph, vals.push(v)) == value_step(values_run(ph, vals), v),
    decreases vals.len(),
{
    if vals.len() == 0 {
        reveal_with_fuel(values_run, 2);
        assert(vals.push(v)[0] == v);
        assert(vals.push(v).drop_first() =~= Seq::<Value<D>>::empty());
    } else {
        assert(vals.push(v)[0] == vals[0]);
        assert(vals.push(v).drop_first() =~= vals.drop_first().push(v));
        lemma_values_run_snoc(value_step(ph, vals[0]), vals.drop_first(), v);
    }
}

proof fn lemma_injects_run_snoc<D>(
    ph: PhaseView<D>,
    fbs: Seq<Map<u64, NodeView<D>>>,
    injs: Seq<InjectView>,
    x: InjectView,
    is_consumer: bool,
)
    ensures
        injects_run(ph, fbs, injs.push(x), is_consumer) == inject_step(
            injects_run(ph, fbs, injs, is_consumer),
            fbs,
            x,
            is_consumer,
        ),
    decreases injs.len(),
{
    if injs.len() == 0 {
        reveal_with_fuel(injects_run, 2);
        assert(injs.push(x)[0] == x);
        assert(injs.push(x).drop_first() =~= Seq::<InjectView>::empty());
    } else {
        assert(injs.push(x)[0] == injs[0]);
        assert(injs.push(x).drop_first() =~= injs.drop_first().push(x));
        lemma_injects_run_snoc(
            inject_step(ph, fbs, injs[0], is_consumer),
            fbs,
            injs.drop_first(),
            x,
            is_consumer,
        );
    }
}

proof fn lemma_injects_run_sticky<D>(
    ph: PhaseView<D>,
    fbs: Seq<Map<u64, NodeView<D>>>,
    injs: Seq<InjectView>,
    is_consumer: bool,
)
    requires
        ph.fail is Some,
    ensures
        injects_run(ph, fbs, injs, is_consumer) == ph,
    decreases injs.len(),
{
    if injs.len() > 0 {
        assert(inject_step(ph, fbs, injs[0], is_consumer) == ph);
        lemma_injects_run_sticky(ph, fbs, injs.drop_first(), is_consumer);
    }
}

proof fn lemma_injects_run_split<D>(
    ph: PhaseView<D>,
    fbs: Seq<Map<u64, NodeView<D>>>,
    injs: Seq<InjectView>,
    is_consumer: bool,
    k: int,
)
    requires
        0 <= k <= injs.len(),
    ensures
        injects_run(ph, fbs, injs, is_consumer) == injects_run(
            injects_run(ph, fbs, injs.take(k), is_consumer),
            fbs,
            injs.skip(k),
            is_consumer,
        ),
    decreases k,
{
    if k == 0 {
        assert(injs.take(0) =~= Seq::<InjectView>::empty());
        assert(injs.skip(0) =~= injs);
    } else {
        assert(injs.take(k)[0] == injs[0]);
        assert(injs.take(k).drop_first() =~= injs.drop_first().take(k - 1));
        assert(injs.skip(k) =~= injs.drop_first().skip(k - 1));
        lemma_injects_run_split(
            inject_step(ph, fbs, injs[0], is_consumer),
            fbs,
            injs.drop_first(),
            is_consumer,
            k - 1,
        );
    }
}

/// The immutable result of building a module: its own registry, the
/// resolved modules it imports (shared with every other importer), the
/// filtered export registry, and the handles of its registered consumers.
pub struct ResolvedModule<D> {
    pub graph: Graph<D>,
    pub imported_modules: Vec<Arc<ResolvedModule<D>>>,
    pub imported_keys: Vec<u64>,
    pub exported_graph: Graph<D>,
    pub controllers: Vec<Handle>,
}

/// Well-formedness of a resolved module: both registries are well-formed,
/// recursively for every imported module.
pub open spec fn rm_wf<D>(m: ResolvedModule<D>) -> bool
    decreases m,
{
    &&& m.graph.wf()
    &&& m.exported_graph.wf()
    &&& rm_list_wf(m.imported_modules@)
}

/// Well-formedness of a list of resolved modules.
pub open spec fn rm_list_wf<D>(s: Seq<Arc<ResolvedModule<D>>>) -> bool
    decreases s,
{
    s.len() == 0 || (rm_wf(*s[0]) && rm_list_wf(s.drop_first()))
}

proof fn lemma_rm_list_wf<D>(s: Seq<Arc<ResolvedModule<D>>>)
    ensures
        rm_list_wf(s) <==> (forall|i: int| 0 <= i < s.len() ==> rm_wf(*(#[trigger] s[i]))),
    decreases s.len(),
{
    if s.len() > 0 {
        lemma_rm_list_wf(s.drop_first());
        if rm_list_wf(s) {
            assert forall|i: int| 0 <= i < s.len() implies rm_wf(*(#[trigger] s[i])) by {
                if i > 0 {
                    assert(s.drop_first()[i - 1] == s[i]);
                    assert(rm_wf(*s.drop_first()[i - 1]));
                }
            }
        }
        if forall|i: int| 0 <= i < s.len() ==> rm_wf(*(#[trigger] s[i])) {
            assert(rm_wf(*s[0]));
            assert forall|j: int|
                0 <= j < s.drop_first().len() implies rm_wf(
                *(#[trigger] s.drop_first()[j]),
            ) by {
                assert(s.drop_first()[j] == s[j + 1]);
                assert(rm_wf(*s[j + 1]));
            }
            assert(rm_list_wf(s.drop_first()));
        }
    }
}

impl<D> ResolvedModule<D> {
    /// An empty resolved module, as the build pass starts from.
    pub fn new() -> (m: Self)
        ensures
            m.graph@ == Map::<u64, NodeView<D>>::empty(),
            m.exported_graph@ == Map::<u64, NodeView<D>>::empty(),
            m.imported_modules@ == Seq::<Arc<ResolvedModule<D>>>::empty(),
            m.imported_keys@ == Seq::<u64>::empty(),
            m.controllers@ == Seq::<Handle>::empty(),
            rm_wf(m),
    {
        ResolvedModule {
            graph: Graph::new(),
            imported_modules: Vec::new(),
            imported_keys: Vec::new(),
            exported_graph: Graph::new(),
            controllers: Vec::new(),
        }
    }
}

/// The factory keys of a sequence of declared imports, in order.
pub open spec fn import_keys<D>(s: Seq<Import<D>>) -> Seq<u64> {
    s.map_values(|imp: Import<D>| imp.key)
}

/// Mathematical image of a resolved module. Its attachments are referred
/// to by their factory keys into the build cache, rather than nested.
pub struct RmView<D> {
    pub graph: Map<u64, NodeView<D>>,
    pub exported: Map<u64, NodeView<D>>,
    pub controllers: Seq<Handle>,
    pub import_keys: Seq<u64>,
}

/// The image of a resolved module.
pub open spec fn rm_view<D>(rm: ResolvedModule<D>) -> RmView<D> {
    RmView {
        graph: rm.graph@,
        exported: rm.exported_graph@,
        controllers: rm.controllers@,
        import_keys: rm.imported_keys@,
    }
}

/// The image of a module cache.
pub open spec fn cache_view<D>(c: Map<u64, ResolvedModule<D>>) -> Map<u64, RmView<D>> {
    Map::new(|k: u64| c.contains_key(k), |k: u64| rm_view(c[k]))
}

/// The state one build pass threads through, mathematically: the cache of
/// resolved modules by factory key and the next fresh instance identity.
pub struct BuildState<D> {
    pub cache: Map<u64, RmView<D>>,
    pub next: u64,
}

/// The fallback registries a list of attached factory keys contributes:
/// each attachment's export registry, in attachment order.
pub open spec fn cache_fallbacks<D>(keys: Seq<u64>, cache: Map<u64, RmView<D>>) -> Seq<
    Map<u64, NodeView<D>>,
> {
    Seq::new(keys.len(), |i: int| cache[keys[i]].exported)
}

/// The build pass itself, as a mathematical interpreter: resolve the
/// imports against the cache, then run the local phases against the
/// attachments' export registries and the global registry, then filter the
/// export registry. Yields the built module's image, or the first
/// unresolvable type key, together with the state the pass leaves behind.
pub open spec fn spec_build<D>(
    m: Module<D>,
    st: BuildState<D>,
    global: Map<u64, NodeView<D>>,
) -> (Result<RmView<D>, u64>, BuildState<D>)
    decreases m,
{
    let imported = spec_build_imports(m.spec_imports(), st, global);
    match imported.0 {
        Err(k) => (Err(k), imported.1),
        Ok(u) => {
            let st1 = imported.1;
            let ph = local_phases(
                m.spec_values(),
                m.spec_providers(),
                m.spec_controllers(),
                cache_fallbacks(import_keys(m.spec_imports()), st1.cache).push(global),
                st1.next,
            );
            match ph.fail {
                Some(k) => (Err(k), BuildState { cache: st1.cache, next: ph.next }),
                None => (
                    Ok(
                        RmView {
                            graph: ph.graph,
                            exported: ph.graph.restrict(m.spec_exports().to_set()),
                            controllers: ph.controllers,
                            import_keys: import_keys(m.spec_imports()),
                        },
                    ),
                    BuildState { cache: st1.cache, next: ph.next },
                ),
            }
        },
    }
}

/// The import phase of the interpreter: a key already cached is reused as
/// it stands; otherwise its factory module is built and cached — unless
/// its own subtree registered the key meanwhile, in which case the entry
/// that completed first stays, as everywhere else in the registry.
pub open spec fn spec_build_imports<D>(
    imps: Seq<Import<D>>,
    st: BuildState<D>,
    global: Map<u64, NodeView<D>>,
) -> (Result<(), u64>, BuildState<D>)
    decreases imps,
{
    if imps.len() == 0 {
        (Ok(()), st)
    } else if st.cache.contains_key(imps[0].key) {
        spec_build_imports(imps.drop_first(), st, global)
    } else {
        let built = spec_build(imps[0].factory, st, global);
        match built.0 {
            Err(k) => (Err(k), built.1),
            Ok(v) => {
                let st2 = if built.1.cache.contains_key(imps[0].key) {
                    built.1
                } else {
                    BuildState { cache: built.1.cache.insert(imps[0].key, v), next: built.1.next }
                };
                spec_build_imports(imps.drop_first(), st2, global)
            },
        }
    }
}

/// Every attachment of `rm` is the cache's entry at the corresponding
/// declared factory key.
pub open spec fn rm_linked<D>(rm: ResolvedModule<D>, cache: Map<u64, ResolvedModule<D>>) -> bool {
    &&& rm.imported_keys@.len() == rm.imported_modules@.len()
    &&& forall|i: int|
        0 <= i < rm.imported_modules@.len() ==> cache.contains_key(
            #[trigger] rm.imported_keys@[i],
        ) && *rm.imported_modules@[i] == cache[rm.imported_keys@[i]]
}

/// A named module description: implement this to give a module a
/// constructor that importers can call, one description per factory type.
pub trait ModuleFactory<D>: Sized {
    /// The module this factory describes.
    fn get_module() -> Module<D>;
}

struct CacheEntry<D> {
    key: u64,
    module: Arc<ResolvedModule<D>>,
}

proof fn lemma_cache_insert_linked<D>(c0: Map<u64, ResolvedModule<D>>, key: u64, m: &ResolvedModule<D>)
    requires
        !c0.contains_key(key),
        forall|k: u64| #[trigger] c0.contains_key(k) ==> rm_linked(c0[k], c0),
        rm_linked(*m, c0),
    ensures
        forall|k: u64| #[trigger]
            c0.insert(key, *m).contains_key(k) ==> rm_linked(
                c0.insert(key, *m)[k],
                c0.insert(key, *m),
            ),
{
    let c1 = c0.insert(key, *m);
    assert forall|k: u64| #[trigger] c1.contains_key(k) implies rm_linked(c1[k], c1) by {
        let rm = c1[k];
        if k == key {
            assert(rm_linked(*m, c0));
        } else {
            assert(rm_linked(c0[k], c0));
        }
        assert forall|i: int| 0 <= i < rm.imported_modules@.len() implies c1.contains_key(
            #[trigger] rm.imported_keys@[i],
        ) && *rm.imported_modules@[i] == c1[rm.imported_keys@[i]] by {
            assert(c0.contains_key(rm.imported_keys@[i]));
            assert(rm.imported_keys@[i] != key);
        }
    }
}

/// The state of one build pass: the global provider registry seeded by the
/// host, the cache of already-resolved modules by factory key, and the
/// source of fresh instance identities.
pub struct Context<D> {
    pub global_providers: Graph<D>,
    modules: Vec<CacheEntry<D>>,
    next_instance: u64,
}

spec fn cache_map<D>(s: Seq<CacheEntry<D>>) -> Map<u64, ResolvedModule<D>>
    decreases s.len(),
{
    if s.len() == 0 {
        Map::empty()
    } else {
        cache_map(s.drop_last()).insert(s.last().key, *s.last().module)
    }
}

proof fn lemma_cache_map_contains<D>(s: Seq<CacheEntry<D>>, key: u64)
    ensures
        cache_map(s).contains_key(key) <==> exists|i: int| 0 <= i < s.len() && s[i].key == key,
    decreases s.len(),
{
    if s.len() > 0 {
        lemma_cache_map_contains(s.drop_last(), key);
        if s.last().key == key {
            assert(s[s.len() - 1].key == key);
        } else if cache_map(s).contains_key(key) {
            let i = choose|i: int| 0 <= i < s.drop_last().len() && s.drop_last()[i].key == key;
            assert(s[i].key == key);
        } else if exists|i: int| 0 <= i < s.len() && s[i].key == key {
            let i = choose|i: int| 0 <= i < s.len() && s[i].key == key;
            assert(s.drop_last()[i].key == key);
        }
    }
}

spec fn cache_distinct<D>(s: Seq<CacheEntry<D>>) -> bool {
    forall|i: int, j: int| 0 <= i < j < s.len() ==> s[i].key != s[j].key
}

proof fn lemma_cache_map_index<D>(s: Seq<CacheEntry<D>>, i: int)
    requires
        cache_distinct(s),
        0 <= i < s.len(),
    ensures
        cache_map(s).contains_key(s[i].key),
        cache_map(s)[s[i].key] == *s[i].module,
    decreases s.len(),
{
    if i < s.len() - 1 {
        assert(s.drop_last()[i] == s[i]);
        lemma_cache_map_index(s.drop_last(), i);
        assert(s[s.len() - 1].key != s[i].key);
    }
}

proof fn lemma_cache_map_push<D>(s: Seq<CacheEntry<D>>, e: CacheEntry<D>)
    ensures
        cache_map(s.push(e)) == cache_map(s).insert(e.key, *e.module),
{
    assert(s.push(e).drop_last() =~= s);
    assert(s.push(e).last() == e);
}

impl<D> Context<D> {
    /// The cache of resolved modules, as a map from factory key.
    pub closed spec fn spec_cache(&self) -> Map<u64, ResolvedModule<D>> {
        cache_map(self.modules@)
    }

    /// The next instance identity a construction will receive.
    pub closed spec fn spec_next(&self) -> u64 {
        self.next_instance
    }

    /// The global provider registry.
    pub closed spec fn spec_global(&self) -> Graph<D> {
        self.global_providers
    }

    /// Well-formedness: the cache binds each factory key at most once, to a
    /// well-formed resolved module, and the global registry is well-formed.
    pub closed spec fn wf(&self) -> bool {
        &&& cache_distinct(self.modules@)
        &&& forall|i: int|
            0 <= i < self.modules@.len() ==> rm_wf(*(#[trigger] self.modules@[i]).module)
        &&& forall|k: u64| #[trigger]
            self.spec_cache().contains_key(k) ==> rm_linked(self.spec_cache()[k], self.spec_cache())
        &&& self.global_providers.wf()
    }

    /// The cache and the counter, as the build interpreter sees them.
    pub open spec fn spec_state(&self) -> BuildState<D> {
        BuildState { cache: cache_view(self.spec_cache()), next: self.spec_next() }
    }

    /// A fresh build context over a seeded global provider registry.
    pub fn new(global_providers: Graph<D>) -> (c: Self)
        requires
            global_providers.wf(),
        ensures
            c.wf(),
            c.spec_cache() == Map::<u64, ResolvedModule<D>>::empty(),
            c.spec_next() == 0,
            c.spec_global() == global_providers,
    {
        Context { global_providers, modules: Vec::new(), next_instance: 0 }
    }

    /// How many instance identities this context has handed out.
    pub fn instances_created(&self) -> (n: u64)
        ensures
            n == self.spec_next(),
    {
        self.next_instance
    }

    /// The resolved module cached under `key`, if any, as a shared handle.
    pub fn lookup_module(&self, key: u64) -> (r: Option<Arc<ResolvedModule<D>>>)
        requires
            self.wf(),
        ensures
            match r {
                Some(a) => self.spec_cache().contains_key(key) && *a == self.spec_cache()[key]
                    && rm_wf(*a),
                None => !self.spec_cache().contains_key(key),
            },
    {
        let mut i: usize = 0;
        while i < self.modules.len()
            invariant
                i <= self.modules@.len(),
                self.wf(),
                forall|j: int| 0 <= j < i ==> self.modules@[j].key != key,
            decreases self.modules@.len() - i,
        {
            if self.modules[i].key == key {
                proof {
                    lemma_cache_map_index(self.modules@, i as int);
                }
                return Some(Arc::clone(&self.modules[i].module));
            }
            i = i + 1;
        }
        proof {
            lemma_cache_map_contains(self.modules@, key);
        }
        None
    }

    fn insert_module(&mut self, key: u64, module: Arc<ResolvedModule<D>>)
        requires
            old(self).wf(),
            !old(self).spec_cache().contains_key(key),
            rm_wf(*module),
            rm_linked(*module, old(self).spec_cache()),
        ensures
            final(self).wf(),
            final(self).spec_cache() == old(self).spec_cache().insert(key, *module),
            final(self).spec_next() == old(self).spec_next(),
            final(self).spec_global() == old(self).spec_global(),
    {
        proof {
            lemma_cache_map_contains(self.modules@, key);
            lemma_cache_map_push(self.modules@, CacheEntry { key, module });
            lemma_cache_insert_linked(self.spec_cache(), key, &module);
        }
        self.modules.push(CacheEntry { key, module });
    }
}

impl<D> Module<D> {
    /// Builds this module against `ctx`, consuming the description: the
    /// imports are resolved through the context's cache (a module already
    /// built for a factory key is attached by shared handle, never built
    /// again), then the directly provided values are stored, then the
    /// providers and then the consumers are resolved against the local
    /// registry with the imports' export registries and the global
    /// registry as ordered fallbacks, and finally the export registry is
    /// computed. The result and the state left behind are exactly what
    /// the mathematical interpreter [`spec_build`] yields: the build
    /// succeeds if and only if the interpreter does, and on a fault the
    /// error names the first unresolvable type key and no module is
    /// returned.
    #[verifier::rlimit(80)]
    #[verifier::spinoff_prover]
    pub fn build(self, ctx: &mut Context<D>) -> (r: Result<ResolvedModule<D>, BuildError>)
        requires
            old(ctx).wf(),
            old(ctx).spec_next() + weight(self) <= u64::MAX,
        ensures
            final(ctx).wf(),
            final(ctx).spec_global() == old(ctx).spec_global(),
            old(ctx).spec_next() <= final(ctx).spec_next() <= old(ctx).spec_next() + weight(self),
            forall|k: u64| #[trigger]
                old(ctx).spec_cache().contains_key(k) ==> final(ctx).spec_cache().contains_key(k)
                    && final(ctx).spec_cache()[k] == old(ctx).spec_cache()[k],
            (forall|i: int|
                0 <= i < self.spec_imports().len() ==> old(ctx).spec_cache().contains_key(
                    (#[trigger] self.spec_imports()[i]).key,
                )) ==> final(ctx).spec_cache() == old(ctx).spec_cache() && final(ctx).spec_next()
                <= old(ctx).spec_next() + self.spec_values().len() + self.spec_providers().len()
                + self.spec_controllers().len(),
            ({
                let out = spec_build(
                    self,
                    BuildState {
                        cache: cache_view(old(ctx).spec_cache()),
                        next: old(ctx).spec_next(),
                    },
                    old(ctx).spec_global()@,
                );
                &&& cache_view(final(ctx).spec_cache()) == out.1.cache
                &&& final(ctx).spec_next() == out.1.next
                &&& match r {
                    Ok(rm) => out.0 matches Ok(v) && v == rm_view(rm),
                    Err(e) => out.0 matches Err(k) && e == (BuildError::Unresolved { key: k }),
                }
            }),
            r matches Ok(rm) ==> rm.imported_keys@ == import_keys(self.spec_imports())
                && rm_linked(rm, final(ctx).spec_cache()),
            forall|k: u64| #[trigger]
                final(ctx).spec_cache().contains_key(k) ==> rm_linked(
                    final(ctx).spec_cache()[k],
                    final(ctx).spec_cache(),
                ),
            r matches Ok(rm) ==> rm_wf(rm) && rm.imported_modules@.len()
                == self.spec_imports().len(),
            r matches Ok(rm) ==> forall|i: int|
                0 <= i < rm.imported_modules@.len() ==> ({
                    &&& final(ctx).spec_cache().contains_key(
                        (#[trigger] self.spec_imports()[i]).key,
                    )
                    &&& *rm.imported_modules@[i] == final(ctx).spec_cache()[self.spec_imports()[i].key]
                }),
        decreases self,
    {
        let ghost m0 = self;
        let ghost next0 = ctx.spec_next();
        proof {
            assert(weight(m0) == m0.spec_values().len() + m0.spec_providers().len()
                + m0.spec_controllers().len() + weight_imports(m0.spec_imports()));
        }
        let Module {
            exported_providers,
            entities: _,
            imports,
            provider_values,
            providers,
            controllers,
        } = self;
        let ghost imps = imports@;
        let ghost st0 = old(ctx).spec_state();
        let ghost g0v = old(ctx).spec_global()@;
        proof {
            assert(imps == m0.spec_imports());
        }
        let mut imported_keys: Vec<u64> = Vec::new();
        let mut ki: usize = 0;
        while ki < imports.len()
            invariant
                ki <= imports@.len(),
                imports@ == imps,
                imported_keys@ == import_keys(imps.take(ki as int)),
            decreases imports@.len() - ki,
        {
            proof {
                assert(import_keys(imps.take(ki as int)).push(imps[ki as int].key)
                    =~= import_keys(imps.take(ki as int + 1)));
            }
            imported_keys.push(imports[ki].key);
            ki = ki + 1;
        }
        proof {
            assert(imps.take(imps.len() as int) =~= imps);
        }
        let imported = match build_imports(imports, ctx) {
            Ok(v) => v,
            Err(e) => {
                return Err(e);
            },
        };
        let ghost start = ctx.spec_next();
        let ghost cache1 = ctx.spec_cache();
        let ghost global0 = ctx.spec_global();
        let ghost sti = spec_build_imports(imps, st0, g0v);
        proof {
            assert(cache_view(cache1) == sti.1.cache);
            assert(start == sti.1.next);
            assert forall|jj: int| 0 <= jj < imported@.len() implies rm_wf(
                *(#[trigger] imported@[jj]),
            ) by {
                assert(cache1.contains_key(imps[jj].key));
                assert(*imported@[jj] == cache1[imps[jj].key]);
            }
        }

        // The fallback registries: each import's export registry in
        // attachment order, then the global registry.
        let mut fallbacks: Vec<Graph<D>> = Vec::new();
        let mut i: usize = 0;
        while i < imported.len()
            invariant
                i <= imported@.len(),
                ctx.wf(),
                forall|j: int| 0 <= j < imported@.len() ==> rm_wf(*(#[trigger] imported@[j])),
                fallbacks@.len() == i,
                forall|j: int| 0 <= j < i ==> (#[trigger] fallbacks@[j]).wf(),
                forall|j: int|
                    0 <= j < i ==> (#[trigger] fallbacks@[j])@ == (*imported@[j]).exported_graph@,
            decreases imported@.len() - i,
        {
            let g = imported[i].exported_graph.duplicate();
            fallbacks.push(g);
            i = i + 1;
        }
        fallbacks.push(ctx.global_providers.duplicate());
        let ghost fbs = graph_views(fallbacks@);
        proof {
            assert(fbs =~= export_views(imported@).push(global0@));
            assert forall|jj: int| 0 <= jj < imps.len() implies #[trigger] fbs[jj]
                == sti.1.cache[import_keys(imps)[jj]].exported by {
                assert(*imported@[jj] == cache1[imps[jj].key]);
                assert(cache_view(cache1).contains_key(imps[jj].key));
                assert(cache_view(cache1)[imps[jj].key] == rm_view(cache1[imps[jj].key]));
                assert(import_keys(imps)[jj] == imps[jj].key);
            }
            assert(fbs =~= cache_fallbacks(import_keys(imps), sti.1.cache).push(g0v));
        }

        // Value, provider and consumer phases, against the local registry.
        let ghost vals0 = m0.spec_values();
        let ghost provs = m0.spec_providers();
        let ghost ctrls = m0.spec_controllers();
        let phases = run_local_phases(
            provider_values,
            providers,
            controllers,
            &fallbacks,
            &mut ctx.next_instance,
        );
        let ghost ph = local_phases(vals0, provs, ctrls, fbs, start);
        proof {
            assert(vals0 == m0.spec_values());
            assert(provs == inject_views(providers@));
            assert(ctrls == inject_views(controllers@));
        }
        let (graph, ctrl_handles) = match phases {
            Ok(out) => out,
            Err(e) => {
                proof {
                    assert(ph.fail is Some);
                    assert(e == (BuildError::Unresolved { key: ph.fail->0 }));
                    assert(spec_build(m0, st0, g0v) == (
                        Err::<RmView<D>, u64>(ph.fail->0),
                        BuildState { cache: sti.1.cache, next: ph.next },
                    ));
                    assert(cache_view(ctx.spec_cache()) == sti.1.cache);
                    assert(ctx.spec_next() == ph.next);
                }
                return Err(e);
            },
        };

        // Export phase.
        let exported_graph = graph.filter_by(&exported_providers);
        let rm = ResolvedModule {
            graph,
            imported_modules: imported,
            imported_keys,
            exported_graph,
            controllers: ctrl_handles,
        };
        proof {
            lemma_rm_list_wf(rm.imported_modules@);
            assert forall|jj: int| 0 <= jj < rm.imported_modules@.len() implies ({
                &&& ctx.spec_cache().contains_key((#[trigger] m0.spec_imports()[jj]).key)
                &&& *rm.imported_modules@[jj] == ctx.spec_cache()[m0.spec_imports()[jj].key]
            }) by {
                assert(cache1.contains_key(imps[jj].key));
                assert(*rm.imported_modules@[jj] == cache1[imps[jj].key]);
            }
            assert(exported_providers@ == m0.spec_exports());
            assert(ph.fail is None);
            assert(rm_view(rm) == RmView {
                graph: ph.graph,
                exported: ph.graph.restrict(m0.spec_exports().to_set()),
                controllers: ph.controllers,
                import_keys: import_keys(imps),
            });
            assert(spec_build(m0, st0, g0v) == (
                Ok::<RmView<D>, u64>(rm_view(rm)),
                BuildState { cache: sti.1.cache, next: ph.next },
            ));
            assert(cache_view(ctx.spec_cache()) == sti.1.cache);
            assert(ctx.spec_next() == ph.next);
            assert forall|jj: int| 0 <= jj < rm.imported_modules@.len() implies ctx.spec_cache().contains_key(
                #[trigger] rm.imported_keys@[jj],
            ) && *rm.imported_modules@[jj] == ctx.spec_cache()[rm.imported_keys@[jj]] by {
                assert(rm.imported_keys@[jj] == imps[jj].key);
                assert(cache1.contains_key(imps[jj].key));
                assert(*rm.imported_modules@[jj] == cache1[imps[jj].key]);
            }
        }
        Ok(rm)
    }
}


/// The value, provider and consumer phases of one build, run against the
/// ordered fallback registries, drawing fresh instance identities from
/// `counter`: exactly the fold that [`local_phases`] describes. Succeeds
/// if and only if no resolution step faults, and then yields the local
/// registry and the registered consumer handles.
fn run_local_phases<D>(
    provider_values: Vec<Value<D>>,
    providers: Vec<InjectSpec>,
    controllers: Vec<InjectSpec>,
    fallbacks: &Vec<Graph<D>>,
    counter: &mut u64,
) -> (r: Result<(Graph<D>, Vec<Handle>), BuildError>)
    requires
        forall|i: int| 0 <= i < fallbacks@.len() ==> (#[trigger] fallbacks@[i]).wf(),
        *old(counter) + provider_values@.len() + providers@.len() + controllers@.len()
            <= u64::MAX,
    ensures
        *old(counter) <= *final(counter) <= *old(counter) + provider_values@.len()
            + providers@.len() + controllers@.len(),
        ({
            let ph = local_phases(
                provider_values@,
                inject_views(providers@),
                inject_views(controllers@),
                graph_views(fallbacks@),
                *old(counter),
            );
            match r {
                Ok(out) => {
                    &&& ph.fail is None
                    &&& out.0.wf()
                    &&& out.0@ == ph.graph
                    &&& out.1@ == ph.controllers
                    &&& *final(counter) == ph.next
                },
                Err(e) => ph.fail is Some && e == (BuildError::Unresolved { key: ph.fail->0 })
                    && *final(counter) == ph.next,
            }
        }),
{
    let ghost vals0 = provider_values@;
    let ghost provs = inject_views(providers@);
    let ghost ctrls = inject_views(controllers@);
    let ghost fbs = graph_views(fallbacks@);
    let ghost ph0 = PhaseView {
        graph: Map::<u64, NodeView<D>>::empty(),
        controllers: Seq::<Handle>::empty(),
        next: *counter,
        fail: None::<u64>,
    };

    // Value phase.
    let mut graph = Graph::<D>::new();
    let mut values_left = provider_values;
    let ghost mut p: int = 0;
    while values_left.len() > 0
        invariant
            0 <= p <= vals0.len(),
            vals0 == provider_values@,
            values_left@ == vals0.skip(p),
            graph.wf(),
            fbs == graph_views(fallbacks@),
            *old(counter) + vals0.len() + provs.len() + ctrls.len() <= u64::MAX,
            *old(counter) <= *counter <= *old(counter) + p,
            ph0 == (PhaseView {
                graph: Map::<u64, NodeView<D>>::empty(),
                controllers: Seq::<Handle>::empty(),
                next: *old(counter),
                fail: None::<u64>,
            }),
            values_run(ph0, vals0.take(p)) == (PhaseView {
                graph: graph@,
                controllers: Seq::<Handle>::empty(),
                next: *counter,
                fail: None::<u64>,
            }),
        decreases values_left@.len(),
    {
        proof {
            assert(vals0.skip(p)[0] == vals0[p]);
            assert(vals0.skip(p).remove(0) =~= vals0.skip(p + 1));
            assert(vals0.take(p).push(vals0[p]) =~= vals0.take(p + 1));
            lemma_values_run_snoc(ph0, vals0.take(p), vals0[p]);
        }
        let v = values_left.remove(0);
        let Value { key, value } = v;
        if !graph.contains(key) {
            let inst = *counter;
            *counter = inst + 1;
            let node = Node { key, instance: inst, deps: Vec::new(), data: Some(Arc::new(value)) };
            proof {
                assert(node@ == NodeView {
                    key,
                    instance: inst,
                    deps: Seq::<u64>::empty(),
                    data: Some(value),
                });
            }
            graph.provide(node);
        }
        proof {
            p = p + 1;
        }
    }
    proof {
        assert(vals0.skip(p).len() == 0);
        assert(p == vals0.len());
        assert(vals0.take(p) =~= vals0);
    }
    let ghost after_values = values_run(ph0, vals0);

    // Provider phase.
    let mut j: usize = 0;
    while j < providers.len()
        invariant
            j <= providers@.len(),
            vals0 == provider_values@,
            provs == inject_views(providers@),
            ctrls == inject_views(controllers@),
            graph.wf(),
            fbs == graph_views(fallbacks@),
            forall|k: int| 0 <= k < fallbacks@.len() ==> (#[trigger] fallbacks@[k]).wf(),
            *old(counter) + vals0.len() + provs.len() + ctrls.len() <= u64::MAX,
            *old(counter) <= *counter <= *old(counter) + vals0.len() + j,
            ph0 == (PhaseView {
                graph: Map::<u64, NodeView<D>>::empty(),
                controllers: Seq::<Handle>::empty(),
                next: *old(counter),
                fail: None::<u64>,
            }),
            after_values == values_run(ph0, vals0),
            after_values.controllers == Seq::<Handle>::empty(),
            injects_run(after_values, fbs, provs.take(j as int), false) == (PhaseView {
                graph: graph@,
                controllers: after_values.controllers,
                next: *counter,
                fail: None::<u64>,
            }),
        decreases providers@.len() - j,
    {
        proof {
            assert(provs[j as int] == providers@[j as int]@);
            assert(provs.take(j as int).push(provs[j as int]) =~= provs.take(j as int + 1));
            lemma_injects_run_snoc(after_values, fbs, provs.take(j as int), provs[j as int], false);
        }
        match graph.resolve(fallbacks, &providers[j], counter) {
            Ok(_) => {},
            Err(e) => {
                proof {
                    let failed = inject_step(
                        injects_run(after_values, fbs, provs.take(j as int), false),
                        fbs,
                        provs[j as int],
                        false,
                    );
                    assert(failed.fail is Some);
                    lemma_injects_run_split(after_values, fbs, provs, false, j as int + 1);
                    lemma_injects_run_sticky(failed, fbs, provs.skip(j as int + 1), false);
                    lemma_injects_run_sticky(failed, fbs, ctrls, true);
                }
                return Err(e);
            },
        }
        j = j + 1;
    }
    proof {
        assert(provs.take(providers@.len() as int) =~= provs);
    }
    let ghost after_provs = injects_run(after_values, fbs, provs, false);

    // Consumer phase: identical resolution order, and the resolved handle
    // is additionally registered.
    let mut ctrl_handles: Vec<Handle> = Vec::new();
    let mut c: usize = 0;
    while c < controllers.len()
        invariant
            c <= controllers@.len(),
            vals0 == provider_values@,
            provs == inject_views(providers@),
            ctrls == inject_views(controllers@),
            graph.wf(),
            fbs == graph_views(fallbacks@),
            forall|k: int| 0 <= k < fallbacks@.len() ==> (#[trigger] fallbacks@[k]).wf(),
            *old(counter) + vals0.len() + provs.len() + ctrls.len() <= u64::MAX,
            *old(counter) <= *counter <= *old(counter) + vals0.len() + provs.len() + c,
            ph0 == (PhaseView {
                graph: Map::<u64, NodeView<D>>::empty(),
                controllers: Seq::<Handle>::empty(),
                next: *old(counter),
                fail: None::<u64>,
            }),
            after_values == values_run(ph0, vals0),
            after_provs == injects_run(after_values, fbs, provs, false),
            after_provs.fail is None,
            injects_run(after_provs, fbs, ctrls.take(c as int), true) == (PhaseView {
                graph: graph@,
                controllers: after_provs.controllers.add(ctrl_handles@),
                next: *counter,
                fail: None::<u64>,
            }),
        decreases controllers@.len() - c,
    {
        proof {
            assert(ctrls[c as int] == controllers@[c as int]@);
            assert(ctrls.take(c as int).push(ctrls[c as int]) =~= ctrls.take(c as int + 1));
            lemma_injects_run_snoc(after_provs, fbs, ctrls.take(c as int), ctrls[c as int], true);
        }
        match graph.resolve(fallbacks, &controllers[c], counter) {
            Err(e) => {
                proof {
                    let failed = inject_step(
                        injects_run(after_provs, fbs, ctrls.take(c as int), true),
                        fbs,
                        ctrls[c as int],
                        true,
                    );
                    assert(failed.fail is Some);
                    lemma_injects_run_split(after_provs, fbs, ctrls, true, c as int + 1);
                    lemma_injects_run_sticky(failed, fbs, ctrls.skip(c as int + 1), true);
                }
                return Err(e);
            },
            Ok(h) => {
                ctrl_handles.push(h);
                proof {
                    assert(after_provs.controllers.add(ctrl_handles@)
                        =~= after_provs.controllers.add(ctrl_handles@.drop_last()).push(
                        ctrl_handles@.last(),
                    ));
                }
            },
        }
        c = c + 1;
    }
    proof {
        assert(ctrls.take(controllers@.len() as int) =~= ctrls);
        assert(injects_run(after_provs, fbs, ctrls, true).controllers =~= ctrl_handles@);
    }
    Ok((graph, ctrl_handles))
}

/// The import phase: resolves each declared import in order, against the
/// context's module cache. A cache hit attaches the cached module by
/// shared handle and builds nothing — the counter and the cache are left
/// exactly as they were, which is what makes a diamond import construct
/// its shared module only once. A cache miss builds the import's factory
/// module recursively and caches it. Cached entries are never overwritten.
fn build_imports<D>(imports: Vec<Import<D>>, ctx: &mut Context<D>) -> (r: Result<
    Vec<Arc<ResolvedModule<D>>>,
    BuildError,
>)
    requires
        old(ctx).wf(),
        old(ctx).spec_next() + weight_imports(imports@) <= u64::MAX,
    ensures
        final(ctx).wf(),
        final(ctx).spec_global() == old(ctx).spec_global(),
        old(ctx).spec_next() <= final(ctx).spec_next() <= old(ctx).spec_next() + weight_imports(
            imports@,
        ),
        forall|k: u64| #[trigger]
            old(ctx).spec_cache().contains_key(k) ==> final(ctx).spec_cache().contains_key(k)
                && final(ctx).spec_cache()[k] == old(ctx).spec_cache()[k],
        (forall|i: int|
            0 <= i < imports@.len() ==> old(ctx).spec_cache().contains_key(
                (#[trigger] imports@[i]).key,
            )) ==> final(ctx).spec_cache() == old(ctx).spec_cache() && final(ctx).spec_next()
            == old(ctx).spec_next(),
        imports@.len() == 0 ==> r is Ok,
        ({
            let out = spec_build_imports(
                imports@,
                BuildState { cache: cache_view(old(ctx).spec_cache()), next: old(ctx).spec_next() },
                old(ctx).spec_global()@,
            );
            &&& cache_view(final(ctx).spec_cache()) == out.1.cache
            &&& final(ctx).spec_next() == out.1.next
            &&& match r {
                Ok(v) => out.0 is Ok,
                Err(e) => out.0 matches Err(k) && e == (BuildError::Unresolved { key: k }),
            }
        }),
        r matches Ok(v) ==> ({
            &&& v@.len() == imports@.len()
            &&& forall|i: int|
                0 <= i < v@.len() ==> ({
                    &&& final(ctx).spec_cache().contains_key((#[trigger] imports@[i]).key)
                    &&& *v@[i] == final(ctx).spec_cache()[imports@[i].key]
                    &&& rm_wf(*v@[i])
                })
        }),
    decreases imports@,
{
    let ghost imports0 = imports@;
    let ghost st0 = old(ctx).spec_state();
    let ghost g0v = old(ctx).spec_global()@;
    if imports.len() == 0 {
        return Ok(Vec::new());
    }
    let mut imports = imports;
    let imp = imports.remove(0);
    proof {
        assert(imp == imports0[0]);
        assert(imports0.drop_first() =~= imports@);
    }
    let ghost child = spec_build(imports0[0].factory, st0, g0v);
    let first: Arc<ResolvedModule<D>>;
    match ctx.lookup_module(imp.key) {
        Some(cached) => {
            proof {
                assert(st0.cache.contains_key(imp.key));
            }
            first = cached;
        },
        None => {
            proof {
                assert(!st0.cache.contains_key(imp.key));
            }
            let built = match imp.factory.build(ctx) {
                Ok(b) => b,
                Err(e) => {
                    proof {
                        assert(child.0 matches Err(k) && e == (BuildError::Unresolved { key: k }));
                        assert(spec_build_imports(imports0, st0, g0v) == (
                            Err::<(), u64>(child.0->Err_0),
                            child.1,
                        ));
                        assert(cache_view(ctx.spec_cache()) == child.1.cache);
                        assert(ctx.spec_next() == child.1.next);
                    }
                    return Err(e);
                },
            };
            proof {
                assert(child.0 matches Ok(v) && v == rm_view(built));
                assert(cache_view(ctx.spec_cache()) == child.1.cache);
            }
            match ctx.lookup_module(imp.key) {
                Some(cached) => {
                    // The import's own subtree already registered this
                    // factory key: the entry that completed first wins,
                    // as everywhere else in the registry.
                    proof {
                        assert(child.1.cache.contains_key(imp.key));
                    }
                    first = cached;
                },
                None => {
                    proof {
                        assert(!child.1.cache.contains_key(imp.key));
                        assert(rm_linked(built, ctx.spec_cache()));
                    }
                    let arc = Arc::new(built);
                    ctx.insert_module(imp.key, Arc::clone(&arc));
                    proof {
                        assert(cache_view(ctx.spec_cache()) =~= child.1.cache.insert(
                            imp.key,
                            child.0->Ok_0,
                        ));
                    }
                    first = arc;
                },
            }
        },
    }
    let ghost mid_cache = ctx.spec_cache();
    let ghost st_mid = BuildState { cache: cache_view(mid_cache), next: ctx.spec_next() };
    proof {
        assert(spec_build_imports(imports0, st0, g0v) == spec_build_imports(
            imports0.drop_first(),
            st_mid,
            g0v,
        ));
    }
    proof {
        if forall|i: int|
            0 <= i < imports0.len() ==> old(ctx).spec_cache().contains_key(
                (#[trigger] imports0[i]).key,
            ) {
            assert(old(ctx).spec_cache().contains_key(imports0[0].key));
            assert forall|i: int|
                0 <= i < imports@.len() implies ctx.spec_cache().contains_key(
                (#[trigger] imports@[i]).key,
            ) by {
                assert(imports@[i] == imports0[i + 1]);
                assert(old(ctx).spec_cache().contains_key(imports0[i + 1].key));
            }
        }
    }
    let rest = match build_imports(imports, ctx) {
        Ok(v) => v,
        Err(e) => {
            proof {
                assert forall|k: u64| #[trigger]
                    old(ctx).spec_cache().contains_key(k) implies ctx.spec_cache().contains_key(k)
                    && ctx.spec_cache()[k] == old(ctx).spec_cache()[k] by {
                    assert(mid_cache.contains_key(k) && mid_cache[k] == old(
                        ctx,
                    ).spec_cache()[k]);
                }
                assert(spec_build_imports(imports@, st_mid, g0v) == spec_build_imports(
                    imports0.drop_first(),
                    st_mid,
                    g0v,
                ));
            }
            return Err(e);
        },
    };
    proof {
        assert(spec_build_imports(imports@, st_mid, g0v) == spec_build_imports(
            imports0.drop_first(),
            st_mid,
            g0v,
        ));
    }
    let mut out: Vec<Arc<ResolvedModule<D>>> = Vec::new();
    let ghost first0 = first;
    out.push(first);
    let mut rest = rest;
    let ghost rest0 = rest@;
    out.append(&mut rest);
    proof {
        assert forall|k: u64| #[trigger]
            old(ctx).spec_cache().contains_key(k) implies ctx.spec_cache().contains_key(k)
            && ctx.spec_cache()[k] == old(ctx).spec_cache()[k] by {
            assert(mid_cache.contains_key(k) && mid_cache[k] == old(ctx).spec_cache()[k]);
        }
        assert(out@ =~= seq![first0].add(rest0));
        assert(mid_cache.contains_key(imports0[0].key));
        assert(*first0 == mid_cache[imports0[0].key]);
        assert forall|i: int| 0 <= i < out@.len() implies ({
            &&& final(ctx).spec_cache().contains_key((#[trigger] imports0[i]).key)
            &&& *out@[i] == final(ctx).spec_cache()[imports0[i].key]
            &&& rm_wf(*out@[i])
        }) by {
            if i == 0 {
                assert(out@[0] == first0);
            } else {
                assert(out@[i] == rest0[i - 1]);
                assert(imports0.drop_first()[i - 1] == imports0[i]);
            }
        }
    }
    Ok(out)
}


/// Every consumer handle reachable from `m`, walked naively: its own
/// registered consumers in registration order, then, recursively, those of
/// each imported module in attachment order. A module attached along
/// several import paths is visited once per attachment here; the
/// registration list a host receives is this walk with the repeats
/// removed, see [`registration_list`].
pub open spec fn controllers_of<D>(m: ResolvedModule<D>) -> Seq<Handle>
    decreases m,
{
    m.controllers@ + controllers_of_list(m.imported_modules@)
}

/// The consumer handles of a list of resolved modules, in order.
pub open spec fn controllers_of_list<D>(s: Seq<Arc<ResolvedModule<D>>>) -> Seq<Handle>
    decreases s,
{
    if s.len() == 0 {
        Seq::empty()
    } else {
        controllers_of(*s[0]) + controllers_of_list(s.drop_first())
    }
}

proof fn lemma_controllers_of_list_snoc<D>(s: Seq<Arc<ResolvedModule<D>>>, x: Arc<ResolvedModule<D>>)
    ensures
        controllers_of_list(s.push(x)) == controllers_of_list(s) + controllers_of(*x),
    decreases s.len(),
{
    if s.len() == 0 {
        reveal_with_fuel(controllers_of_list, 2);
        assert(s.push(x)[0] == x);
        assert(s.push(x).drop_first() =~= Seq::<Arc<ResolvedModule<D>>>::empty());
        assert(controllers_of_list(s.push(x)) =~= controllers_of_list(s) + controllers_of(*x));
    } else {
        assert(s.push(x)[0] == s[0]);
        assert(s.push(x).drop_first() =~= s.drop_first().push(x));
        lemma_controllers_of_list_snoc(s.drop_first(), x);
        assert(controllers_of_list(s.push(x)) =~= controllers_of_list(s) + controllers_of(*x));
    }
}

/// A handle sequence with the repeats removed: the first handle of each
/// instance identity is kept, in walk order; later handles of an already
/// listed instance are dropped. `seen` holds the instance identities
/// already listed.
pub open spec fn dedup_by_instance(s: Seq<Handle>, seen: Set<u64>) -> Seq<Handle>
    decreases s.len(),
{
    if s.len() == 0 {
        Seq::empty()
    } else if seen.contains(s[0].instance) {
        dedup_by_instance(s.drop_first(), seen)
    } else {
        seq![s[0]] + dedup_by_instance(s.drop_first(), seen.insert(s[0].instance))
    }
}

/// The registration list of a resolved module: every consumer instance
/// reachable through the import tree, each exactly once, however many
/// import paths lead to its module.
pub open spec fn registration_list<D>(m: ResolvedModule<D>) -> Seq<Handle> {
    dedup_by_instance(controllers_of(m), Set::empty())
}

impl<D> ResolvedModule<D> {
    fn walk_controllers(&self) -> (r: Vec<Handle>)
        ensures
            r@ == controllers_of(*self),
        decreases *self,
    {
        let mut out: Vec<Handle> = Vec::new();
        let mut i: usize = 0;
        while i < self.controllers.len()
            invariant
                i <= self.controllers@.len(),
                out@ == self.controllers@.take(i as int),
            decreases self.controllers@.len() - i,
        {
            out.push(self.controllers[i]);
            proof {
                assert(self.controllers@.take(i as int).push(self.controllers@[i as int])
                    =~= self.controllers@.take(i as int + 1));
            }
            i = i + 1;
        }
        proof {
            assert(self.controllers@.take(i as int) =~= self.controllers@);
        }
        let mut j: usize = 0;
        while j < self.imported_modules.len()
            invariant
                j <= self.imported_modules@.len(),
                out@ == self.controllers@ + controllers_of_list(self.imported_modules@.take(j as int)),
            decreases self.imported_modules@.len() - j,
        {
            let mut sub = self.imported_modules[j].walk_controllers();
            proof {
                assert(self.imported_modules@.take(j as int).push(self.imported_modules@[j as int])
                    =~= self.imported_modules@.take(j as int + 1));
                lemma_controllers_of_list_snoc(
                    self.imported_modules@.take(j as int),
                    self.imported_modules@[j as int],
                );
            }
            out.append(&mut sub);
            j = j + 1;
        }
        proof {
            assert(self.imported_modules@.take(j as int) =~= self.imported_modules@);
        }
        out
    }

    /// Collects every consumer of this module and, recursively, of every
    /// imported module, for the hosting application to register: each
    /// resolved consumer instance is listed at most once, even when its
    /// module is attached along several import paths.
    pub fn all_controllers(&self) -> (r: Vec<Handle>)
        ensures
            r@ == registration_list(*self),
    {
        let raw = self.walk_controllers();
        let ghost raw0 = raw@;
        let mut out: Vec<Handle> = Vec::new();
        let mut seen: Vec<u64> = Vec::new();
        let mut i: usize = 0;
        proof {
            assert(raw0.skip(0) =~= raw0);
            assert(Seq::<Handle>::empty() + dedup_by_instance(raw0, Seq::<u64>::empty().to_set())
                =~= dedup_by_instance(raw0, Seq::<u64>::empty().to_set()));
            assert(Seq::<u64>::empty().to_set() =~= Set::<u64>::empty());
        }
        while i < raw.len()
            invariant
                i <= raw0.len(),
                raw@ == raw0,
                dedup_by_instance(raw0, Set::empty()) == out@ + dedup_by_instance(
                    raw0.skip(i as int),
                    seen@.to_set(),
                ),
            decreases raw0.len() - i,
        {
            let h = raw[i];
            proof {
                assert(raw0.skip(i as int)[0] == raw0[i as int]);
                assert(raw0.skip(i as int).drop_first() =~= raw0.skip(i as int + 1));
            }
            if !crate::graph::contains_id(&seen, h.instance) {
                let ghost out0 = out@;
                let ghost seen0 = seen@;
                out.push(h);
                seen.push(h.instance);
                proof {
                    seen0.lemma_push_to_set_commute(h.instance);
                    assert((out0 + seq![h]) + dedup_by_instance(
                        raw0.skip(i as int + 1),
                        seen0.to_set().insert(h.instance),
                    ) =~= out0 + (seq![h] + dedup_by_instance(
                        raw0.skip(i as int + 1),
                        seen0.to_set().insert(h.instance),
                    )));
                }
            }
            i = i + 1;
        }
        proof {
            assert(raw0.skip(i as int) =~= Seq::<Handle>::empty());
            assert(out@ + Seq::<Handle>::empty() =~= out@);
        }
        out
    }
}

impl<D> Module<D> {
    /// The weight of this module, checked against the machine limit: the
    /// number of instance identities a build of it may draw at most. `None`
    /// when that number does not fit in a counter, in which case the module
    /// cannot be built.
    pub fn checked_weight(&self) -> (r: Option<u64>)
        ensures
            match r {
                Some(w) => w == weight(*self),
                None => weight(*self) > u64::MAX,
            },
        decreases *self,
    {
        proof {
            assert(self.imports@.skip(0) =~= self.imports@);
            assert(self.spec_providers().len() == self.providers@.len());
            assert(self.spec_controllers().len() == self.controllers@.len());
            assert(weight(*self) == self.provider_values@.len() + self.providers@.len()
                + self.controllers@.len() + weight_imports(self.imports@));
        }
        let locals = match (self.provider_values.len() as u64).checked_add(
            self.providers.len() as u64,
        ) {
            Some(a) => match a.checked_add(self.controllers.len() as u64) {
                Some(b) => b,
                None => {
                    return None;
                },
            },
            None => {
                return None;
            },
        };
        match imports_weight_from(&self.imports, 0) {
            Some(w) => locals.checked_add(w),
            None => None,
        }
    }
}

fn imports_weight_from<D>(imports: &Vec<Import<D>>, i: usize) -> (r: Option<u64>)
    requires
        i <= imports@.len(),
    ensures
        match r {
            Some(w) => w == weight_imports(imports@.skip(i as int)),
            None => weight_imports(imports@.skip(i as int)) > u64::MAX,
        },
    decreases imports@, imports@.len() - i,
{
    if i == imports.len() {
        proof {
            assert(imports@.skip(i as int) =~= Seq::<Import<D>>::empty());
        }
        return Some(0);
    }
    proof {
        assert(imports@.skip(i as int)[0] == imports@[i as int]);
        assert(imports@.skip(i as int).drop_first() =~= imports@.skip(i as int + 1));
    }
    let head = match imports[i].factory.checked_weight() {
        Some(w) => w,
        None => {
            return None;
        },
    };
    let rest = match imports_weight_from(imports, i + 1) {
        Some(w) => w,
        None => {
            return None;
        },
    };
    head.checked_add(rest)
}

} // verus!
