//! The properties the container guarantees, stated and proved over the
//! same specification functions that the executable contracts use.

use crate::graph::{deps_ok, first_hit, Handle, InjectView, NodeView, Value};
use crate::module::{dedup_by_instance, inject_step, value_step, PhaseView, ResolvedModule};
use vstd::prelude::*;

verus! {

/// The handle one resolution step yields, when it succeeds: exactly what
/// [`crate::graph::Graph::resolve`] promises to return — the local node's
/// instance, else the first fallback node's instance, else the freshly
/// constructed instance.
pub open spec fn step_handle<D>(
    ph: PhaseView<D>,
    fbs: Seq<Map<u64, NodeView<D>>>,
    inj: InjectView,
) -> Option<Handle> {
    if ph.graph.contains_key(inj.key) {
        Some(Handle { key: inj.key, instance: ph.graph[inj.key].instance })
    } else if first_hit(fbs, inj.key) is Some {
        Some(Handle { key: inj.key, instance: first_hit(fbs, inj.key)->0.instance })
    } else if inj.kind is Composite && deps_ok(ph.graph, fbs, inj.deps) {
        Some(Handle { key: inj.key, instance: ph.next })
    } else {
        None
    }
}

/// Idempotence: providing a value under an already-provided tag changes
/// nothing, whatever the second value is — the first registration wins,
/// for every tag and every pair of values.
pub proof fn lemma_provide_first_wins<D>(ph: PhaseView<D>, v1: Value<D>, v2: Value<D>)
    requires
        v2.key == v1.key,
    ensures
        value_step(value_step(ph, v1), v2) == value_step(ph, v1),
{
}

/// Singleton sharing: resolving a provider type a second time, from the
/// same registry and the same fallbacks, constructs nothing — the registry
/// and the instance counter are left as they were — and hands out a handle
/// to the identical underlying instance.
pub proof fn lemma_singleton_sharing<D>(
    ph: PhaseView<D>,
    fbs: Seq<Map<u64, NodeView<D>>>,
    inj: InjectView,
    is_consumer: bool,
)
    requires
        ph.fail is None,
        step_handle(ph, fbs, inj) is Some,
    ensures
        ({
            let ph1 = inject_step(ph, fbs, inj, is_consumer);
            &&& ph1.fail is None
            &&& inject_step(ph1, fbs, inj, false).graph == ph1.graph
            &&& inject_step(ph1, fbs, inj, false).next == ph1.next
            &&& step_handle(ph1, fbs, inj) == step_handle(ph, fbs, inj)
        }),
{
}

/// Diamond-import dedup: wherever two resolved modules attached an import
/// under the same factory key out of one build context, they attached the
/// identical resolved module — [`crate::module::Module::build`] guarantees
/// the hypotheses for every attachment.
pub proof fn lemma_diamond_dedup<D>(
    cache: Map<u64, ResolvedModule<D>>,
    a: ResolvedModule<D>,
    b: ResolvedModule<D>,
    i: int,
    j: int,
    key: u64,
)
    requires
        0 <= i < a.imported_modules@.len(),
        0 <= j < b.imported_modules@.len(),
        cache.contains_key(key),
        *a.imported_modules@[i] == cache[key],
        *b.imported_modules@[j] == cache[key],
    ensures
        *a.imported_modules@[i] == *b.imported_modules@[j],
{
}

/// Export filtering: the export registry holds a type exactly when the
/// module's own registry holds it and it was declared exported — and then
/// it holds the very same node, for every partition of provided types into
/// exported and private ones.
pub proof fn lemma_export_filtering<D>(g: Map<u64, NodeView<D>>, exports: Set<u64>, key: u64)
    ensures
        g.restrict(exports).contains_key(key) <==> g.contains_key(key) && exports.contains(key),
        g.restrict(exports).contains_key(key) ==> g.restrict(exports)[key] == g[key],
{
}

/// Fallback order: when a type is present in some import's export
/// registry, the fallback search resolves it there, and appending the
/// global registry at the end of the fallback list cannot change the
/// outcome — an import's copy is always preferred over the global one.
pub proof fn lemma_import_beats_global<D>(
    exports: Seq<Map<u64, NodeView<D>>>,
    global: Map<u64, NodeView<D>>,
    key: u64,
)
    requires
        exists|i: int| 0 <= i < exports.len() && (#[trigger] exports[i]).contains_key(key),
    ensures
        first_hit(exports, key) is Some,
        first_hit(exports.push(global), key) == first_hit(exports, key),
    decreases exports.len(),
{
    let i = choose|i: int| 0 <= i < exports.len() && (#[trigger] exports[i]).contains_key(key);
    assert(exports.push(global)[0] == exports[0]);
    if exports[0].contains_key(key) {
    } else {
        assert(exports.drop_first()[i - 1].contains_key(key));
        lemma_import_beats_global(exports.drop_first(), global, key);
        assert(exports.push(global).drop_first() =~= exports.drop_first().push(global));
    }
}

/// Registration happens at most once per resolved consumer instance: the
/// registration list never repeats an instance identity, lists no instance
/// already seen, and lists only handles of the underlying walk — however
/// many import paths lead to a consumer's module.
pub proof fn lemma_register_at_most_once(s: Seq<Handle>, seen: Set<u64>)
    ensures
        forall|i: int, j: int|
            0 <= i < j < dedup_by_instance(s, seen).len() ==> dedup_by_instance(
                s,
                seen,
            )[i].instance != dedup_by_instance(s, seen)[j].instance,
        forall|i: int|
            0 <= i < dedup_by_instance(s, seen).len() ==> !seen.contains(
                (#[trigger] dedup_by_instance(s, seen)[i]).instance,
            ) && s.contains(dedup_by_instance(s, seen)[i]),
    decreases s.len(),
{
    if s.len() > 0 {
        let d = dedup_by_instance(s, seen);
        if seen.contains(s[0].instance) {
            lemma_register_at_most_once(s.drop_first(), seen);
            assert(d == dedup_by_instance(s.drop_first(), seen));
            assert forall|i: int| 0 <= i < d.len() implies !seen.contains(
                (#[trigger] d[i]).instance,
            ) && s.contains(d[i]) by {
                assert(d[i] == dedup_by_instance(s.drop_first(), seen)[i]);
                assert(s.drop_first().contains(d[i]));
                let w = choose|w: int| 0 <= w < s.drop_first().len() && s.drop_first()[w] == d[i];
                assert(s[w + 1] == d[i]);
            }
        } else {
            let seen1 = seen.insert(s[0].instance);
            lemma_register_at_most_once(s.drop_first(), seen1);
            let rest = dedup_by_instance(s.drop_first(), seen1);
            assert(d == seq![s[0]] + rest);
            assert(d[0] == s[0]);
            assert forall|i: int| 0 <= i < d.len() implies !seen.contains(
                (#[trigger] d[i]).instance,
            ) && s.contains(d[i]) by {
                if i == 0 {
                    assert(s[0] == d[0]);
                } else {
                    assert(d[i] == rest[i - 1]);
                    assert(!seen1.contains(rest[i - 1].instance));
                    assert(s.drop_first().contains(rest[i - 1]));
                    let w = choose|w: int|
                        0 <= w < s.drop_first().len() && s.drop_first()[w] == rest[i - 1];
                    assert(s[w + 1] == d[i]);
                }
            }
            assert forall|i: int, j: int| 0 <= i < j < d.len() implies d[i].instance
                != d[j].instance by {
                if i == 0 {
                    assert(d[j] == rest[j - 1]);
                    assert(!seen1.contains(rest[j - 1].instance));
                } else {
                    assert(d[i] == rest[i - 1]);
                    assert(d[j] == rest[j - 1]);
                }
            }
        }
    }
}

} // verus!


