use contraband::graph::{BuildError, Graph, InjectKind, InjectSpec, Node, Value};
use contraband::module::{Context, Module, ModuleFactory, ResolvedModule};
use std::sync::Arc;

fn get_empty_ctx<D>() -> Context<D> {
    Context::new(Graph::new())
}

#[test]
fn test_provide_value_get_resolved() {
    let value = Value { key: 1, value: "test_str" };
    let mut ctx = get_empty_ctx();
    let resolved = Module::new().provide_value(value).build(&mut ctx).unwrap();
    assert_eq!(
        **resolved.graph.get_node(1).unwrap().data.as_ref().unwrap(),
        "test_str"
    );
}

struct ExportingValueModule;

impl ModuleFactory<&'static str> for ExportingValueModule {
    fn get_module() -> Module<&'static str> {
        let value = Value { key: 1, value: "test_str" };
        Module::new().export_val(&value).provide_value(value)
    }
}

#[test]
fn test_imported_value_is_reachable() {
    let mut ctx = get_empty_ctx();
    let resolved = Module::new()
        .import(10, ExportingValueModule::get_module())
        .build(&mut ctx)
        .unwrap();
    assert_eq!(resolved.imported_modules.len(), 1);
    assert_eq!(
        **resolved.imported_modules[0]
            .graph
            .get_node(1)
            .unwrap()
            .data
            .as_ref()
            .unwrap(),
        "test_str"
    );
}

struct ExportingProviderModule;

impl ModuleFactory<u8> for ExportingProviderModule {
    fn get_module() -> Module<u8> {
        Module::new().export(2).provide(InjectSpec {
            key: 2,
            kind: InjectKind::Composite,
            deps: Vec::new(),
        })
    }
}

#[test]
fn test_imported_provider_is_reachable() {
    let mut ctx = get_empty_ctx();
    let resolved = Module::new()
        .import(10, ExportingProviderModule::get_module())
        .build(&mut ctx)
        .unwrap();
    assert_eq!(resolved.imported_modules.len(), 1);
    assert!(resolved.imported_modules[0].graph.get_node(2).is_some());
}

fn service_module() -> Module<u8> {
    // Provides (but does not export) one constructed service under key 5.
    Module::new().provide(InjectSpec {
        key: 5,
        kind: InjectKind::Composite,
        deps: Vec::new(),
    })
}

#[test]
fn test_diamond_import_builds_shared_module_once() {
    // A and B both import the same factory key; the root imports A and B.
    let a = Module::new().import(30, service_module());
    let b = Module::new().import(30, service_module());
    let root = Module::new().import(31, a).import(32, b);
    let mut ctx = get_empty_ctx();
    let resolved = root.build(&mut ctx).unwrap();
    // The one provider of the shared module was constructed exactly once.
    assert_eq!(ctx.instances_created(), 1);
    let via_a = resolved.imported_modules[0].imported_modules[0]
        .graph
        .get_node(5)
        .unwrap()
        .instance;
    let via_b = resolved.imported_modules[1].imported_modules[0]
        .graph
        .get_node(5)
        .unwrap()
        .instance;
    assert_eq!(via_a, via_b);
    assert_eq!(resolved.imported_keys, vec![31, 32]);
    assert_eq!(resolved.imported_modules[0].imported_keys, vec![30]);
    assert_eq!(resolved.imported_modules[1].imported_keys, vec![30]);
}

#[test]
fn test_cache_hit_attaches_without_rebuilding() {
    let mut ctx = get_empty_ctx::<u8>();
    let first = Module::new()
        .import(30, service_module())
        .build(&mut ctx)
        .unwrap();
    let created = ctx.instances_created();
    let second = Module::new()
        .import(30, service_module())
        .build(&mut ctx)
        .unwrap();
    // Nothing was constructed for the second import of the same key.
    assert_eq!(ctx.instances_created(), created);
    assert_eq!(
        first.imported_modules[0].graph.get_node(5).unwrap().instance,
        second.imported_modules[0].graph.get_node(5).unwrap().instance
    );
    assert!(ctx.lookup_module(30).is_some());
}

#[test]
fn test_export_filtering_on_build() {
    // Provides values under 1 and 2, exports only 1.
    let v1 = Value { key: 1, value: 11u8 };
    let v2 = Value { key: 2, value: 22u8 };
    let module = Module::new().provide_value(v1).provide_value(v2).export(1);
    let mut ctx = get_empty_ctx();
    let resolved = module.build(&mut ctx).unwrap();
    assert!(resolved.exported_graph.get_node(1).is_some());
    assert!(resolved.exported_graph.get_node(2).is_none());
    assert!(resolved.graph.get_node(2).is_some());
}

fn exporting_value_module_7() -> Module<u8> {
    let v = Value { key: 7, value: 70u8 };
    Module::new().export_val(&v).provide_value(v)
}

#[test]
fn test_fallback_prefers_import_over_global() {
    // Key 7 is present both in the import's export graph and in the
    // global registry; the import's copy must win.
    let mut global = Graph::new();
    global.provide(Node {
        key: 7,
        instance: 999,
        deps: Vec::new(),
        data: Some(Arc::new(77u8)),
    });
    let mut ctx = Context::new(global);
    let root = Module::new()
        .import(40, exporting_value_module_7())
        .controller(InjectSpec { key: 8, kind: InjectKind::Composite, deps: vec![7] });
    let resolved = root.build(&mut ctx).unwrap();
    let import_instance = resolved.imported_modules[0]
        .exported_graph
        .get_node(7)
        .unwrap()
        .instance;
    let wired = resolved.graph.get_node(8).unwrap().deps[0];
    assert_eq!(wired, import_instance);
    assert_ne!(wired, 999);
}

#[test]
fn test_controller_gets_imported_service_instance() {
    // Root imports a module exporting service 5, and registers a
    // controller requiring 5: the controller's handle to 5 is identical
    // to the imported module's resolved instance.
    let service = Module::new().export(5).provide(InjectSpec {
        key: 5,
        kind: InjectKind::Composite,
        deps: Vec::new(),
    });
    let root = Module::new()
        .import(50, service)
        .controller(InjectSpec { key: 6, kind: InjectKind::Composite, deps: vec![5] });
    let mut ctx = get_empty_ctx::<u8>();
    let resolved = root.build(&mut ctx).unwrap();
    let s_instance = resolved.imported_modules[0]
        .graph
        .get_node(5)
        .unwrap()
        .instance;
    assert_eq!(resolved.controllers.len(), 1);
    let controller = resolved.graph.get_node(6).unwrap();
    assert_eq!(controller.deps.len(), 1);
    assert_eq!(controller.deps[0], s_instance);
}

#[test]
fn test_unresolved_dependency_faults_build() {
    // A provider requires key 42, which is provided nowhere in scope.
    let module = Module::new().provide(InjectSpec {
        key: 3,
        kind: InjectKind::Composite,
        deps: vec![42],
    });
    let mut ctx = get_empty_ctx::<u8>();
    let result = module.build(&mut ctx);
    let err = match result {
        Err(e) => e,
        Ok(_) => panic!("expected a resolution fault"),
    };
    assert_eq!(err, BuildError::Unresolved { key: 42 });
    // Nothing was constructed for the faulting provider.
    assert_eq!(ctx.instances_created(), 0);
}

#[test]
fn test_unprovided_plain_value_faults_build() {
    let module = Module::new().provide(InjectSpec {
        key: 9,
        kind: InjectKind::Plain,
        deps: Vec::new(),
    });
    let mut ctx = get_empty_ctx::<u8>();
    let result = module.build(&mut ctx);
    let err = match result {
        Err(e) => e,
        Ok(_) => panic!("expected a resolution fault"),
    };
    assert_eq!(err, BuildError::Unresolved { key: 9 });
}

#[test]
fn test_exported_but_never_provided_faults_downstream() {
    // Exporting key 9 without providing it leaves the export graph
    // without the entry; an importer requiring it faults at its own
    // resolution.
    let hollow = Module::new().export(9);
    let mut ctx = get_empty_ctx::<u8>();
    let resolved = Module::new().import(60, hollow).build(&mut ctx).unwrap();
    assert!(resolved.imported_modules[0].exported_graph.get_node(9).is_none());

    let hollow_again = Module::new().export(9);
    let root = Module::new()
        .import(61, hollow_again)
        .provide(InjectSpec { key: 4, kind: InjectKind::Composite, deps: vec![9] });
    let result = root.build(&mut ctx);
    let err = match result {
        Err(e) => e,
        Ok(_) => panic!("expected a resolution fault"),
    };
    assert_eq!(err, BuildError::Unresolved { key: 9 });
}

#[test]
fn test_provide_value_twice_keeps_first() {
    let first = Value { key: 1, value: 10u8 };
    let second = Value { key: 1, value: 20u8 };
    let module = Module::new().provide_value(first).provide_value(second);
    let mut ctx = get_empty_ctx();
    let resolved = module.build(&mut ctx).unwrap();
    assert_eq!(**resolved.graph.get_node(1).unwrap().data.as_ref().unwrap(), 10u8);
}

#[test]
fn test_resolved_module_new_is_empty() {
    let m: ResolvedModule<u8> = ResolvedModule::new();
    assert!(m.graph.get_node(1).is_none());
    assert_eq!(m.imported_modules.len(), 0);
    assert_eq!(m.controllers.len(), 0);
}
