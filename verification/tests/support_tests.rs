use contraband::config::{get_prop, Prop};
use contraband::graph::{Graph, InjectKind, InjectSpec, Value};
use contraband::log::{LogLevel, Logger, LoggingProvider};
use contraband::module::{Context, Module};
use contraband::pool::{DieselPoolModule, PoolConfigError};
use contraband::route::GuardType;
use std::cell::RefCell;
use std::rc::Rc;

struct Collecting {
    seen: Rc<RefCell<Vec<String>>>,
}

impl LoggingProvider for Collecting {
    fn debug(&self, message: String) {
        self.seen.borrow_mut().push(format!("DEBUG {}", message));
    }

    fn info(&self, message: String) {
        self.seen.borrow_mut().push(format!("INFO {}", message));
    }

    fn warn(&self, message: String) {
        self.seen.borrow_mut().push(format!("WARN {}", message));
    }

    fn error(&self, message: String) {
        self.seen.borrow_mut().push(format!("ERROR {}", message));
    }
}

#[test]
fn test_logger_gates_by_level() {
    let seen = Rc::new(RefCell::new(Vec::new()));
    let logger = Logger::new(Collecting { seen: Rc::clone(&seen) }, LogLevel::Warn);
    logger.debug(String::from("a"));
    logger.info(String::from("b"));
    logger.warn(String::from("c"));
    logger.error(String::from("d"));
    assert_eq!(*seen.borrow(), vec![String::from("WARN c"), String::from("ERROR d")]);
}

#[test]
fn test_logger_debug_level_passes_everything() {
    let seen = Rc::new(RefCell::new(Vec::new()));
    let logger = Logger::new(Collecting { seen: Rc::clone(&seen) }, LogLevel::Debug);
    logger.debug(String::from("a"));
    logger.info(String::from("b"));
    logger.warn(String::from("c"));
    logger.error(String::from("d"));
    assert_eq!(seen.borrow().len(), 4);
    assert!(logger.enabled(LogLevel::Error));
    assert!(logger.enabled(LogLevel::Debug));
}

#[test]
fn test_logger_enabled_ordering() {
    let seen = Rc::new(RefCell::new(Vec::new()));
    let logger = Logger::new(Collecting { seen }, LogLevel::Error);
    assert!(!logger.enabled(LogLevel::Debug));
    assert!(!logger.enabled(LogLevel::Info));
    assert!(!logger.enabled(LogLevel::Warn));
    assert!(logger.enabled(LogLevel::Error));
}

#[test]
fn test_get_prop_finds_the_conventional_name() {
    let props = vec![
        Prop { name: String::from("OTHER__THING"), value: String::from("nope") },
        Prop {
            name: String::from("DIESEL__CONNECTION_URL"),
            value: String::from("postgres://localhost/app"),
        },
    ];
    let found = get_prop(&props, "diesel", "connection_url");
    assert_eq!(found, Some(String::from("postgres://localhost/app")));
}

#[test]
fn test_get_prop_misses_when_absent() {
    let props = vec![Prop { name: String::from("DIESEL__URL"), value: String::from("x") }];
    assert_eq!(get_prop(&props, "diesel", "connection_url"), None);
    assert_eq!(get_prop(&Vec::new(), "a", "b"), None);
}

#[test]
fn test_get_prop_takes_the_first_match() {
    let props = vec![
        Prop { name: String::from("A__B"), value: String::from("one") },
        Prop { name: String::from("A__B"), value: String::from("two") },
    ];
    assert_eq!(get_prop(&props, "a", "b"), Some(String::from("one")));
}

#[test]
fn test_guard_names() {
    assert_eq!(GuardType::Get.as_guard(), "Get");
    assert_eq!(GuardType::Patch.as_guard(), "Patch");
    assert_eq!(GuardType::Options.as_guard(), "Options");
}

#[test]
fn test_guard_parsing() {
    assert_eq!(GuardType::from_str("get"), Ok(GuardType::Get));
    assert_eq!(GuardType::from_str("delete"), Ok(GuardType::Delete));
    assert_eq!(GuardType::from_str("trace"), Ok(GuardType::Trace));
    assert_eq!(GuardType::from_str("GET"), Err(()));
    assert_eq!(GuardType::from_str("bogus"), Err(()));
}

#[test]
fn test_pool_module_shares_the_pool() {
    let pool = Value { key: 3, value: String::from("pool") };
    let module = DieselPoolModule::get_module(pool);
    let mut ctx = Context::new(Graph::new());
    let resolved = module.build(&mut ctx).unwrap();
    assert_eq!(**resolved.graph.get_node(3).unwrap().data.as_ref().unwrap(), "pool");
    assert!(resolved.exported_graph.get_node(3).is_some());
}

#[test]
fn test_pool_connection_url_required() {
    let props = vec![Prop {
        name: String::from("DIESEL__CONNECTION_URL"),
        value: String::from("postgres://localhost/app"),
    }];
    assert_eq!(
        DieselPoolModule::connection_url(&props),
        Ok(String::from("postgres://localhost/app"))
    );
    assert_eq!(
        DieselPoolModule::connection_url(&Vec::new()),
        Err(PoolConfigError::MissingConnectionUrl)
    );
}

#[test]
fn test_pool_size_defaults_to_ten() {
    assert_eq!(DieselPoolModule::max_pool_size(Some(3)), 3);
    assert_eq!(DieselPoolModule::max_pool_size(None), 10);
}

#[test]
fn test_all_controllers_walks_the_import_tree() {
    let inner = Module::new()
        .provide(InjectSpec { key: 7, kind: InjectKind::Composite, deps: Vec::new() })
        .controller(InjectSpec { key: 7, kind: InjectKind::Composite, deps: Vec::new() });
    let root = Module::new()
        .import(70, inner)
        .controller(InjectSpec { key: 6, kind: InjectKind::Composite, deps: Vec::new() });
    let mut ctx = Context::new(Graph::<u8>::new());
    let resolved = root.build(&mut ctx).unwrap();
    let all = resolved.all_controllers();
    assert_eq!(all.len(), 2);
    assert_eq!(all[0].key, 6);
    assert_eq!(all[1].key, 7);
}

#[test]
fn test_registration_lists_shared_consumer_once() {
    // A and B both import the consumer-bearing module; its one resolved
    // consumer instance is registered once, not once per import path.
    let service = Module::new()
        .provide(InjectSpec { key: 9, kind: InjectKind::Composite, deps: Vec::new() })
        .controller(InjectSpec { key: 9, kind: InjectKind::Composite, deps: Vec::new() });
    let a = Module::new().import(90, service);
    let b_inner = Module::new()
        .provide(InjectSpec { key: 9, kind: InjectKind::Composite, deps: Vec::new() })
        .controller(InjectSpec { key: 9, kind: InjectKind::Composite, deps: Vec::new() });
    let b = Module::new().import(90, b_inner);
    let root = Module::new().import(91, a).import(92, b);
    let mut ctx = Context::new(Graph::<u8>::new());
    let resolved = root.build(&mut ctx).unwrap();
    let all = resolved.all_controllers();
    assert_eq!(all.len(), 1);
    assert_eq!(all[0].key, 9);
}

#[test]
fn test_checked_weight_counts_possible_constructions() {
    let inner = Module::new().provide(InjectSpec {
        key: 5,
        kind: InjectKind::Composite,
        deps: Vec::new(),
    });
    let module = Module::new()
        .provide_value(Value { key: 1, value: 0u8 })
        .provide_value(Value { key: 2, value: 0u8 })
        .provide(InjectSpec { key: 3, kind: InjectKind::Composite, deps: Vec::new() })
        .controller(InjectSpec { key: 4, kind: InjectKind::Composite, deps: Vec::new() })
        .import(80, inner);
    assert_eq!(module.checked_weight(), Some(5));
    let empty: Module<u8> = Module::new();
    assert_eq!(empty.checked_weight(), Some(0));
}

#[test]
fn test_instances_created_counts_constructions() {
    let module = Module::new()
        .provide_value(Value { key: 1, value: 0u8 })
        .provide(InjectSpec { key: 2, kind: InjectKind::Composite, deps: Vec::new() });
    let mut ctx = Context::new(Graph::new());
    assert_eq!(ctx.instances_created(), 0);
    module.build(&mut ctx).unwrap();
    assert_eq!(ctx.instances_created(), 2);
}
