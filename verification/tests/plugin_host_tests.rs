use plugin_host::{Event, EventBus, PluginEntry, PluginError, PluginManager, PluginState};
use plugin_host::has_module_extension;
use plugin_host::loader::join_lines;

fn entry(name: &str, version: &str, events: &[&str]) -> PluginEntry {
    PluginEntry {
        name: name.to_string(),
        version: version.to_string(),
        description: format!("{} description", name),
        subscribed_events: events.iter().map(|e| e.to_string()).collect(),
        state: PluginState::Loaded,
    }
}

fn tick_event() -> Event {
    Event {
        name: "tick".to_string(),
        data: vec![("action".to_string(), "start".to_string())],
        priority: 1,
    }
}

#[test]
fn bus_subscribe_round_trip() {
    let mut bus = EventBus::new();
    bus.subscribe("tick", "a");
    assert!(bus.get_subscribers("tick").contains(&"a".to_string()));
    bus.unsubscribe("tick", "a");
    assert!(!bus.get_subscribers("tick").contains(&"a".to_string()));
}

#[test]
fn bus_subscribe_is_idempotent() {
    let mut bus = EventBus::new();
    bus.subscribe("tick", "a");
    bus.subscribe("tick", "a");
    assert_eq!(bus.get_subscribers("tick").len(), 1);
}

#[test]
fn bus_unsubscribe_absent_is_noop() {
    let mut bus = EventBus::new();
    bus.unsubscribe("tick", "ghost");
    assert!(bus.get_subscribers("tick").is_empty());
    bus.subscribe("tick", "a");
    bus.unsubscribe("stop", "a");
    assert_eq!(bus.get_subscribers("tick").len(), 1);
}

#[test]
fn bus_subscribers_are_per_event() {
    let mut bus = EventBus::new();
    bus.subscribe("tick", "a");
    bus.subscribe("stop", "b");
    let tick = bus.get_subscribers("tick");
    assert_eq!(tick, vec!["a".to_string()]);
    let stop = bus.get_subscribers("stop");
    assert_eq!(stop, vec!["b".to_string()]);
}

#[test]
fn absent_name_enable_disable_unload() {
    let mut mgr = PluginManager::new("./plugins".to_string());
    assert!(matches!(
        mgr.enable_plugin("missing", true),
        Err(PluginError::EnableError(_))
    ));
    assert!(matches!(
        mgr.disable_plugin("missing", true),
        Err(PluginError::DisableError(_))
    ));
    assert!(matches!(mgr.unload_plugin("missing", true), Ok(false)));
    assert!(mgr.get_all_plugins().is_empty());
}

#[test]
fn load_registers_and_subscribes() {
    let mut mgr = PluginManager::new("./plugins".to_string());
    mgr.load_plugin(entry("a", "1.0.0", &["tick"]));
    let p = mgr.get_plugin("a").expect("a is registered");
    assert_eq!(p.name, "a");
    assert_eq!(p.version, "1.0.0");
    assert!(p.state.is_loaded());
    assert!(mgr.get_plugin("b").is_none());
}

#[test]
fn enable_is_idempotent_and_hook_runs_at_most_once() {
    let mut mgr = PluginManager::new("./plugins".to_string());
    mgr.load_plugin(entry("a", "1.0.0", &["tick"]));
    let mut hook_runs = 0;

    // First enable: the hook is required, runs, and succeeds.
    assert!(mgr.enable_needs_hook("a"));
    if mgr.enable_needs_hook("a") {
        hook_runs += 1;
    }
    assert!(mgr.enable_plugin("a", true).is_ok());
    assert!(mgr.get_plugin("a").unwrap().state.is_enabled());

    // Second enable: no hook needed, still a success, state unchanged.
    assert!(!mgr.enable_needs_hook("a"));
    if mgr.enable_needs_hook("a") {
        hook_runs += 1;
    }
    assert!(mgr.enable_plugin("a", true).is_ok());
    assert!(mgr.get_plugin("a").unwrap().state.is_enabled());
    assert_eq!(hook_runs, 1);
}

#[test]
fn enable_hook_failure_leaves_state() {
    let mut mgr = PluginManager::new("./plugins".to_string());
    mgr.load_plugin(entry("a", "1.0.0", &["tick"]));
    assert!(matches!(
        mgr.enable_plugin("a", false),
        Err(PluginError::EnableError(_))
    ));
    assert!(mgr.get_plugin("a").unwrap().state.is_loaded());
}

#[test]
fn disable_transitions_and_is_idempotent() {
    let mut mgr = PluginManager::new("./plugins".to_string());
    mgr.load_plugin(entry("a", "1.0.0", &["tick"]));

    // Disabling a merely Loaded plugin is an illegal transition.
    assert!(matches!(
        mgr.disable_plugin("a", true),
        Err(PluginError::DisableError(_))
    ));

    mgr.enable_plugin("a", true).unwrap();
    assert!(mgr.disable_needs_hook("a"));
    assert!(mgr.disable_plugin("a", true).is_ok());
    assert!(mgr.get_plugin("a").unwrap().state.is_disabled());

    // Second disable: no hook needed, still a success.
    assert!(!mgr.disable_needs_hook("a"));
    assert!(mgr.disable_plugin("a", true).is_ok());
    assert!(mgr.get_plugin("a").unwrap().state.is_disabled());
}

#[test]
fn disable_hook_failure_leaves_state() {
    let mut mgr = PluginManager::new("./plugins".to_string());
    mgr.load_plugin(entry("a", "1.0.0", &["tick"]));
    mgr.enable_plugin("a", true).unwrap();
    assert!(matches!(
        mgr.disable_plugin("a", false),
        Err(PluginError::DisableError(_))
    ));
    assert!(mgr.get_plugin("a").unwrap().state.is_enabled());
}

#[test]
fn unload_clears_registry_and_subscriptions() {
    let mut mgr = PluginManager::new("./plugins".to_string());
    mgr.load_plugin(entry("a", "1.0.0", &["tick", "stop"]));
    mgr.enable_plugin("a", true).unwrap();
    assert!(mgr.disable_needs_hook("a"));
    assert!(matches!(mgr.unload_plugin("a", true), Ok(true)));
    assert!(mgr.get_plugin("a").is_none());
    assert!(mgr.broadcast_event(&tick_event()).is_empty());
}

#[test]
fn unload_disabled_plugin_needs_no_hook() {
    let mut mgr = PluginManager::new("./plugins".to_string());
    mgr.load_plugin(entry("a", "1.0.0", &["tick"]));
    mgr.enable_plugin("a", true).unwrap();
    mgr.disable_plugin("a", true).unwrap();
    assert!(!mgr.disable_needs_hook("a"));
    assert!(matches!(mgr.unload_plugin("a", false), Ok(true)));
    assert!(mgr.get_plugin("a").is_none());
}

#[test]
fn unload_aborts_when_disable_fails() {
    let mut mgr = PluginManager::new("./plugins".to_string());
    mgr.load_plugin(entry("a", "1.0.0", &["tick"]));
    mgr.enable_plugin("a", true).unwrap();
    assert!(matches!(
        mgr.unload_plugin("a", false),
        Err(PluginError::DisableError(_))
    ));
    assert!(mgr.get_plugin("a").unwrap().state.is_enabled());
}

#[test]
fn unload_from_loaded_state_is_refused() {
    let mut mgr = PluginManager::new("./plugins".to_string());
    mgr.load_plugin(entry("a", "1.0.0", &["tick"]));
    assert!(matches!(
        mgr.unload_plugin("a", true),
        Err(PluginError::DisableError(_))
    ));
    assert!(mgr.get_plugin("a").is_some());
}

#[test]
fn broadcast_skips_loaded_and_disabled_plugins() {
    let mut mgr = PluginManager::new("./plugins".to_string());
    mgr.load_plugin(entry("loaded", "1.0.0", &["tick"]));
    mgr.load_plugin(entry("disabled", "1.0.0", &["tick"]));
    mgr.load_plugin(entry("enabled", "1.0.0", &["tick"]));
    mgr.enable_plugin("disabled", true).unwrap();
    mgr.disable_plugin("disabled", true).unwrap();
    mgr.enable_plugin("enabled", true).unwrap();
    let order = mgr.broadcast_event(&tick_event());
    assert_eq!(order, vec!["enabled".to_string()]);
}

#[test]
fn broadcast_orders_by_subscription_count() {
    let mut mgr = PluginManager::new("./plugins".to_string());
    // b declares more events than a, so a comes first even though b was
    // loaded first.
    mgr.load_plugin(entry("b", "1.0.0", &["tick", "stop"]));
    mgr.load_plugin(entry("a", "1.0.0", &["tick"]));
    mgr.enable_plugin("a", true).unwrap();
    mgr.enable_plugin("b", true).unwrap();
    let order = mgr.broadcast_event(&tick_event());
    assert_eq!(order, vec!["a".to_string(), "b".to_string()]);
}

#[test]
fn broadcast_with_equal_counts_reaches_everyone() {
    let mut mgr = PluginManager::new("./plugins".to_string());
    mgr.load_plugin(entry("a", "1.0.0", &["tick"]));
    mgr.load_plugin(entry("b", "1.0.0", &["tick"]));
    mgr.enable_plugin("a", true).unwrap();
    mgr.enable_plugin("b", true).unwrap();
    let mut order = mgr.broadcast_event(&tick_event());
    assert_eq!(order.len(), 2);
    order.sort();
    assert_eq!(order, vec!["a".to_string(), "b".to_string()]);
}

#[test]
fn two_modules_scenario() {
    // Module a subscribes to "tick"; module b to "tick" and "stop".
    let mut mgr = PluginManager::new("./plugins".to_string());
    let mut errors: Vec<String> = Vec::new();
    for e in [entry("a", "1.0.0", &["tick"]), entry("b", "2.0.0", &["tick", "stop"])] {
        let name = e.name.clone();
        mgr.load_plugin(e);
        let hook_ok = true; // both enable hooks succeed
        if let Err(err) = mgr.enable_plugin(&name, hook_ok) {
            errors.push(format!("Failed to load plugin {}: {:?}", name, err));
        }
    }
    assert!(PluginManager::load_all_result(&errors).is_ok());

    let first = mgr.broadcast_event(&tick_event());
    assert_eq!(first, vec!["a".to_string(), "b".to_string()]);

    assert!(matches!(mgr.unload_plugin("a", true), Ok(true)));
    let second = mgr.broadcast_event(&tick_event());
    assert_eq!(second, vec!["b".to_string()]);
}

#[test]
fn partial_load_scenario() {
    // One candidate loads; the file with the wrong extension is never a
    // candidate; a third, well-named but broken file fails to load.
    let mut mgr = PluginManager::new("./plugins".to_string());
    let mut errors: Vec<String> = Vec::new();

    assert!(has_module_extension("good_plugin.so", "so"));
    assert!(!has_module_extension("readme.txt", "so"));

    mgr.load_plugin(entry("good_plugin", "1.0.0", &["tick"]));
    mgr.enable_plugin("good_plugin", true).unwrap();
    errors.push("Failed to load plugin from \"./plugins/broken.so\": not a module".to_string());

    let result = PluginManager::load_all_result(&errors);
    let err = result.expect_err("a collected failure yields an aggregate error");
    match err {
        PluginError::LoadError(text) => {
            assert!(!text.contains("good_plugin"));
            assert!(text.contains("broken.so"));
        }
        other => panic!("expected LoadError, got {:?}", other),
    }
    // The valid module is retrievable despite the aggregate error.
    assert!(mgr.get_plugin("good_plugin").is_some());
}

#[test]
fn reloading_a_name_replaces_entry_and_subscriptions() {
    let mut mgr = PluginManager::new("./plugins".to_string());
    mgr.load_plugin(entry("a", "1.0.0", &["tick"]));
    mgr.enable_plugin("a", true).unwrap();
    mgr.load_plugin(entry("a", "2.0.0", &["stop"]));
    let p = mgr.get_plugin("a").unwrap();
    assert_eq!(p.version, "2.0.0");
    assert!(p.state.is_loaded());
    // The old subscription is gone, the new one is live once enabled.
    assert!(mgr.broadcast_event(&tick_event()).is_empty());
    mgr.enable_plugin("a", true).unwrap();
    let stop = Event {
        name: "stop".to_string(),
        data: Vec::new(),
        priority: 0,
    };
    assert_eq!(mgr.broadcast_event(&stop), vec!["a".to_string()]);
}

#[test]
fn get_all_plugins_lists_each_once() {
    let mut mgr = PluginManager::new("./plugins".to_string());
    mgr.load_plugin(entry("a", "1.0.0", &["tick"]));
    mgr.load_plugin(entry("b", "2.0.0", &[]));
    let mut all = mgr.get_all_plugins();
    all.sort();
    assert_eq!(
        all,
        vec![
            ("a".to_string(), "1.0.0".to_string(), "a description".to_string()),
            ("b".to_string(), "2.0.0".to_string(), "b description".to_string()),
        ]
    );
}

#[test]
fn plugin_dir_is_kept() {
    let mgr = PluginManager::new("./plugins".to_string());
    assert_eq!(mgr.plugin_dir().as_str(), "./plugins");
}

#[test]
fn extension_check_shapes() {
    assert!(has_module_extension("libfoo.so", "so"));
    assert!(has_module_extension("x.so", "so"));
    assert!(has_module_extension("libfoo.dylib", "dylib"));
    assert!(has_module_extension("plugin.dll", "dll"));
    assert!(!has_module_extension(".so", "so"));
    assert!(!has_module_extension("so", "so"));
    assert!(!has_module_extension("libfooso", "so"));
    assert!(!has_module_extension("libfoo.dll", "so"));
    assert!(!has_module_extension("", "so"));
}

#[test]
fn join_lines_exact_text() {
    let empty: Vec<String> = Vec::new();
    assert_eq!(join_lines(&empty), "");
    assert_eq!(join_lines(&vec!["a".to_string()]), "a");
    assert_eq!(
        join_lines(&vec!["a".to_string(), "b".to_string(), "c".to_string()]),
        "a\nb\nc"
    );
}

#[test]
fn load_all_result_exact_text() {
    let errors = vec!["one".to_string(), "two".to_string()];
    match PluginManager::load_all_result(&errors) {
        Err(PluginError::LoadError(text)) => {
            assert_eq!(text, "Failed to load some plugins:\none\ntwo");
        }
        other => panic!("expected LoadError, got {:?}", other),
    }
    let none: Vec<String> = Vec::new();
    assert!(PluginManager::load_all_result(&none).is_ok());
}

#[test]
fn error_message_accessor() {
    let e = PluginError::EnableError("cause".to_string());
    assert_eq!(e.message().as_str(), "cause");
    let l = PluginError::LoadError("why".to_string());
    assert_eq!(l.message().as_str(), "why");
    let d = PluginError::DisableError("how".to_string());
    assert_eq!(d.message().as_str(), "how");
}
