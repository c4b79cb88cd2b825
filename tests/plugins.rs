use flowengine::registry::{
    try_register, Executor, FunctionExecutor, FunctionFactory, HttpExecutor, HttpFactory, NodeExecutorFactory,
    NodeRegistry, TriggerExecutor, TriggerFactory,
};
use flowengine::settings::{PluginSettings, Settings};

fn setting(name: &str, enabled: bool) -> PluginSettings {
    PluginSettings { name: name.to_string(), enabled }
}

fn sorted_types(r: &NodeRegistry) -> Vec<String> {
    let mut t = r.supported_types();
    t.sort();
    t
}

#[test]
fn default_plugin_needs_no_settings() {
    let settings = Settings { plugin_settings: vec![] };
    let mut r = NodeRegistry::new();
    try_register(&mut r, &settings, TriggerFactory);
    try_register(&mut r, &settings, HttpFactory);
    try_register(&mut r, &settings, FunctionFactory);
    assert_eq!(sorted_types(&r), vec!["trigger".to_string()]);
    assert!(r.create_executor("trigger") == Some(Executor::Trigger(TriggerExecutor)));
    assert!(r.create_executor("function").is_none());
}

#[test]
fn disabled_and_unknown_plugins_are_skipped() {
    let settings = Settings {
        plugin_settings: vec![setting("http", false), setting("js_engine", true), setting("mailer", true)],
    };
    let mut r = NodeRegistry::new();
    try_register(&mut r, &settings, TriggerFactory);
    try_register(&mut r, &settings, HttpFactory);
    try_register(&mut r, &settings, FunctionFactory);
    assert_eq!(sorted_types(&r), vec!["function".to_string(), "trigger".to_string()]);
    assert!(r.create_executor("action").is_none());
    assert!(r.create_executor("function") == Some(Executor::Function(FunctionExecutor)));
}

#[test]
fn enabled_http_plugin_serves_actions() {
    let settings = Settings { plugin_settings: vec![setting("http", true)] };
    let mut r = NodeRegistry::new();
    try_register(&mut r, &settings, HttpFactory);
    assert!(r.create_executor("action") == Some(Executor::Http(HttpExecutor)));
    assert!(r.create_executor("http").is_none());
}

#[test]
fn settings_decide_by_name_and_flag() {
    let settings = Settings { plugin_settings: vec![setting("http", false), setting("http", true)] };
    assert!(settings.enables(&"http".to_string()));
    assert!(settings.enables(&"default".to_string()));
    assert!(!settings.enables(&"js_engine".to_string()));
}

#[test]
fn registering_a_type_again_replaces_it() {
    let mut r = NodeRegistry::new();
    r.register(TriggerFactory);
    r.register(FunctionFactory);
    r.register(TriggerFactory);
    assert_eq!(sorted_types(&r), vec!["function".to_string(), "trigger".to_string()]);
    assert!(r.create_executor("trigger") == Some(Executor::Trigger(TriggerExecutor)));
}

#[test]
fn factories_name_their_types_and_plugins() {
    assert_eq!(TriggerFactory.supported_type(), "trigger");
    assert_eq!(TriggerFactory.plugin_name(), "default");
    assert_eq!(HttpFactory.supported_type(), "action");
    assert_eq!(HttpFactory.plugin_name(), "http");
    assert_eq!(FunctionFactory.supported_type(), "function");
    assert_eq!(FunctionFactory.plugin_name(), "js_engine");
    assert!(FunctionFactory.create() == Executor::Function(FunctionExecutor));
}

#[test]
fn empty_registry_supports_nothing() {
    let r = NodeRegistry::new();
    assert!(r.supported_types().is_empty());
    assert!(r.create_executor("trigger").is_none());
}
