use match_engine::conf::yaml::{YamlPropertyLoader, YamlValue};
use match_engine::conf::{command_arg, Environment};
use match_engine::kernel::{MatchError, Order, OrderAction, TimeInForce};
use match_engine::Server;

fn text(s: &str) -> YamlValue {
    YamlValue::Text(s.to_string())
}

fn sample() -> YamlValue {
    YamlValue::Mapping(vec![
        (
            "application".to_string(),
            YamlValue::Mapping(vec![
                ("name".to_string(), text("me")),
                ("profiles".to_string(), YamlValue::Sequence(vec![text("dev"), text("local")])),
            ]),
        ),
        ("port".to_string(), YamlValue::Other),
        ("empty".to_string(), YamlValue::Sequence(vec![])),
        (
            "nested".to_string(),
            YamlValue::Sequence(vec![YamlValue::Mapping(vec![("k".to_string(), text("v"))])]),
        ),
    ])
}

#[test]
fn yaml_is_flattened_to_dotted_names() {
    let loader = YamlPropertyLoader::new();
    let props = loader.load(&sample()).unwrap();
    let expect: Vec<(String, String)> = vec![
        ("application.name".to_string(), "me".to_string()),
        ("application.profiles[0]".to_string(), "dev".to_string()),
        ("application.profiles[1]".to_string(), "local".to_string()),
        ("port".to_string(), "".to_string()),
        ("empty".to_string(), "".to_string()),
        ("nested[0].k".to_string(), "v".to_string()),
    ];
    assert_eq!(props, expect);
}

#[test]
fn yaml_top_level_must_be_a_mapping() {
    let loader = YamlPropertyLoader::new();
    assert!(loader.load(&text("x")).is_err());
    assert_eq!(loader.get_file_extensions(), vec!["yaml".to_string(), "yml".to_string()]);
}

#[test]
fn environment_reads_and_resolves() {
    let mut env = Environment::new();
    env.read_yaml(&sample()).unwrap();
    assert_eq!(env.get_property("application.name"), Some("me".to_string()));
    assert_eq!(env.get_property("${application.name}"), Some("me".to_string()));
    assert_eq!(env.get_property("missing"), None);
    assert_eq!(env.resolve_placeholders("${application.name}"), "me".to_string());
    assert_eq!(env.resolve_placeholders("${nothing}"), "${nothing}".to_string());
    assert_eq!(
        env.get_properties("application.profiles"),
        vec!["dev".to_string(), "local".to_string()]
    );
    assert_eq!(env.get_properties("${application.profiles}").len(), 2);
    assert!(env.get_properties("port").is_empty());
}

#[test]
fn later_setting_overrides() {
    let mut env = Environment::new();
    env.set_property("a".to_string(), "1".to_string());
    env.set_property("a".to_string(), "2".to_string());
    assert_eq!(env.get_property("a"), Some("2".to_string()));
}

#[test]
fn prepare_key_strips_placeholder() {
    let env = Environment::new();
    assert_eq!(env.prepare_key("${a.b}"), "a.b".to_string());
    assert_eq!(env.prepare_key("${}"), "".to_string());
    assert_eq!(env.prepare_key("${"), "${".to_string());
    assert_eq!(env.prepare_key("plain"), "plain".to_string());
}

#[test]
fn list_property_beyond_ten_items() {
    let mut env = Environment::new();
    for i in 0..12 {
        env.set_property(format!("l[{i}]"), format!("v{i}"));
    }
    let v = env.get_properties("l");
    assert_eq!(v.len(), 12);
    assert_eq!(v[10], "v10".to_string());
}

#[test]
fn command_args_become_properties() {
    assert_eq!(command_arg("--a=b"), Some(("a".to_string(), "b".to_string())));
    assert_eq!(command_arg("--a=b=c"), Some(("a".to_string(), "b".to_string())));
    assert_eq!(command_arg("-a=b"), None);
    assert_eq!(command_arg("--ab"), None);
    let mut env = Environment::new();
    env.parse_command_args(&vec!["prog".to_string(), "--server.port=8080".to_string()]);
    assert_eq!(env.get_property("server.port"), Some("8080".to_string()));
}

#[test]
fn server_routes_by_market_code() {
    let mut server = Server::new();
    assert!(server.create_market("BTC".to_string()));
    assert!(!server.create_market("BTC".to_string()));
    let o = Order {
        order_id: 1,
        price: 10,
        size: 2,
        order_action: OrderAction::BID,
        time_in_force: Some(TimeInForce::GTC),
    };
    assert_eq!(server.place_order(&"ETH".to_string(), o), Err(MatchError::UnknownMarket));
    assert!(server.place_order(&"BTC".to_string(), o).unwrap().is_empty());
    assert!(server.cancel_order(&"BTC".to_string(), 1).is_ok());
    assert_eq!(server.cancel_order(&"BTC".to_string(), 1), Err(MatchError::OrderNotFound));
    assert_eq!(server.cancel_order(&"ETH".to_string(), 1), Err(MatchError::UnknownMarket));
}

#[test]
fn server_run_lists_profile_documents() {
    let mut server = Server::new();
    let files = server.run(&sample());
    assert_eq!(
        files,
        vec!["resources/application-dev.yaml".to_string(), "resources/application-local.yaml".to_string()]
    );
    assert_eq!(server.environment().get_property("application.name"), Some("me".to_string()));
}
