use std::collections::BTreeMap;

use indexmap::IndexMap;

use tomldir::{Config, Error, SortedStore, Store, Value};

fn lookup(flat: &[(String, String)], key: &str) -> Option<String> {
    flat.iter().find(|p| p.0 == key).map(|p| p.1.clone())
}

#[test]
fn test_basic_load() {
    let toml = r#"
        title = "Test"
        count = 10
        enabled = true
        ratio = 1.5
    "#;
    let cfg = Config::from_toml(toml).unwrap();
    assert_eq!(cfg.get_string("title").unwrap(), "Test");
    assert_eq!(cfg.get_int("count").unwrap(), 10);
    assert!(cfg.get_bool("enabled").unwrap());
    assert_eq!(cfg.get_float_bits("ratio").map(f64::from_bits).unwrap(), 1.5);
}

#[test]
fn test_nested_table_flattening() {
    let toml = r#"
        [server]
        host = "localhost"
        [server.auth]
        method = "token"
    "#;
    let cfg = Config::from_toml(toml).unwrap();
    assert_eq!(cfg.get_string("server.host").unwrap(), "localhost");
    assert_eq!(cfg.get_string("server.auth.method").unwrap(), "token");
}

#[test]
fn test_array_of_tables_flattening() {
    let toml = r#"
        [[users]]
        name = "Alice"
        [[users]]
        name = "Bob"
    "#;
    let cfg = Config::from_toml(toml).unwrap();
    assert_eq!(cfg.get_string("users[0].name").unwrap(), "Alice");
    assert_eq!(cfg.get_string("users[1].name").unwrap(), "Bob");
}

#[test]
fn test_primitive_arrays() {
    let toml = r#"
        ports = [80, 443]
    "#;
    let cfg = Config::from_toml(toml).unwrap();
    let val = cfg.get("ports").unwrap();
    assert_eq!(val.type_str(), "array");
    assert!(cfg.get("ports[0]").is_none());
}

#[test]
fn test_flatten_export() {
    let toml = r#"
        [app]
        debug = true
        rate = 5.5
    "#;
    let cfg = Config::from_toml(toml).unwrap();
    let flat = cfg.flatten();
    assert_eq!(lookup(&flat, "app.debug"), Some("true".to_string()));
    assert_eq!(lookup(&flat, "app.rate"), Some("5.5".to_string()));
}

#[test]
fn test_indexmap_store_ordering() {
    // The ordered-map backing preserves insertion order.
    let toml = r#"
        z = 1
        a = 2
        c = 3
        b = 4
    "#;

    // Explicitly load into the ordered map.
    let cfg = Config::<IndexMap<String, Value>>::from_toml_with(toml).unwrap();

    // Verify order.
    let keys: Vec<String> = cfg.flatten().into_iter().map(|(k, _)| k).collect();
    assert_eq!(keys, vec!["z", "a", "c", "b"]);
}

#[test]
fn test_flatten_generic_return() {
    let toml = r#"
        [app]
        id = 1
        name = "test"
    "#;
    let cfg = Config::from_toml(toml).unwrap();

    let flat_vec: Vec<(String, String)> = cfg.flatten_into();
    assert_eq!(flat_vec.len(), 2);
    // Note: ordering depends on the underlying store (HashMap)
    assert!(flat_vec.contains(&("app.id".to_string(), "1".to_string())));
    assert!(flat_vec.contains(&("app.name".to_string(), "test".to_string())));

    // The sorted export has its keys in order.
    let flat_btree: BTreeMap<String, String> = flat_vec.clone().into_iter().collect();
    let keys: Vec<&str> = flat_btree.keys().map(|s| s.as_str()).collect();
    assert_eq!(keys, vec!["app.id", "app.name"]);
}

#[test]
fn test_shared_semantics() {
    let toml = "val = 1";
    let cfg = Config::from_toml(toml).unwrap();
    let shared = cfg.shared();

    assert_eq!(cfg.get_int("val"), Some(1));
    assert_eq!(shared.get_int("val"), Some(1));
}

#[test]
fn test_default_storage_is_hashmap() {
    let toml = "val = 1";
    let cfg = Config::from_toml(toml).unwrap();
    assert_eq!(cfg.get_int("val"), Some(1));
}

#[test]
fn test_round_trip_string() {
    let cfg = Config::from_toml("key = \"v\"").unwrap();
    assert_eq!(cfg.get_string("key"), Some("v"));
}

#[test]
fn test_server_users_scenario() {
    let toml = "[server]\nhost = \"localhost\"\n[server.auth]\nmethod = \"token\"\nports = [80, 443]\n[[users]]\nname = \"Alice\"\n[[users]]\nname = \"Bob\"\n";
    let cfg = Config::from_toml(toml).unwrap();
    assert_eq!(cfg.get_string("server.host"), Some("localhost"));
    assert_eq!(cfg.get_string("server.auth.method"), Some("token"));
    let ports = cfg.get("server.auth.ports").unwrap();
    assert_eq!(ports.type_str(), "array");
    assert!(cfg.get("server.auth.ports[0]").is_none());
    assert_eq!(cfg.get_string("users[0].name"), Some("Alice"));
    assert_eq!(cfg.get_string("users[1].name"), Some("Bob"));
}

#[test]
fn test_load_twice_same_flattening() {
    let toml = r#"
        [a]
        x = 1
        [b]
        y = "two"
        zs = [true, false]
    "#;
    let one = Config::from_toml(toml).unwrap();
    let two = Config::from_toml(toml).unwrap();
    assert_eq!(one.flatten_into(), two.flatten_into());

    // The same text into another backing still flattens to the same pairs.
    let sorted = Config::<SortedStore>::from_toml_with(toml).unwrap();
    assert_eq!(one.flatten_into(), sorted.flatten_into());
}

#[test]
fn test_sorted_store_iteration_order() {
    let toml = r#"
        z = 1
        a = 2
        c = 3
        b = 4
    "#;
    let cfg = Config::<SortedStore>::from_toml_with(toml).unwrap();
    let keys: Vec<String> = cfg.flatten().into_iter().map(|(k, _)| k).collect();
    assert_eq!(keys, vec!["a", "b", "c", "z"]);
}

#[test]
fn test_invalid_toml_is_error() {
    let r = Config::from_toml("= not toml at all =");
    match r {
        Err(Error::Toml(_)) => {},
        _ => panic!("an invalid document must be rejected as a parse failure"),
    }
    let e = match Config::from_toml("[unclosed") {
        Ok(_) => panic!("an unclosed header must be rejected"),
        Err(e) => e,
    };
    assert!(e.message().starts_with("TOML parsing error: "));
}

#[test]
fn test_missing_and_mismatched_keys_are_absent() {
    let cfg = Config::from_toml("n = 3\ns = \"x\"").unwrap();
    assert!(cfg.get("absent").is_none());
    assert!(cfg.get_string("n").is_none());
    assert!(cfg.get_int("s").is_none());
    assert!(cfg.get_bool("n").is_none());
    assert!(cfg.get_float_bits("n").is_none());
}

#[test]
fn test_empty_document() {
    let cfg = Config::from_toml("").unwrap();
    assert!(cfg.flatten().is_empty());
    assert!(cfg.flatten_into().is_empty());
    assert!(cfg.get("anything").is_none());
}

#[test]
fn test_negative_and_large_integers_render() {
    let cfg = Config::from_toml("neg = -10\nbig = 9007199254740993").unwrap();
    let flat = cfg.flatten();
    assert_eq!(lookup(&flat, "neg"), Some("-10".to_string()));
    assert_eq!(lookup(&flat, "big"), Some("9007199254740993".to_string()));
    assert_eq!(cfg.get_int("neg"), Some(-10));
}

#[test]
fn test_array_rendering() {
    let cfg = Config::from_toml("xs = [1, 2]\nys = [\"a\", \"b\"]\nzs = [[1], [2, 3]]").unwrap();
    let flat = cfg.flatten();
    assert_eq!(lookup(&flat, "xs"), Some("[1, 2]".to_string()));
    assert_eq!(lookup(&flat, "ys"), Some("[\"a\", \"b\"]".to_string()));
    assert_eq!(lookup(&flat, "zs"), Some("[[1], [2, 3]]".to_string()));
}

#[test]
fn test_datetime_value() {
    let cfg = Config::from_toml("when = 1979-05-27").unwrap();
    let val = cfg.get("when").unwrap();
    assert_eq!(val.type_str(), "datetime");
    let flat = cfg.flatten();
    assert_eq!(lookup(&flat, "when"), Some("1979-05-27".to_string()));
}

#[test]
fn test_decimal_text() {
    assert_eq!(tomldir::u64_to_decimal(0), "0");
    assert_eq!(tomldir::u64_to_decimal(12345), "12345");
}

#[test]
fn test_deep_index_keys() {
    let toml = r#"
        [[outer]]
        [[outer.inner]]
        v = 1
        [[outer.inner]]
        v = 2
        [[outer]]
        [[outer.inner]]
        v = 3
    "#;
    let cfg = Config::from_toml(toml).unwrap();
    assert_eq!(cfg.get_int("outer[0].inner[0].v"), Some(1));
    assert_eq!(cfg.get_int("outer[0].inner[1].v"), Some(2));
    assert_eq!(cfg.get_int("outer[1].inner[0].v"), Some(3));
    assert!(cfg.get("outer").is_none());
    assert!(cfg.get("outer[0].inner").is_none());
}

#[test]
fn test_error_messages() {
    let nf = Error::NotFound("port".to_string());
    assert_eq!(nf.message(), "Configuration key not found: port");
    let tm = Error::TypeMismatch { expected: "integer".to_string(), found: "string".to_string() };
    assert_eq!(tm.message(), "Type mismatch: expected integer, found string");
}

#[test]
fn test_sorted_store_direct_use() {
    let mut s = SortedStore::empty();
    s.insert("b".to_string(), Value::Int(2));
    s.insert("a".to_string(), Value::Int(1));
    s.insert("c".to_string(), Value::Int(3));
    s.insert("a".to_string(), Value::Int(9));
    let keys: Vec<String> = s.iter_sorted().into_iter().map(|(k, _)| k).collect();
    assert_eq!(keys, vec!["a", "b", "c"]);
    match s.get("a") {
        Some(Value::Int(i)) => assert_eq!(*i, 9),
        _ => panic!("the overwritten entry must hold the latest value"),
    }
}
