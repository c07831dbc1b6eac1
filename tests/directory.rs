use std::collections::HashMap;
use xolotl::{InMemoryRegistry, RegistryError, ServiceEntry, ServiceRegistry};

fn entry(id: &str, name: &str, env: &str, address: &str, registered_at: u64) -> ServiceEntry {
    ServiceEntry::from_parts(
        id.to_string(),
        name.to_string(),
        env.to_string(),
        address.to_string(),
        HashMap::new(),
        registered_at,
    )
}

#[test]
fn registering_the_same_entry_twice_is_refused() {
    let mut registry = InMemoryRegistry::new();
    let e = entry("a", "svc", "dev", "h:1", 5);
    assert!(registry.register(e.clone()).is_ok());
    assert!(matches!(registry.register(e), Err(RegistryError::AlreadyExists)));
    assert_eq!(registry.list().len(), 1);
}

#[test]
fn identity_alone_decides_a_conflict() {
    let mut registry = InMemoryRegistry::new();
    assert!(registry.register(entry("a", "svc", "dev", "h:1", 5)).is_ok());
    let other = entry("a", "other", "prod", "h:2", 6);
    assert!(matches!(registry.register(other), Err(RegistryError::AlreadyExists)));
    let listed = registry.list();
    assert_eq!(listed.len(), 1);
    assert_eq!(listed[0].service_name, "svc");
}

#[test]
fn two_instances_of_one_service_both_resolve() {
    let mut registry = InMemoryRegistry::new();
    assert!(registry.register(entry("1", "api", "prod", "http://a:1", 1)).is_ok());
    assert!(registry.register(entry("2", "api", "prod", "http://b:2", 2)).is_ok());
    let found = registry.resolve("api", "prod");
    assert_eq!(found.len(), 2);
    let addresses: Vec<&str> = found.iter().map(|e| e.address_str()).collect();
    assert!(addresses.contains(&"http://a:1"));
    assert!(addresses.contains(&"http://b:2"));
}

#[test]
fn resolve_on_empty_or_unmatched_registry_is_empty() {
    let mut registry = InMemoryRegistry::new();
    assert!(registry.resolve("nope", "dev").is_empty());
    assert!(registry.register(entry("1", "svc", "dev", "h", 1)).is_ok());
    assert!(registry.resolve("nope", "dev").is_empty());
    assert!(registry.resolve("svc", "prod").is_empty());
    assert!(registry.resolve("SVC", "dev").is_empty());
}

#[test]
fn deregister_in_one_environment_keeps_the_others() {
    let mut registry = InMemoryRegistry::new();
    assert!(registry.register(entry("1", "svc", "dev", "h", 1)).is_ok());
    assert!(registry.register(entry("2", "svc", "prod", "h", 1)).is_ok());
    assert!(registry.deregister("svc", Some("dev")).is_ok());
    assert!(registry.resolve("svc", "dev").is_empty());
    assert_eq!(registry.resolve("svc", "prod").len(), 1);
    assert!(matches!(
        registry.deregister("svc", Some("dev")),
        Err(RegistryError::NotFound)
    ));
}

#[test]
fn deregister_everywhere_then_again_fails() {
    let mut registry = InMemoryRegistry::new();
    assert!(registry.register(entry("1", "svc", "dev", "h", 1)).is_ok());
    assert!(registry.register(entry("2", "svc", "prod", "h", 1)).is_ok());
    assert!(registry.register(entry("3", "other", "dev", "h", 1)).is_ok());
    assert!(registry.deregister("svc", None).is_ok());
    assert!(registry.resolve("svc", "dev").is_empty());
    assert!(registry.resolve("svc", "prod").is_empty());
    assert_eq!(registry.resolve("other", "dev").len(), 1);
    assert_eq!(registry.list().len(), 1);
    assert!(matches!(registry.deregister("svc", None), Err(RegistryError::NotFound)));
}

#[test]
fn deregister_removes_every_instance_in_scope() {
    let mut registry = InMemoryRegistry::new();
    for i in 0..4 {
        let id = format!("{}", i);
        assert!(registry.register(entry(&id, "svc", "dev", "h", 1)).is_ok());
    }
    assert!(registry.register(entry("x", "svc", "prod", "h", 1)).is_ok());
    assert!(registry.deregister("svc", Some("dev")).is_ok());
    let left = registry.list();
    assert_eq!(left.len(), 1);
    assert_eq!(left[0].id, "x");
}

#[test]
fn heartbeat_moves_the_timestamp_forward_only() {
    let mut registry = InMemoryRegistry::new();
    assert!(registry.register(entry("1", "svc", "dev", "h", 100)).is_ok());
    assert!(registry.register(entry("2", "svc", "dev", "h", 300)).is_ok());
    assert!(registry.register(entry("3", "svc", "prod", "h", 100)).is_ok());
    assert!(registry.heartbeat_at("svc", "dev", 200).is_ok());
    let all = registry.list();
    assert_eq!(all[0].last_heartbeat, 200);
    assert_eq!(all[1].last_heartbeat, 300);
    assert_eq!(all[2].last_heartbeat, 100);
    assert_eq!(all[0].registered_at, 100);
    assert!(registry.heartbeat_at("svc", "dev", 150).is_ok());
    assert_eq!(registry.list()[0].last_heartbeat, 200);
    assert!(registry.heartbeat_at("svc", "dev", 1000).is_ok());
    assert_eq!(registry.list()[0].last_heartbeat, 1000);
    assert_eq!(registry.list()[1].last_heartbeat, 1000);
}

#[test]
fn heartbeat_without_match_fails_and_changes_nothing() {
    let mut registry = InMemoryRegistry::new();
    assert!(matches!(registry.heartbeat_at("svc", "dev", 7), Err(RegistryError::NotFound)));
    assert!(registry.register(entry("1", "svc", "dev", "h", 100)).is_ok());
    assert!(matches!(registry.heartbeat("svc", "prod"), Err(RegistryError::NotFound)));
    assert_eq!(registry.list()[0].last_heartbeat, 100);
}

#[test]
fn heartbeat_reads_the_clock() {
    let mut registry = InMemoryRegistry::new();
    assert!(registry.register(entry("1", "svc", "dev", "h", 100)).is_ok());
    assert!(registry.heartbeat("svc", "dev").is_ok());
    assert!(registry.list()[0].last_heartbeat > 1_000_000_000_000);
}

#[test]
fn many_distinct_registrations_are_all_listed() {
    let mut registry = InMemoryRegistry::new();
    for i in 0..50 {
        let id = format!("id-{}", i);
        let name = format!("svc{}", i % 7);
        assert!(registry.register(entry(&id, &name, "dev", "h", i)).is_ok());
    }
    let all = registry.list();
    assert_eq!(all.len(), 50);
    for (i, e) in all.iter().enumerate() {
        assert_eq!(e.id, format!("id-{}", i));
    }
}

#[test]
fn end_to_end_register_resolve_deregister() {
    let mut registry = InMemoryRegistry::new();
    let mut tags = HashMap::new();
    tags.insert("v".to_string(), "1".to_string());
    let e = ServiceEntry::new(
        "api".to_string(),
        "prod".to_string(),
        "http://10.0.0.1:9000".to_string(),
        tags,
    );
    assert!(registry.register(e).is_ok());
    let found = registry.resolve("api", "prod");
    assert_eq!(found.len(), 1);
    assert_eq!(found[0].address_str(), "http://10.0.0.1:9000");
    assert_eq!(found[0].tags.get("v").map(|s| s.as_str()), Some("1"));
    assert_eq!(found[0].address.extract_port(), Some(9000));
    assert!(registry.deregister("api", Some("prod")).is_ok());
    assert!(registry.resolve("api", "prod").is_empty());
    assert!(matches!(
        registry.deregister("api", Some("prod")),
        Err(RegistryError::NotFound)
    ));
}

#[test]
fn registry_behind_the_trait_object() {
    let mut registry: Box<dyn ServiceRegistry> = Box::new(InMemoryRegistry::new());
    assert!(registry.register(entry("1", "svc", "dev", "h", 1)).is_ok());
    assert_eq!(registry.resolve("svc", "dev").len(), 1);
    assert!(registry.heartbeat("svc", "dev").is_ok());
    assert!(registry.deregister("svc", None).is_ok());
    assert!(registry.list().is_empty());
}
