use waypanel::{AppendMethod, PanelPosition, Plugin, PluginMetadata, PluginRegistry};

struct Named {
    name: &'static str,
    priority: u32,
}

impl Plugin for Named {
    type Widget = ();

    fn metadata(&self) -> PluginMetadata {
        PluginMetadata {
            name: self.name.to_string(),
            position: PanelPosition::Background,
            order: 0,
            priority: self.priority,
            deps: vec!["x", "y"],
        }
    }

    fn on_start(&mut self) {}

    fn on_stop(&mut self) {}

    fn on_reload(&mut self) {}

    fn on_cleanup(&mut self) {}

    fn get_widget(&self) -> Option<(&(), AppendMethod)> {
        None
    }
}

#[test]
fn empty_registry() {
    let registry: PluginRegistry<Named> = PluginRegistry::new();
    assert_eq!(registry.len(), 0);
    assert!(registry.names().is_empty());
    assert!(!registry.contains("a"));
    assert!(registry.get("a").is_none());
    assert_eq!(registry.position("a"), None);
    assert!(registry.descriptors().is_empty());
}

#[test]
fn registered_plugins_are_found_by_name() {
    let mut registry = PluginRegistry::new();
    registry.register(Named { name: "a", priority: 1 });
    registry.register(Named { name: "b", priority: 2 });
    assert_eq!(registry.len(), 2);
    assert_eq!(registry.names(), &vec!["a".to_string(), "b".to_string()]);
    assert!(registry.contains("a") && registry.contains("b"));
    assert!(!registry.contains("c"));
    assert_eq!(registry.position("a"), Some(0));
    assert_eq!(registry.position("b"), Some(1));
    assert_eq!(registry.get("b").unwrap().priority, 2);
    assert!(registry.get("c").is_none());
}

#[test]
fn last_registration_wins() {
    let mut registry = PluginRegistry::new();
    registry.register(Named { name: "a", priority: 1 });
    registry.register(Named { name: "b", priority: 2 });
    registry.register(Named { name: "a", priority: 3 });
    assert_eq!(registry.len(), 2);
    assert_eq!(registry.names(), &vec!["a".to_string(), "b".to_string()]);
    assert_eq!(registry.get("a").unwrap().priority, 3);
    assert_eq!(registry.get("b").unwrap().priority, 2);
}

#[test]
fn descriptors_come_in_registry_order() {
    let mut registry = PluginRegistry::new();
    registry.register(Named { name: "a", priority: 9 });
    registry.register(Named { name: "b", priority: 4 });
    let all = registry.descriptors();
    assert_eq!(all.len(), 2);
    assert_eq!(all[0].name, "a");
    assert_eq!(all[0].priority, 9);
    assert_eq!(all[0].deps, vec!["x", "y"]);
    assert_eq!(all[1].name, "b");
    assert_eq!(all[1].priority, 4);
    assert_eq!(all[1].position, PanelPosition::Background);
}

#[test]
fn metadata_can_be_cloned() {
    let meta = Named { name: "a", priority: 1 }.metadata();
    let copy = meta.clone();
    assert_eq!(copy.name, meta.name);
    assert_eq!(copy.deps, meta.deps);
    assert_eq!(copy.order, meta.order);
    assert_eq!(copy.priority, meta.priority);
    assert_eq!(copy.position, meta.position);
}
