use waypanel::schedule::{first_missing, sort_keys_of};
use waypanel::{PanelPosition, PluginMetadata};

fn names(list: &[&str]) -> Vec<String> {
    list.iter().map(|name| name.to_string()).collect()
}

fn meta(name: &str, priority: u32, order: u32) -> PluginMetadata {
    PluginMetadata {
        name: name.to_string(),
        position: PanelPosition::Background,
        order,
        priority,
        deps: vec![],
    }
}

#[test]
fn no_dependencies_none_missing() {
    assert_eq!(first_missing(&names(&[]), &vec![]), None);
    assert_eq!(first_missing(&names(&["a"]), &vec![]), None);
}

#[test]
fn all_dependencies_registered() {
    assert_eq!(first_missing(&names(&["a", "b", "c"]), &vec!["c", "a"]), None);
    assert_eq!(first_missing(&names(&["a"]), &vec!["a", "a"]), None);
}

#[test]
fn first_absent_dependency_is_found() {
    assert_eq!(first_missing(&names(&["a", "b"]), &vec!["ghost"]), Some(0));
    assert_eq!(first_missing(&names(&["a", "b"]), &vec!["a", "x", "b", "y"]), Some(1));
    assert_eq!(first_missing(&names(&["a", "b"]), &vec!["b", "a", "y"]), Some(2));
    assert_eq!(first_missing(&names(&[]), &vec!["a"]), Some(0));
}

#[test]
fn names_are_compared_whole() {
    assert_eq!(first_missing(&names(&["clock"]), &vec!["cloc"]), Some(0));
    assert_eq!(first_missing(&names(&["clock"]), &vec!["clocks"]), Some(0));
    assert_eq!(first_missing(&names(&["clock"]), &vec!["Clock"]), Some(0));
    assert_eq!(first_missing(&names(&[""]), &vec![""]), None);
}

#[test]
fn keys_are_priority_then_order() {
    let metas = vec![meta("a", 5, 10), meta("b", 1, 0), meta("c", 0, u32::MAX)];
    assert_eq!(sort_keys_of(&metas), vec![(5, 10), (1, 0), (0, u32::MAX)]);
    assert_eq!(sort_keys_of(&vec![]), Vec::<(u32, u32)>::new());
}
