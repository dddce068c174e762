use std::cell::{Cell, RefCell};
use std::rc::Rc;
use waypanel::{
    init_plugins, AppendMethod, ClockPlugin, PanelPosition, Plugin, PluginLoader,
};

/// What the timer service was asked to do, in order.
type Journal = Rc<RefCell<Vec<String>>>;

/// A clock whose label is a string and whose timers are numbered from 1.
fn clock_with(
    journal: &Journal,
) -> ClockPlugin<String, u32, impl Fn(&String) -> u32, impl Fn(u32)> {
    let armed = Rc::clone(journal);
    let disarmed = Rc::clone(journal);
    let next = Cell::new(0u32);
    ClockPlugin::new(
        "00:00:00".to_string(),
        move |label: &String| {
            next.set(next.get() + 1);
            armed.borrow_mut().push(format!("arm {} for {}", next.get(), label));
            next.get()
        },
        move |timer: u32| disarmed.borrow_mut().push(format!("disarm {}", timer)),
    )
}

fn journal() -> Journal {
    Rc::new(RefCell::new(Vec::new()))
}

fn lines(journal: &Journal) -> Vec<String> {
    journal.borrow().clone()
}

#[test]
fn clock_describes_itself() {
    let clock = clock_with(&journal());
    let meta = clock.metadata();
    assert_eq!(meta.name, "clock");
    assert_eq!(meta.position, PanelPosition::TopCenter);
    assert_eq!(meta.order, 10);
    assert_eq!(meta.priority, 5);
    assert!(meta.deps.is_empty());
}

#[test]
fn clock_shows_its_label() {
    let clock = clock_with(&journal());
    let (label, method) = clock.get_widget().unwrap();
    assert_eq!(label, "00:00:00");
    assert_eq!(method, AppendMethod::Append);
}

#[test]
fn new_clock_arms_nothing() {
    let service = journal();
    let _clock = clock_with(&service);
    assert!(lines(&service).is_empty());
}

#[test]
fn start_arms_and_stop_disarms() {
    let service = journal();
    let mut clock = clock_with(&service);
    clock.on_start();
    assert_eq!(lines(&service), vec!["arm 1 for 00:00:00"]);
    clock.on_stop();
    assert_eq!(lines(&service), vec!["arm 1 for 00:00:00", "disarm 1"]);
}

#[test]
fn stop_without_start_does_nothing() {
    let service = journal();
    let mut clock = clock_with(&service);
    clock.on_stop();
    clock.on_cleanup();
    assert!(lines(&service).is_empty());
}

#[test]
fn second_stop_does_nothing() {
    let service = journal();
    let mut clock = clock_with(&service);
    clock.on_start();
    clock.on_stop();
    clock.on_stop();
    assert_eq!(lines(&service), vec!["arm 1 for 00:00:00", "disarm 1"]);
}

#[test]
fn reload_disarms_then_arms() {
    let service = journal();
    let mut clock = clock_with(&service);
    clock.on_start();
    clock.on_reload();
    assert_eq!(lines(&service), vec!["arm 1 for 00:00:00", "disarm 1", "arm 2 for 00:00:00"]);
    clock.on_cleanup();
    assert_eq!(
        lines(&service),
        vec!["arm 1 for 00:00:00", "disarm 1", "arm 2 for 00:00:00", "disarm 2"]
    );
}

#[test]
fn reload_of_a_stopped_clock_only_arms() {
    let service = journal();
    let mut clock = clock_with(&service);
    clock.on_reload();
    assert_eq!(lines(&service), vec!["arm 1 for 00:00:00"]);
}

#[test]
fn second_start_lets_go_of_the_first_timer() {
    let service = journal();
    let mut clock = clock_with(&service);
    clock.on_start();
    clock.on_start();
    clock.on_stop();
    assert_eq!(
        lines(&service),
        vec!["arm 1 for 00:00:00", "arm 2 for 00:00:00", "disarm 2"]
    );
}

#[test]
fn loader_starts_and_shows_the_clock() {
    let service = journal();
    let sink = journal();
    let out = Rc::clone(&sink);
    let mut loader = PluginLoader::new(move |line: &str| out.borrow_mut().push(line.to_string()));
    init_plugins(&mut loader, vec![clock_with(&service)]);
    assert_eq!(loader.registry().names(), &vec!["clock".to_string()]);
    loader.load_plugins();
    assert_eq!(lines(&service), vec!["arm 1 for 00:00:00"]);
    assert_eq!(lines(&sink), vec!["Plugin started: clock"]);
    let zones = loader.get_panel_widgets();
    assert_eq!(zones.positions(), &vec![PanelPosition::TopCenter]);
    let top = zones.get(PanelPosition::TopCenter).unwrap();
    assert_eq!(top.len(), 1);
    assert_eq!(top[0].0, "00:00:00");
    assert_eq!(top[0].1, AppendMethod::Append);
}

fn arm_plain(label: &String) -> u32 {
    label.len() as u32
}

fn disarm_plain(_timer: u32) {}

#[test]
fn clock_built_from_plain_functions() {
    let mut clock: ClockPlugin<String, u32, fn(&String) -> u32, fn(u32)> = ClockPlugin::new(
        "00:00:00".to_string(),
        arm_plain as fn(&String) -> u32,
        disarm_plain as fn(u32),
    );
    clock.on_start();
    clock.on_reload();
    clock.on_cleanup();
    let mut loader = PluginLoader::new(|_line: &str| {});
    init_plugins(&mut loader, vec![clock]);
    loader.load_plugins();
    assert_eq!(loader.registry().len(), 1);
    assert_eq!(loader.registry().get("clock").unwrap().metadata().priority, 5);
}
