use yaso::events::{EventEmitter, EventKey, EventsModule, GuestValue};
use yaso::module::{default_export_index, ModuleRegistry, Resolution};
use yaso::process::{hr_time_parts, ProcessModule};
use yaso::vm::{create_module_instances, VirtualMachine, VmState};

fn str_key(s: &str) -> EventKey {
    EventKey::Str(String::from(s))
}

#[test]
fn listeners_fire_in_registration_order() {
    let mut e = EventEmitter::new();
    e.on(str_key("data"), 1);
    e.on(str_key("data"), 2);
    e.on(str_key("data"), 3);
    let snapshot = e.emit(&str_key("data"));
    assert_eq!(snapshot, vec![1, 2, 3]);
}

#[test]
fn prepend_reverses_order_of_prepended_entries() {
    let mut e = EventEmitter::new();
    e.on(str_key("data"), 1);
    e.on(str_key("data"), 2);
    e.prepend_listener(str_key("data"), 3);
    e.prepend_listener(str_key("data"), 4);
    let snapshot = e.emit(&str_key("data"));
    assert_eq!(snapshot, vec![4, 3, 1, 2]);
}

#[test]
fn once_listener_fires_exactly_once() {
    let mut e = EventEmitter::new();
    e.once(str_key("tick"), 7);
    let first = e.emit(&str_key("tick"));
    assert_eq!(first, vec![7]);
    // the key was dropped with its only listener
    assert!(e.get_event_names().is_empty());
    let second = e.emit(&str_key("tick"));
    assert!(second.is_empty());
}

#[test]
fn once_listener_keeps_key_while_others_remain() {
    let mut e = EventEmitter::new();
    e.once(str_key("tick"), 7);
    e.on(str_key("tick"), 8);
    let first = e.emit(&str_key("tick"));
    assert_eq!(first, vec![7, 8]);
    let names = e.get_event_names();
    assert_eq!(names.len(), 1);
    assert!(names[0].eq_key(&str_key("tick")));
    let second = e.emit(&str_key("tick"));
    assert_eq!(second, vec![8]);
}

#[test]
fn prepend_once_listener_fires_first_and_once() {
    let mut e = EventEmitter::new();
    e.on(str_key("tick"), 1);
    e.prepend_once_listener(str_key("tick"), 2);
    assert_eq!(e.emit(&str_key("tick")), vec![2, 1]);
    assert_eq!(e.emit(&str_key("tick")), vec![1]);
}

#[test]
fn off_removes_first_matching_entry_only() {
    let mut e = EventEmitter::new();
    e.on(str_key("data"), 5);
    e.on(str_key("data"), 6);
    e.on(str_key("data"), 5);
    e.remove_event_listener(&str_key("data"), 5);
    assert_eq!(e.emit(&str_key("data")), vec![6, 5]);
    e.remove_event_listener(&str_key("data"), 5);
    assert_eq!(e.emit(&str_key("data")), vec![6]);
}

#[test]
fn off_on_missing_listener_or_key_is_no_op() {
    let mut e = EventEmitter::new();
    e.on(str_key("data"), 1);
    e.remove_event_listener(&str_key("data"), 99);
    e.remove_event_listener(&str_key("other"), 1);
    assert_eq!(e.emit(&str_key("data")), vec![1]);
}

#[test]
fn removing_last_listener_drops_the_key() {
    let mut e = EventEmitter::new();
    e.on(str_key("data"), 1);
    e.remove_event_listener(&str_key("data"), 1);
    assert!(e.get_event_names().is_empty());
}

#[test]
fn emit_with_zero_listeners_is_a_no_op() {
    let mut e = EventEmitter::new();
    let snapshot = e.emit(&str_key("nobody")); // returns, never throws
    assert!(snapshot.is_empty());
    assert!(e.get_event_names().is_empty());
}

#[test]
fn snapshot_is_unaffected_by_removal_during_dispatch() {
    let mut e = EventEmitter::new();
    e.on(str_key("data"), 1);
    e.on(str_key("data"), 2);
    // the emit pass snapshots both listeners before any of them runs
    let snapshot = e.emit(&str_key("data"));
    // the first listener removes the second while the pass is under way:
    // the already-taken snapshot still holds both, in order
    e.remove_event_listener(&str_key("data"), 2);
    assert_eq!(snapshot, vec![1, 2]);
    // only future passes see the removal
    assert_eq!(e.emit(&str_key("data")), vec![1]);
}

#[test]
fn symbol_and_string_keys_are_distinct_spaces() {
    let mut e = EventEmitter::new();
    e.on(EventKey::Symbol(42), 1);
    e.on(str_key("42"), 2);
    assert_eq!(e.emit(&EventKey::Symbol(42)), vec![1]);
    assert_eq!(e.emit(&str_key("42")), vec![2]);
    assert!(!EventKey::Symbol(42).eq_key(&str_key("42")));
    assert!(str_key("a").eq_key(&str_key("a")));
    assert!(!EventKey::Symbol(1).eq_key(&EventKey::Symbol(2)));
}

#[test]
fn from_value_accepts_strings_and_symbols_only() {
    match EventKey::from_value(GuestValue::Str(String::from("data"))) {
        Ok(EventKey::Str(s)) => assert_eq!(s, "data"),
        _ => panic!("a string key was refused"),
    }
    match EventKey::from_value(GuestValue::Symbol(9)) {
        Ok(EventKey::Symbol(id)) => assert_eq!(id, 9),
        _ => panic!("a symbol key was refused"),
    }
    let err = EventKey::from_value(GuestValue::Int(3)).unwrap_err();
    assert_eq!(err.message(), "Expected a string or symbol");
    assert!(EventKey::from_value(GuestValue::Undefined).is_err());
}

#[test]
fn event_names_come_in_storage_order() {
    let mut e = EventEmitter::new();
    e.on(str_key("a"), 1);
    e.on(EventKey::Symbol(5), 2);
    e.on(str_key("b"), 3);
    let names = e.get_event_names();
    assert_eq!(names.len(), 3);
    assert!(names[0].eq_key(&str_key("a")));
    assert!(names[1].eq_key(&EventKey::Symbol(5)));
    assert!(names[2].eq_key(&str_key("b")));
}

#[test]
fn trace_reports_every_symbol_key_and_callback() {
    let mut e = EventEmitter::new();
    e.on(EventKey::Symbol(100), 1);
    e.on(str_key("s"), 2);
    e.on(EventKey::Symbol(100), 3);
    let refs = e.trace_event_emitter();
    assert_eq!(refs, vec![100, 1, 3, 2]);
}

#[test]
fn native_name_shadows_same_named_file() {
    let registry = create_module_instances();
    let files = vec![String::from("events.mjs"), String::from("events")];
    match registry.resolve(&String::from("events"), &files) {
        Resolution::Native(i) => assert_eq!(i, 0),
        _ => panic!("the native module did not shadow the file"),
    }
}

#[test]
fn resolve_prefers_literal_then_cjs_then_mjs() {
    let registry = create_module_instances();
    let all = vec![
        String::from("./foo"),
        String::from("./foo.cjs"),
        String::from("./foo.mjs"),
    ];
    match registry.resolve(&String::from("./foo"), &all) {
        Resolution::File(p) => assert_eq!(p, "./foo"),
        _ => panic!("literal path not taken"),
    }
    let two = vec![String::from("./foo.cjs"), String::from("./foo.mjs")];
    match registry.resolve(&String::from("./foo"), &two) {
        Resolution::File(p) => assert_eq!(p, "./foo.cjs"),
        _ => panic!("cjs pattern not taken"),
    }
}

#[test]
fn resolve_loads_mjs_when_only_mjs_exists() {
    let registry = create_module_instances();
    let files = vec![String::from("./foo.mjs")];
    match registry.resolve(&String::from("./foo"), &files) {
        Resolution::File(p) => assert_eq!(p, "./foo.mjs"),
        _ => panic!("mjs pattern not taken"),
    }
}

#[test]
fn resolve_missing_specifier_is_a_lookup_failure() {
    let registry = create_module_instances();
    let files = vec![String::from("./foo.mjs")];
    assert!(matches!(
        registry.resolve(&String::from("./missing"), &files),
        Resolution::NotFound
    ));
}

#[test]
fn native_initializer_runs_at_most_once() {
    let mut registry = create_module_instances();
    assert!(registry.load_native(0));
    assert!(!registry.load_native(0));
    assert!(!registry.load_native(0));
    // other entries stay untouched
    assert!(!registry.entries[1].initialized);
}

#[test]
fn registering_a_reserved_name_again_replaces_its_initializer() {
    let mut registry = ModuleRegistry::new();
    registry.register(String::from("timers"), 7);
    registry.register(String::from("timers"), 9);
    assert_eq!(registry.entries.len(), 1);
    assert_eq!(registry.entries[0].init_id, 9);
    assert!(!registry.entries[0].initialized);
}

#[test]
fn require_returns_default_when_present_else_namespace() {
    let with_default = vec![
        String::from("EventEmitter"),
        String::from("default"),
        String::from("default"),
    ];
    assert_eq!(default_export_index(&with_default), Some(1));
    let without = vec![String::from("EventEmitter")];
    assert_eq!(default_export_index(&without), None);
}

#[test]
fn declared_export_sets_are_fixed() {
    let events = EventsModule::declare();
    assert_eq!(events, vec!["EventEmitter", "default"]);
    let process = ProcessModule::declare();
    assert_eq!(
        process,
        vec!["argv", "env", "cwd", "arch", "platform", "hrtime", "exit", "default"]
    );
}

#[test]
fn hrtime_splits_elapsed_nanoseconds() {
    assert_eq!(hr_time_parts(2_500_000_001), (2, 500_000_001));
    assert_eq!(hr_time_parts(999_999_999), (0, 999_999_999));
    assert_eq!(hr_time_parts(1_000_000_000), (1, 0));
    assert_eq!(hr_time_parts(0), (0, 0));
}

#[test]
fn host_lifecycle_reaches_exit_zero_after_idle() {
    let mut vm = VirtualMachine::new();
    assert_eq!(vm.state, VmState::Uninitialized);
    vm.install_loader(create_module_instances());
    assert_eq!(vm.state, VmState::Initialized);
    assert_eq!(vm.init(true), None);
    assert_eq!(vm.run_module(true), None);
    assert_eq!(vm.state, VmState::Running);
    // guest work of the entry script: a registration and a dispatch
    let mut e = EventEmitter::new();
    e.on(str_key("data"), 1);
    assert_eq!(e.emit(&str_key("data")), vec![1]);
    vm.idle();
    assert_eq!(vm.state, VmState::Terminated);
    assert_eq!(vm.exit_code(), 0);
}

#[test]
fn startup_failures_exit_with_status_one() {
    let mut vm = VirtualMachine::new();
    vm.install_loader(create_module_instances());
    assert_eq!(vm.init(false), Some(1));
    assert_eq!(vm.init(true), None);
    assert_eq!(vm.run_module(false), Some(1));
    assert_eq!(vm.state, VmState::Initialized);
    assert_eq!(vm.run_module(true), None);
}

#[test]
fn reserved_native_names_are_registered_in_order() {
    let registry = create_module_instances();
    let names: Vec<&str> = registry
        .entries
        .iter()
        .map(|e| e.name.as_str())
        .collect();
    assert_eq!(names, vec!["events", "fs", "os", "path", "process"]);
}
