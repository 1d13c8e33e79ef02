use logging::level;
use logging::{add_handler, set_level, LogEvent, Logger, PathError, Registry};

fn resolve(reg: &mut Registry, path: &str) -> Logger {
    Logger::new(reg, path).expect("path should be valid")
}

fn event(reg: &Registry, l: &Logger, msg: &str, severity: i32) -> Option<LogEvent> {
    l.log(reg, msg.to_string(), severity)
}

#[test]
fn resolving_twice_yields_the_same_node() {
    let mut reg = Registry::new();
    let a = resolve(&mut reg, "svc.worker");
    let b = resolve(&mut reg, "svc.worker");
    assert!(a.same_node(&b));
    // A mutation through one handle is visible through the other.
    a.set_level(&mut reg, level::INFO);
    assert!(event(&reg, &b, "m", level::INFO).is_some());
    assert!(event(&reg, &b, "m", level::DEBUG).is_none());
}

#[test]
fn resolving_a_prefix_yields_the_intermediate_node() {
    let mut reg = Registry::new();
    let leaf = resolve(&mut reg, "a.b.c");
    let mid = resolve(&mut reg, "a.b");
    mid.set_level(&mut reg, level::WARN);
    assert!(event(&reg, &leaf, "m", level::WARN).is_some());
    let ev = event(&reg, &leaf, "m", level::WARN).unwrap();
    assert_eq!(ev.logger, "a.b.c");
}

#[test]
fn empty_path_resolves_to_the_root() {
    let mut reg = Registry::new();
    let root = resolve(&mut reg, "");
    let again = resolve(&mut reg, "");
    assert!(root.same_node(&again));
    // The free `set_level` is the broadcast from the root.
    set_level(&mut reg, level::ERROR);
    assert!(event(&reg, &root, "m", level::ERROR).is_some());
    assert!(event(&reg, &root, "m", level::WARN).is_none());
}

#[test]
fn malformed_paths_are_rejected() {
    let mut reg = Registry::new();
    for bad in [".", ".a", "a.", "a..b", "..", "a.b..c"] {
        match Logger::new(&mut reg, bad) {
            Err(PathError::InvalidPathSegment) => {}
            Ok(_) => panic!("path {:?} should have been rejected", bad),
        }
    }
    // The failed resolutions changed nothing: "a" still inherits the
    // root's default of logging nothing.
    let a = resolve(&mut reg, "a");
    assert!(event(&reg, &a, "m", level::FATAL).is_none());
}

#[test]
fn inheritance_snapshots_the_parent_current_state() {
    let mut reg = Registry::new();
    let a = resolve(&mut reg, "a");
    a.set_level(&mut reg, level::INFO);
    let b = resolve(&mut reg, "a.b");
    // "a.b" inherits the level "a" has now, not the level "a" was
    // created with.
    assert!(event(&reg, &b, "m", level::INFO).is_some());
    assert!(event(&reg, &b, "m", level::DEBUG).is_none());
}

#[test]
fn set_level_twice_is_idempotent() {
    let mut reg = Registry::new();
    let a = resolve(&mut reg, "a");
    let b = resolve(&mut reg, "a.b");
    let c = resolve(&mut reg, "a.c");
    a.set_level(&mut reg, level::WARN);
    a.set_level(&mut reg, level::WARN);
    for l in [&a, &b, &c] {
        assert!(event(&reg, l, "m", level::WARN).is_some());
        assert!(event(&reg, l, "m", level::WARN - 1).is_none());
    }
}

#[test]
fn filtering_boundary_is_inclusive() {
    let mut reg = Registry::new();
    let a = resolve(&mut reg, "a");
    a.set_level(&mut reg, level::WARN);
    assert!(event(&reg, &a, "m", level::WARN).is_some());
    assert!(event(&reg, &a, "m", level::WARN - 1).is_none());
}

#[test]
fn sentinel_levels_log_everything_or_nothing() {
    let mut reg = Registry::new();
    let a = resolve(&mut reg, "a");
    a.set_level(&mut reg, level::ALL);
    assert!(event(&reg, &a, "m", i32::MIN).is_some());
    a.set_level(&mut reg, level::NONE);
    assert!(event(&reg, &a, "m", level::FATAL).is_none());
    // NONE is still inclusive at the very top of the scale.
    assert!(event(&reg, &a, "m", i32::MAX).is_some());
}

fn handlers_of(reg: &Registry, l: &Logger) -> Vec<u64> {
    event(reg, l, "m", i32::MAX).expect("severity MAX passes every threshold").handlers
}

#[test]
fn handlers_propagate_to_current_descendants_only() {
    let mut reg = Registry::new();
    let a = resolve(&mut reg, "a");
    a.add_handler(&mut reg, 1);
    let b = resolve(&mut reg, "a.b");
    assert_eq!(handlers_of(&reg, &b), vec![1]);
    let c = resolve(&mut reg, "a.c");
    add_handler(&mut reg, 2);
    // The broadcast reaches every node that exists at call time.
    assert_eq!(handlers_of(&reg, &b), vec![1, 2]);
    assert_eq!(handlers_of(&reg, &c), vec![1, 2]);
    // A node created afterwards receives only its parent's snapshot:
    // "q" hangs off the root, which carries just the broadcast handler.
    let q = resolve(&mut reg, "q");
    assert_eq!(handlers_of(&reg, &q), vec![2]);
    // "a.d" snapshots "a", which by now carries both.
    let d = resolve(&mut reg, "a.d");
    assert_eq!(handlers_of(&reg, &d), vec![1, 2]);
}

#[test]
fn handler_added_twice_fires_twice() {
    let mut reg = Registry::new();
    let a = resolve(&mut reg, "a");
    a.add_handler(&mut reg, 9);
    let b = resolve(&mut reg, "a.b");
    b.add_handler(&mut reg, 9);
    assert_eq!(handlers_of(&reg, &b), vec![9, 9]);
}

#[test]
fn handlers_fire_in_insertion_order() {
    let mut reg = Registry::new();
    let a = resolve(&mut reg, "a");
    a.add_handler(&mut reg, 10);
    a.add_handler(&mut reg, 20);
    assert_eq!(handlers_of(&reg, &a), vec![10, 20]);
}

#[test]
fn end_to_end_console_scenario() {
    let mut reg = Registry::new();
    let console: u64 = 7;
    add_handler(&mut reg, console);
    set_level(&mut reg, level::INFO);
    let worker = resolve(&mut reg, "svc.worker");
    let ev = worker
        .log(&reg, "started".to_string(), level::INFO)
        .expect("INFO reaches the inherited INFO threshold");
    assert_eq!(ev.handlers, vec![console]);
    assert_eq!(ev.level, level::INFO);
    assert_eq!(ev.message, "started");
    assert_eq!(ev.logger, "svc.worker");
    assert!(worker.log(&reg, "tick".to_string(), level::DEBUG).is_none());
}

#[test]
fn severity_sugar_matches_the_scale() {
    let mut reg = Registry::new();
    let a = resolve(&mut reg, "a");
    a.set_level(&mut reg, level::WARN);
    assert!(a.debug(&reg, "m".to_string()).is_none());
    assert!(a.info(&reg, "m".to_string()).is_none());
    assert!(a.success(&reg, "m".to_string()).is_none());
    assert!(a.warn(&reg, "m".to_string()).is_some());
    assert!(a.error(&reg, "m".to_string()).is_some());
    assert!(a.critical(&reg, "m".to_string()).is_some());
    assert!(a.fatal(&reg, "m".to_string()).is_some());
    assert_eq!(a.error(&reg, "m".to_string()).unwrap().level, level::ERROR);
}

#[test]
fn log_carries_the_message_through() {
    let mut reg = Registry::new();
    let a = resolve(&mut reg, "a");
    a.set_level(&mut reg, level::ALL);
    let ev = a.log(&reg, "hello world".to_string(), level::DEBUG).unwrap();
    assert_eq!(ev.message, "hello world");
    assert_eq!(ev.logger, "a");
    assert_eq!(ev.level, level::DEBUG);
    assert_eq!(ev.handlers, Vec::<u64>::new());
}

#[test]
fn paths_split_at_every_dot() {
    assert_eq!(
        logging::parse_path("a.b.c"),
        Ok(vec!["a".to_string(), "b".to_string(), "c".to_string()])
    );
    assert_eq!(logging::parse_path("svc"), Ok(vec!["svc".to_string()]));
    assert_eq!(logging::parse_path(""), Ok(Vec::new()));
}

#[test]
fn paths_with_empty_segments_do_not_parse() {
    assert_eq!(logging::parse_path(".a"), Err(PathError::InvalidPathSegment));
    assert_eq!(logging::parse_path("a."), Err(PathError::InvalidPathSegment));
    assert_eq!(logging::parse_path("a..b"), Err(PathError::InvalidPathSegment));
}
