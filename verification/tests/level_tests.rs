use logging::level;
use logging::level::LevelNames;

#[test]
fn named_reference_points_are_ordered() {
    assert!(level::ALL < level::DEBUG);
    assert!(level::DEBUG < level::INFO);
    assert!(level::INFO < level::SUCCESS);
    assert!(level::SUCCESS < level::WARN);
    assert!(level::WARN < level::ERROR);
    assert!(level::ERROR < level::CRITICAL);
    assert!(level::CRITICAL < level::FATAL);
    assert!(level::FATAL < level::NONE);
    assert_eq!(level::ALL, level::MIN);
    assert_eq!(level::NONE, level::MAX);
    assert_eq!(level::DEBUG, 0);
    assert_eq!(level::INFO, 10);
    assert_eq!(level::FATAL, 60);
}

#[test]
fn registered_level_names_are_looked_up() {
    let mut names = LevelNames::new();
    assert_eq!(level::get_level(&names, 5), None);
    level::add_level(&mut names, 5, "TRACE".to_string());
    level::add_level(&mut names, level::INFO, "INFO".to_string());
    assert_eq!(level::get_level(&names, 5), Some("TRACE".to_string()));
    assert_eq!(level::get_level(&names, level::INFO), Some("INFO".to_string()));
    assert_eq!(level::get_level(&names, 6), None);
}

#[test]
fn re_registering_a_level_replaces_its_name() {
    let mut names = LevelNames::new();
    level::add_level(&mut names, 42, "FIRST".to_string());
    level::add_level(&mut names, 42, "SECOND".to_string());
    assert_eq!(level::get_level(&names, 42), Some("SECOND".to_string()));
}
