use seb_mul_game::logger::{Level, Logger};

#[test]
fn quiet_logger_shows_warn_and_info_only() {
    let l = Logger::new(0);
    assert_eq!(l.warn("w"), Some("[WARN] w".to_string()));
    assert_eq!(l.info("i"), Some("[INFO] i".to_string()));
    assert_eq!(l.verbose("v"), None);
    assert_eq!(l.debug("d"), None);
    assert_eq!(l.trace("t"), None);
}

#[test]
fn verbose_levels() {
    assert_eq!(Logger::new(1).verbose("v"), Some("[VERB] v".to_string()));
    assert_eq!(Logger::new(1).debug("d"), None);
    assert_eq!(Logger::new(2).debug("d"), Some("[DEBG] d".to_string()));
    assert_eq!(Logger::new(2).trace("t"), None);
    assert_eq!(Logger::new(3).trace("t"), Some("[TRCE] t".to_string()));
    assert!(Logger::new(255).enabled(Level::Trace));
    assert_eq!(Level::Debug.tag(), "DEBG");
    assert_eq!(Level::Verbose.min_verbosity(), 1);
}
