use fontwatch::config::Config;
use fontwatch::config::ConfigError;

#[test]
fn load() {
    let content = r#"{"path": "fonts"}"#;
    let config = Config::load(content).unwrap();
    assert_eq!(config.path, "fonts");
}

#[test]
fn load_rejects_malformed_content() {
    assert!(matches!(Config::load("not json"), Err(ConfigError::Malformed)));
    assert!(matches!(Config::load(r#"{"path": 5}"#), Err(ConfigError::Malformed)));
    assert!(matches!(Config::load(r#"{"other": "x"}"#), Err(ConfigError::Malformed)));
}

#[test]
fn load_rejects_untame_content() {
    // A run of 19 or more digits, as in this exponent, would overflow the
    // parser's exponent accumulator.
    let huge_exponent = r#"{"path": "x", "n": 1e99999999999999999999}"#;
    assert!(matches!(Config::load(huge_exponent), Err(ConfigError::Malformed)));
    // An oversized document would overflow the parser's 16-bit key
    // bookkeeping.
    let oversized = format!(r#"{{"path": "x", "pad": "{}"}}"#, "a".repeat(17000));
    assert!(matches!(Config::load(&oversized), Err(ConfigError::Malformed)));
}

#[test]
fn load_accepts_long_but_tame_numbers() {
    let content = r#"{"path": "fonts", "n": 123456789012345678}"#;
    let config = Config::load(content).unwrap();
    assert_eq!(config.path, "fonts");
}
