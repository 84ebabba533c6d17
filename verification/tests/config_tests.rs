use hl7_forge::config::{parse_port, Config, MllpConfig, StoreConfig};
use std::time::Duration;

#[test]
fn test_defaults() {
    let config = Config::default();
    assert_eq!(config.server.mllp_port, 2575);
    assert_eq!(config.server.web_port, 8080);
    assert_eq!(config.logging.level, "info");
    assert_eq!(config.store.max_messages, 10_000);
    assert_eq!(config.store.max_memory_mb, 512);
    assert_eq!(config.mllp.max_message_size_mb, 10);
    assert_eq!(config.mllp.read_timeout_secs, 60);
    assert_eq!(config.mllp.write_timeout_secs, 30);
}

#[test]
fn test_convenience_methods() {
    let store = StoreConfig::default();
    assert_eq!(store.max_memory_bytes(), 512 * 1024 * 1024);

    let mllp = MllpConfig::default();
    assert_eq!(mllp.max_message_size(), 10 * 1024 * 1024);
    assert_eq!(mllp.read_timeout(), Duration::from_secs(60));
    assert_eq!(mllp.write_timeout(), Duration::from_secs(30));
}

#[test]
fn timeouts_follow_the_configured_seconds() {
    let mllp = MllpConfig { max_message_size_mb: 1, read_timeout_secs: 7, write_timeout_secs: 0 };
    assert_eq!(mllp.read_timeout(), Duration::from_secs(7));
    assert_eq!(mllp.write_timeout(), Duration::from_secs(0));
    assert_eq!(mllp.max_message_size(), 1_048_576);
}

#[test]
fn ports_are_read_from_decimal_texts() {
    assert_eq!(parse_port("2575"), Some(2575));
    assert_eq!(parse_port("0"), Some(0));
    assert_eq!(parse_port("65535"), Some(65535));
    assert_eq!(parse_port("65536"), None);
    assert_eq!(parse_port("99999999999999999999"), None);
    assert_eq!(parse_port("+80"), Some(80));
    assert_eq!(parse_port("00080"), Some(80));
    assert_eq!(parse_port(""), None);
    assert_eq!(parse_port("+"), None);
    assert_eq!(parse_port("-1"), None);
    assert_eq!(parse_port("80 "), None);
    assert_eq!(parse_port(" 80"), None);
    assert_eq!(parse_port("8o"), None);
    assert_eq!(parse_port("++8"), None);
    for text in ["2575", "0", "65535", "65536", "+80", "00080", "", "+", "-1", "80 ", "8o"] {
        assert_eq!(parse_port(text), text.parse::<u16>().ok());
    }
}

#[test]
fn overrides_replace_what_they_name() {
    let config = Config::default().with_overrides(Some("3000"), None, None);
    assert_eq!(config.server.mllp_port, 3000);
    assert_eq!(config.server.web_port, 8080);
    assert_eq!(config.logging.level, "info");

    let config = Config::default().with_overrides(Some("port"), Some("9090"), Some("debug".to_string()));
    assert_eq!(config.server.mllp_port, 2575);
    assert_eq!(config.server.web_port, 9090);
    assert_eq!(config.logging.level, "debug");
    assert_eq!(config.store.max_messages, 10_000);
    assert_eq!(config.mllp.write_timeout_secs, 30);
}
