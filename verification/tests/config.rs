use clob::config::{ClobConfig, ConfigTrait};
use clob::error::ConfigError;

#[test]
fn port_is_read_from_decimal_digits() {
    assert_eq!(ClobConfig::get_config(Some("8000")).map(|c| c.port()), Ok(8000));
    assert_eq!(ClobConfig::get_config(Some("1")).map(|c| c.port()), Ok(1));
    assert_eq!(ClobConfig::get_config(Some("65535")).map(|c| c.port()), Ok(65535));
    assert_eq!(ClobConfig::get_config(Some("0080")).map(|c| c.port()), Ok(80));
}

#[test]
fn missing_port_is_refused() {
    assert_eq!(ClobConfig::get_config(None), Err(ConfigError::InvalidPort));
}

#[test]
fn invalid_port_is_refused() {
    for text in ["", "0", "000", "65536", "99999999999999999999", "80a", "a80", " 80", "+80", "-1", "8 0", "Invalid Port", "８０"] {
        assert_eq!(ClobConfig::get_config(Some(text)), Err(ConfigError::InvalidPort), "{:?}", text);
    }
}
