use tproxy::config::{Config, ProxySettings};

#[test]
fn test_default_config() {
    let config = Config::default();
    assert_eq!(config.default_profile, "ios_safari");
    assert_eq!(config.profiles.len(), 1);
    assert_eq!(config.proxy_settings.proxy_host, "127.0.0.1");
}

#[test]
fn test_get_profile() {
    let config = Config::default();
    let profile = config.get_profile("ios_safari");
    assert!(profile.is_some());
    assert_eq!(profile.unwrap().name, "ios_safari");
}

#[test]
fn test_proxy_settings() {
    // An absent configuration falls back to direct mode.
    let settings = ProxySettings::default();
    assert_eq!(settings.proxy_type, "direct");
    assert_eq!(settings.proxy_port, 1080);
    assert!(settings.is_direct());
}

#[test]
fn test_direct_mode() {
    let mut settings = ProxySettings::default();
    settings.proxy_type = "direct".to_string();
    assert!(settings.is_direct());
    settings.proxy_type = "DIRECT".to_string();
    assert!(settings.is_direct());
    settings.proxy_type = "socks5".to_string();
    assert!(!settings.is_direct());
}

#[test]
fn default_profile_resolves() {
    let config = Config::default();
    assert!(config.get_default_profile().is_some());
}
