use tunnel_server::ServerConfig;

#[test]
fn test_server_config_default_ports() {
    let config = ServerConfig {
        http_port: 8080,
        tcp_port: 9090,
        http_addr: "0.0.0.0:8080".to_string(),
        tcp_addr: "0.0.0.0:9090".to_string(),
    };

    assert_eq!(config.http_port, 8080);
    assert_eq!(config.tcp_port, 9090);
    assert_eq!(config.http_addr, "0.0.0.0:8080");
    assert_eq!(config.tcp_addr, "0.0.0.0:9090");
}

#[test]
fn test_server_config_custom_ports() {
    let config = ServerConfig {
        http_port: 3000,
        tcp_port: 4000,
        http_addr: "0.0.0.0:3000".to_string(),
        tcp_addr: "0.0.0.0:4000".to_string(),
    };

    assert_eq!(config.http_port, 3000);
    assert_eq!(config.tcp_port, 4000);
    assert_eq!(config.http_addr, "0.0.0.0:3000");
    assert_eq!(config.tcp_addr, "0.0.0.0:4000");
}

#[test]
fn test_server_config_from_ports() {
    let config = ServerConfig::from_ports(8080, 9090);
    assert_eq!(config.http_port, 8080);
    assert_eq!(config.tcp_port, 9090);
    assert_eq!(config.http_addr, "0.0.0.0:8080");
    assert_eq!(config.tcp_addr, "0.0.0.0:9090");
}
