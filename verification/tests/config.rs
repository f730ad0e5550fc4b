use mcp::config::{AppConfig, ConfigLayer};

#[test]
fn defaults_apply_where_no_source_speaks() {
    let config = AppConfig::load(ConfigLayer::empty(), ConfigLayer::empty());
    assert_eq!(config.server.host, "127.0.0.1");
    assert_eq!(config.server.port, 3000);
    assert_eq!(config.server.api_key, None);
    assert_eq!(config.context.max_chunk_size, 1000);
    assert_eq!(config.context.chunk_overlap, 200);
    assert_eq!(config.context.max_results, 10);
    assert_eq!(config.embedding.dimension, 768);
}

#[test]
fn the_environment_overrides_the_file() {
    let mut file = ConfigLayer::empty();
    file.host = Some("0.0.0.0".to_string());
    file.port = Some(8080);
    file.api_key = Some("from-file".to_string());
    file.max_chunk_size = Some(500);
    file.dimension = Some(64);
    let mut environment = ConfigLayer::empty();
    environment.port = Some(9090);
    environment.max_chunk_size = Some(250);
    environment.max_results = Some(3);
    let config = AppConfig::load(file, environment);
    assert_eq!(config.server.host, "0.0.0.0");
    assert_eq!(config.server.port, 9090);
    assert_eq!(config.server.api_key, Some("from-file".to_string()));
    assert_eq!(config.context.max_chunk_size, 250);
    assert_eq!(config.context.chunk_overlap, 200);
    assert_eq!(config.context.max_results, 3);
    assert_eq!(config.embedding.dimension, 64);
}
