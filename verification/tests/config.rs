use rustdb::config::{Config, ConfigError};

#[test]
fn default_config_valid() {
    let c = Config::default();
    c.validate().unwrap();
    assert_eq!(c.page_size, 8192);
}

#[test]
fn config_default_is_valid() {
    let c = Config::default_config();
    assert_eq!(c.page_size, 8192);
    assert!(c.wal_sync);
}

#[test]
fn defaults_are_the_documented_ones() {
    let c = rustdb::Config::default_config();
    assert_eq!(c.page_size, 8192);
    assert_eq!(c.buffer_pool_size, 1024);
    assert!(c.wal_sync);
    assert_eq!(c.listen_addr, "127.0.0.1:7643");
    assert_eq!(c.max_connections, 16);
    assert_eq!(c.data_dir, ".");
}

#[test]
fn validate_refuses_bad_page_sizes() {
    let mut c = Config::default_config();
    c.page_size = 0;
    assert_eq!(c.validate(), Err(ConfigError::PageSize));
    c.page_size = 255;
    assert_eq!(c.validate(), Err(ConfigError::PageSize));
    c.page_size = 8193;
    assert_eq!(c.validate(), Err(ConfigError::PageSize));
    c.page_size = 256;
    assert_eq!(c.validate(), Ok(()));
    c.page_size = 4096;
    assert_eq!(c.validate(), Ok(()));
}

#[test]
fn validate_refuses_an_empty_buffer_pool() {
    let mut c = Config::default_config();
    c.buffer_pool_size = 0;
    assert_eq!(c.validate(), Err(ConfigError::BufferPoolSize));
    // the page size is looked at first
    c.page_size = 100;
    assert_eq!(c.validate(), Err(ConfigError::PageSize));
    c.page_size = 512;
    c.buffer_pool_size = 1;
    assert_eq!(c.validate(), Ok(()));
}
