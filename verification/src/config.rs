//! Configuration and its defaults.

use vstd::prelude::*;

verus! {

/// Runtime configuration.
#[derive(Debug, Clone)]
pub struct Config {
    /// Page size in bytes.
    pub page_size: u32,
    /// Buffer pool size, in pages.
    pub buffer_pool_size: usize,
    /// Whether the write-ahead log is synced on commit.
    pub wal_sync: bool,
    /// Listen address of the server.
    pub listen_addr: String,
    /// Most connections served at a time.
    pub max_connections: usize,
    /// Directory of the heap files, the log and the catalog.
    pub data_dir: String,
}

/// Why a configuration is refused.
#[derive(Debug, Clone, Copy, PartialEq, Eq)]
pub enum ConfigError {
    /// The page size is zero or no multiple of 256.
    PageSize,
    /// The buffer pool has no page.
    BufferPoolSize,
}

impl Default for Config {
    fn default() -> (c: Self)
        ensures
            c.is_default(),
    {
        Self {
            page_size: 8192,
            buffer_pool_size: 1024,
            wal_sync: true,
            listen_addr: "127.0.0.1:7643".to_owned(),
            max_connections: 16,
            data_dir: ".".to_owned(),
        }
    }
}

impl Config {
    /// The configuration holds the defaults: 8 KB pages, a pool of 1024
    /// pages, a synced log, the local listen address, 16 connections and
    /// the current directory.
    pub open spec fn is_default(&self) -> bool {
        &&& self.page_size == 8192
        &&& self.buffer_pool_size == 1024
        &&& self.wal_sync
        &&& self.listen_addr@ == "127.0.0.1:7643"@
        &&& self.max_connections == 16
        &&& self.data_dir@ == "."@
    }

    /// What `validate` answers.
    pub open spec fn verdict(&self) -> Result<(), ConfigError> {
        if self.page_size == 0 || self.page_size % 256 != 0 {
            Err(ConfigError::PageSize)
        } else if self.buffer_pool_size == 0 {
            Err(ConfigError::BufferPoolSize)
        } else {
            Ok(())
        }
    }

    /// The default configuration.
    pub fn default_config() -> (c: Self)
        ensures
            c.is_default(),
            c.verdict() is Ok,
    {
        Self::default()
    }

    /// Checks the page size, which must be a positive multiple of 256,
    /// and then the buffer pool size, which must be positive.
    pub fn validate(&self) -> (res: Result<(), ConfigError>)
        ensures
            res == self.verdict(),
    {
        if self.page_size == 0 || self.page_size % 256 != 0 {
            return Err(ConfigError::PageSize);
        }
        if self.buffer_pool_size == 0 {
            return Err(ConfigError::BufferPoolSize);
        }
        Ok(())
    }
}

} // verus!
