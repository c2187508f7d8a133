//! Server configuration: logger level and engine settings (capacity and
//! snapshot persistence). The values mirror what the configuration file
//! provides; reading and deserializing that file is left to the embedding
//! program, which hands the plain values over.

use vstd::prelude::*;

verus! {

/// Whole-server configuration.
pub struct Config {
    pub logger: Logger,
    pub engine: Engine,
}

/// Logger settings; `level` is the textual log level.
pub struct Logger {
    pub level: String,
}

/// Storage-engine settings.
pub struct Engine {
    /// Maximum number of items in the cache; `None` means unbounded.
    pub max_items: Option<u64>,
    /// Snapshot persistence; `None` disables it entirely.
    pub persistence: Option<Persistence>,
}

/// Snapshot persistence settings.
pub struct Persistence {
    /// Enable or disable writing snapshots.
    pub enabled: bool,
    /// File the snapshot is written to.
    pub file: String,
    /// Write a snapshot every this many mutations.
    pub flush_every_changes: u64,
}

/// Mathematical image of [`Engine`].
#[verifier::ext_equal]
pub struct EngineV {
    pub max_items: Option<u64>,
    pub persistence: Option<PersistenceV>,
}

/// Mathematical image of [`Persistence`].
#[verifier::ext_equal]
pub struct PersistenceV {
    pub enabled: bool,
    pub file: Seq<char>,
    pub flush_every_changes: u64,
}

impl View for Persistence {
    type V = PersistenceV;

    open spec fn view(&self) -> PersistenceV {
        PersistenceV {
            enabled: self.enabled,
            file: self.file@,
            flush_every_changes: self.flush_every_changes,
        }
    }
}

impl View for Engine {
    type V = EngineV;

    open spec fn view(&self) -> EngineV {
        EngineV {
            max_items: self.max_items,
            persistence: match self.persistence {
                Some(p) => Some(p@),
                None => None,
            },
        }
    }
}

/// Log level used when the configuration file does not name one.
pub fn default_level() -> (r: String)
    ensures
        r@ == "info"@,
{
    String::from_str("info")
}

/// Snapshot file used when the configuration file does not name one.
pub fn default_file() -> (r: String)
    ensures
        r@ == "./tmp/umd/persistence.bin"@,
{
    String::from_str("./tmp/umd/persistence.bin")
}

/// Mutation threshold used when the configuration file does not name one.
pub fn default_flush_every_changes() -> (r: u64)
    ensures
        r == 1000u64,
{
    1000
}

impl Clone for Persistence {
    fn clone(&self) -> (r: Self)
        ensures
            r == *self,
    {
        Persistence {
            enabled: self.enabled,
            file: self.file.clone(),
            flush_every_changes: self.flush_every_changes,
        }
    }
}

impl Clone for Engine {
    fn clone(&self) -> (r: Self)
        ensures
            r == *self,
    {
        Engine {
            max_items: self.max_items,
            persistence: match &self.persistence {
                Some(p) => Some(p.clone()),
                None => None,
            },
        }
    }
}

impl Default for Engine {
    /// An unbounded engine without persistence.
    fn default() -> (r: Self)
        ensures
            r.max_items is None,
            r.persistence is None,
    {
        Engine { max_items: None, persistence: None }
    }
}

} // verus!
