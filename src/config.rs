//! Settings of the forecast providers.

use vstd::prelude::*;

verus! {

/// Where downloaded forecast files are kept.
#[derive(Clone, Debug)]
pub enum StorageConfig {
    /// In the browser's storage, under names that start with `prefix`.
    WebSys { prefix: String },
}

/// Settings of the NOAA forecast provider.
#[derive(Debug)]
pub struct NoaaProviderConfig {
    pub enabled: bool,
    pub gribs: StorageConfig,
}

/// Which provider to start, with its settings.
#[derive(Debug)]
pub enum ProviderConfig {
    Noaa(NoaaProviderConfig),
    Vr,
}

} // verus!
