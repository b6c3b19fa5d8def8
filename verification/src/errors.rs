//! Error taxonomy of the plugin host.

use vstd::prelude::*;

verus! {

/// Failures surfaced by the plugin host.
///
/// Each variant carries a human-readable cause; callers distinguish the
/// operation that failed by the variant, never by the message text.
#[derive(Debug, Clone)]
pub enum PluginError {
    /// A module could not be opened, its factory export could not be
    /// resolved, or its load hook failed.
    LoadError(String),
    /// An illegal enable transition, or a failed enable hook.
    EnableError(String),
    /// An illegal disable transition, or a failed disable hook.
    DisableError(String),
}

impl PluginError {
    /// The human-readable cause carried by the error.
    pub fn message(&self) -> (r: &String)
        ensures
            self matches PluginError::LoadError(m) ==> r == m,
            self matches PluginError::EnableError(m) ==> r == m,
            self matches PluginError::DisableError(m) ==> r == m,
    {
        match self {
            PluginError::LoadError(m) => m,
            PluginError::EnableError(m) => m,
            PluginError::DisableError(m) => m,
        }
    }
}

} // verus!
