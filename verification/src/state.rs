//! The lifecycle state of a plugin, and its mathematical view.

use vstd::prelude::*;

verus! {

/// The lifecycle state of a registered plugin.
///
/// Only the lifecycle operations of `PluginManager` mutate it; loading
/// produces `Loaded`, enabling and disabling move between `Enabled` and
/// `Disabled`, and unloading removes the entry altogether.
#[derive(Debug, Clone, PartialEq)]
pub enum PluginState {
    /// Not yet loaded.
    Unloaded,
    /// Loaded, but not yet enabled.
    Loaded,
    /// Loaded and enabled: events are delivered to it.
    Enabled,
    /// Loaded but disabled: events are not delivered to it.
    Disabled,
    /// In an error state, with a reason.
    Error(String),
}

/// The view of a `PluginState`: the same shape over `Seq<char>`.
pub ghost enum StateView {
    Unloaded,
    Loaded,
    Enabled,
    Disabled,
    Error(Seq<char>),
}

impl View for PluginState {
    type V = StateView;

    open spec fn view(&self) -> StateView {
        match self {
            PluginState::Unloaded => StateView::Unloaded,
            PluginState::Loaded => StateView::Loaded,
            PluginState::Enabled => StateView::Enabled,
            PluginState::Disabled => StateView::Disabled,
            PluginState::Error(m) => StateView::Error(m@),
        }
    }
}

impl PluginState {
    /// True iff the state is `Enabled`.
    pub fn is_enabled(&self) -> (r: bool)
        ensures
            r == (self@ is Enabled),
    {
        match self {
            PluginState::Enabled => true,
            _ => false,
        }
    }

    /// True iff the state is `Loaded`.
    pub fn is_loaded(&self) -> (r: bool)
        ensures
            r == (self@ is Loaded),
    {
        match self {
            PluginState::Loaded => true,
            _ => false,
        }
    }

    /// True iff the state is `Disabled`.
    pub fn is_disabled(&self) -> (r: bool)
        ensures
            r == (self@ is Disabled),
    {
        match self {
            PluginState::Disabled => true,
            _ => false,
        }
    }
}

} // verus!
