//! The capability that every plugin offers to the loader.

use crate::metadata::{AppendMethod, MetadataView, PluginMetadata};
use vstd::prelude::*;

verus! {

/// A unit of the panel with a lifecycle, a descriptor and, for most, an
/// element to show.
///
/// The spec functions are the plugin's model. They come with defaults, so
/// that an implementation outside verified code writes the executable methods
/// only; a verified one overrides them and is held to them. `descriptor` and
/// `widget` name what the two accessors return: the accessors are pure, two
/// calls on one state give one answer. `starts_to` and `stops_to` say what a
/// start and a stop may do to the plugin; by default, anything.
pub trait Plugin: Sized {
    /// The kind of visual element that the plugin shows.
    type Widget;

    /// What `metadata` returns in this state.
    open spec fn descriptor(&self) -> MetadataView {
        arbitrary()
    }

    /// What `get_widget` returns in this state.
    open spec fn widget(&self) -> Option<(&Self::Widget, AppendMethod)> {
        arbitrary()
    }

    /// Whether `on_start`, called in this state, may leave the plugin as `next`.
    open spec fn starts_to(&self, next: &Self) -> bool {
        true
    }

    /// Whether `on_stop`, called in this state, may leave the plugin as `next`.
    open spec fn stops_to(&self, next: &Self) -> bool {
        true
    }

    /// The plugin's descriptor. A pure accessor.
    fn metadata(&self) -> (m: PluginMetadata)
        ensures
            m@ == self.descriptor(),
    ;

    /// Starts the plugin. There is no way to fail: a plugin that cannot
    /// start says so by means of its own.
    fn on_start(&mut self)
        ensures
            old(self).starts_to(final(self)),
    ;

    /// Stops the plugin.
    fn on_stop(&mut self)
        ensures
            old(self).stops_to(final(self)),
    ;

    /// Stops the plugin and starts it again.
    fn on_reload(&mut self)
        ensures
            exists|mid: Self| old(self).stops_to(&mid) && mid.starts_to(final(self)),
    ;

    /// The last call that a plugin receives, at shutdown.
    fn on_cleanup(&mut self);

    /// The plugin's element and the way to insert it, or `None` for a plugin
    /// that shows nothing. A pure accessor.
    fn get_widget(&self) -> (w: Option<(&Self::Widget, AppendMethod)>)
        ensures
            w == self.widget(),
    ;
}

} // verus!
