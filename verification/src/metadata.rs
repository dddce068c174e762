//! What a plugin says of itself: its name, its zone and its place in the
//! load order.

use crate::text::slice_texts;
use vstd::prelude::*;

verus! {

/// The zones of the panel. `Background` is a zone like the others here; a
/// layout is free to show nothing of it.
#[derive(Clone, Copy, Debug, PartialEq, Eq, PartialOrd, Ord, Hash, Structural)]
pub enum PanelPosition {
    TopLeft,
    TopCenter,
    TopRight,
    BottomLeft,
    BottomCenter,
    BottomRight,
    Background,
}

/// How an element enters the container of its zone: at the end, at the
/// start, or in place of what the container held.
#[derive(Clone, Copy, Debug, PartialEq, Eq, Hash, Structural)]
pub enum AppendMethod {
    Append,
    Prepend,
    SetContent,
}

/// The descriptor that a plugin hands out on demand.
#[derive(Clone, Debug)]
pub struct PluginMetadata {
    /// The key under which the plugin is registered.
    pub name: String,
    /// The zone that the plugin's element belongs to.
    pub position: PanelPosition,
    /// Second sort key: orders the plugins of one priority.
    pub order: u32,
    /// First sort key: a lower priority loads earlier.
    pub priority: u32,
    /// Names that must be registered before this plugin may start.
    pub deps: Vec<&'static str>,
}

/// A descriptor as a mathematical value.
pub struct MetadataView {
    pub name: Seq<char>,
    pub position: PanelPosition,
    pub order: u32,
    pub priority: u32,
    pub deps: Seq<Seq<char>>,
}

impl View for PluginMetadata {
    type V = MetadataView;

    open spec fn view(&self) -> MetadataView {
        MetadataView {
            name: self.name@,
            position: self.position,
            order: self.order,
            priority: self.priority,
            deps: slice_texts(self.deps@),
        }
    }
}

/// The descriptors of a sequence as mathematical values.
pub open spec fn views(metas: Seq<PluginMetadata>) -> Seq<MetadataView> {
    Seq::new(metas.len(), |i: int| metas[i]@)
}

} // verus!
