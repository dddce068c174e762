//! The registry: the plugins that were registered, each under its name.

use crate::metadata::{views, AppendMethod, MetadataView, PanelPosition, PluginMetadata};
use crate::plugin::Plugin;
use crate::text::{find_text, texts};
use vstd::prelude::*;

verus! {

/// A registry as a mathematical value: the names in the order in which they
/// first came, and beside each name the plugin that holds it now.
pub struct RegistryView<P> {
    pub names: Seq<Seq<char>>,
    pub plugins: Seq<P>,
}

impl<P: Plugin> RegistryView<P> {
    /// The descriptor of every plugin, in registry order.
    pub open spec fn descriptors(self) -> Seq<MetadataView> {
        Seq::new(self.plugins.len(), |i: int| self.plugins[i].descriptor())
    }

    /// What every plugin brings to the panel, in registry order.
    pub open spec fn placements(&self) -> Seq<(PanelPosition, Option<(&P::Widget, AppendMethod)>)> {
        Seq::new(
            self.plugins.len(),
            |i: int| (self.plugins[i].descriptor().position, self.plugins[i].widget()),
        )
    }

    /// The registry after each of `plugins` was registered in turn.
    pub open spec fn with_all(self, plugins: Seq<P>) -> RegistryView<P> {
        plugins.fold_left(
            self,
            |registry: RegistryView<P>, plugin: P| registry.with(plugin.descriptor().name, plugin),
        )
    }

    /// The registry after `plugin` was registered under `name`: it takes the
    /// place of the plugin that held the name, or a new place at the end.
    pub open spec fn with(self, name: Seq<char>, plugin: P) -> RegistryView<P> {
        if self.names.contains(name) {
            RegistryView {
                names: self.names,
                plugins: self.plugins.update(self.names.index_of(name), plugin),
            }
        } else {
            RegistryView { names: self.names.push(name), plugins: self.plugins.push(plugin) }
        }
    }

    /// The plugin registered under `name`, if there is one.
    pub open spec fn lookup(self, name: Seq<char>) -> Option<P> {
        if self.names.contains(name) {
            Some(self.plugins[self.names.index_of(name)])
        } else {
            None
        }
    }
}

/// Owns the registered plugins. No name is held twice; the plugins keep the
/// order in which their names were first registered.
pub struct PluginRegistry<P: Plugin> {
    names: Vec<String>,
    plugins: Vec<P>,
}

impl<P: Plugin> View for PluginRegistry<P> {
    type V = RegistryView<P>;

    closed spec fn view(&self) -> RegistryView<P> {
        RegistryView { names: texts(self.names@), plugins: self.plugins@ }
    }
}

impl<P: Plugin> PluginRegistry<P> {
    /// Every name has its plugin, and no name occurs twice.
    pub closed spec fn wf(&self) -> bool {
        &&& self.names.len() == self.plugins.len()
        &&& texts(self.names@).no_duplicates()
    }

    /// In a well-formed registry every name has its plugin, and no name is
    /// held twice.
    pub proof fn law_names_are_unique(&self)
        requires
            self.wf(),
        ensures
            self@.names.len() == self@.plugins.len(),
            self@.names.no_duplicates(),
    {
    }

    /// A registry without a plugin.
    pub fn new() -> (registry: Self)
        ensures
            registry.wf(),
            registry@.names == Seq::<Seq<char>>::empty(),
            registry@.plugins == Seq::<P>::empty(),
    {
        let registry = PluginRegistry { names: Vec::new(), plugins: Vec::new() };
        assert(registry@.names =~= Seq::<Seq<char>>::empty());
        registry
    }

    /// The number of registered plugins.
    pub fn len(&self) -> (n: usize)
        requires
            self.wf(),
        ensures
            n == self@.names.len(),
            n == self@.plugins.len(),
    {
        self.names.len()
    }

    /// The place of `name` in the registry.
    pub fn position(&self, name: &str) -> (place: Option<usize>)
        requires
            self.wf(),
        ensures
            (match place {
                Some(i) => i < self@.names.len() && self@.names[i as int] == name@
                    && self@.names.index_of(name@) == i,
                None => !self@.names.contains(name@),
            }),
    {
        let place = find_text(&self.names, name);
        proof {
            if let Some(i) = place {
                let found = texts(self.names@).index_of(name@);
                assert(0 <= found < self.names.len() && texts(self.names@)[found] == name@);
            }
        }
        place
    }

    /// Whether a plugin is registered under `name`.
    pub fn contains(&self, name: &str) -> (found: bool)
        requires
            self.wf(),
        ensures
            found == self@.names.contains(name@),
    {
        self.position(name).is_some()
    }

    /// The plugin registered under `name`.
    pub fn get(&self, name: &str) -> (plugin: Option<&P>)
        requires
            self.wf(),
        ensures
            plugin is Some <==> self@.names.contains(name@),
            plugin matches Some(p) ==> self@.lookup(name@) == Some(*p),
    {
        match self.position(name) {
            Some(i) => Some(&self.plugins[i]),
            None => None,
        }
    }

    /// The registered names, in registry order.
    pub fn names(&self) -> (names: &Vec<String>)
        ensures
            texts(names@) == self@.names,
    {
        &self.names
    }

    /// Registers `plugin` under the name that its descriptor gives. A plugin
    /// that held the name before is dropped, without a call to it.
    pub fn register(&mut self, plugin: P)
        requires
            old(self).wf(),
        ensures
            final(self).wf(),
            final(self)@ == old(self)@.with(plugin.descriptor().name, plugin),
    {
        let name = plugin.metadata().name;
        match self.position(name.as_str()) {
            Some(i) => {
                self.plugins.set(i, plugin);
            },
            None => {
                self.names.push(name);
                self.plugins.push(plugin);
                proof {
                    let before = texts(old(self).names@);
                    let after = texts(self.names@);
                    assert(after =~= before.push(name@));
                    assert forall|a: int, b: int|
                        0 <= a < after.len() && 0 <= b < after.len() && a != b implies after[a]
                        != after[b] by {
                        if a < before.len() {
                            assert(before[a] == after[a]);
                        }
                        if b < before.len() {
                            assert(before[b] == after[b]);
                        }
                    }
                }
            },
        }
    }

    /// The plugin at place `i`.
    pub(crate) fn plugin_at(&self, i: usize) -> (plugin: &P)
        requires
            self.wf(),
            i < self@.plugins.len(),
        ensures
            *plugin == self@.plugins[i as int],
    {
        &self.plugins[i]
    }

    /// Starts the plugin at place `i`.
    pub(crate) fn start_at(&mut self, i: usize)
        requires
            old(self).wf(),
            i < old(self)@.plugins.len(),
        ensures
            final(self).wf(),
            final(self)@.names == old(self)@.names,
            final(self)@.plugins.len() == old(self)@.plugins.len(),
            old(self)@.plugins[i as int].starts_to(&final(self)@.plugins[i as int]),
            forall|j: int|
                0 <= j < old(self)@.plugins.len() && j != i ==> final(self)@.plugins[j] == old(
                    self,
                )@.plugins[j],
    {
        self.plugins[i].on_start();
    }

    /// The descriptor of every plugin, in registry order.
    pub fn descriptors(&self) -> (all: Vec<PluginMetadata>)
        requires
            self.wf(),
        ensures
            views(all@) == self@.descriptors(),
    {
        let mut all: Vec<PluginMetadata> = Vec::new();
        let mut i: usize = 0;
        while i < self.plugins.len()
            invariant
                i <= self.plugins.len(),
                all@.len() == i,
                forall|j: int|
                    0 <= j < i ==> (#[trigger] all@[j])@ == self.plugins@[j].descriptor(),
            decreases self.plugins.len() - i,
        {
            all.push(self.plugins[i].metadata());
            i += 1;
        }
        assert(views(all@) =~= self@.descriptors());
        all
    }
}

} // verus!
