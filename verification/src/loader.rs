//! The loader: it owns the registry and the set of disabled names, starts
//! the plugins that may start, and reports to the diagnostic sink.

use crate::metadata::{views, AppendMethod};
use crate::order::{
    is_load_order, lemma_order_holds_each_once, load_order, positions, sorted_positions,
};
use crate::plugin::Plugin;
use crate::registry::{PluginRegistry, RegistryView};
use crate::schedule::{
    all_present, delivered, eligible, events_along, first_absent, first_missing, is_registry,
    lemma_first_absent_is, load_events, missing_message, sort_keys, sort_keys_of, LoadEvent,
};
use crate::text::{find_text, same_text, slice_texts, texts};
use crate::zones::{
    lemma_zone_map_place, lemma_zone_map_skip, lemma_zone_order_holds_keys, zone_items, zone_map,
    zone_order, ZoneMap,
};
use vstd::prelude::*;

verus! {

/// Whether a plugin is after its turn as it should be: started from what it
/// was, or left as it was.
pub open spec fn settled<P: Plugin>(before: P, after: P, starts: bool) -> bool {
    if starts {
        before.starts_to(&after)
    } else {
        after == before
    }
}

/// Registers plugins, starts them in the order of loading and hands out their
/// elements by zone. Every line for the diagnostic sink goes through `logger`.
///
/// A history, kept for proofs only, records what the loader did outside
/// itself since it was made: each call of `on_start` and each line handed to
/// the sink, in the order in which they happened.
pub struct PluginLoader<P: Plugin, L: Fn(&str)> {
    registry: PluginRegistry<P>,
    disabled_plugins: Vec<String>,
    logger: L,
    history: Ghost<Seq<LoadEvent>>,
}

impl<P: Plugin, L: Fn(&str)> PluginLoader<P, L> {
    /// The registry is well formed, the sink takes any line, and every line
    /// of the history went to the sink.
    pub closed spec fn wf(&self) -> bool {
        &&& self.registry.wf()
        &&& forall|line: &str| call_requires(self.logger, (line,))
        &&& forall|k: int|
            0 <= k < self.history@.len() ==> delivered(self.logger, #[trigger] self.history@[k])
    }

    /// The diagnostic sink.
    pub closed spec fn sink(&self) -> L {
        self.logger
    }

    /// The registry as a mathematical value.
    pub closed spec fn registered(&self) -> RegistryView<P> {
        self.registry@
    }

    /// The names that are kept from loading.
    pub closed spec fn disabled(&self) -> Set<Seq<char>> {
        texts(self.disabled_plugins@).to_set()
    }

    /// The calls of `on_start` and the lines handed to the sink, oldest first.
    pub closed spec fn history(&self) -> Seq<LoadEvent> {
        self.history@
    }

    /// Whether the next pass of loading starts the plugin at place `i`.
    pub open spec fn starts_at(&self, i: int) -> bool {
        eligible(self.registered().names, self.registered().descriptors(), self.disabled(), i)
    }

    /// In a well-formed loader no name is registered twice: its names and
    /// descriptors are those of a registry, and what holds of every pass of
    /// loading holds of its next.
    pub proof fn law_names_are_unique(&self)
        requires
            self.wf(),
        ensures
            is_registry(self.registered().names, self.registered().descriptors()),
    {
        self.registry.law_names_are_unique();
    }

    /// Every line that the history reports was handed to the sink, in a call
    /// that returned.
    pub proof fn law_reports_reached_sink(&self, k: int)
        requires
            self.wf(),
            0 <= k < self.history().len(),
        ensures
            delivered(self.sink(), self.history()[k]),
    {
    }

    /// A loader with nothing registered and nothing disabled.
    pub fn new(logger: L) -> (loader: Self)
        requires
            forall|line: &str| call_requires(logger, (line,)),
        ensures
            loader.wf(),
            loader.sink() == logger,
            loader.registered().names == Seq::<Seq<char>>::empty(),
            loader.registered().plugins == Seq::<P>::empty(),
            loader.disabled() == Set::<Seq<char>>::empty(),
            loader.history() == Seq::<LoadEvent>::empty(),
    {
        let loader = PluginLoader {
            registry: PluginRegistry::new(),
            disabled_plugins: Vec::new(),
            logger,
            history: Ghost(Seq::empty()),
        };
        assert(loader.disabled() =~= Set::<Seq<char>>::empty());
        loader
    }

    /// Registers `plugin` under the name that its descriptor gives; a plugin
    /// that held the name is replaced, and nothing is reported.
    pub fn register_plugin(&mut self, plugin: P)
        requires
            old(self).wf(),
        ensures
            final(self).wf(),
            final(self).registered() == old(self).registered().with(
                plugin.descriptor().name,
                plugin,
            ),
            final(self).disabled() == old(self).disabled(),
            final(self).history() == old(self).history(),
            final(self).sink() == old(self).sink(),
    {
        self.registry.register(plugin);
    }

    /// The registry, to look plugins up.
    pub fn registry(&self) -> (registry: &PluginRegistry<P>)
        requires
            self.wf(),
        ensures
            registry.wf(),
            registry@ == self.registered(),
    {
        &self.registry
    }

    /// Keeps the plugin of this name from loading. A plugin that has started
    /// stays started.
    pub fn disable_plugin(&mut self, name: &str)
        requires
            old(self).wf(),
        ensures
            final(self).wf(),
            final(self).registered() == old(self).registered(),
            final(self).disabled() == old(self).disabled().insert(name@),
            final(self).history() == old(self).history(),
            final(self).sink() == old(self).sink(),
    {
        match find_text(&self.disabled_plugins, name) {
            Some(at) => {
                assert(texts(self.disabled_plugins@)[at as int] == name@);
                assert(self.disabled() =~= old(self).disabled().insert(name@));
            },
            None => {
                self.disabled_plugins.push(String::from_str(name));
                proof {
                    let before = texts(old(self).disabled_plugins@);
                    let after = texts(self.disabled_plugins@);
                    assert(after =~= before.push(name@));
                    assert(after[before.len() as int] == name@);
                    assert forall|other: Seq<char>| before.contains(other) implies after.contains(
                        other,
                    ) by {
                        let at = choose|at: int| 0 <= at < before.len() && before[at] == other;
                        assert(after[at] == other);
                    }
                    assert(self.disabled() =~= old(self).disabled().insert(name@));
                }
            },
        }
    }

    /// Lets the plugin of this name load again.
    pub fn enable_plugin(&mut self, name: &str)
        requires
            old(self).wf(),
        ensures
            final(self).wf(),
            final(self).registered() == old(self).registered(),
            final(self).disabled() == old(self).disabled().remove(name@),
            final(self).history() == old(self).history(),
            final(self).sink() == old(self).sink(),
    {
        let mut i: usize = 0;
        while i < self.disabled_plugins.len()
            invariant
                self.wf(),
                i <= self.disabled_plugins.len(),
                self.registry == old(self).registry,
                self.history() == old(self).history(),
                self.sink() == old(self).sink(),
                self.disabled().remove(name@) == old(self).disabled().remove(name@),
                forall|j: int| 0 <= j < i ==> texts(self.disabled_plugins@)[j] != name@,
            decreases self.disabled_plugins.len() - i,
        {
            if same_text(self.disabled_plugins[i].as_str(), name) {
                let ghost before = texts(self.disabled_plugins@);
                self.disabled_plugins.remove(i);
                proof {
                    let after = texts(self.disabled_plugins@);
                    assert(after =~= before.remove(i as int));
                    assert(after.to_set().remove(name@) =~= before.to_set().remove(name@)) by {
                        assert forall|other: Seq<char>|
                            other != name@ && before.contains(other) implies after.contains(
                            other,
                        ) by {
                            let at = choose|at: int| 0 <= at < before.len() && before[at] == other;
                            if at < i {
                                assert(after[at] == other);
                            } else {
                                assert(after[at - 1] == other);
                            }
                        }
                        assert forall|other: Seq<char>|
                            after.contains(other) implies before.contains(other) by {
                            let at = choose|at: int| 0 <= at < after.len() && after[at] == other;
                            if at < i {
                                assert(before[at] == other);
                            } else {
                                assert(before[at + 1] == other);
                            }
                        }
                    }
                }
            } else {
                i += 1;
            }
        }
        assert(self.disabled() =~= old(self).disabled().remove(name@));
    }

    /// Whether the plugin of this name is kept from loading.
    pub fn is_disabled(&self, name: &str) -> (off: bool)
        ensures
            off == self.disabled().contains(name@),
    {
        find_text(&self.disabled_plugins, name).is_some()
    }

    /// Hands one line to the sink.
    fn log(&mut self, msg: String)
        requires
            old(self).wf(),
        ensures
            final(self).wf(),
            final(self).registry == old(self).registry,
            final(self).disabled_plugins == old(self).disabled_plugins,
            final(self).sink() == old(self).sink(),
            final(self).history() == old(self).history().push(LoadEvent::Reported(msg@)),
    {
        (self.logger)(msg.as_str());
        proof {
            self.history@ = self.history@.push(LoadEvent::Reported(msg@));
        }
    }

    /// Whether each name of `deps` is registered. The first that is not is
    /// reported to the sink.
    fn check_dependencies(&mut self, deps: &Vec<&'static str>) -> (met: bool)
        requires
            old(self).wf(),
        ensures
            final(self).wf(),
            final(self).registry == old(self).registry,
            final(self).disabled_plugins == old(self).disabled_plugins,
            final(self).sink() == old(self).sink(),
            met == all_present(old(self).registered().names, slice_texts(deps@)),
            met ==> final(self).history() == old(self).history(),
            !met ==> final(self).history() == old(self).history().push(
                LoadEvent::Reported(
                    missing_message(
                        slice_texts(deps@)[first_absent(
                            old(self).registered().names,
                            slice_texts(deps@),
                        )],
                    ),
                ),
            ),
    {
        match first_missing(self.registry.names(), deps) {
            Some(k) => {
                proof {
                    lemma_first_absent_is(self.registered().names, slice_texts(deps@), k as int);
                }
                let mut msg = String::from_str("Missing dependency: ");
                msg.append(deps[k]);
                self.log(msg);
                false
            },
            None => true,
        }
    }

    /// One pass of loading. The plugins have their turns in the order of
    /// loading: a disabled one is passed over in silence, one with a
    /// dependency that is not registered is passed over and the dependency
    /// reported, and every other is started and its start reported.
    pub fn load_plugins(&mut self)
        requires
            old(self).wf(),
        ensures
            final(self).wf(),
            final(self).registered().names == old(self).registered().names,
            final(self).registered().plugins.len() == old(self).registered().plugins.len(),
            final(self).disabled() == old(self).disabled(),
            forall|i: int|
                0 <= i < old(self).registered().plugins.len() ==> settled(
                    old(self).registered().plugins[i],
                    #[trigger] final(self).registered().plugins[i],
                    old(self).starts_at(i),
                ),
            final(self).history() == old(self).history() + load_events(
                old(self).registered().names,
                old(self).registered().descriptors(),
                old(self).disabled(),
            ),
            final(self).sink() == old(self).sink(),
    {
        let metas = self.registry.descriptors();
        let keys = sort_keys_of(&metas);
        let order = sorted_positions(&keys);
        let ghost names = self.registered().names;
        let ghost descs = self.registered().descriptors();
        let ghost off = self.disabled();
        let ghost turns = positions(order@);
        proof {
            self.registry.law_names_are_unique();
            lemma_order_holds_each_once(turns, keys@, keys@.len() as int);
            assert(turns.take(0) =~= Seq::<int>::empty());
        }
        let mut k: usize = 0;
        while k < order.len()
            invariant
                self.wf(),
                k <= order.len(),
                order@.len() == names.len(),
                turns == positions(order@),
                turns == load_order(sort_keys(descs)),
                is_load_order(turns, sort_keys(descs)),
                turns.no_duplicates(),
                views(metas@) == descs,
                descs == old(self).registered().descriptors(),
                names == old(self).registered().names,
                off == old(self).disabled(),
                self.registered().names == names,
                self.registered().plugins.len() == names.len(),
                descs.len() == names.len(),
                self.disabled_plugins == old(self).disabled_plugins,
                self.sink() == old(self).sink(),
                forall|j: int|
                    0 <= j < k ==> settled(
                        old(self).registered().plugins[turns[j]],
                        #[trigger] self.registered().plugins[turns[j]],
                        eligible(names, descs, off, turns[j]),
                    ),
                forall|j: int|
                    k <= j < turns.len() ==> #[trigger] self.registered().plugins[turns[j]] == old(
                        self,
                    ).registered().plugins[turns[j]],
                self.history() =~= old(self).history() + events_along(
                    turns.take(k as int),
                    names,
                    descs,
                    off,
                ),
            decreases order.len() - k,
        {
            let i: usize = order[k];
            let ghost before = *self;
            assert(turns[k as int] == i);
            assert(turns.take(k + 1).drop_last() =~= turns.take(k as int));
            assert(turns.take(k + 1).last() == i);
            let listed = self.registry.names();
            let name = listed[i].clone();
            assert(name@ == names[i as int]) by {
                assert(texts(listed@)[i as int] == name@);
            }
            if !self.is_disabled(name.as_str()) {
                assert(metas@[i as int]@ == views(metas@)[i as int]);
                if self.check_dependencies(&metas[i].deps) {
                    self.registry.start_at(i);
                    proof {
                        self.history@ = self.history@.push(LoadEvent::Started(name@));
                    }
                    let mut msg = String::from_str("Plugin started: ");
                    msg.append(name.as_str());
                    self.log(msg);
                }
            }
            proof {
                assert forall|j: int| 0 <= j < k + 1 implies settled(
                    old(self).registered().plugins[turns[j]],
                    #[trigger] self.registered().plugins[turns[j]],
                    eligible(names, descs, off, turns[j]),
                ) by {
                    if j < k {
                        assert(turns[j] != i);
                        assert(settled(
                            old(self).registered().plugins[turns[j]],
                            before.registered().plugins[turns[j]],
                            eligible(names, descs, off, turns[j]),
                        ));
                    } else {
                        assert(before.registered().plugins[turns[k as int]] == old(
                            self,
                        ).registered().plugins[turns[k as int]]);
                    }
                }
                let now = self.registered().plugins;
                assert forall|j: int| k + 1 <= j < turns.len() implies #[trigger] now[turns[j]]
                    == old(self).registered().plugins[turns[j]] by {
                    assert(turns[j] != i);
                    assert(before.registered().plugins[turns[j]] == old(
                        self,
                    ).registered().plugins[turns[j]]);
                }
            }
            k += 1;
        }
        proof {
            assert(turns.take(k as int) =~= turns);
            assert forall|i: int| 0 <= i < old(self).registered().plugins.len() implies settled(
                old(self).registered().plugins[i],
                #[trigger] self.registered().plugins[i],
                old(self).starts_at(i),
            ) by {
                assert(turns.contains(i));
                let j = choose|j: int| 0 <= j < turns.len() && turns[j] == i;
                assert(settled(
                    old(self).registered().plugins[turns[j]],
                    self.registered().plugins[turns[j]],
                    eligible(names, descs, off, turns[j]),
                ));
            }
        }
    }

    /// The elements of all registered plugins, grouped by the zone that each
    /// plugin's descriptor names, in registry order within a zone. Whether a
    /// plugin was started is not asked; a plugin without an element adds
    /// nothing, and a zone without elements is no key of the result.
    pub fn get_panel_widgets(&self) -> (zones: ZoneMap<'_, P::Widget>)
        requires
            self.wf(),
        ensures
            zones.wf(),
            zones@ == zone_map(self.registered().placements()),
            zones.order() == zone_order(self.registered().placements()),
    {
        let ghost placed = self.registered().placements();
        let mut zones = ZoneMap::new();
        let n: usize = self.registry.len();
        let mut i: usize = 0;
        assert(zone_map(placed.take(0)) =~= zones@);
        assert(zone_order(placed.take(0)) =~= zones.order());
        while i < n
            invariant
                self.wf(),
                zones.wf(),
                i <= n,
                n == placed.len(),
                placed == self.registered().placements(),
                zones@ == zone_map(placed.take(i as int)),
                zones.order() == zone_order(placed.take(i as int)),
            decreases n - i,
        {
            let plugin = self.registry.plugin_at(i);
            let ghost before = placed.take(i as int);
            assert(placed.take(i + 1) =~= before.push(placed[i as int]));
            match plugin.get_widget() {
                Some((widget, method)) => {
                    let position = plugin.metadata().position;
                    proof {
                        assert(placed[i as int] == (position, Some((widget, method))));
                        lemma_zone_map_place(before, position, (widget, method));
                        if !zones@.dom().contains(position) {
                            assert(zone_items(before, position) =~= Seq::empty());
                        }
                        lemma_zone_order_holds_keys(before, position);
                    }
                    zones.place(position, widget, method);
                },
                None => {
                    proof {
                        let zone = placed[i as int].0;
                        assert(placed[i as int] == (zone, None::<(&P::Widget, AppendMethod)>));
                        lemma_zone_map_skip(before, zone);
                    }
                },
            }
            i += 1;
        }
        assert(placed.take(n as int) =~= placed);
        zones
    }
}

/// Registers the plugins that the panel is built with, in their order.
pub fn init_plugins<P: Plugin, L: Fn(&str)>(loader: &mut PluginLoader<P, L>, builtin: Vec<P>)
    requires
        old(loader).wf(),
    ensures
        final(loader).wf(),
        final(loader).registered() == old(loader).registered().with_all(builtin@),
        final(loader).disabled() == old(loader).disabled(),
        final(loader).history() == old(loader).history(),
        final(loader).sink() == old(loader).sink(),
{
    for plugin in iter: builtin
        invariant
            loader.wf(),
            iter.seq() == builtin@,
            loader.registered() == old(loader).registered().with_all(builtin@.take(iter.index())),
            loader.disabled() == old(loader).disabled(),
            loader.history() == old(loader).history(),
            loader.sink() == old(loader).sink(),
    {
        assert(builtin@.take(iter.index() + 1).drop_last() =~= builtin@.take(iter.index()));
        loader.register_plugin(plugin);
    }
    assert(builtin@.take(builtin@.len() as int) =~= builtin@);
}

} // verus!
