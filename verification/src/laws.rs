//! What holds of every pass of loading and of every collection of elements,
//! stated over the functions that the loader's contracts use.

use crate::loader::PluginLoader;
use crate::metadata::{MetadataView, PanelPosition};
use crate::order::{
    is_load_order, key_le, lemma_order_holds_each_once, lemma_order_of_first, lemma_order_unique,
    load_order, loads_before,
};
use crate::plugin::Plugin;
use crate::registry::RegistryView;
use crate::schedule::{
    all_present, eligible, events_along, first_absent, is_first_absent, is_registry,
    lemma_first_absent_exists, lemma_first_absent_is, load_events, missing_message, sort_keys,
    started_message, turn_events, LoadEvent,
};
use crate::zones::{zone_items, zone_map, zone_order, Placement, ZoneMap};
use vstd::prelude::*;
use vstd::seq_lib::{
    lemma_multiset_commutative, to_multiset_build, to_multiset_contains, to_multiset_len,
};

verus! {

/// How often a turn starts the plugin at place `i`: once where the turn is
/// that of `i` and `i` may start, else never.
proof fn lemma_turn_starts(
    names: Seq<Seq<char>>,
    metas: Seq<MetadataView>,
    disabled: Set<Seq<char>>,
    turn: int,
    i: int,
)
    requires
        is_registry(names, metas),
        0 <= turn < names.len(),
        0 <= i < names.len(),
    ensures
        turn_events(names, metas, disabled, turn).to_multiset().count(
            LoadEvent::Started(names[i]),
        ) == (if turn == i && eligible(names, metas, disabled, i) {
            1nat
        } else {
            0nat
        }),
{
    let none = Seq::<LoadEvent>::empty();
    let events = turn_events(names, metas, disabled, turn);
    if turn != i {
        assert(names[turn] != names[i]);
    }
    to_multiset_len(none);
    if disabled.contains(names[turn]) {
    } else if !all_present(names, metas[turn].deps) {
        lemma_first_absent_exists(names, metas[turn].deps);
        let line = LoadEvent::Reported(
            missing_message(metas[turn].deps[first_absent(names, metas[turn].deps)]),
        );
        assert(events =~= none.push(line));
        to_multiset_build(none, line);
    } else {
        let start = LoadEvent::Started(names[turn]);
        let line = LoadEvent::Reported(started_message(names[turn]));
        assert(events =~= none.push(start).push(line));
        to_multiset_build(none, start);
        to_multiset_build(none.push(start), line);
    }
}

/// A plugin that may start is started as often as its place has a turn, and
/// any other never.
proof fn lemma_starts_along(
    order: Seq<int>,
    names: Seq<Seq<char>>,
    metas: Seq<MetadataView>,
    disabled: Set<Seq<char>>,
    i: int,
)
    requires
        is_registry(names, metas),
        0 <= i < names.len(),
        forall|k: int| 0 <= k < order.len() ==> 0 <= #[trigger] order[k] < names.len(),
    ensures
        events_along(order, names, metas, disabled).to_multiset().count(
            LoadEvent::Started(names[i]),
        ) == (if eligible(names, metas, disabled, i) {
            order.to_multiset().count(i)
        } else {
            0nat
        }),
    decreases order.len(),
{
    if order.len() == 0 {
        to_multiset_len(order);
        to_multiset_len(events_along(order, names, metas, disabled));
    } else {
        let front = order.drop_last();
        assert forall|k: int| 0 <= k < front.len() implies 0 <= #[trigger] front[k]
            < names.len() by {
            assert(front[k] == order[k]);
        }
        lemma_starts_along(front, names, metas, disabled, i);
        assert(0 <= order[order.len() - 1] < names.len());
        lemma_turn_starts(names, metas, disabled, order.last(), i);
        lemma_multiset_commutative(
            events_along(front, names, metas, disabled),
            turn_events(names, metas, disabled, order.last()),
        );
        assert(order =~= front.push(order.last()));
        to_multiset_build(front, order.last());
    }
}

/// A pass of loading calls `on_start` exactly once on a plugin that is not
/// disabled and has each of its dependencies registered: among the events of
/// the pass the start of the plugin counts one.
pub proof fn law_eligible_plugin_starts_once(
    names: Seq<Seq<char>>,
    metas: Seq<MetadataView>,
    disabled: Set<Seq<char>>,
    i: int,
)
    requires
        is_registry(names, metas),
        0 <= i < names.len(),
        eligible(names, metas, disabled, i),
    ensures
        load_events(names, metas, disabled).to_multiset().count(LoadEvent::Started(names[i]))
            == 1,
{
    let keys = sort_keys(metas);
    let order = load_order(keys);
    lemma_order_of_first(keys, keys.len());
    lemma_order_holds_each_once(order, keys, keys.len() as int);
    lemma_starts_along(order, names, metas, disabled, i);
    order.lemma_multiset_has_no_duplicates();
    to_multiset_contains(order, i);
}

/// A pass of loading never calls `on_start` on a plugin whose name is
/// disabled, whatever else holds of the plugin.
pub proof fn law_disabled_plugin_never_starts(
    names: Seq<Seq<char>>,
    metas: Seq<MetadataView>,
    disabled: Set<Seq<char>>,
    i: int,
)
    requires
        is_registry(names, metas),
        0 <= i < names.len(),
        disabled.contains(names[i]),
    ensures
        !load_events(names, metas, disabled).contains(LoadEvent::Started(names[i])),
{
    let keys = sort_keys(metas);
    let order = load_order(keys);
    lemma_order_of_first(keys, keys.len());
    lemma_starts_along(order, names, metas, disabled, i);
    to_multiset_contains(load_events(names, metas, disabled), LoadEvent::Started(names[i]));
}

/// A pass of loading never calls `on_start` on a plugin with a dependency
/// that is not registered.
pub proof fn law_unmet_plugin_never_starts(
    names: Seq<Seq<char>>,
    metas: Seq<MetadataView>,
    disabled: Set<Seq<char>>,
    i: int,
)
    requires
        is_registry(names, metas),
        0 <= i < names.len(),
        !all_present(names, metas[i].deps),
    ensures
        !load_events(names, metas, disabled).contains(LoadEvent::Started(names[i])),
{
    let keys = sort_keys(metas);
    let order = load_order(keys);
    lemma_order_of_first(keys, keys.len());
    lemma_starts_along(order, names, metas, disabled, i);
    to_multiset_contains(load_events(names, metas, disabled), LoadEvent::Started(names[i]));
}

/// What happens in the turn of a place happens while the places of an order
/// that holds it have their turns.
proof fn lemma_events_grow(
    order: Seq<int>,
    names: Seq<Seq<char>>,
    metas: Seq<MetadataView>,
    disabled: Set<Seq<char>>,
    turn: int,
    event: LoadEvent,
)
    requires
        order.contains(turn),
        turn_events(names, metas, disabled, turn).contains(event),
    ensures
        events_along(order, names, metas, disabled).contains(event),
    decreases order.len(),
{
    let front = events_along(order.drop_last(), names, metas, disabled);
    let last = turn_events(names, metas, disabled, order.last());
    let all = events_along(order, names, metas, disabled);
    if order.last() == turn {
        let at = choose|at: int| 0 <= at < last.len() && last[at] == event;
        assert(all[front.len() + at] == event);
    } else {
        let k = choose|k: int| 0 <= k < order.len() && order[k] == turn;
        assert(order.drop_last()[k] == turn);
        lemma_events_grow(order.drop_last(), names, metas, disabled, turn, event);
        let at = choose|at: int| 0 <= at < front.len() && front[at] == event;
        assert(all[at] == event);
    }
}

/// Where a plugin that is not disabled names dependencies that are not
/// registered, a pass of loading reports the first of them, in the words of
/// `missing_message`.
pub proof fn law_first_missing_dependency_is_reported(
    names: Seq<Seq<char>>,
    metas: Seq<MetadataView>,
    disabled: Set<Seq<char>>,
    i: int,
    k: int,
)
    requires
        is_registry(names, metas),
        0 <= i < names.len(),
        !disabled.contains(names[i]),
        is_first_absent(names, metas[i].deps, k),
    ensures
        load_events(names, metas, disabled).contains(
            LoadEvent::Reported(missing_message(metas[i].deps[k])),
        ),
{
    let keys = sort_keys(metas);
    let order = load_order(keys);
    lemma_order_of_first(keys, keys.len());
    lemma_order_holds_each_once(order, keys, keys.len() as int);
    lemma_first_absent_is(names, metas[i].deps, k);
    let line = LoadEvent::Reported(missing_message(metas[i].deps[k]));
    assert(names.contains(metas[i].deps[k]) == false);
    assert(turn_events(names, metas, disabled, i)[0] == line);
    lemma_events_grow(order, names, metas, disabled, i, line);
}

/// Along an order in which each place loads before those behind it, the
/// earlier of two starts is on the plugin that loads before the other.
proof fn lemma_starts_in_order(
    order: Seq<int>,
    names: Seq<Seq<char>>,
    metas: Seq<MetadataView>,
    disabled: Set<Seq<char>>,
    a: int,
    b: int,
    i: int,
    j: int,
)
    requires
        is_registry(names, metas),
        0 <= i < names.len(),
        0 <= j < names.len(),
        forall|k: int| 0 <= k < order.len() ==> 0 <= #[trigger] order[k] < names.len(),
        forall|p: int, q: int|
            0 <= p < q < order.len() ==> loads_before(
                sort_keys(metas),
                #[trigger] order[p],
                #[trigger] order[q],
            ),
        0 <= a < b < events_along(order, names, metas, disabled).len(),
        events_along(order, names, metas, disabled)[a] == LoadEvent::Started(names[i]),
        events_along(order, names, metas, disabled)[b] == LoadEvent::Started(names[j]),
    ensures
        loads_before(sort_keys(metas), i, j),
    decreases order.len(),
{
    let front_order = order.drop_last();
    let front = events_along(front_order, names, metas, disabled);
    let turn = order.last();
    let last = turn_events(names, metas, disabled, turn);
    assert forall|k: int| 0 <= k < front_order.len() implies 0 <= #[trigger] front_order[k]
        < names.len() by {
        assert(front_order[k] == order[k]);
    }
    if b < front.len() {
        assert forall|p: int, q: int| 0 <= p < q < front_order.len() implies loads_before(
            sort_keys(metas),
            #[trigger] front_order[p],
            #[trigger] front_order[q],
        ) by {
            assert(front_order[p] == order[p] && front_order[q] == order[q]);
        }
        lemma_starts_in_order(front_order, names, metas, disabled, a, b, i, j);
    } else {
        // The later start is that of the last turn, and the only start of it.
        assert(0 <= order[order.len() - 1] < names.len());
        assert(last[b - front.len()] == LoadEvent::Started(names[j]));
        if disabled.contains(names[turn]) {
        } else if !all_present(names, metas[turn].deps) {
        } else {
            assert(b == front.len());
            if j != turn {
                assert(names[j] != names[turn]);
            }
        }
        // The earlier start came before the last turn.
        assert(front[a] == LoadEvent::Started(names[i]));
        to_multiset_contains(front, LoadEvent::Started(names[i]));
        lemma_starts_along(front_order, names, metas, disabled, i);
        to_multiset_contains(front_order, i);
        let p = choose|p: int| 0 <= p < front_order.len() && front_order[p] == i;
        assert(order[p] == i);
        assert(loads_before(sort_keys(metas), order[p], order[order.len() - 1]));
    }
}

/// Of two calls of `on_start` in one pass of loading, the earlier is on the
/// plugin that loads before the other: its priority and order are no greater,
/// and where both are equal it stands first in the registry.
pub proof fn law_starts_follow_priority(
    names: Seq<Seq<char>>,
    metas: Seq<MetadataView>,
    disabled: Set<Seq<char>>,
    a: int,
    b: int,
    i: int,
    j: int,
)
    requires
        is_registry(names, metas),
        0 <= i < names.len(),
        0 <= j < names.len(),
        0 <= a < b < load_events(names, metas, disabled).len(),
        load_events(names, metas, disabled)[a] == LoadEvent::Started(names[i]),
        load_events(names, metas, disabled)[b] == LoadEvent::Started(names[j]),
    ensures
        key_le((metas[i].priority, metas[i].order), (metas[j].priority, metas[j].order)),
        (metas[i].priority, metas[i].order) == (metas[j].priority, metas[j].order) ==> i < j,
{
    let keys = sort_keys(metas);
    let order = load_order(keys);
    lemma_order_of_first(keys, keys.len());
    lemma_starts_in_order(order, names, metas, disabled, a, b, i, j);
}

/// Along any order a start is followed at once by its report.
proof fn lemma_start_then_report(
    order: Seq<int>,
    names: Seq<Seq<char>>,
    metas: Seq<MetadataView>,
    disabled: Set<Seq<char>>,
    a: int,
    name: Seq<char>,
)
    requires
        0 <= a < events_along(order, names, metas, disabled).len(),
        events_along(order, names, metas, disabled)[a] == LoadEvent::Started(name),
    ensures
        a + 1 < events_along(order, names, metas, disabled).len(),
        events_along(order, names, metas, disabled)[a + 1] == LoadEvent::Reported(
            started_message(name),
        ),
    decreases order.len(),
{
    let front = events_along(order.drop_last(), names, metas, disabled);
    let last = turn_events(names, metas, disabled, order.last());
    if a < front.len() {
        lemma_start_then_report(order.drop_last(), names, metas, disabled, a, name);
    } else {
        assert(last[a - front.len()] == LoadEvent::Started(name));
        assert(last.len() == 2 && a == front.len());
        assert(last[1] == LoadEvent::Reported(started_message(name)));
    }
}

/// In a pass of loading every call of `on_start` is followed at once by the
/// line that reports it, in the words of `started_message`.
pub proof fn law_start_is_reported_at_once(
    names: Seq<Seq<char>>,
    metas: Seq<MetadataView>,
    disabled: Set<Seq<char>>,
    a: int,
    name: Seq<char>,
)
    requires
        0 <= a < load_events(names, metas, disabled).len(),
        load_events(names, metas, disabled)[a] == LoadEvent::Started(name),
    ensures
        a + 1 < load_events(names, metas, disabled).len(),
        load_events(names, metas, disabled)[a + 1] == LoadEvent::Reported(started_message(name)),
{
    lemma_start_then_report(load_order(sort_keys(metas)), names, metas, disabled, a, name);
}

/// The order of loading is the one sequence that holds every place once and
/// lets each place load before those behind it.
pub proof fn law_load_order_is_the_sorted_one(order: Seq<int>, keys: Seq<(u32, u32)>)
    ensures
        is_load_order(order, keys) <==> order == load_order(keys),
{
    lemma_order_of_first(keys, keys.len());
    if is_load_order(order, keys) {
        lemma_order_unique(order, load_order(keys), keys, keys.len() as int);
    }
}

/// After a registration each name is still held once, the name just
/// registered is held by the new plugin, and every other name by the plugin
/// that held it before.
pub proof fn law_last_registration_wins<P: Plugin>(
    registry: RegistryView<P>,
    name: Seq<char>,
    plugin: P,
)
    requires
        registry.names.len() == registry.plugins.len(),
        registry.names.no_duplicates(),
    ensures
        registry.with(name, plugin).names.len() == registry.with(name, plugin).plugins.len(),
        registry.with(name, plugin).names.no_duplicates(),
        registry.with(name, plugin).lookup(name) == Some(plugin),
        forall|other: Seq<char>|
            other != name ==> #[trigger] registry.with(name, plugin).lookup(other)
                == registry.lookup(other),
{
    let after = registry.with(name, plugin);
    if registry.names.contains(name) {
        let at = registry.names.index_of(name);
        assert(0 <= at < registry.names.len() && registry.names[at] == name);
        assert forall|other: Seq<char>| other != name implies #[trigger] after.lookup(other)
            == registry.lookup(other) by {
            if registry.names.contains(other) {
                let there = registry.names.index_of(other);
                assert(0 <= there < registry.names.len() && registry.names[there] == other);
            }
        }
    } else {
        let end = registry.names.len() as int;
        assert(after.names[end] == name);
        let listed = after.names;
        assert forall|a: int, b: int|
            0 <= a < listed.len() && 0 <= b < listed.len() && a != b implies listed[a]
            != listed[b] by {
            if a < end {
                assert(after.names[a] == registry.names[a]);
            }
            if b < end {
                assert(after.names[b] == registry.names[b]);
            }
        }
        let found = after.names.index_of(name);
        assert(0 <= found < after.names.len() && after.names[found] == name);
        assert(found == end);
        assert forall|other: Seq<char>| other != name implies #[trigger] after.lookup(other)
            == registry.lookup(other) by {
            if registry.names.contains(other) {
                let there = registry.names.index_of(other);
                assert(0 <= there < end && registry.names[there] == other);
                assert(after.names[there] == other);
                let now = after.names.index_of(other);
                assert(0 <= now < after.names.len() && after.names[now] == other);
                assert(now == there);
            } else if after.names.contains(other) {
                let now = choose|now: int|
                    0 <= now < after.names.len() && after.names[now] == other;
                assert(registry.names[now] == other);
            }
        }
    }
}

/// Without a placement that has no element, every zone holds what it held.
proof fn lemma_zone_items_without<'a, W>(
    placed: Seq<Placement<'a, W>>,
    i: int,
    position: PanelPosition,
)
    requires
        0 <= i < placed.len(),
        placed[i].1 is None,
    ensures
        zone_items(placed.remove(i), position) == zone_items(placed, position),
    decreases placed.len(),
{
    if i == placed.len() - 1 {
        assert(placed.remove(i) =~= placed.drop_last());
    } else {
        assert(placed.remove(i).drop_last() =~= placed.drop_last().remove(i));
        assert(placed.remove(i).last() == placed.last());
        lemma_zone_items_without(placed.drop_last(), i, position);
    }
}

/// A plugin without an element adds nothing to any zone: the zones are those
/// of the registry without the plugin.
pub proof fn law_plugin_without_element_adds_nothing<'a, W>(placed: Seq<Placement<'a, W>>, i: int)
    requires
        0 <= i < placed.len(),
        placed[i].1 is None,
    ensures
        zone_map(placed.remove(i)) == zone_map(placed),
{
    assert forall|position: PanelPosition|
        zone_items(placed.remove(i), position) == zone_items(placed, position) by {
        lemma_zone_items_without(placed, i, position);
    }
    assert(zone_map(placed.remove(i)) =~= zone_map(placed));
}

/// A zone holds elements exactly where a placement has one for it.
proof fn lemma_zone_items_origin<'a, W>(
    placed: Seq<Placement<'a, W>>,
    position: PanelPosition,
)
    ensures
        zone_items(placed, position).len() > 0 <==> exists|i: int|
            0 <= i < placed.len() && (#[trigger] placed[i]).0 == position && placed[i].1 is Some,
    decreases placed.len(),
{
    if placed.len() > 0 {
        let front = placed.drop_last();
        lemma_zone_items_origin(front, position);
        let (zone, item) = placed.last();
        if zone == position && item is Some {
            assert(placed[placed.len() - 1].0 == position);
        } else if zone_items(front, position).len() > 0 {
            let i = choose|i: int|
                0 <= i < front.len() && (#[trigger] front[i]).0 == position && front[i].1 is Some;
            assert(placed[i] == front[i]);
        } else if exists|i: int|
            0 <= i < placed.len() && (#[trigger] placed[i]).0 == position && placed[i].1 is Some {
            let i = choose|i: int|
                0 <= i < placed.len() && (#[trigger] placed[i]).0 == position
                    && placed[i].1 is Some;
            assert(front[i] == placed[i]);
        }
    }
}

/// A zone is a key of the mapping exactly where some plugin has an element
/// for it, and the list under a key is never empty.
pub proof fn law_zone_is_key_where_element_is<'a, W>(
    placed: Seq<Placement<'a, W>>,
    position: PanelPosition,
)
    ensures
        zone_map(placed).dom().contains(position) <==> exists|i: int|
            0 <= i < placed.len() && (#[trigger] placed[i]).0 == position && placed[i].1 is Some,
        zone_map(placed).dom().contains(position) ==> zone_map(placed)[position].len() > 0,
{
    lemma_zone_items_origin(placed, position);
}

/// Collecting twice from one loader, with nothing registered in between,
/// gives the same zones with the same elements both times: what is collected
/// depends on the registered plugins alone.
pub proof fn law_collecting_twice_agrees<'a, P: Plugin, L: Fn(&str)>(
    loader: &PluginLoader<P, L>,
    first: &ZoneMap<'a, P::Widget>,
    second: &ZoneMap<'a, P::Widget>,
)
    requires
        first@ == zone_map(loader.registered().placements()),
        first.order() == zone_order(loader.registered().placements()),
        second@ == zone_map(loader.registered().placements()),
        second.order() == zone_order(loader.registered().placements()),
    ensures
        first@ == second@,
        first.order() == second.order(),
{
}

} // verus!
