//! What one pass of loading does: which plugins start, in which order, and
//! which lines go to the diagnostic sink.

use crate::metadata::{views, MetadataView, PluginMetadata};
use crate::order::load_order;
use crate::text::{find_text, slice_texts, texts};
use vstd::prelude::*;

verus! {

/// Whether every name of `deps` is among `names`.
pub open spec fn all_present(names: Seq<Seq<char>>, deps: Seq<Seq<char>>) -> bool {
    forall|k: int| 0 <= k < deps.len() ==> names.contains(#[trigger] deps[k])
}

/// Whether `deps[k]` is the first name of `deps` that is not among `names`.
pub open spec fn is_first_absent(names: Seq<Seq<char>>, deps: Seq<Seq<char>>, k: int) -> bool {
    &&& 0 <= k < deps.len()
    &&& !names.contains(deps[k])
    &&& forall|j: int| 0 <= j < k ==> names.contains(#[trigger] deps[j])
}

/// The place in `deps` of the first name that is not among `names`.
pub open spec fn first_absent(names: Seq<Seq<char>>, deps: Seq<Seq<char>>) -> int {
    choose|k: int| is_first_absent(names, deps, k)
}

/// The line that reports a dependency that is not registered.
pub open spec fn missing_message(dep: Seq<char>) -> Seq<char> {
    "Missing dependency: "@ + dep
}

/// The line that confirms a start.
pub open spec fn started_message(name: Seq<char>) -> Seq<char> {
    "Plugin started: "@ + name
}

/// The sort keys of the descriptors: priority first, then order.
pub open spec fn sort_keys(metas: Seq<MetadataView>) -> Seq<(u32, u32)> {
    Seq::new(metas.len(), |i: int| (metas[i].priority, metas[i].order))
}

/// Whether names and descriptors are those of a registry: one descriptor for
/// each name, and no name twice.
pub open spec fn is_registry(names: Seq<Seq<char>>, metas: Seq<MetadataView>) -> bool {
    names.len() == metas.len() && names.no_duplicates()
}

/// Whether the plugin at place `i` starts: it is not disabled, and each of
/// its dependencies is registered. Whether a dependency starts is not asked.
pub open spec fn eligible(
    names: Seq<Seq<char>>,
    metas: Seq<MetadataView>,
    disabled: Set<Seq<char>>,
    i: int,
) -> bool {
    !disabled.contains(names[i]) && all_present(names, metas[i].deps)
}

/// One thing that a pass of loading does outside the loader.
pub enum LoadEvent {
    /// `on_start` is called on the plugin registered under this name.
    Started(Seq<char>),
    /// This line is handed to the diagnostic sink.
    Reported(Seq<char>),
}

/// Whether `event` is no report, or the report of a line that `sink` was
/// called with and returned from.
pub open spec fn delivered<L: Fn(&str)>(sink: L, event: LoadEvent) -> bool {
    event matches LoadEvent::Reported(line) ==> exists|text: &str|
        text@ == line && call_ensures(sink, (text,), ())
}

/// What happens when the plugin at place `i` has its turn: nothing for a
/// disabled plugin; else, where a dependency is not registered, the report of
/// the first such; else the start and its report.
pub open spec fn turn_events(
    names: Seq<Seq<char>>,
    metas: Seq<MetadataView>,
    disabled: Set<Seq<char>>,
    i: int,
) -> Seq<LoadEvent> {
    if disabled.contains(names[i]) {
        Seq::empty()
    } else if !all_present(names, metas[i].deps) {
        seq![
            LoadEvent::Reported(
                missing_message(metas[i].deps[first_absent(names, metas[i].deps)]),
            ),
        ]
    } else {
        seq![LoadEvent::Started(names[i]), LoadEvent::Reported(started_message(names[i]))]
    }
}

/// What happens while the places of `order` have their turns, one after the
/// other.
pub open spec fn events_along(
    order: Seq<int>,
    names: Seq<Seq<char>>,
    metas: Seq<MetadataView>,
    disabled: Set<Seq<char>>,
) -> Seq<LoadEvent>
    decreases order.len(),
{
    if order.len() == 0 {
        Seq::empty()
    } else {
        events_along(order.drop_last(), names, metas, disabled) + turn_events(
            names,
            metas,
            disabled,
            order.last(),
        )
    }
}

/// What happens in one pass of loading: every place has its turn, in the
/// order of loading.
pub open spec fn load_events(
    names: Seq<Seq<char>>,
    metas: Seq<MetadataView>,
    disabled: Set<Seq<char>>,
) -> Seq<LoadEvent> {
    events_along(load_order(sort_keys(metas)), names, metas, disabled)
}

/// Only one place can hold the first absent name.
pub proof fn lemma_first_absent_is(names: Seq<Seq<char>>, deps: Seq<Seq<char>>, k: int)
    requires
        is_first_absent(names, deps, k),
    ensures
        first_absent(names, deps) == k,
{
    let chosen = first_absent(names, deps);
    assert(is_first_absent(names, deps, chosen));
    if chosen < k {
        assert(names.contains(deps[chosen]));
    } else if k < chosen {
        assert(names.contains(deps[k]));
    }
}

/// Where a name is absent, one of them is the first.
pub proof fn lemma_first_absent_exists(names: Seq<Seq<char>>, deps: Seq<Seq<char>>)
    requires
        !all_present(names, deps),
    ensures
        is_first_absent(names, deps, first_absent(names, deps)),
{
    let some = choose|k: int| 0 <= k < deps.len() && !names.contains(#[trigger] deps[k]);
    let first = least_absent(names, deps, some);
    assert(is_first_absent(names, deps, first));
}

/// The first place up to `k` that holds an absent name.
proof fn least_absent(names: Seq<Seq<char>>, deps: Seq<Seq<char>>, k: int) -> (first: int)
    requires
        0 <= k < deps.len(),
        !names.contains(deps[k]),
    ensures
        is_first_absent(names, deps, first),
    decreases k,
{
    if exists|j: int| 0 <= j < k && !names.contains(#[trigger] deps[j]) {
        let j = choose|j: int| 0 <= j < k && !names.contains(#[trigger] deps[j]);
        least_absent(names, deps, j)
    } else {
        k
    }
}

/// The sort key of every descriptor.
pub fn sort_keys_of(metas: &Vec<PluginMetadata>) -> (keys: Vec<(u32, u32)>)
    ensures
        keys@ == sort_keys(views(metas@)),
{
    let mut keys: Vec<(u32, u32)> = Vec::new();
    let mut i: usize = 0;
    while i < metas.len()
        invariant
            i <= metas.len(),
            keys@.len() == i,
            forall|j: int| 0 <= j < i ==> keys@[j] == (metas@[j].priority, metas@[j].order),
        decreases metas.len() - i,
    {
        keys.push((metas[i].priority, metas[i].order));
        i += 1;
    }
    assert(keys@ =~= sort_keys(views(metas@)));
    keys
}

/// The place in `deps` of the first name that is not among `names`, or
/// `None` where each of them is there.
pub fn first_missing(names: &Vec<String>, deps: &Vec<&'static str>) -> (missing: Option<usize>)
    ensures
        (match missing {
            Some(k) => is_first_absent(texts(names@), slice_texts(deps@), k as int),
            None => all_present(texts(names@), slice_texts(deps@)),
        }),
{
    let mut k: usize = 0;
    while k < deps.len()
        invariant
            k <= deps.len(),
            forall|j: int| 0 <= j < k ==> texts(names@).contains(#[trigger] slice_texts(deps@)[j]),
        decreases deps.len() - k,
    {
        if find_text(names, deps[k]).is_none() {
            return Some(k);
        }
        k += 1;
    }
    None
}

} // verus!
