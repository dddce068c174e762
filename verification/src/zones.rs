//! The elements of the panel, grouped by zone.

use crate::metadata::{AppendMethod, PanelPosition};
use vstd::prelude::*;

verus! {

/// What one plugin brings to the panel: its zone, and its element with the
/// way to insert it, if it has one.
pub type Placement<'a, W> = (PanelPosition, Option<(&'a W, AppendMethod)>);

/// The elements that `placed` holds for the zone `position`, in the order of
/// `placed`.
pub open spec fn zone_items<'a, W>(placed: Seq<Placement<'a, W>>, position: PanelPosition) -> Seq<
    (&'a W, AppendMethod),
> {
    placed.filter_map(
        |placement: Placement<'a, W>|
            if placement.0 == position {
                placement.1
            } else {
                None
            },
    )
}

/// The zones of `placed`: a zone is a key where an element belongs to it, and
/// its value lists the elements that do.
pub open spec fn zone_map<'a, W>(placed: Seq<Placement<'a, W>>) -> Map<
    PanelPosition,
    Seq<(&'a W, AppendMethod)>,
> {
    Map::new(
        |position: PanelPosition| zone_items(placed, position).len() > 0,
        |position: PanelPosition| zone_items(placed, position),
    )
}

/// The zones of `placed` that have elements, each once, in the order in which
/// their first elements come.
pub open spec fn zone_order<'a, W>(placed: Seq<Placement<'a, W>>) -> Seq<PanelPosition>
    decreases placed.len(),
{
    if placed.len() == 0 {
        Seq::empty()
    } else {
        let before = zone_order(placed.drop_last());
        let (zone, item) = placed.last();
        if item is Some && !before.contains(zone) {
            before.push(zone)
        } else {
            before
        }
    }
}

/// A placement without an element changes no zone.
pub proof fn lemma_zone_map_skip<'a, W>(placed: Seq<Placement<'a, W>>, zone: PanelPosition)
    ensures
        zone_map(placed.push((zone, None))) == zone_map(placed),
        zone_order(placed.push((zone, None))) == zone_order(placed),
{
    let after = placed.push((zone, None));
    assert(after.drop_last() =~= placed);
    assert forall|position: PanelPosition|
        zone_items(after, position) == zone_items(placed, position) by {}
    assert(zone_map(after) =~= zone_map(placed));
}

/// A placement with an element adds the element at the end of its zone, and
/// changes no other zone.
pub proof fn lemma_zone_map_place<'a, W>(
    placed: Seq<Placement<'a, W>>,
    zone: PanelPosition,
    item: (&'a W, AppendMethod),
)
    ensures
        zone_map(placed.push((zone, Some(item)))) == zone_map(placed).insert(
            zone,
            zone_items(placed, zone).push(item),
        ),
        zone_order(placed.push((zone, Some(item)))) == (if zone_order(placed).contains(zone) {
            zone_order(placed)
        } else {
            zone_order(placed).push(zone)
        }),
{
    let after = placed.push((zone, Some(item)));
    assert(after.drop_last() =~= placed);
    assert forall|position: PanelPosition| position != zone implies zone_items(after, position)
        == zone_items(placed, position) by {}
    assert(zone_items(after, zone) == zone_items(placed, zone).push(item));
    assert(zone_map(after) =~= zone_map(placed).insert(zone, zone_items(placed, zone).push(item)));
}

/// The order of the zones holds the keys of the mapping, and nothing else.
pub proof fn lemma_zone_order_holds_keys<'a, W>(
    placed: Seq<Placement<'a, W>>,
    position: PanelPosition,
)
    ensures
        zone_order(placed).contains(position) <==> zone_map(placed).dom().contains(position),
    decreases placed.len(),
{
    if placed.len() > 0 {
        let front = placed.drop_last();
        let before = zone_order(front);
        lemma_zone_order_holds_keys(front, position);
        let (zone, item) = placed.last();
        if item is Some && !before.contains(zone) {
            let after = before.push(zone);
            if zone == position {
                assert(after[before.len() as int] == position);
            } else if before.contains(position) {
                let at = choose|at: int| 0 <= at < before.len() && before[at] == position;
                assert(after[at] == position);
            } else if after.contains(position) {
                let at = choose|at: int| 0 <= at < after.len() && after[at] == position;
                assert(before[at] == position);
            }
        }
    }
}

/// A mapping from zones to their elements. A zone without elements is no key
/// of it.
pub struct ZoneMap<'a, W> {
    positions: Vec<PanelPosition>,
    items: Vec<Vec<(&'a W, AppendMethod)>>,
}

impl<'a, W> View for ZoneMap<'a, W> {
    type V = Map<PanelPosition, Seq<(&'a W, AppendMethod)>>;

    closed spec fn view(&self) -> Map<PanelPosition, Seq<(&'a W, AppendMethod)>> {
        Map::new(
            |position: PanelPosition| self.positions@.contains(position),
            |position: PanelPosition| self.items@[self.positions@.index_of(position)]@,
        )
    }
}

impl<'a, W> ZoneMap<'a, W> {
    /// The zones in the order in which they entered the mapping.
    pub closed spec fn order(&self) -> Seq<PanelPosition> {
        self.positions@
    }

    /// Every zone has its list, no zone occurs twice, and no list is empty.
    pub closed spec fn wf(&self) -> bool {
        &&& self.positions.len() == self.items.len()
        &&& self.positions@.no_duplicates()
        &&& forall|i: int| 0 <= i < self.items.len() ==> (#[trigger] self.items@[i]).len() > 0
    }

    /// The mapping without a zone.
    pub fn new() -> (zones: Self)
        ensures
            zones.wf(),
            zones@ == Map::<PanelPosition, Seq<(&'a W, AppendMethod)>>::empty(),
            zones.order() == Seq::<PanelPosition>::empty(),
    {
        let zones = ZoneMap { positions: Vec::new(), items: Vec::new() };
        assert(zones@ =~= Map::<PanelPosition, Seq<(&'a W, AppendMethod)>>::empty());
        zones
    }

    /// Where `position` stands among the zones.
    fn find(&self, position: PanelPosition) -> (place: Option<usize>)
        requires
            self.wf(),
        ensures
            (match place {
                Some(i) => i < self.positions.len() && self.positions@[i as int] == position
                    && self.positions@.index_of(position) == i,
                None => !self.positions@.contains(position),
            }),
    {
        let mut i: usize = 0;
        while i < self.positions.len()
            invariant
                self.wf(),
                i <= self.positions.len(),
                forall|j: int| 0 <= j < i ==> self.positions@[j] != position,
            decreases self.positions.len() - i,
        {
            if self.positions[i] == position {
                proof {
                    let found = self.positions@.index_of(position);
                    assert(0 <= found < self.positions.len() && self.positions@[found] == position);
                }
                return Some(i);
            }
            i += 1;
        }
        None
    }

    /// Adds `element` at the end of the zone `position`.
    pub fn place(&mut self, position: PanelPosition, element: &'a W, method: AppendMethod)
        requires
            old(self).wf(),
        ensures
            final(self).wf(),
            final(self)@ == old(self)@.insert(
                position,
                (if old(self)@.dom().contains(position) {
                    old(self)@[position]
                } else {
                    Seq::empty()
                }).push((element, method)),
            ),
            final(self).order() == (if old(self)@.dom().contains(position) {
                old(self).order()
            } else {
                old(self).order().push(position)
            }),
    {
        match self.find(position) {
            Some(i) => {
                self.items[i].push((element, method));
                proof {
                    assert forall|other: PanelPosition| self.positions@.contains(other) implies (
                    #[trigger] self@[other]) == old(self)@.insert(
                        position,
                        old(self)@[position].push((element, method)),
                    )[other] by {
                        let j = self.positions@.index_of(other);
                        assert(0 <= j < self.positions.len() && self.positions@[j] == other);
                    }
                    assert(self@ =~= old(self)@.insert(
                        position,
                        old(self)@[position].push((element, method)),
                    ));
                }
            },
            None => {
                let mut list: Vec<(&'a W, AppendMethod)> = Vec::new();
                list.push((element, method));
                self.positions.push(position);
                self.items.push(list);
                proof {
                    let fresh = Seq::<(&'a W, AppendMethod)>::empty().push((element, method));
                    assert(list@ =~= fresh);
                    assert(self.positions@ =~= old(self).positions@.push(position));
                    assert forall|other: PanelPosition| self.positions@.contains(other) implies (
                    #[trigger] self@[other]) == old(self)@.insert(position, fresh)[other] by {
                        let j = self.positions@.index_of(other);
                        assert(0 <= j < self.positions.len() && self.positions@[j] == other);
                        if other != position {
                            assert(old(self).positions@[j] == other);
                            let before = old(self).positions@.index_of(other);
                            assert(0 <= before < old(self).positions.len() && old(
                                self,
                            ).positions@[before] == other);
                        }
                    }
                    assert forall|other: PanelPosition|
                        old(self)@.insert(position, fresh).dom().contains(
                            other,
                        ) implies self.positions@.contains(other) by {
                        if other == position {
                            assert(self.positions@[old(self).positions.len() as int] == position);
                        } else {
                            let before = old(self).positions@.index_of(other);
                            assert(0 <= before < old(self).positions.len() && old(
                                self,
                            ).positions@[before] == other);
                            assert(self.positions@[before] == other);
                        }
                    }
                    assert(self@ =~= old(self)@.insert(position, fresh));
                }
            },
        }
    }

    /// The elements of the zone `position`, if it has any.
    pub fn get(&self, position: PanelPosition) -> (list: Option<&Vec<(&'a W, AppendMethod)>>)
        requires
            self.wf(),
        ensures
            list is Some <==> self@.dom().contains(position),
            list matches Some(elements) ==> elements@ == self@[position],
    {
        match self.find(position) {
            Some(i) => Some(&self.items[i]),
            None => None,
        }
    }

    /// The zones that have elements, each once, in the order in which they
    /// entered the mapping.
    pub fn positions(&self) -> (zones: &Vec<PanelPosition>)
        requires
            self.wf(),
        ensures
            zones@ == self.order(),
            zones@.no_duplicates(),
            zones@.to_set() == self@.dom(),
    {
        assert(self.positions@.to_set() =~= self@.dom());
        &self.positions
    }
}

} // verus!
