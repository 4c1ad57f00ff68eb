//! What the unit keeps of its timelines.

use std::collections::HashMap;
use vstd::prelude::*;

verus! {

broadcast use vstd::std_specs::hash::group_hash_axioms;

/// An event of a timeline.
#[derive(Debug)]
pub struct Event {
    pub timeline_id: i64,
    pub term: i64,
    pub offset: i64,
    pub payload: Option<Vec<u8>>,
    pub crc32: Option<u32>,
    pub timestamp: i64,
    pub schema_id: i32,
}

/// An [`Event`] as a mathematical value.
#[verifier::ext_equal]
pub struct EventView {
    pub timeline_id: i64,
    pub term: i64,
    pub offset: i64,
    pub payload: Option<Seq<u8>>,
    pub crc32: Option<u32>,
    pub timestamp: i64,
    pub schema_id: i32,
}

impl View for Event {
    type V = EventView;

    open spec fn view(&self) -> EventView {
        EventView {
            timeline_id: self.timeline_id,
            term: self.term,
            offset: self.offset,
            payload: match self.payload {
                Some(bytes) => Some(bytes@),
                None => None,
            },
            crc32: self.crc32,
            timestamp: self.timestamp,
            schema_id: self.schema_id,
        }
    }
}

impl Clone for Event {
    fn clone(&self) -> (copy: Event)
        ensures
            copy@ == self@,
    {
        let payload: Option<Vec<u8>> = match &self.payload {
            Some(bytes) => {
                let copied: Vec<u8> = crate::bytestr::copy_range(bytes, 0, bytes.len());
                assert(copied@ =~= bytes@);
                Some(copied)
            },
            None => None,
        };
        Event {
            timeline_id: self.timeline_id,
            term: self.term,
            offset: self.offset,
            payload,
            crc32: self.crc32,
            timestamp: self.timestamp,
            schema_id: self.schema_id,
        }
    }
}

/// Events as mathematical values.
pub open spec fn event_views(events: Seq<Event>) -> Seq<EventView> {
    events.map_values(|event: Event| event@)
}

/// The events stand in ascending order of their offsets.
pub open spec fn in_order(events: Seq<EventView>) -> bool {
    forall|i: int, j: int| 0 <= i < j < events.len() ==> events[i].offset <= events[j].offset
}

/// The events before an offset.
pub open spec fn before_offset(events: Seq<EventView>, offset: i64) -> Seq<EventView>
    decreases events.len(),
{
    if events.len() == 0 {
        Seq::empty()
    } else {
        let rest = before_offset(events.drop_last(), offset);
        if events.last().offset < offset {
            rest.push(events.last())
        } else {
            rest
        }
    }
}

/// How many events, up to the last one with at most this offset, there are.
pub open spec fn place_of(events: Seq<EventView>, offset: i64) -> nat
    decreases events.len(),
{
    if events.len() == 0 {
        0
    } else if events.last().offset <= offset {
        events.len()
    } else {
        place_of(events.drop_last(), offset)
    }
}

/// The events with one more, after those with its offset or a smaller one.
pub open spec fn with_event(events: Seq<EventView>, event: EventView) -> Seq<EventView> {
    events.insert(place_of(events, event.offset) as int, event)
}

/// The events from `start` on and before `end`.
pub open spec fn in_range(events: Seq<EventView>, start: i64, end: i64) -> Seq<EventView>
    decreases events.len(),
{
    if events.len() == 0 {
        Seq::empty()
    } else {
        let rest = in_range(events.drop_last(), start, end);
        if start <= events.last().offset < end {
            rest.push(events.last())
        } else {
            rest
        }
    }
}

proof fn place_is_between(events: Seq<EventView>, offset: i64)
    requires
        in_order(events),
    ensures
        place_of(events, offset) <= events.len(),
        forall|i: int| 0 <= i < place_of(events, offset) ==> (#[trigger] events[i]).offset <= offset,
        forall|i: int| place_of(events, offset) <= i < events.len() ==> (#[trigger] events[i]).offset > offset,
    decreases events.len(),
{
    if events.len() > 0 && events.last().offset > offset {
        let rest = events.drop_last();
        place_is_between(rest, offset);
        assert forall|i: int| 0 <= i < place_of(events, offset) implies (#[trigger] events[i]).offset <= offset by {
            assert(rest[i] == events[i]);
        }
        assert forall|i: int| place_of(events, offset) <= i < events.len() implies (#[trigger] events[i]).offset
            > offset by {
            if i < rest.len() {
                assert(rest[i] == events[i]);
            }
        }
    }
}

proof fn earlier_events(events: Seq<EventView>, offset: i64)
    requires
        in_order(events),
    ensures
        in_order(before_offset(events, offset)),
        forall|i: int|
            0 <= i < before_offset(events, offset).len() ==> (#[trigger] before_offset(events, offset)[i]).offset < offset
                && events.contains(before_offset(events, offset)[i]),
    decreases events.len(),
{
    if events.len() > 0 {
        let rest = events.drop_last();
        let kept = before_offset(rest, offset);
        let found = before_offset(events, offset);
        earlier_events(rest, offset);
        assert forall|i: int| 0 <= i < found.len() implies (#[trigger] found[i]).offset < offset && events.contains(
            found[i],
        ) by {
            if i < kept.len() {
                assert(kept[i] == found[i]);
                let k = choose|k: int| 0 <= k < rest.len() && rest[k] == kept[i];
                assert(events[k] == found[i]);
            } else {
                assert(events[events.len() - 1] == found[i]);
            }
        }
        assert forall|i: int, j: int| 0 <= i < j < found.len() implies found[i].offset <= found[j].offset by {
            assert(kept[i] == found[i]);
            if j < kept.len() {
                assert(kept[j] == found[j]);
            } else {
                let k = choose|k: int| 0 <= k < rest.len() && rest[k] == kept[i];
                assert(events[k].offset <= events[events.len() - 1].offset);
            }
        }
    }
}

/// The events before an offset stand in order.
pub proof fn earlier_events_are_in_order(events: Seq<EventView>, offset: i64)
    requires
        in_order(events),
    ensures
        in_order(before_offset(events, offset)),
{
    earlier_events(events, offset);
}

/// Whether a timeline that is fenced at `current` accepts a request with a
/// term.
pub open spec fn accepts(current: i64, requested: i64) -> bool {
    requested >= current
}

/// The term that a timeline is fenced at after a request to fence it.
pub open spec fn fenced(current: i64, requested: i64) -> i64 {
    if accepts(current, requested) {
        requested
    } else {
        current
    }
}

/// The acknowledged offset of a timeline after one more event.
pub open spec fn latest_offset(current: Option<i64>, offset: i64) -> i64 {
    match current {
        Some(current) => if current < offset {
            offset
        } else {
            current
        },
        None => offset,
    }
}

/// What the unit keeps, as a mathematical value.
#[verifier::ext_equal]
pub struct StorageView {
    pub next_offset: i64,
    pub synced: i64,
    pub terms: Map<i64, i64>,
    pub acknowledged: Map<i64, i64>,
    pub timelines: Map<i64, Seq<EventView>>,
}

impl StorageView {
    /// The term that a timeline is fenced at.
    pub open spec fn term(self, timeline: i64) -> i64 {
        if self.terms.contains_key(timeline) {
            self.terms[timeline]
        } else {
            0
        }
    }

    /// The offset of the last acknowledged event of a timeline, if any.
    pub open spec fn last_acknowledged(self, timeline: i64) -> Option<i64> {
        if self.acknowledged.contains_key(timeline) {
            Some(self.acknowledged[timeline])
        } else {
            None
        }
    }

    /// The events of a timeline.
    pub open spec fn timeline(self, timeline: i64) -> Seq<EventView> {
        if self.timelines.contains_key(timeline) {
            self.timelines[timeline]
        } else {
            Seq::empty()
        }
    }

    /// The storage with one more event.
    pub open spec fn with_write(self, event: EventView, truncate: bool) -> StorageView {
        let before = self.timeline(event.timeline_id);
        let kept = if truncate {
            before_offset(before, event.offset)
        } else {
            before
        };
        StorageView { timelines: self.timelines.insert(event.timeline_id, with_event(kept, event)), ..self }
    }

    /// The storage after a request to fence a timeline at a term.
    pub open spec fn with_fence(self, timeline: i64, term: i64) -> StorageView {
        if accepts(self.term(timeline), term) {
            StorageView { terms: self.terms.insert(timeline, fenced(self.term(timeline), term)), ..self }
        } else {
            self
        }
    }

    /// The storage with one more acknowledged event.
    pub open spec fn with_acknowledged(self, timeline: i64, offset: i64) -> StorageView {
        StorageView {
            acknowledged: self.acknowledged.insert(timeline, latest_offset(self.last_acknowledged(timeline), offset)),
            ..self
        }
    }

    /// The events of every timeline stand in order.
    pub open spec fn is_ordered(self) -> bool {
        forall|timeline: i64| in_order(#[trigger] self.timeline(timeline))
    }
}

/// What the unit keeps: the term that each timeline is fenced at, the offset
/// of the last event that each timeline acknowledged, and the events.
pub struct UnitStorage {
    next_wal_offset: i64,
    synced_offset: i64,
    terms: HashMap<i64, i64>,
    lra: HashMap<i64, i64>,
    events: HashMap<i64, Vec<Event>>,
}

impl View for UnitStorage {
    type V = StorageView;

    closed spec fn view(&self) -> StorageView {
        StorageView {
            next_offset: self.next_wal_offset,
            synced: self.synced_offset,
            terms: self.terms@,
            acknowledged: self.lra@,
            timelines: self.events@.map_values(|events: Vec<Event>| event_views(events@)),
        }
    }
}

impl UnitStorage {
    /// Storage without timelines.
    pub fn new() -> (storage: UnitStorage)
        ensures
            storage@ == (StorageView {
                next_offset: 0,
                synced: (-1) as i64,
                terms: Map::empty(),
                acknowledged: Map::empty(),
                timelines: Map::empty(),
            }),
            storage@.is_ordered(),
    {
        let storage = UnitStorage {
            next_wal_offset: 0,
            synced_offset: -1,
            terms: HashMap::new(),
            lra: HashMap::new(),
            events: HashMap::new(),
        };
        assert(storage@.timelines =~= Map::<i64, Seq<EventView>>::empty());
        storage
    }

    /// Appends an entry to the log, which is durable at once, and returns its
    /// position. Positions wrap around.
    pub fn append(&mut self) -> (offset: i64)
        ensures
            offset == old(self)@.next_offset,
            final(self)@ == (StorageView {
                synced: offset,
                next_offset: (if offset == i64::MAX {
                    i64::MIN as int
                } else {
                    offset + 1
                }) as i64,
                ..old(self)@
            }),
    {
        let offset: i64 = self.next_wal_offset;
        self.next_wal_offset = if offset == i64::MAX { i64::MIN } else { offset + 1 };
        self.synced_offset = offset;
        offset
    }

    /// The position of the last entry of the log that is durable.
    pub fn synced(&self) -> (offset: i64)
        ensures
            offset == self@.synced,
    {
        self.synced_offset
    }

    /// Adds an event to its timeline. Where `truncate` holds, the events with
    /// its offset or a larger one are dropped first.
    pub fn apply_write(&mut self, event: Event, truncate: bool)
        requires
            old(self)@.is_ordered(),
        ensures
            final(self)@ == old(self)@.with_write(event@, truncate),
            final(self)@.is_ordered(),
    {
        let timeline: i64 = event.timeline_id;
        let ghost held = self@;
        let ghost before = self@.timeline(timeline);
        let mut events: Vec<Event> = match self.events.remove(&timeline) {
            Some(events) => events,
            None => Vec::new(),
        };
        assert(event_views(events@) =~= before);
        if truncate {
            events = retained(events, event.offset);
        }
        let ghost kept = event_views(events@);
        proof {
            assert(in_order(before));
            earlier_events(before, event.offset);
            assert(in_order(kept));
            place_is_between(kept, event.offset);
        }
        let ghost added = event@;
        let mut at: usize = events.len();
        assert(kept.take(at as int) =~= kept);
        while at > 0 && events[at - 1].offset > event.offset
            invariant
                at <= events@.len(),
                kept == event_views(events@),
                place_of(kept, event.offset) == place_of(kept.take(at as int), event.offset),
            decreases at,
        {
            assert(kept.take(at as int).drop_last() =~= kept.take(at - 1));
            at -= 1;
        }
        proof {
            assert(at > 0 ==> kept.take(at as int).last() == kept[at - 1]);
            assert(place_of(kept, added.offset) == at);
        }
        events.insert(at, event);
        proof {
            assert(event_views(events@) =~= with_event(kept, added));
            assert(in_order(with_event(kept, added)));
        }
        self.events.insert(timeline, events);
        proof {
            assert(self@.timelines =~= held.with_write(added, truncate).timelines);
            assert forall|other: i64| in_order(#[trigger] self@.timeline(other)) by {
                if other != timeline {
                    assert(self@.timeline(other) == held.timeline(other));
                }
            }
        }
    }

    /// The events of a timeline from `start_offset` on and before `end_offset`.
    pub fn read_events(&self, timeline_id: i64, start_offset: i64, end_offset: i64) -> (found: Vec<Event>)
        ensures
            event_views(found@) == in_range(self@.timeline(timeline_id), start_offset, end_offset),
    {
        let mut found: Vec<Event> = Vec::new();
        assert(event_views(found@) =~= Seq::<EventView>::empty());
        match self.events.get(&timeline_id) {
            Some(events) => {
                let ghost all = event_views(events@);
                let mut at: usize = 0;
                assert(all.take(0) =~= Seq::<EventView>::empty());
                while at < events.len()
                    invariant
                        at <= events@.len(),
                        all == event_views(events@),
                        event_views(found@) == in_range(all.take(at as int), start_offset, end_offset),
                    decreases events@.len() - at,
                {
                    let ghost before = event_views(found@);
                    proof {
                        assert(all.take(at + 1).drop_last() =~= all.take(at as int));
                        assert(all.take(at + 1).last() == events@[at as int]@);
                    }
                    let event: &Event = &events[at];
                    if event.offset >= start_offset && event.offset < end_offset {
                        found.push(event.clone());
                        assert(event_views(found@) =~= before.push(event@));
                    }
                    at += 1;
                }
                assert(all.take(all.len() as int) =~= all);
            },
            None => {},
        }
        found
    }

    /// Whether a request with a term may change a timeline. If not, returns the
    /// term that the timeline is fenced at.
    pub fn check_term(&self, timeline_id: i64, request_term: i64) -> (result: Result<(), i64>)
        ensures
            result == (if accepts(self@.term(timeline_id), request_term) {
                Ok::<(), i64>(())
            } else {
                Err(self@.term(timeline_id))
            }),
            result is Err <==> request_term < self@.term(timeline_id),
    {
        let current: i64 = self.current_term(timeline_id);
        if request_term < current {
            Err(current)
        } else {
            Ok(())
        }
    }

    fn current_term(&self, timeline_id: i64) -> (term: i64)
        ensures
            term == self@.term(timeline_id),
    {
        match self.terms.get(&timeline_id) {
            Some(term) => *term,
            None => 0,
        }
    }

    /// Fences a timeline at a term, and returns the offset of its last
    /// acknowledged event. A term below the current one is refused with the
    /// current one.
    pub fn fence(&mut self, timeline_id: i64, new_term: i64) -> (result: Result<i64, i64>)
        ensures
            ({
                let current = old(self)@.term(timeline_id);
                if accepts(current, new_term) {
                    &&& result == Ok::<i64, i64>(
                        match old(self)@.last_acknowledged(timeline_id) {
                            Some(offset) => offset,
                            None => 0,
                        },
                    )
                    &&& final(self)@ == (StorageView {
                        terms: old(self)@.terms.insert(timeline_id, fenced(current, new_term)),
                        ..old(self)@
                    })
                } else {
                    &&& result == Err::<i64, i64>(current)
                    &&& final(self)@ == old(self)@
                }
            }),
            final(self)@ == old(self)@.with_fence(timeline_id, new_term),
            result is Err <==> new_term < old(self)@.term(timeline_id),
            result is Ok ==> final(self)@.term(timeline_id) == new_term,
            result is Err ==> final(self)@ == old(self)@,
            final(self)@.term(timeline_id) == fenced(old(self)@.term(timeline_id), new_term),
    {
        let current: i64 = self.current_term(timeline_id);
        if new_term < current {
            return Err(current);
        }
        self.terms.insert(timeline_id, new_term);
        match self.lra.get(&timeline_id) {
            Some(offset) => Ok(*offset),
            None => Ok(0),
        }
    }

    /// Acknowledges the event with an offset. The offset never goes back.
    pub fn update_lra(&mut self, timeline_id: i64, lra: i64)
        ensures
            final(self)@ == old(self)@.with_acknowledged(timeline_id, lra),
    {
        let latest: i64 = match self.lra.get(&timeline_id) {
            Some(current) => if *current < lra {
                lra
            } else {
                *current
            },
            None => lra,
        };
        self.lra.insert(timeline_id, latest);
    }
}

/// The events before an offset.
fn retained(events: Vec<Event>, offset: i64) -> (kept: Vec<Event>)
    ensures
        event_views(kept@) == before_offset(event_views(events@), offset),
{
    let ghost all = event_views(events@);
    let mut kept: Vec<Event> = Vec::new();
    let mut at: usize = 0;
    assert(event_views(kept@) =~= Seq::<EventView>::empty());
    assert(all.take(0) =~= Seq::<EventView>::empty());
    while at < events.len()
        invariant
            at <= events@.len(),
            all == event_views(events@),
            event_views(kept@) == before_offset(all.take(at as int), offset),
        decreases events@.len() - at,
    {
        let ghost before = event_views(kept@);
        proof {
            assert(all.take(at + 1).drop_last() =~= all.take(at as int));
            assert(all.take(at + 1).last() == events@[at as int]@);
        }
        if events[at].offset < offset {
            let copy: Event = events[at].clone();
            kept.push(copy);
            assert(event_views(kept@) =~= before.push(copy@));
        }
        at += 1;
    }
    assert(all.take(all.len() as int) =~= all);
    kept
}

/// An event that was written is read back in every range that holds its
/// offset.
pub proof fn written_event_is_read(events: Seq<EventView>, event: EventView, start: i64, end: i64)
    requires
        in_order(events),
        start <= event.offset < end,
    ensures
        in_range(with_event(events, event), start, end).contains(event),
{
    place_is_between(events, event.offset);
    let at = place_of(events, event.offset) as int;
    assert(with_event(events, event)[at] == event);
    event_is_in_range(with_event(events, event), at, start, end);
}

proof fn event_is_in_range(events: Seq<EventView>, at: int, start: i64, end: i64)
    requires
        0 <= at < events.len(),
        start <= events[at].offset < end,
    ensures
        in_range(events, start, end).contains(events[at]),
    decreases events.len(),
{
    let found = in_range(events, start, end);
    if at == events.len() - 1 {
        assert(found[found.len() - 1] == events[at]);
    } else {
        let rest = events.drop_last();
        event_is_in_range(rest, at, start, end);
        let kept = in_range(rest, start, end);
        let k = choose|k: int| 0 <= k < kept.len() && kept[k] == rest[at];
        assert(found[k] == events[at]);
    }
}

/// What is read are events of the timeline with offsets in the range, in
/// ascending order.
pub proof fn read_events_are_in_order(events: Seq<EventView>, start: i64, end: i64)
    requires
        in_order(events),
    ensures
        in_order(in_range(events, start, end)),
        forall|i: int|
            0 <= i < in_range(events, start, end).len() ==> {
                &&& start <= (#[trigger] in_range(events, start, end)[i]).offset < end
                &&& events.contains(in_range(events, start, end)[i])
            },
    decreases events.len(),
{
    if events.len() > 0 {
        let rest = events.drop_last();
        let kept = in_range(rest, start, end);
        let found = in_range(events, start, end);
        read_events_are_in_order(rest, start, end);
        assert forall|i: int| 0 <= i < found.len() implies {
            &&& start <= (#[trigger] found[i]).offset < end
            &&& events.contains(found[i])
        } by {
            if i < kept.len() {
                assert(kept[i] == found[i]);
                let k = choose|k: int| 0 <= k < rest.len() && rest[k] == kept[i];
                assert(events[k] == found[i]);
            } else {
                assert(events[events.len() - 1] == found[i]);
            }
        }
        assert forall|i: int, j: int| 0 <= i < j < found.len() implies found[i].offset <= found[j].offset by {
            assert(kept[i] == found[i]);
            if j < kept.len() {
                assert(kept[j] == found[j]);
            } else {
                let k = choose|k: int| 0 <= k < rest.len() && rest[k] == kept[i];
                assert(events[k].offset <= events[events.len() - 1].offset);
            }
        }
    }
}

/// A write that truncates leaves no other event with its offset or a larger
/// one.
pub proof fn truncating_write_is_last(events: Seq<EventView>, event: EventView)
    requires
        in_order(events),
    ensures
        ({
            let after = with_event(before_offset(events, event.offset), event);
            &&& after.last() == event
            &&& forall|i: int| 0 <= i < after.len() - 1 ==> (#[trigger] after[i]).offset < event.offset
        }),
{
    let kept = before_offset(events, event.offset);
    earlier_events(events, event.offset);
    place_is_between(kept, event.offset);
    assert(place_of(kept, event.offset) == kept.len()) by {
        if place_of(kept, event.offset) < kept.len() {
            assert(kept[place_of(kept, event.offset) as int].offset > event.offset);
        }
    }
    let after = with_event(kept, event);
    assert(after =~= kept.push(event));
}

/// Once a timeline was asked to be fenced at a term, it accepts no request
/// with a smaller one, and whatever it refused before it still refuses.
pub proof fn fence_shuts_out(current: i64, requested: i64, later: i64)
    ensures
        accepts(fenced(current, requested), later) <==> accepts(current, later) && accepts(requested, later),
{
}

/// The acknowledged offset does not depend on the order in which two events
/// are acknowledged, and is not below either.
pub proof fn acknowledgements_commute(current: Option<i64>, first: i64, second: i64)
    ensures
        latest_offset(Some(latest_offset(current, first)), second) == latest_offset(
            Some(latest_offset(current, second)),
            first,
        ),
        latest_offset(current, first) >= first,
        current matches Some(before) ==> latest_offset(current, first) >= before,
{
}

/// A request is refused if and only if its term is smaller than the one that
/// its timeline is fenced at. One with that same term is accepted.
pub proof fn smaller_terms_are_refused(storage: StorageView, timeline: i64, requested: i64)
    ensures
        !accepts(storage.term(timeline), requested) <==> requested < storage.term(timeline),
{
}

/// A timeline that is fenced at a term accepts requests with that term and
/// larger ones, and no others. To fence it at a smaller term changes nothing,
/// and other timelines and all events stay as they are.
pub proof fn fenced_timeline_takes_its_term(storage: StorageView, timeline: i64, term: i64, later: i64)
    ensures
        ({
            let after = storage.with_fence(timeline, term);
            &&& term >= storage.term(timeline) ==> after.term(timeline) == term
            &&& term < storage.term(timeline) ==> after == storage
            &&& accepts(after.term(timeline), later) <==> later >= term && later >= storage.term(timeline)
            &&& forall|other: i64| other != timeline ==> #[trigger] after.term(other) == storage.term(other)
            &&& after.timelines == storage.timelines
            &&& after.acknowledged == storage.acknowledged
            &&& after.next_offset == storage.next_offset
            &&& after.synced == storage.synced
        }),
{
}

/// The storage after requests to fence timelines, one after another.
pub open spec fn after_fences(storage: StorageView, fences: Seq<(i64, i64)>) -> StorageView
    decreases fences.len(),
{
    if fences.len() == 0 {
        storage
    } else {
        after_fences(storage, fences.drop_last()).with_fence(fences.last().0, fences.last().1)
    }
}

/// A timeline that was never fenced stands at term zero. Otherwise it stands at
/// the largest term that was asked for it, or at zero where they are all
/// negative.
pub proof fn term_is_the_largest_asked_for(storage: StorageView, fences: Seq<(i64, i64)>, timeline: i64)
    requires
        storage.terms == Map::<i64, i64>::empty(),
    ensures
        ({
            let term = after_fences(storage, fences).term(timeline);
            &&& term >= 0
            &&& forall|i: int| 0 <= i < fences.len() && (#[trigger] fences[i]).0 == timeline ==> fences[i].1 <= term
            &&& term == 0 || fences.contains((timeline, term))
        }),
    decreases fences.len(),
{
    if fences.len() > 0 {
        let front = fences.drop_last();
        let term = after_fences(storage, fences).term(timeline);
        let before = after_fences(storage, front).term(timeline);
        term_is_the_largest_asked_for(storage, front, timeline);
        assert forall|i: int| 0 <= i < fences.len() && (#[trigger] fences[i]).0 == timeline implies fences[i].1
            <= term by {
            if i < front.len() {
                assert(front[i] == fences[i]);
            }
        }
        if term != 0 {
            if term == before {
                let k = choose|k: int| 0 <= k < front.len() && front[k] == (timeline, term);
                assert(fences[k] == (timeline, term));
            } else {
                assert(fences[fences.len() - 1] == (timeline, term));
            }
        }
    }
}

proof fn earlier_events_are_the_first(events: Seq<EventView>, offset: i64) -> (count: int)
    requires
        in_order(events),
    ensures
        0 <= count <= events.len(),
        before_offset(events, offset) == events.take(count),
        forall|i: int| 0 <= i < count ==> (#[trigger] events[i]).offset < offset,
        forall|i: int| count <= i < events.len() ==> (#[trigger] events[i]).offset >= offset,
    decreases events.len(),
{
    if events.len() == 0 {
        assert(before_offset(events, offset) =~= events.take(0));
        0
    } else {
        let rest = events.drop_last();
        let count = earlier_events_are_the_first(rest, offset);
        assert forall|i: int| 0 <= i < count implies (#[trigger] events[i]).offset < offset by {
            assert(rest[i] == events[i]);
        }
        if events.last().offset < offset {
            if count < rest.len() {
                assert(rest[count].offset >= offset);
                assert(events[count].offset <= events[events.len() - 1].offset);
            }
            assert(before_offset(events, offset) =~= events.take(events.len() as int));
            events.len() as int
        } else {
            assert forall|i: int| count <= i < events.len() implies (#[trigger] events[i]).offset >= offset by {
                if i < rest.len() {
                    assert(rest[i] == events[i]);
                }
            }
            assert(before_offset(events, offset) =~= events.take(count));
            count
        }
    }
}

/// A write puts its event into its timeline, behind all events with its offset
/// or a smaller one, and keeps the others as they stand. Where it truncates,
/// only those with smaller offsets stay. Nothing else changes.
pub proof fn write_is_put_in_its_place(storage: StorageView, event: EventView, truncate: bool) -> (place: int)
    requires
        storage.is_ordered(),
    ensures
        ({
            let before = storage.timeline(event.timeline_id);
            let after = storage.with_write(event, truncate);
            &&& 0 <= place <= before.len()
            &&& forall|i: int|
                0 <= i < place ==> (#[trigger] before[i]).offset <= event.offset && (truncate ==> before[i].offset
                    < event.offset)
            &&& forall|i: int|
                place <= i < before.len() ==> (#[trigger] before[i]).offset >= event.offset && (!truncate
                    ==> before[i].offset > event.offset)
            &&& after.timeline(event.timeline_id) == before.take(place) + seq![event] + (if truncate {
                Seq::empty()
            } else {
                before.skip(place)
            })
            &&& forall|other: i64|
                other != event.timeline_id ==> #[trigger] after.timeline(other) == storage.timeline(other)
            &&& after.terms == storage.terms
            &&& after.acknowledged == storage.acknowledged
            &&& after.next_offset == storage.next_offset
            &&& after.synced == storage.synced
        }),
{
    let before = storage.timeline(event.timeline_id);
    let after = storage.with_write(event, truncate).timeline(event.timeline_id);
    assert(in_order(before));
    if truncate {
        let count = earlier_events_are_the_first(before, event.offset);
        truncating_write_is_last(before, event);
        assert(after =~= before.take(count) + seq![event] + Seq::<EventView>::empty()) by {
            place_is_between(before.take(count), event.offset);
            let place = place_of(before.take(count), event.offset) as int;
            if place < count {
                assert(before.take(count)[place].offset > event.offset);
                assert(before[place].offset < event.offset);
            }
        }
        count
    } else {
        place_is_between(before, event.offset);
        let place = place_of(before, event.offset) as int;
        assert(after =~= before.take(place) + seq![event] + before.skip(place));
        place
    }
}

/// What is read of a timeline are all its events with offsets in the range, as
/// they stand in it, and no others.
pub proof fn read_gives_all_in_range(events: Seq<EventView>, start: i64, end: i64)
    ensures
        in_range(events, start, end) == events.filter(
            |event: EventView| start <= event.offset && event.offset < end,
        ),
    decreases events.len(),
{
    reveal(Seq::filter);
    if events.len() > 0 {
        read_gives_all_in_range(events.drop_last(), start, end);
    }
}

/// What is acknowledged of a timeline is read back: nothing of one that was never
/// acknowledged, and else the largest of the offsets. Other timelines keep theirs.
pub proof fn acknowledged_offset_is_read_back(storage: StorageView, timeline: i64, offset: i64, other: i64)
    ensures
        ({
            let after = storage.with_acknowledged(timeline, offset);
            &&& storage.acknowledged.contains_key(timeline) <==> storage.last_acknowledged(timeline) is Some
            &&& storage.last_acknowledged(timeline) matches Some(last) ==> storage.acknowledged[timeline] == last
            &&& after.last_acknowledged(timeline) matches Some(last) && offset <= last
            &&& storage.last_acknowledged(timeline) matches Some(earlier) ==> (after.last_acknowledged(timeline)
                == Some(earlier) && offset <= earlier || after.last_acknowledged(timeline) == Some(offset) && earlier
                <= offset)
            &&& storage.last_acknowledged(timeline) is None ==> after.last_acknowledged(timeline) == Some(offset)
            &&& other != timeline ==> after.last_acknowledged(other) == storage.last_acknowledged(other)
            &&& after.terms == storage.terms && after.timelines == storage.timelines
            &&& after.next_offset == storage.next_offset && after.synced == storage.synced
        }),
{
}

} // verus!
