//! Bounded capture buffers of one port.
//!
//! Two views of the same incoming bytes: `raw`, a flat ring of bytes, and
//! `events`, one entry per frame with an id that only ever grows. The oldest
//! bytes and events are dropped when their buffer is full. With a bound of zero
//! nothing is kept.
use crate::outside;
use crate::text;
use std::collections::VecDeque;
use std::time::{Duration, SystemTime};
use vstd::prelude::*;

verus! {

/// One received frame.
pub struct Event {
    pub id: u64,
    pub ts_ms: u64,
    pub data: Vec<u8>,
    /// `"<scenario>:<rule_index>"` when an input rule fired, else `None`.
    pub matched_rule: Option<String>,
}

/// What an `Event` holds.
pub struct EventView {
    pub id: u64,
    pub ts_ms: u64,
    pub data: Seq<u8>,
    pub matched_rule: Option<Seq<char>>,
}

impl View for Event {
    type V = EventView;

    open spec fn view(&self) -> EventView {
        EventView {
            id: self.id,
            ts_ms: self.ts_ms,
            data: self.data@,
            matched_rule: text::text_option(self.matched_rule),
        }
    }
}

impl Clone for Event {
    fn clone(&self) -> (r: Event)
        ensures
            r@ == self@,
    {
        Event {
            id: self.id,
            ts_ms: self.ts_ms,
            data: self.data.clone(),
            matched_rule: text::clone_option(&self.matched_rule),
        }
    }
}

/// The contents of a list of events.
pub open spec fn events_of(list: Seq<Event>) -> Seq<EventView> {
    list.map_values(|e: Event| e@)
}

/// What a `Capture` holds.
pub struct CaptureView {
    pub raw: Seq<u8>,
    pub max_raw: nat,
    pub events: Seq<EventView>,
    pub max_events: nat,
    /// The id of the next event.
    pub next_id: nat,
}

/// The last `max` items of `s`, or all of them where there are not so many.
pub open spec fn latest<A>(s: Seq<A>, max: nat) -> Seq<A> {
    if s.len() > max {
        s.skip(s.len() - max)
    } else {
        s
    }
}

/// Holds of the events whose id is greater than `since`.
pub open spec fn newer_than(since: u64) -> spec_fn(EventView) -> bool {
    |e: EventView| e.id > since
}

impl CaptureView {
    /// The buffers keep to their bounds, and the ids of the logged events are
    /// the numbers just below the next id, in order.
    pub open spec fn wf(self) -> bool {
        &&& self.raw.len() <= self.max_raw
        &&& self.events.len() <= self.max_events
        &&& self.events.len() < self.next_id <= u64::MAX
        &&& forall|i: int|
            0 <= i < self.events.len() ==> (#[trigger] self.events[i]).id == self.next_id
                - self.events.len() + i
    }

    /// An empty capture.
    pub open spec fn empty(max_raw: nat, max_events: nat) -> CaptureView {
        CaptureView { raw: seq![], max_raw, events: seq![], max_events, next_id: 1 }
    }

    /// The capture after a chunk of bytes.
    pub open spec fn with_raw(self, chunk: Seq<u8>) -> CaptureView {
        CaptureView { raw: latest(self.raw + chunk, self.max_raw), ..self }
    }

    /// The capture after a frame that arrived at `ts_ms`.
    pub open spec fn with_event(
        self,
        ts_ms: u64,
        data: Seq<u8>,
        matched_rule: Option<Seq<char>>,
    ) -> CaptureView {
        let event = EventView { id: self.next_id as u64, ts_ms, data, matched_rule };
        CaptureView {
            events: latest(self.events.push(event), self.max_events),
            next_id: self.next_id + 1,
            ..self
        }
    }
}

/// The capture buffers of one port.
pub struct Capture {
    raw: VecDeque<u8>,
    max_raw: usize,
    events: VecDeque<Event>,
    max_events: usize,
    next_id: u64,
}

impl View for Capture {
    type V = CaptureView;

    closed spec fn view(&self) -> CaptureView {
        CaptureView {
            raw: self.raw@,
            max_raw: self.max_raw as nat,
            events: events_of(self.events@),
            max_events: self.max_events as nat,
            next_id: self.next_id as nat,
        }
    }
}

/// The time stamp of an event, by the time since the Unix epoch: its whole
/// milliseconds, or zero when the clock stands before the epoch.
pub open spec fn stamp_of(elapsed: Option<Duration>) -> u64 {
    match elapsed {
        Some(elapsed) => outside::whole_millis(elapsed) as u64,
        None => 0,
    }
}

/// The time stamp of an event, by the time since the Unix epoch.
pub fn time_stamp(elapsed: Option<Duration>) -> (r: u64)
    ensures
        r == stamp_of(elapsed),
        forall|millis: u64|
            elapsed == Some(#[trigger] outside::millis_duration(millis)) ==> r == millis,
{
    match elapsed {
        Some(elapsed) => elapsed.as_millis() as u64,
        None => 0,
    }
}

/// The time stamp of a reading of the clock.
fn now_ms() -> (r: u64)
    ensures
        exists|time: SystemTime| r == stamp_of(#[trigger] outside::epoch_distance(time)),
{
    time_stamp(outside::since_epoch(SystemTime::now()))
}

impl Capture {
    /// Empty buffers with the given bounds.
    pub fn new(max_raw: usize, max_events: usize) -> (r: Capture)
        ensures
            r@ == CaptureView::empty(max_raw as nat, max_events as nat),
            r@.wf(),
    {
        let r = Capture {
            raw: VecDeque::new(),
            max_raw,
            events: VecDeque::new(),
            max_events,
            next_id: 1,
        };
        assert(r@ == CaptureView::empty(max_raw as nat, max_events as nat)) by {
            assert(r@.events =~= seq![]);
        }
        r
    }

    /// Appends a chunk to the raw ring. No event comes of it.
    pub fn append_raw(&mut self, chunk: &[u8])
        requires
            old(self)@.wf(),
        ensures
            final(self)@ == old(self)@.with_raw(chunk@),
            final(self)@.wf(),
    {
        let ghost before = self@;
        let mut i: usize = 0;
        assert(before.raw + chunk@.take(0) =~= before.raw);
        while i < chunk.len()
            invariant
                i <= chunk.len(),
                before.wf(),
                self@ == before.with_raw(chunk@.take(i as int)),
            decreases chunk.len() - i,
        {
            let ghost so_far = before.raw + chunk@.take(i as int);
            assert(before.raw + chunk@.take(i + 1) =~= so_far.push(chunk@[i as int]));
            if self.max_raw > 0 {
                if self.raw.len() == self.max_raw {
                    let _ = self.raw.pop_front();
                }
                self.raw.push_back(chunk[i]);
            }
            assert(self@.raw =~= latest(so_far.push(chunk@[i as int]), before.max_raw));
            i = i + 1;
        }
        assert(chunk@.take(i as int) =~= chunk@);
    }

    /// Records a frame that arrived at `ts_ms`.
    pub fn push_event_at(&mut self, ts_ms: u64, data: Vec<u8>, matched_rule: Option<String>)
        requires
            old(self)@.wf(),
            old(self)@.next_id < u64::MAX,
        ensures
            final(self)@ == old(self)@.with_event(ts_ms, data@, text::text_option(matched_rule)),
            final(self)@.wf(),
    {
        let ghost before = self@;
        let event = Event { id: self.next_id, ts_ms, data, matched_rule };
        let ghost logged = event@;
        self.next_id = self.next_id + 1;
        if self.max_events > 0 {
            if self.events.len() == self.max_events {
                let _ = self.events.pop_front();
            }
            self.events.push_back(event);
        }
        assert(self@.events =~= latest(before.events.push(logged), before.max_events));
    }

    /// Records a frame that arrived now, with the time stamp of a reading of the
    /// clock.
    pub fn push_event(&mut self, data: Vec<u8>, matched_rule: Option<String>)
        requires
            old(self)@.wf(),
            old(self)@.next_id < u64::MAX,
        ensures
            exists|time: SystemTime|
                final(self)@ == old(self)@.with_event(
                    stamp_of(#[trigger] outside::epoch_distance(time)),
                    data@,
                    text::text_option(matched_rule),
                ),
            final(self)@.wf(),
    {
        self.push_event_at(now_ms(), data, matched_rule);
    }

    /// Whether another event can be recorded: the ids are not used up.
    pub fn has_room(&self) -> (r: bool)
        ensures
            r == (self@.next_id < u64::MAX),
    {
        self.next_id < u64::MAX
    }

    /// The bytes in the raw ring.
    pub fn raw_bytes(&self) -> (r: Vec<u8>)
        ensures
            r@ == self@.raw,
    {
        let mut out: Vec<u8> = Vec::new();
        let mut i: usize = 0;
        while i < self.raw.len()
            invariant
                i <= self.raw.len(),
                out@ == self.raw@.take(i as int),
            decreases self.raw.len() - i,
        {
            out.push(self.raw[i]);
            assert(self.raw@.take(i + 1) =~= self.raw@.take(i as int).push(self.raw@[i as int]));
            i = i + 1;
        }
        assert(self.raw@.take(i as int) =~= self.raw@);
        out
    }

    /// Empties the raw ring.
    pub fn clear_raw(&mut self)
        requires
            old(self)@.wf(),
        ensures
            final(self)@ == (CaptureView { raw: seq![], ..old(self)@ }),
            final(self)@.wf(),
    {
        self.raw.clear();
    }

    /// The logged events whose id is greater than `since`, oldest first.
    pub fn events_since(&self, since: u64) -> (r: Vec<Event>)
        ensures
            events_of(r@) == self@.events.filter(newer_than(since)),
    {
        let mut out: Vec<Event> = Vec::new();
        let ghost all = self@.events;
        let mut i: usize = 0;
        assert(all.take(0) =~= seq![]);
        assert(events_of(out@) =~= all.take(0).filter(newer_than(since))) by {
            reveal(Seq::filter);
        }
        while i < self.events.len()
            invariant
                i <= self.events.len(),
                all == self@.events,
                events_of(out@) == all.take(i as int).filter(newer_than(since)),
            decreases self.events.len() - i,
        {
            let event = &self.events[i];
            let ghost so_far = events_of(out@);
            assert(all.take(i + 1).drop_last() =~= all.take(i as int));
            assert(all.take(i + 1).last() == event@);
            if event.id > since {
                out.push(event.clone());
                assert(events_of(out@) =~= so_far.push(event@));
            }
            assert(events_of(out@) =~= all.take(i + 1).filter(newer_than(since))) by {
                reveal(Seq::filter);
            }
            i = i + 1;
        }
        assert(all.take(i as int) =~= all);
        out
    }

    /// Empties the event log. The ids go on from where they were.
    pub fn clear_events(&mut self)
        requires
            old(self)@.wf(),
        ensures
            final(self)@ == (CaptureView { events: seq![], ..old(self)@ }),
            final(self)@.wf(),
    {
        self.events.clear();
        assert(self@.events =~= seq![]);
    }
}

// ---------------------------------------------------------------------------
// Laws
// ---------------------------------------------------------------------------

/// The buffers never outgrow their bounds.
pub proof fn law_capture_is_bounded(
    capture: CaptureView,
    chunk: Seq<u8>,
    ts_ms: u64,
    data: Seq<u8>,
    matched_rule: Option<Seq<char>>,
)
    ensures
        capture.with_raw(chunk).raw.len() <= capture.max_raw,
        capture.with_event(ts_ms, data, matched_rule).events.len() <= capture.max_events,
{
}

/// The ids of the logged events grow strictly, and every one of them is below
/// the id of the next event: an id is never given twice, not even after the
/// log was cleared or has dropped its oldest entries.
pub proof fn law_ids_grow(capture: CaptureView, i: int, j: int)
    requires
        capture.wf(),
        0 <= i < j < capture.events.len(),
    ensures
        0 < capture.events[i].id < capture.events[j].id < capture.next_id,
{
}

/// A reader that polls with the last id it has seen gets the events after it,
/// every one of them that is still logged, in order.
pub proof fn law_polling_resumes(capture: CaptureView, seen: int)
    requires
        capture.wf(),
        0 <= seen < capture.events.len(),
    ensures
        capture.events.filter(newer_than(capture.events[seen].id)) == capture.events.skip(seen + 1),
{
    lemma_filter_suffix(capture.events, newer_than(capture.events[seen].id), seen + 1);
}

/// Polling from zero gives the whole log.
pub proof fn law_polling_from_zero(capture: CaptureView)
    requires
        capture.wf(),
    ensures
        capture.events.filter(newer_than(0)) == capture.events,
{
    lemma_filter_suffix(capture.events, newer_than(0), 0);
    assert(capture.events.skip(0) =~= capture.events);
}

/// A reader that has seen everything so far gets exactly the next frame, once it
/// has been recorded, where events are kept at all.
pub proof fn law_next_event_is_polled(
    capture: CaptureView,
    ts_ms: u64,
    data: Seq<u8>,
    matched_rule: Option<Seq<char>>,
)
    requires
        capture.wf(),
        capture.next_id < u64::MAX,
        capture.max_events > 0,
    ensures
        capture.with_event(ts_ms, data, matched_rule).events.filter(
            newer_than((capture.next_id - 1) as u64),
        ) == seq![EventView { id: capture.next_id as u64, ts_ms, data, matched_rule }],
{
    let after = capture.with_event(ts_ms, data, matched_rule).events;
    let event = EventView { id: capture.next_id as u64, ts_ms, data, matched_rule };
    assert(after.last() == event);
    assert forall|i: int| 0 <= i < after.len() - 1 implies (#[trigger] after[i]).id
        < capture.next_id by {
        let k = i + capture.events.len() + 1 - after.len();
        assert(after[i] == capture.events[k]);
    }
    lemma_filter_suffix(
        after,
        newer_than((capture.next_id - 1) as u64),
        after.len() - 1,
    );
    assert(after.skip(after.len() - 1) =~= seq![event]);
}

proof fn lemma_filter_suffix(s: Seq<EventView>, f: spec_fn(EventView) -> bool, k: int)
    requires
        0 <= k <= s.len(),
        forall|i: int| 0 <= i < k ==> !f(#[trigger] s[i]),
        forall|i: int| k <= i < s.len() ==> f(#[trigger] s[i]),
    ensures
        s.filter(f) == s.skip(k),
    decreases s.len(),
{
    reveal(Seq::filter);
    if s.len() > 0 {
        let front = s.drop_last();
        if k < s.len() {
            lemma_filter_suffix(front, f, k);
            assert(s.skip(k) =~= front.skip(k).push(s.last()));
        } else {
            lemma_filter_suffix(front, f, k - 1);
            assert(front.skip(k - 1) =~= s.skip(k));
            assert(!f(s.last()));
        }
    } else {
        assert(s.filter(f) =~= s.skip(k));
    }
}

/// The raw capture holds the last bytes that arrived, as many as its bound allows
/// and in the order in which they came, however they were split into chunks; the
/// event log is not touched.
pub proof fn law_raw_holds_the_last_bytes(capture: CaptureView, chunk: Seq<u8>, next: Seq<u8>)
    ensures
        ({
            let after = capture.with_raw(chunk);
            let all = capture.raw + chunk;
            &&& after.raw.len() <= capture.max_raw
            &&& all.len() <= capture.max_raw ==> after.raw == all
            &&& all.len() >= capture.max_raw ==> after.raw.len() == capture.max_raw
            &&& forall|i: int|
                0 <= i < after.raw.len() ==> #[trigger] after.raw[i] == all[i + all.len()
                    - after.raw.len()]
            &&& after.events == capture.events
            &&& after.max_raw == capture.max_raw
            &&& after.max_events == capture.max_events
            &&& after.next_id == capture.next_id
        }),
        capture.with_raw(chunk).with_raw(next) == capture.with_raw(chunk + next),
{
    let all = capture.raw + chunk;
    let both = capture.raw + (chunk + next);
    let after = capture.with_raw(chunk);
    assert(after.with_raw(next).raw =~= capture.with_raw(chunk + next).raw) by {
        assert(all + next =~= both);
        assert forall|i: int| 0 <= i < after.with_raw(next).raw.len() implies #[trigger] after.with_raw(
            next,
        ).raw[i] == capture.with_raw(chunk + next).raw[i] by {}
    }
}

/// Recording a frame adds one event at the end of the log, with the next number,
/// the time, the bytes and the rule as they are given. The events before it stay,
/// but for the oldest where the log is full. The raw bytes are not touched.
pub proof fn law_event_is_logged_last(
    capture: CaptureView,
    ts_ms: u64,
    data: Seq<u8>,
    matched_rule: Option<Seq<char>>,
)
    requires
        capture.wf(),
        capture.next_id < u64::MAX,
        capture.max_events > 0,
    ensures
        ({
            let after = capture.with_event(ts_ms, data, matched_rule);
            let log = after.events;
            &&& log.len() > 0
            &&& log.last().id == capture.next_id
            &&& log.last().ts_ms == ts_ms
            &&& log.last().data == data
            &&& log.last().matched_rule == matched_rule
            &&& capture.events.len() < capture.max_events ==> log.drop_last() == capture.events
            &&& capture.events.len() == capture.max_events ==> log.drop_last()
                == capture.events.skip(1)
            &&& after.next_id == capture.next_id + 1
            &&& after.raw == capture.raw
            &&& after.max_raw == capture.max_raw
            &&& after.max_events == capture.max_events
        }),
{
    let log = capture.with_event(ts_ms, data, matched_rule).events;
    if capture.events.len() < capture.max_events {
        assert(log.drop_last() =~= capture.events);
    } else {
        assert(log.drop_last() =~= capture.events.skip(1));
    }
}

/// A reader gets the events with a greater number than the one that it asks to
/// start after: all of them, in order, and no others.
pub proof fn law_polling_is_exact(capture: CaptureView, since: u64) -> (k: int)
    requires
        capture.wf(),
    ensures
        0 <= k <= capture.events.len(),
        capture.events.filter(newer_than(since)) == capture.events.skip(k),
        forall|i: int| 0 <= i < k ==> (#[trigger] capture.events[i]).id <= since,
        forall|i: int| k <= i < capture.events.len() ==> (#[trigger] capture.events[i]).id > since,
{
    let first = capture.next_id - capture.events.len();
    let k = if since < first {
        0int
    } else if since >= capture.next_id {
        capture.events.len() as int
    } else {
        since + 1 - first
    };
    lemma_filter_suffix(capture.events, newer_than(since), k);
    k
}

} // verus!
