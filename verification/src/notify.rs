//! Live notifications: which classes are subscribed to, and how the events
//! that arrive become one sequence that ends when the cube disconnects.

use crate::config::{facet_name, facet_name_text, supplied, Config};
use crate::entry::{Facet, LogEntry};
use crate::text::{decimal, decimal_text, joined};
use vstd::prelude::*;
use vstd::string::*;

verus! {

/// A category of live events that can be switched on by itself.
#[derive(Clone, Copy, Debug, PartialEq, Eq)]
pub enum NotificationClass {
    Battery,
    Facet,
    DoubleTap,
    LogEvent,
}

/// The classes that the operator chose to listen for.
#[derive(Clone, Copy, Debug, PartialEq, Eq)]
pub struct SubscriptionSet {
    pub battery: bool,
    pub facet: bool,
    pub double_tap: bool,
    pub log_event: bool,
}

/// What the notify command does next while it prepares the live sequence.
#[derive(Debug, PartialEq, Eq)]
pub enum Preparation<E> {
    /// Ask the device to arm this class, and report what came of it.
    Request(NotificationClass),
    /// Every chosen class is armed: open the sequence of events.
    Open,
    /// A request failed: give up the command with its error.
    Abort(E),
}

impl SubscriptionSet {
    /// Whether the set holds the class.
    pub open spec fn enabled(self, class: NotificationClass) -> bool {
        match class {
            NotificationClass::Battery => self.battery,
            NotificationClass::Facet => self.facet,
            NotificationClass::DoubleTap => self.double_tap,
            NotificationClass::LogEvent => self.log_event,
        }
    }

    /// The subscription requests that the set calls for, in the order in
    /// which they are issued.
    pub open spec fn requested(self) -> Seq<NotificationClass> {
        (if self.battery {
            seq![NotificationClass::Battery]
        } else {
            Seq::empty()
        }) + (if self.facet {
            seq![NotificationClass::Facet]
        } else {
            Seq::empty()
        }) + (if self.double_tap {
            seq![NotificationClass::DoubleTap]
        } else {
            Seq::empty()
        }) + (if self.log_event {
            seq![NotificationClass::LogEvent]
        } else {
            Seq::empty()
        })
    }

    /// The step that follows once `issued` requests have been sent and the
    /// last of them ended as `last` says (`None` before the first request).
    pub open spec fn step_after<E>(self, issued: nat, last: Option<Result<(), E>>) -> Preparation<
        E,
    > {
        match last {
            Some(Err(e)) => Preparation::Abort(e),
            _ => if issued < self.requested().len() {
                Preparation::Request(self.requested()[issued as int])
            } else {
                Preparation::Open
            },
        }
    }

    /// Whether the set holds the class.
    pub fn is_enabled(&self, class: NotificationClass) -> (enabled: bool)
        ensures
            enabled == self.enabled(class),
    {
        match class {
            NotificationClass::Battery => self.battery,
            NotificationClass::Facet => self.facet,
            NotificationClass::DoubleTap => self.double_tap,
            NotificationClass::LogEvent => self.log_event,
        }
    }

    /// The subscription requests to issue before the sequence is opened.
    pub fn requests(&self) -> (list: Vec<NotificationClass>)
        ensures
            list@ == self.requested(),
    {
        let mut list: Vec<NotificationClass> = Vec::new();
        if self.battery {
            list.push(NotificationClass::Battery);
        }
        if self.facet {
            list.push(NotificationClass::Facet);
        }
        if self.double_tap {
            list.push(NotificationClass::DoubleTap);
        }
        if self.log_event {
            list.push(NotificationClass::LogEvent);
        }
        assert(list@ =~= self.requested());
        list
    }

    /// Decides how the preparation goes on. A request that failed ends the
    /// command with its error, so that no later class is armed and the
    /// sequence is never opened; else the next chosen class is requested,
    /// and the sequence is opened once none is left.
    pub fn next_step<E>(&self, issued: usize, last: Option<Result<(), E>>) -> (step: Preparation<E>)
        ensures
            step == self.step_after(issued as nat, last),
    {
        match last {
            Some(Err(e)) => Preparation::Abort(e),
            _ => {
                let list = self.requests();
                if issued < list.len() {
                    Preparation::Request(list[issued])
                } else {
                    Preparation::Open
                }
            },
        }
    }
}

/// Each chosen class is requested once, no other class is requested, and
/// the requests keep the order battery, facet, double tap, log event.
pub proof fn lemma_one_request_per_flag(set: SubscriptionSet)
    ensures
        forall|class: NotificationClass| #[trigger]
            set.requested().contains(class) <==> set.enabled(class),
        set.requested().no_duplicates(),
        forall|i: int, j: int|
            0 <= i < j < set.requested().len() ==> rank(#[trigger] set.requested()[i]) < rank(
                #[trigger] set.requested()[j],
            ),
{
    let list = set.requested();
    let b: int = if set.battery { 1 } else { 0 };
    let f: int = if set.facet { 1 } else { 0 };
    let d: int = if set.double_tap { 1 } else { 0 };
    assert(list.len() == b + f + d + (if set.log_event { 1int } else { 0int }));
    assert forall|i: int| 0 <= i < list.len() implies set.enabled(#[trigger] list[i]) && rank(
        list[i],
    ) >= i by {}
    assert forall|class: NotificationClass| set.enabled(class) implies #[trigger] list.contains(
        class,
    ) by {
        match class {
            NotificationClass::Battery => assert(list[0] == class),
            NotificationClass::Facet => assert(list[b] == class),
            NotificationClass::DoubleTap => assert(list[b + f] == class),
            NotificationClass::LogEvent => assert(list[b + f + d] == class),
        }
    }
}

/// The place of a class in the order of requests.
pub open spec fn rank(class: NotificationClass) -> int {
    match class {
        NotificationClass::Battery => 0,
        NotificationClass::Facet => 1,
        NotificationClass::DoubleTap => 2,
        NotificationClass::LogEvent => 3,
    }
}

/// An event that the device sent while the command listened.
#[derive(Clone, Copy, Debug, PartialEq, Eq)]
pub enum NotificationEvent {
    /// The battery's charge, in percent.
    BatteryLevel(u8),
    /// A log entry that the device has just recorded.
    LogEvent(LogEntry),
    /// Another facet came up.
    FacetChanged(Facet),
    /// The cube was tapped twice.
    DoubleTap { facet: Facet, paused: bool },
    /// The connection is gone. Nothing follows this event.
    Disconnected,
}

impl NotificationEvent {
    /// The class that has to be armed for the device to send the event;
    /// none for the loss of the connection, which is always reported.
    pub open spec fn class(self) -> Option<NotificationClass> {
        match self {
            NotificationEvent::BatteryLevel(_) => Some(NotificationClass::Battery),
            NotificationEvent::LogEvent(_) => Some(NotificationClass::LogEvent),
            NotificationEvent::FacetChanged(_) => Some(NotificationClass::Facet),
            NotificationEvent::DoubleTap { .. } => Some(NotificationClass::DoubleTap),
            NotificationEvent::Disconnected => None,
        }
    }

    /// Whether the event reports the loss of the connection.
    pub fn is_disconnected(&self) -> (gone: bool)
        ensures
            gone == (*self is Disconnected),
    {
        match self {
            NotificationEvent::Disconnected => true,
            _ => false,
        }
    }
}

/// Whether a device that was asked for the classes of the set, and no
/// others, may send the event.
pub open spec fn admits(set: SubscriptionSet, event: NotificationEvent) -> bool {
    match event.class() {
        Some(class) => set.enabled(class),
        None => true,
    }
}

/// Whether some arrival reports the loss of the connection.
pub open spec fn has_disconnect(arrivals: Seq<NotificationEvent>) -> bool {
    exists|i: int| 0 <= i < arrivals.len() && #[trigger] arrivals[i] is Disconnected
}

/// Whether the arrival at `i` is the first that reports the loss of the
/// connection.
pub open spec fn first_disconnect(arrivals: Seq<NotificationEvent>, i: int) -> bool {
    &&& 0 <= i < arrivals.len()
    &&& arrivals[i] is Disconnected
    &&& forall|j: int| 0 <= j < i ==> !(#[trigger] arrivals[j] is Disconnected)
}

/// The merged sequence for what arrived: the arrivals in their order, up to
/// and with the first that reports the loss of the connection.
pub open spec fn merged(arrivals: Seq<NotificationEvent>) -> Seq<NotificationEvent> {
    if has_disconnect(arrivals) {
        arrivals.take((choose|i: int| first_disconnect(arrivals, i)) + 1)
    } else {
        arrivals
    }
}

/// Whether the loss of the connection is reported by no event of the
/// sequence but its last.
pub open spec fn ends_at_disconnect(events: Seq<NotificationEvent>) -> bool {
    forall|i: int|
        0 <= i < events.len() && #[trigger] events[i] is Disconnected ==> i == events.len() - 1
}

proof fn lemma_first_disconnect_exists(arrivals: Seq<NotificationEvent>)
    requires
        has_disconnect(arrivals),
    ensures
        exists|i: int| first_disconnect(arrivals, i),
    decreases arrivals.len(),
{
    let front = arrivals.drop_last();
    if has_disconnect(front) {
        lemma_first_disconnect_exists(front);
        let i = choose|i: int| first_disconnect(front, i);
        assert(arrivals[i] == front[i]);
        assert forall|j: int| 0 <= j < i implies !(#[trigger] arrivals[j] is Disconnected) by {
            assert(arrivals[j] == front[j]);
        }
        assert(first_disconnect(arrivals, i));
    } else {
        let k = choose|k: int| 0 <= k < arrivals.len() && #[trigger] arrivals[k] is Disconnected;
        if k < arrivals.len() - 1 {
            assert(front[k] is Disconnected);
        }
        assert forall|j: int| 0 <= j < arrivals.len() - 1 implies !(
        #[trigger] arrivals[j] is Disconnected) by {
            assert(front[j] == arrivals[j]);
        }
        assert(first_disconnect(arrivals, arrivals.len() - 1));
    }
}

/// The merged sequence is cut behind the first loss of connection.
pub proof fn lemma_merged_cut(arrivals: Seq<NotificationEvent>, i: int)
    requires
        first_disconnect(arrivals, i),
    ensures
        merged(arrivals) == arrivals.take(i + 1),
{
    assert(has_disconnect(arrivals));
    let k = choose|k: int| first_disconnect(arrivals, k);
    assert(first_disconnect(arrivals, k));
    if k < i {
        assert(!(arrivals[k] is Disconnected));
    } else if i < k {
        assert(!(arrivals[i] is Disconnected));
    }
}

/// One more arrival is added to the merged sequence unless the sequence has
/// ended before.
pub proof fn lemma_merged_push(arrivals: Seq<NotificationEvent>, event: NotificationEvent)
    ensures
        merged(arrivals.push(event)) == if has_disconnect(arrivals) {
            merged(arrivals)
        } else {
            merged(arrivals).push(event)
        },
{
    let more = arrivals.push(event);
    if has_disconnect(arrivals) {
        lemma_first_disconnect_exists(arrivals);
        let i = choose|i: int| first_disconnect(arrivals, i);
        assert(more[i] == arrivals[i]);
        assert forall|j: int| 0 <= j < i implies !(#[trigger] more[j] is Disconnected) by {
            assert(more[j] == arrivals[j]);
        }
        assert(first_disconnect(more, i));
        lemma_merged_cut(arrivals, i);
        lemma_merged_cut(more, i);
        assert(more.take(i + 1) =~= arrivals.take(i + 1));
    } else if event is Disconnected {
        assert forall|j: int| 0 <= j < arrivals.len() implies !(
        #[trigger] more[j] is Disconnected) by {
            assert(more[j] == arrivals[j]);
        }
        assert(more[arrivals.len() as int] is Disconnected);
        assert(first_disconnect(more, arrivals.len() as int));
        lemma_merged_cut(more, arrivals.len() as int);
        assert(more.take(arrivals.len() + 1 as int) =~= more);
    } else {
        if has_disconnect(more) {
            let k = choose|k: int| 0 <= k < more.len() && #[trigger] more[k] is Disconnected;
            if k < arrivals.len() {
                assert(arrivals[k] is Disconnected);
            }
        }
    }
}

/// The merged sequence holds the arrivals in the order of their arrival,
/// from the first on and with none left out; it reports the loss of the
/// connection at most once, as its last event; and it does report it if
/// any arrival does.
pub proof fn lemma_merged_prefix(arrivals: Seq<NotificationEvent>)
    ensures
        merged(arrivals).len() <= arrivals.len(),
        merged(arrivals) == arrivals.take(merged(arrivals).len() as int),
        ends_at_disconnect(merged(arrivals)),
        has_disconnect(arrivals) ==> merged(arrivals).len() > 0 && merged(
            arrivals,
        ).last() is Disconnected,
        !has_disconnect(arrivals) ==> merged(arrivals) == arrivals,
{
    if has_disconnect(arrivals) {
        lemma_first_disconnect_exists(arrivals);
        let i = choose|i: int| first_disconnect(arrivals, i);
        lemma_merged_cut(arrivals, i);
        let cut = arrivals.take(i + 1);
        assert(cut[i] == arrivals[i]);
        assert forall|j: int| 0 <= j < cut.len() && #[trigger] cut[j] is Disconnected implies j
            == cut.len() - 1 by {
            if j < i {
                assert(cut[j] == arrivals[j]);
            }
        }
    } else {
        assert(arrivals.take(arrivals.len() as int) =~= arrivals);
        assert forall|j: int|
            0 <= j < arrivals.len() && #[trigger] arrivals[j] is Disconnected implies j
            == arrivals.len() - 1 by {}
    }
}

/// Where the device sends only events of the classes that were asked for,
/// the merged sequence holds only such events and the loss of connection.
pub proof fn lemma_merged_classes(set: SubscriptionSet, arrivals: Seq<NotificationEvent>)
    requires
        forall|i: int| 0 <= i < arrivals.len() ==> admits(set, #[trigger] arrivals[i]),
    ensures
        forall|i: int| 0 <= i < merged(arrivals).len() ==> admits(set, #[trigger] merged(arrivals)[i]),
{
    lemma_merged_prefix(arrivals);
    let out = merged(arrivals);
    assert forall|i: int| 0 <= i < out.len() implies admits(set, #[trigger] out[i]) by {
        assert(out[i] == arrivals.take(out.len() as int)[i]);
        assert(out[i] == arrivals[i]);
    }
}

/// With the battery class alone switched on, and a device that keeps to it,
/// the merged sequence holds battery levels and at most one loss of
/// connection, which ends it.
pub proof fn lemma_battery_only(arrivals: Seq<NotificationEvent>)
    requires
        forall|i: int|
            0 <= i < arrivals.len() ==> admits(
                SubscriptionSet { battery: true, facet: false, double_tap: false, log_event: false },
                #[trigger] arrivals[i],
            ),
    ensures
        forall|i: int|
            0 <= i < merged(arrivals).len() ==> (#[trigger] merged(arrivals)[i] is BatteryLevel)
                || (merged(arrivals)[i] is Disconnected && i == merged(arrivals).len() - 1),
{
    let set = SubscriptionSet { battery: true, facet: false, double_tap: false, log_event: false };
    lemma_merged_classes(set, arrivals);
    lemma_merged_prefix(arrivals);
    let out = merged(arrivals);
    assert forall|i: int| 0 <= i < out.len() implies (#[trigger] out[i] is BatteryLevel) || (
    out[i] is Disconnected && i == out.len() - 1) by {
        assert(admits(set, out[i]));
    }
}

/// Forms the merged sequence one arrival at a time.
///
/// While it is open it yields every event that is offered; the loss of the
/// connection is the last event it yields, and the end of the transport's
/// stream closes it as well. Once closed it stays closed and yields
/// nothing: a new sequence needs a new merger.
pub struct EventMerger {
    finished: bool,
    yielded: Ghost<Seq<NotificationEvent>>,
}

impl EventMerger {
    #[verifier::type_invariant]
    spec fn sound(self) -> bool {
        &&& ends_at_disconnect(self.yielded@)
        &&& has_disconnect(self.yielded@) ==> self.finished
    }

    /// The events yielded so far, in their order.
    pub closed spec fn delivered(self) -> Seq<NotificationEvent> {
        self.yielded@
    }

    /// Whether the sequence has ended.
    pub closed spec fn finished(self) -> bool {
        self.finished
    }

    /// A merger for a sequence that is about to be opened.
    pub fn new() -> (merger: EventMerger)
        ensures
            merger.delivered() == Seq::<NotificationEvent>::empty(),
            !merger.finished(),
    {
        EventMerger { finished: false, yielded: Ghost(Seq::empty()) }
    }

    /// Whether the sequence has ended, so that nothing more is to be pulled.
    pub fn is_finished(&self) -> (finished: bool)
        ensures
            finished == self.finished(),
            ends_at_disconnect(self.delivered()),
            has_disconnect(self.delivered()) ==> finished,
    {
        proof {
            use_type_invariant(self);
        }
        self.finished
    }

    /// Takes what the transport delivered next: an event, or `None` at the
    /// end of its stream. Returns the event to hand on, if there is one.
    pub fn offer(&mut self, arrival: Option<NotificationEvent>) -> (out: Option<NotificationEvent>)
        ensures
            out == if old(self).finished() {
                None
            } else {
                arrival
            },
            final(self).delivered() == match out {
                Some(event) => old(self).delivered().push(event),
                None => old(self).delivered(),
            },
            final(self).finished() == (old(self).finished() || arrival is None || arrival == Some(
                NotificationEvent::Disconnected,
            )),
            ends_at_disconnect(final(self).delivered()),
            has_disconnect(final(self).delivered()) ==> final(self).finished(),
    {
        proof {
            use_type_invariant(&*self);
        }
        if self.finished {
            return None;
        }
        match arrival {
            None => {
                self.finished = true;
                None
            },
            Some(event) => {
                let ghost before = self.yielded@;
                let gone = event.is_disconnected();
                proof {
                    let now = before.push(event);
                    assert forall|i: int|
                        0 <= i < now.len() && #[trigger] now[i] is Disconnected implies i
                        == now.len() - 1 by {
                        if i < before.len() {
                            assert(before[i] is Disconnected);
                        }
                    }
                    if has_disconnect(now) && !gone {
                        let k = choose|k: int|
                            0 <= k < now.len() && #[trigger] now[k] is Disconnected;
                        assert(before[k] is Disconnected);
                    }
                }
                *self = EventMerger { finished: gone, yielded: Ghost(before.push(event)) };
                Some(event)
            },
        }
    }
}

/// The merged sequence for a run of arrivals, formed by one merger.
pub fn merge_events(arrivals: &Vec<NotificationEvent>) -> (events: Vec<NotificationEvent>)
    ensures
        events@ == merged(arrivals@),
{
    let mut merger = EventMerger::new();
    let mut events: Vec<NotificationEvent> = Vec::new();
    let mut i: usize = 0;
    proof {
        assert(arrivals@.take(0) =~= Seq::<NotificationEvent>::empty());
        assert(!has_disconnect(arrivals@.take(0)));
    }
    while i < arrivals.len()
        invariant
            i <= arrivals.len(),
            events@ == merger.delivered(),
            events@ == merged(arrivals@.take(i as int)),
            merger.finished() == has_disconnect(arrivals@.take(i as int)),
        decreases arrivals.len() - i,
    {
        let event = arrivals[i];
        proof {
            let seen = arrivals@.take(i as int);
            assert(arrivals@.take(i + 1) =~= seen.push(event));
            lemma_merged_push(seen, event);
            if has_disconnect(seen) {
                let k = choose|k: int| 0 <= k < seen.len() && #[trigger] seen[k] is Disconnected;
                assert(seen.push(event)[k] is Disconnected);
            } else if event is Disconnected {
                assert(seen.push(event)[seen.len() as int] is Disconnected);
            } else if has_disconnect(seen.push(event)) {
                let k = choose|k: int|
                    0 <= k < seen.len() + 1 && #[trigger] seen.push(event)[k] is Disconnected;
                assert(seen[k] is Disconnected);
            }
        }
        match merger.offer(Some(event)) {
            Some(out) => events.push(out),
            None => {},
        }
        i += 1;
    }
    proof {
        assert(arrivals@.take(i as int) =~= arrivals@);
    }
    events
}

/// What is printed for an event.
#[derive(Debug, PartialEq, Eq)]
pub enum EventLine {
    /// A line of text.
    Text(String),
    /// A log entry, which is printed the way the history prints entries.
    Entry(LogEntry),
}

/// The text of the line that an event is announced with; `None` for a log
/// entry, which has a layout of its own.
pub open spec fn event_text(event: NotificationEvent, config: Option<Config>) -> Option<Seq<char>> {
    match event {
        NotificationEvent::BatteryLevel(percent) => Some("Battery Level "@ + decimal_text(percent)),
        NotificationEvent::LogEvent(_) => None,
        NotificationEvent::FacetChanged(facet) => Some(
            "Currently Up: "@ + facet_name_text(facet, config),
        ),
        NotificationEvent::DoubleTap { facet, paused } => Some(
            "Facet "@ + facet_name_text(facet, config) + " has "@ + (if paused {
                "paused"@
            } else {
                "started"@
            }),
        ),
        NotificationEvent::Disconnected => Some("TimeFlip has disconnected"@),
    }
}

/// What to print for an event that the merged sequence yielded.
pub fn event_line(event: &NotificationEvent, config: Option<&Config>) -> (line: EventLine)
    ensures
        match *event {
            NotificationEvent::LogEvent(entry) => line == EventLine::Entry(entry),
            _ => line matches EventLine::Text(text) && Some(text@) == event_text(
                *event,
                supplied(config),
            ),
        },
{
    match event {
        NotificationEvent::BatteryLevel(percent) => {
            let number = decimal(*percent);
            EventLine::Text(joined("Battery Level ", number.as_str()))
        },
        NotificationEvent::LogEvent(entry) => EventLine::Entry(*entry),
        NotificationEvent::FacetChanged(facet) => {
            let name = facet_name(facet, config);
            EventLine::Text(joined("Currently Up: ", name.as_str()))
        },
        NotificationEvent::DoubleTap { facet, paused } => {
            let name = facet_name(facet, config);
            let mut text = joined("Facet ", name.as_str());
            text.append(" has ");
            if *paused {
                text.append("paused");
            } else {
                text.append("started");
            }
            EventLine::Text(text)
        },
        NotificationEvent::Disconnected => EventLine::Text(
            String::from_str("TimeFlip has disconnected"),
        ),
    }
}

} // verus!
