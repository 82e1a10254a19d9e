//! The events that a decoder hands to whoever builds values from them.

use crate::date::Date;
use crate::error::{ErrorClass, ParserError, ParserResult};
use crate::number::{Integer, Real};
use vstd::prelude::*;

verus! {

/// One step in the flat description of a property list.
///
/// A container is described by the event that opens it, the events of what it
/// holds, and [`PlistEvent::EndCollection`]; any other value by one event.
#[derive(Debug, PartialEq)]
pub enum PlistEvent {
    /// Opens the description, where the producer frames it.
    StartPlist,
    /// Closes the description, where the producer frames it.
    EndPlist,
    /// Opens an array; the number of its items, where the producer knows it.
    StartArray(Option<u64>),
    /// Opens a dictionary; the number of its entries, where the producer knows it.
    StartDictionary(Option<u64>),
    /// Closes the array or dictionary that was opened last and is still open.
    EndCollection,
    BooleanValue(bool),
    DataValue(Vec<u8>),
    DateValue(Date),
    IntegerValue(Integer),
    RealValue(Real),
    StringValue(String),
}

/// An event as mathematics sees it.
pub enum EventView {
    StartPlist,
    EndPlist,
    StartArray(Option<u64>),
    StartDictionary(Option<u64>),
    EndCollection,
    Boolean(bool),
    Data(Seq<u8>),
    /// Nanoseconds from 1970-01-01T00:00:00Z.
    Date(int),
    Integer(int),
    /// The binary64 encoding of the number.
    Real(u64),
    String(Seq<char>),
}

/// What one request to a producer gives, as mathematics sees it: an event, or
/// the class of a failure.
pub type Pull = Result<EventView, ErrorClass>;

impl EventView {
    /// Whether the event describes a value by itself.
    pub open spec fn is_value(self) -> bool {
        self is Boolean || self is Data || self is Date || self is Integer || self is Real
            || self is String
    }

    /// Whether the event opens a container.
    pub open spec fn opens(self) -> bool {
        self is StartArray || self is StartDictionary
    }
}

/// By how many the containers that `pulls` close exceed those that they open.
pub open spec fn closed_more(pulls: Seq<Pull>) -> int
    decreases pulls.len(),
{
    if pulls.len() == 0 {
        0
    } else {
        closed_more(pulls.skip(1)) + (match pulls[0] {
            Ok(EventView::EndCollection) => 1int,
            Ok(event) => if event.opens() {
                -1int
            } else {
                0int
            },
            Err(_) => 0int,
        })
    }
}

impl View for PlistEvent {
    type V = EventView;

    open spec fn view(&self) -> EventView {
        match self {
            PlistEvent::StartPlist => EventView::StartPlist,
            PlistEvent::EndPlist => EventView::EndPlist,
            PlistEvent::StartArray(len) => EventView::StartArray(*len),
            PlistEvent::StartDictionary(len) => EventView::StartDictionary(*len),
            PlistEvent::EndCollection => EventView::EndCollection,
            PlistEvent::BooleanValue(b) => EventView::Boolean(*b),
            PlistEvent::DataValue(bytes) => EventView::Data(bytes@),
            PlistEvent::DateValue(date) => EventView::Date(date@),
            PlistEvent::IntegerValue(integer) => EventView::Integer(integer@),
            PlistEvent::RealValue(number) => EventView::Real(number@),
            PlistEvent::StringValue(string) => EventView::String(string@),
        }
    }
}

impl Clone for PlistEvent {
    fn clone(&self) -> (copy: PlistEvent)
        ensures
            copy@ == self@,
    {
        match self {
            PlistEvent::StartPlist => PlistEvent::StartPlist,
            PlistEvent::EndPlist => PlistEvent::EndPlist,
            PlistEvent::StartArray(len) => PlistEvent::StartArray(*len),
            PlistEvent::StartDictionary(len) => PlistEvent::StartDictionary(*len),
            PlistEvent::EndCollection => PlistEvent::EndCollection,
            PlistEvent::BooleanValue(b) => PlistEvent::BooleanValue(*b),
            PlistEvent::DataValue(bytes) => PlistEvent::DataValue(bytes.clone()),
            PlistEvent::DateValue(date) => PlistEvent::DateValue(*date),
            PlistEvent::IntegerValue(integer) => PlistEvent::IntegerValue(*integer),
            PlistEvent::RealValue(number) => PlistEvent::RealValue(*number),
            PlistEvent::StringValue(string) => PlistEvent::StringValue(string.clone()),
        }
    }
}

/// What a producer handed out, as mathematics sees it.
pub open spec fn pull_view(item: ParserResult<PlistEvent>) -> Pull {
    match item {
        Ok(event) => Ok(event@),
        Err(error) => Err(error.class_of()),
    }
}

/// A producer of events, asked for one event at a time.
pub trait EventStream {
    /// Whether the producer is in a state that it can reach.
    spec fn wf(&self) -> bool;

    /// What the producer will hand out from now on, in order.
    spec fn pending(&self) -> Seq<Pull>;

    /// The next event or failure, or `None` once nothing is left.
    fn next(&mut self) -> (item: Option<ParserResult<PlistEvent>>)
        requires
            old(self).wf(),
        ensures
            final(self).wf(),
            match item {
                Some(item) => {
                    &&& old(self).pending().len() > 0
                    &&& pull_view(item) == old(self).pending()[0]
                    &&& final(self).pending() == old(self).pending().skip(1)
                },
                None => {
                    &&& old(self).pending().len() == 0
                    &&& final(self).pending() == old(self).pending()
                },
            },
    ;
}

/// The items of `items` from the last to the first.
pub(crate) fn reversed<T>(items: Vec<T>) -> (r: Vec<T>)
    ensures
        r@ == items@.reverse(),
{
    let mut items = items;
    let ghost given = items@;
    let mut r: Vec<T> = Vec::new();
    while items.len() > 0
        invariant
            items@.len() + r@.len() == given.len(),
            items@ == given.subrange(0, items@.len() as int),
            forall|i: int| 0 <= i < r@.len() ==> r@[i] == given[given.len() - 1 - i],
        decreases items@.len(),
    {
        let item = items.pop().unwrap();
        r.push(item);
    }
    assert(r@ =~= given.reverse());
    r
}

/// A producer that hands out a list of events and failures that it was given.
pub struct VecStream {
    /// What is still to come, the next item last.
    rest: Vec<ParserResult<PlistEvent>>,
}

/// The list of what `items` hold, as mathematics sees it.
pub open spec fn pulls(items: Seq<ParserResult<PlistEvent>>) -> Seq<Pull> {
    Seq::new(items.len(), |i: int| pull_view(items[i]))
}

/// The events of `events`, each as a successful request.
pub open spec fn successes(events: Seq<PlistEvent>) -> Seq<Pull> {
    Seq::new(events.len(), |i: int| Ok::<EventView, ErrorClass>(events[i]@))
}

impl VecStream {
    /// The producer that hands out `items` from the first to the last.
    pub fn new(items: Vec<ParserResult<PlistEvent>>) -> (stream: VecStream)
        ensures
            stream.wf(),
            stream.pending() == pulls(items@),
    {
        let stream = VecStream { rest: reversed(items) };
        assert(stream.pending() =~= pulls(items@));
        stream
    }

    /// The producer that hands out `events` from the first to the last, and
    /// never a failure.
    pub fn from_events(events: Vec<PlistEvent>) -> (stream: VecStream)
        ensures
            stream.wf(),
            stream.pending() == successes(events@),
    {
        let mut events = events;
        let ghost given = events@;
        let mut rest: Vec<ParserResult<PlistEvent>> = Vec::new();
        while events.len() > 0
            invariant
                events@.len() + rest@.len() == given.len(),
                events@ == given.subrange(0, events@.len() as int),
                forall|i: int|
                    0 <= i < rest@.len() ==> rest@[i] == Ok::<PlistEvent, ParserError>(
                        given[given.len() - 1 - i],
                    ),
            decreases events@.len(),
        {
            let event = events.pop().unwrap();
            rest.push(Ok(event));
        }
        let stream = VecStream { rest };
        assert(stream.pending() =~= successes(given));
        stream
    }
}

impl EventStream for VecStream {
    open spec fn wf(&self) -> bool {
        true
    }

    closed spec fn pending(&self) -> Seq<Pull> {
        Seq::new(self.rest@.len(), |i: int| pull_view(self.rest@[self.rest@.len() - 1 - i]))
    }

    fn next(&mut self) -> (item: Option<ParserResult<PlistEvent>>) {
        let item = self.rest.pop();
        proof {
            if item is Some {
                assert(self.pending() =~= old(self).pending().skip(1));
            }
        }
        item
    }
}

} // verus!
