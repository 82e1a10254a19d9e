//! Building a value tree from a sequence of events.

use crate::error::{ErrorClass, ParserError};
use crate::event::{EventStream, EventView, PlistEvent, Pull};
use crate::value::{trees, Dictionary, Plist, Tree};
use vstd::prelude::*;
use vstd::std_specs::convert::FromSpecImpl;

verus! {

/// Why no value could be built.
#[derive(Debug)]
pub enum BuilderError {
    /// An event came where the grammar of events has no place for it, or the
    /// events ended too early.
    InvalidEvent,
    /// In a dictionary, something other than a string came where a key was due.
    UnsupportedDictionaryKey,
    /// The producer of the events reported a failure.
    ParserError(ParserError),
}

/// What a build gives: a value, or the reason why there is none.
pub type BuilderResult<T> = Result<T, BuilderError>;

/// A [`BuilderError`] as mathematics sees it.
#[derive(Clone, Copy, Debug, PartialEq, Eq, Structural)]
pub enum BuildFailure {
    InvalidEvent,
    UnsupportedDictionaryKey,
    Parser(ErrorClass),
}

impl View for BuilderError {
    type V = BuildFailure;

    open spec fn view(&self) -> BuildFailure {
        match self {
            BuilderError::InvalidEvent => BuildFailure::InvalidEvent,
            BuilderError::UnsupportedDictionaryKey => BuildFailure::UnsupportedDictionaryKey,
            BuilderError::ParserError(error) => BuildFailure::Parser(error.class_of()),
        }
    }
}

impl From<ParserError> for BuilderError {
    fn from(error: ParserError) -> (r: BuilderError) {
        BuilderError::ParserError(error)
    }
}

impl FromSpecImpl<ParserError> for BuilderError {
    open spec fn obeys_from_spec() -> bool {
        true
    }

    open spec fn from_spec(error: ParserError) -> BuilderError {
        BuilderError::ParserError(error)
    }
}

/// How many of `pulls` are left from place `from` on.
pub open spec fn left(pulls: Seq<Pull>, from: int) -> nat {
    if 0 <= from < pulls.len() {
        (pulls.len() - from) as nat
    } else {
        0
    }
}

/// The value that the events from place `at` on describe, or why they describe
/// none, and how many places after `at` the description takes up.
pub open spec fn value(pulls: Seq<Pull>, at: int) -> (Result<Tree, BuildFailure>, nat)
    decreases left(pulls, at), 0nat,
{
    if !(0 <= at < pulls.len()) {
        (Err(BuildFailure::InvalidEvent), 0)
    } else {
        match pulls[at] {
            Err(class) => (Err(BuildFailure::Parser(class)), 0),
            Ok(EventView::StartArray(_)) => {
                let (items, taken) = elements(pulls, at + 1, Seq::empty());
                match items {
                    Ok(items) => (Ok(Tree::Array(items)), taken),
                    Err(failure) => (Err(failure), taken),
                }
            },
            Ok(EventView::StartDictionary(_)) => {
                let (pairs, taken) = entries(pulls, at + 1, Map::empty());
                match pairs {
                    Ok(pairs) => (Ok(Tree::Dictionary(pairs)), taken),
                    Err(failure) => (Err(failure), taken),
                }
            },
            Ok(EventView::Boolean(b)) => (Ok(Tree::Boolean(b)), 0),
            Ok(EventView::Data(bytes)) => (Ok(Tree::Data(bytes)), 0),
            Ok(EventView::Date(date)) => (Ok(Tree::Date(date)), 0),
            Ok(EventView::Integer(integer)) => (Ok(Tree::Integer(integer)), 0),
            Ok(EventView::Real(number)) => (Ok(Tree::Real(number)), 0),
            Ok(EventView::String(string)) => (Ok(Tree::String(string)), 0),
            Ok(EventView::StartPlist) => (Err(BuildFailure::InvalidEvent), 0),
            Ok(EventView::EndPlist) => (Err(BuildFailure::InvalidEvent), 0),
            Ok(EventView::EndCollection) => (Err(BuildFailure::InvalidEvent), 0),
        }
    }
}

/// The items of an array that is open, `done` being those already built: what
/// the events from place `at` on add to them up to the event that closes the
/// array, and how many places that takes up.
pub open spec fn elements(pulls: Seq<Pull>, at: int, done: Seq<Tree>) -> (
    Result<Seq<Tree>, BuildFailure>,
    nat,
)
    decreases left(pulls, at), 1nat,
{
    if !(0 <= at < pulls.len()) {
        (Err(BuildFailure::InvalidEvent), 0)
    } else if pulls[at] == Ok::<EventView, ErrorClass>(EventView::EndCollection) {
        (Ok(done), 1)
    } else {
        let (item, taken) = value(pulls, at);
        match item {
            Err(failure) => (Err(failure), 0),
            Ok(item) => {
                let (all, more) = elements(pulls, at + 1 + taken, done.push(item));
                (all, 1 + taken + more)
            },
        }
    }
}

/// The entries of a dictionary that is open, `done` being those already built:
/// what the events from place `at` on add to them up to the event that closes
/// the dictionary, and how many places that takes up. An entry replaces an
/// earlier one with the same key.
pub open spec fn entries(pulls: Seq<Pull>, at: int, done: Map<Seq<char>, Tree>) -> (
    Result<Map<Seq<char>, Tree>, BuildFailure>,
    nat,
)
    decreases left(pulls, at), 1nat,
{
    if !(0 <= at < pulls.len()) {
        (Err(BuildFailure::UnsupportedDictionaryKey), 0)
    } else {
        match pulls[at] {
            Err(class) => (Err(BuildFailure::Parser(class)), 0),
            Ok(EventView::EndCollection) => (Ok(done), 1),
            Ok(EventView::String(key)) => {
                let (item, taken) = value(pulls, at + 1);
                match item {
                    Err(failure) => (Err(failure), 0),
                    Ok(item) => {
                        let (all, more) = entries(pulls, at + 2 + taken, done.insert(key, item));
                        (all, 2 + taken + more)
                    },
                }
            },
            Ok(_) => (Err(BuildFailure::UnsupportedDictionaryKey), 0),
        }
    }
}

/// Where a key is due in a dictionary, an event that is neither a string nor
/// the end of the dictionary makes the build fail for the key's sake, whatever
/// comes before and after.
pub proof fn lemma_unsupported_key(pulls: Seq<Pull>, at: int, done: Map<Seq<char>, Tree>)
    requires
        0 <= at < pulls.len(),
        pulls[at] matches Ok(event) && !(event is String) && !(event is EndCollection),
    ensures
        entries(pulls, at, done).0 == Err::<Map<Seq<char>, Tree>, BuildFailure>(
            BuildFailure::UnsupportedDictionaryKey,
        ),
{
}

/// A dictionary whose first key is no string cannot be built, and the failure
/// says so: it is not the one that other breaches of the grammar give.
pub proof fn lemma_document_with_unsupported_key(pulls: Seq<Pull>)
    requires
        pulls.len() >= 2,
        pulls[0] matches Ok(EventView::StartDictionary(_)),
        pulls[1] matches Ok(event) && !(event is String) && !(event is EndCollection),
    ensures
        document(pulls) == Err::<Tree, BuildFailure>(BuildFailure::UnsupportedDictionaryKey),
        document(pulls) != Err::<Tree, BuildFailure>(BuildFailure::InvalidEvent),
{
    lemma_unsupported_key(pulls, 1, Map::empty());
    assert(value(pulls, 0).0 == Err::<Tree, BuildFailure>(BuildFailure::UnsupportedDictionaryKey));
}

/// What a request at place `at` gives: the item there, or `None` past the end.
pub open spec fn pull_at(pulls: Seq<Pull>, at: int) -> Option<Pull> {
    if 0 <= at < pulls.len() {
        Some(pulls[at])
    } else {
        None
    }
}

/// The one value that a whole sequence of events describes, or why it
/// describes none.
///
/// An opening frame may come first. After the value the events end, or one
/// closing frame comes and then they end; any other event after the value
/// breaks the grammar, and a failure there is passed on.
pub open spec fn document(pulls: Seq<Pull>) -> Result<Tree, BuildFailure> {
    let start: int = if pull_at(pulls, 0) == Some(Ok::<EventView, ErrorClass>(EventView::StartPlist)) {
        1
    } else {
        0
    };
    let (root, taken) = value(pulls, start);
    match root {
        Err(failure) => Err(failure),
        Ok(root) => {
            let after = start + 1 + taken;
            match pull_at(pulls, after) {
                None => Ok(root),
                Some(Err(class)) => Err(BuildFailure::Parser(class)),
                Some(Ok(EventView::EndPlist)) => match pull_at(pulls, after + 1) {
                    None => Ok(root),
                    Some(Err(class)) => Err(BuildFailure::Parser(class)),
                    Some(Ok(_)) => Err(BuildFailure::InvalidEvent),
                },
                Some(Ok(_)) => Err(BuildFailure::InvalidEvent),
            }
        },
    }
}

/// After the value and a closing frame nothing may follow: an event there,
/// be it a second closing frame, breaks the grammar.
pub proof fn lemma_nothing_follows_the_closing_frame(pulls: Seq<Pull>, start: int)
    requires
        start == (if pull_at(pulls, 0) == Some(
            Ok::<EventView, ErrorClass>(EventView::StartPlist),
        ) {
            1int
        } else {
            0int
        }),
        value(pulls, start).0 is Ok,
        pull_at(pulls, start + 1 + value(pulls, start).1) == Some(
            Ok::<EventView, ErrorClass>(EventView::EndPlist),
        ),
        pull_at(pulls, start + 2 + value(pulls, start).1) matches Some(Ok(_)),
    ensures
        document(pulls) == Err::<Tree, BuildFailure>(BuildFailure::InvalidEvent),
{
}

/// What a build returned, as mathematics sees it.
pub open spec fn built_view(r: BuilderResult<Plist>) -> Result<Tree, BuildFailure> {
    match r {
        Ok(plist) => Ok(plist@),
        Err(error) => Err(error@),
    }
}

/// The items of `pulls` from place `from` on.
pub open spec fn rest_from(pulls: Seq<Pull>, from: int) -> Seq<Pull> {
    if 0 <= from <= pulls.len() {
        pulls.skip(from)
    } else {
        Seq::empty()
    }
}

/// The most items that room is set aside for on the word of an event that
/// opens a container.
pub const CAPACITY_LIMIT: u64 = 1024;

/// Builds one value from the events of a producer.
pub struct Builder<T> {
    stream: T,
    token: Option<PlistEvent>,
}

impl<T: EventStream> Builder<T> {
    /// Whether the producer is in a state that it can reach.
    pub closed spec fn wf(&self) -> bool {
        self.stream.wf()
    }

    /// What the producer will hand out from now on.
    pub closed spec fn pending(&self) -> Seq<Pull> {
        self.stream.pending()
    }

    /// A builder that will take its events from `stream`.
    pub fn from_event_stream(stream: T) -> (builder: Builder<T>)
        requires
            stream.wf(),
        ensures
            builder.wf(),
            builder.pending() == stream.pending(),
    {
        Builder { stream, token: None }
    }

    /// Whether the held event is the one at place `at` of `pulls`, and the
    /// producer is about to hand out what follows it.
    spec fn holds(&self, pulls: Seq<Pull>, at: int) -> bool {
        &&& self.stream.wf()
        &&& 0 <= at
        &&& self.stream.pending() == rest_from(pulls, at + 1)
        &&& match self.token {
            Some(event) => at < pulls.len() && pulls[at] == Ok::<EventView, ErrorClass>(event@),
            None => at >= pulls.len(),
        }
    }

    /// Builds the value that the events describe.
    pub fn build(self) -> (r: BuilderResult<Plist>)
        requires
            self.wf(),
        ensures
            built_view(r) == document(self.pending()),
    {
        let mut builder = self;
        let ghost pulls = builder.stream.pending();
        assert(pulls.skip(0) =~= pulls);
        builder.bump(Ghost(pulls), Ghost(0))?;
        let ghost mut start: int = 0;
        if let Some(PlistEvent::StartPlist) = builder.token {
            builder.bump(Ghost(pulls), Ghost(1))?;
            proof {
                start = 1;
            }
        }
        let plist = builder.build_value(Ghost(pulls), Ghost(start))?;
        let ghost after = start + 1 + value(pulls, start).1;
        builder.bump(Ghost(pulls), Ghost(after))?;
        match builder.token {
            None => (),
            Some(PlistEvent::EndPlist) => {
                builder.bump(Ghost(pulls), Ghost(after + 1))?;
                match builder.token {
                    None => (),
                    // The stream should have finished
                    _ => {
                        return Err(BuilderError::InvalidEvent);
                    },
                }
            },
            // The stream should have finished
            _ => {
                return Err(BuilderError::InvalidEvent);
            },
        }
        Ok(plist)
    }

    /// Asks the producer for its next item and holds the event, if it is one.
    fn bump(&mut self, Ghost(pulls): Ghost<Seq<Pull>>, Ghost(at): Ghost<int>) -> (r:
        BuilderResult<()>)
        requires
            old(self).stream.wf(),
            0 <= at,
            old(self).stream.pending() == rest_from(pulls, at),
        ensures
            final(self).stream.wf(),
            final(self).stream.pending() == rest_from(pulls, at + 1),
            match r {
                Ok(_) => final(self).holds(pulls, at),
                Err(error) => {
                    &&& at < pulls.len()
                    &&& pulls[at] == Err::<EventView, ErrorClass>(error@->Parser_0)
                    &&& error@ is Parser
                    &&& final(self).token == old(self).token
                },
            },
    {
        proof {
            if at < pulls.len() {
                assert(rest_from(pulls, at).skip(1) =~= rest_from(pulls, at + 1));
                assert(rest_from(pulls, at)[0] == pulls[at]);
            } else {
                assert(rest_from(pulls, at).len() == 0);
                assert(rest_from(pulls, at) =~= rest_from(pulls, at + 1));
            }
        }
        match self.stream.next() {
            Some(Ok(token)) => {
                self.token = Some(token);
                Ok(())
            },
            Some(Err(error)) => Err(BuilderError::ParserError(error)),
            None => {
                self.token = None;
                Ok(())
            },
        }
    }

    /// Builds the value that starts with the held event.
    fn build_value(&mut self, Ghost(pulls): Ghost<Seq<Pull>>, Ghost(at): Ghost<int>) -> (r:
        BuilderResult<Plist>)
        requires
            old(self).holds(pulls, at),
        ensures
            final(self).stream.wf(),
            built_view(r) == value(pulls, at).0,
            r is Ok ==> final(self).stream.pending() == rest_from(
                pulls,
                at + 1 + value(pulls, at).1,
            ),
        decreases left(pulls, at), 0nat,
    {
        match self.token.take() {
            Some(PlistEvent::StartPlist) => Err(BuilderError::InvalidEvent),
            Some(PlistEvent::EndPlist) => Err(BuilderError::InvalidEvent),
            Some(PlistEvent::StartArray(len)) => {
                let items = self.build_array(len, Ghost(pulls), Ghost(at + 1))?;
                Ok(Plist::Array(items))
            },
            Some(PlistEvent::StartDictionary(len)) => {
                let pairs = self.build_dict(len, Ghost(pulls), Ghost(at + 1))?;
                Ok(Plist::Dictionary(pairs))
            },
            Some(PlistEvent::BooleanValue(b)) => Ok(Plist::Boolean(b)),
            Some(PlistEvent::DataValue(d)) => Ok(Plist::Data(d)),
            Some(PlistEvent::DateValue(d)) => Ok(Plist::Date(d)),
            Some(PlistEvent::IntegerValue(i)) => Ok(Plist::Integer(i)),
            Some(PlistEvent::RealValue(f)) => Ok(Plist::Real(f)),
            Some(PlistEvent::StringValue(s)) => Ok(Plist::String(s)),
            Some(PlistEvent::EndCollection) => Err(BuilderError::InvalidEvent),
            // The events should not have ended here
            None => Err(BuilderError::InvalidEvent),
        }
    }

    /// Builds the items of an array up to the event that closes it.
    fn build_array(
        &mut self,
        len: Option<u64>,
        Ghost(pulls): Ghost<Seq<Pull>>,
        Ghost(at): Ghost<int>,
    ) -> (r: Result<Vec<Plist>, BuilderError>)
        requires
            old(self).stream.wf(),
            0 <= at,
            old(self).stream.pending() == rest_from(pulls, at),
        ensures
            final(self).stream.wf(),
            match r {
                Ok(items) => {
                    &&& elements(pulls, at, Seq::empty()).0 == Ok::<Seq<Tree>, BuildFailure>(
                        trees(items@),
                    )
                    &&& final(self).stream.pending() == rest_from(
                        pulls,
                        at + elements(pulls, at, Seq::empty()).1,
                    )
                },
                Err(error) => elements(pulls, at, Seq::empty()).0 == Err::<
                    Seq<Tree>,
                    BuildFailure,
                >(error@),
            },
        decreases left(pulls, at), 2nat,
    {
        let mut values: Vec<Plist> = match len {
            Some(len) => Vec::with_capacity(capacity_hint(len)),
            None => Vec::new(),
        };
        let ghost mut here: int = at;
        let ghost mut taken: nat = 0;
        loop
            invariant
                self.stream.wf(),
                0 <= at <= here,
                here == at + taken,
                left(pulls, here) <= left(pulls, at),
                self.stream.pending() == rest_from(pulls, here),
                elements(pulls, at, Seq::empty()).0 == elements(pulls, here, trees(values@)).0,
                elements(pulls, at, Seq::empty()).0 is Ok ==> elements(pulls, at, Seq::empty()).1
                    == taken + elements(pulls, here, trees(values@)).1,
            decreases left(pulls, here),
        {
            let ghost done = trees(values@);
            let ghost (item_view, width) = value(pulls, here);
            assert(elements(pulls, here, done) == if !(0 <= here < pulls.len()) {
                (Err::<Seq<Tree>, BuildFailure>(BuildFailure::InvalidEvent), 0nat)
            } else if pulls[here] == Ok::<EventView, ErrorClass>(EventView::EndCollection) {
                (Ok::<Seq<Tree>, BuildFailure>(done), 1nat)
            } else {
                match item_view {
                    Err(failure) => (Err::<Seq<Tree>, BuildFailure>(failure), 0nat),
                    Ok(item) => {
                        let (all, more) = elements(pulls, here + 1 + width, done.push(item));
                        (all, 1 + width + more)
                    },
                }
            });
            match self.bump(Ghost(pulls), Ghost(here)) {
                Ok(_) => {},
                Err(error) => {
                    return Err(error);
                },
            }
            if let Some(PlistEvent::EndCollection) = self.token {
                self.token.take();
                return Ok(values);
            }
            let ghost before = values@;
            let item = match self.build_value(Ghost(pulls), Ghost(here)) {
                Ok(item) => item,
                Err(error) => {
                    return Err(error);
                },
            };
            values.push(item);
            proof {
                assert(values@.drop_last() =~= before);
                assert(trees(values@) == trees(before).push(values@.last()@));
                taken = taken + 1 + value(pulls, here).1;
                here = here + 1 + value(pulls, here).1;
            }
        }
    }

    /// Builds the entries of a dictionary up to the event that closes it.
    fn build_dict(
        &mut self,
        len: Option<u64>,
        Ghost(pulls): Ghost<Seq<Pull>>,
        Ghost(at): Ghost<int>,
    ) -> (r: Result<Dictionary, BuilderError>)
        requires
            old(self).stream.wf(),
            0 <= at,
            old(self).stream.pending() == rest_from(pulls, at),
        ensures
            final(self).stream.wf(),
            match r {
                Ok(pairs) => {
                    &&& entries(pulls, at, Map::empty()).0 == Ok::<
                        Map<Seq<char>, Tree>,
                        BuildFailure,
                    >(pairs@)
                    &&& final(self).stream.pending() == rest_from(
                        pulls,
                        at + entries(pulls, at, Map::empty()).1,
                    )
                },
                Err(error) => entries(pulls, at, Map::empty()).0 == Err::<
                    Map<Seq<char>, Tree>,
                    BuildFailure,
                >(error@),
            },
        decreases left(pulls, at), 2nat,
    {
        let mut values = Dictionary::new();
        let ghost mut here: int = at;
        let ghost mut taken: nat = 0;
        loop
            invariant
                self.stream.wf(),
                0 <= at <= here,
                here == at + taken,
                left(pulls, here) <= left(pulls, at),
                self.stream.pending() == rest_from(pulls, here),
                entries(pulls, at, Map::empty()).0 == entries(pulls, here, values@).0,
                entries(pulls, at, Map::empty()).0 is Ok ==> entries(pulls, at, Map::empty()).1
                    == taken + entries(pulls, here, values@).1,
            decreases left(pulls, here),
        {
            let ghost done = values@;
            let ghost (item_view, width) = value(pulls, here + 1);
            assert(entries(pulls, here, done) == if !(0 <= here < pulls.len()) {
                (Err::<Map<Seq<char>, Tree>, BuildFailure>(BuildFailure::UnsupportedDictionaryKey), 0nat)
            } else {
                match pulls[here] {
                    Err(class) => (
                        Err::<Map<Seq<char>, Tree>, BuildFailure>(BuildFailure::Parser(class)),
                        0nat,
                    ),
                    Ok(EventView::EndCollection) => (
                        Ok::<Map<Seq<char>, Tree>, BuildFailure>(done),
                        1nat,
                    ),
                    Ok(EventView::String(key)) => {
                        match item_view {
                            Err(failure) => (
                                Err::<Map<Seq<char>, Tree>, BuildFailure>(failure),
                                0nat,
                            ),
                            Ok(item) => {
                                let (all, more) = entries(
                                    pulls,
                                    here + 2 + width,
                                    done.insert(key, item),
                                );
                                (all, 2 + width + more)
                            },
                        }
                    },
                    Ok(_) => (
                        Err::<Map<Seq<char>, Tree>, BuildFailure>(
                            BuildFailure::UnsupportedDictionaryKey,
                        ),
                        0nat,
                    ),
                }
            });
            match self.bump(Ghost(pulls), Ghost(here)) {
                Ok(_) => {},
                Err(error) => {
                    return Err(error);
                },
            }
            match self.token.take() {
                Some(PlistEvent::EndCollection) => {
                    return Ok(values);
                },
                Some(PlistEvent::StringValue(s)) => {
                    match self.bump(Ghost(pulls), Ghost(here + 1)) {
                        Ok(_) => {},
                        Err(error) => {
                            return Err(error);
                        },
                    }
                    let item = match self.build_value(Ghost(pulls), Ghost(here + 1)) {
                        Ok(item) => item,
                        Err(error) => {
                            return Err(error);
                        },
                    };
                    values.insert(s, item);
                    proof {
                        taken = taken + 2 + value(pulls, here + 1).1;
                        here = here + 2 + value(pulls, here + 1).1;
                    }
                },
                _ => {
                    // Only string keys are supported in plists
                    return Err(BuilderError::UnsupportedDictionaryKey);
                },
            }
        }
    }
}

/// How many items room is set aside for when an event declares `len` of them.
fn capacity_hint(len: u64) -> (capacity: usize)
    ensures
        capacity == if len <= CAPACITY_LIMIT {
            len
        } else {
            CAPACITY_LIMIT
        },
{
    if len <= CAPACITY_LIMIT {
        len as usize
    } else {
        CAPACITY_LIMIT as usize
    }
}

} // verus!
