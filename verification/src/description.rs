//! The events that describe a value, and the value that they build.

use crate::builder::{document, elements, entries, lemma_unsupported_key, value, BuildFailure};
use crate::error::ErrorClass;
use crate::event::{EventView, Pull};
use crate::value::Tree;
use vstd::prelude::*;

verus! {

/// A property list as it is written down: the entries of a dictionary stand in
/// an order and may repeat a key, and a container may declare its length.
pub enum Outline {
    Array(Option<u64>, Seq<Outline>),
    Dictionary(Option<u64>, Seq<(Seq<char>, Outline)>),
    Boolean(bool),
    Data(Seq<u8>),
    Date(int),
    Real(u64),
    Integer(int),
    String(Seq<char>),
}

/// The value that an outline stands for. Of entries with the same key the last
/// one counts.
pub open spec fn tree_of(outline: Outline) -> Tree
    decreases outline,
{
    match outline {
        Outline::Array(_, items) => Tree::Array(trees_of(items)),
        Outline::Dictionary(_, pairs) => Tree::Dictionary(map_of(Map::empty(), pairs)),
        Outline::Boolean(b) => Tree::Boolean(b),
        Outline::Data(bytes) => Tree::Data(bytes),
        Outline::Date(date) => Tree::Date(date),
        Outline::Real(number) => Tree::Real(number),
        Outline::Integer(integer) => Tree::Integer(integer),
        Outline::String(string) => Tree::String(string),
    }
}

/// The values that outlines stand for, in order.
pub open spec fn trees_of(items: Seq<Outline>) -> Seq<Tree>
    decreases items,
{
    if items.len() == 0 {
        Seq::empty()
    } else {
        seq![tree_of(items[0])] + trees_of(items.skip(1))
    }
}

/// The mapping `done` with the entries of `pairs` put into it, from the first
/// to the last.
pub open spec fn map_of(done: Map<Seq<char>, Tree>, pairs: Seq<(Seq<char>, Outline)>) -> Map<
    Seq<char>,
    Tree,
>
    decreases pairs,
{
    if pairs.len() == 0 {
        done
    } else {
        map_of(done.insert(pairs[0].0, tree_of(pairs[0].1)), pairs.skip(1))
    }
}

/// The events that describe an outline.
pub open spec fn events_of(outline: Outline) -> Seq<EventView>
    decreases outline,
{
    match outline {
        Outline::Array(len, items) => seq![EventView::StartArray(len)] + events_of_all(items)
            + seq![EventView::EndCollection],
        Outline::Dictionary(len, pairs) => seq![EventView::StartDictionary(len)] + events_of_pairs(
            pairs,
        ) + seq![EventView::EndCollection],
        Outline::Boolean(b) => seq![EventView::Boolean(b)],
        Outline::Data(bytes) => seq![EventView::Data(bytes)],
        Outline::Date(date) => seq![EventView::Date(date)],
        Outline::Real(number) => seq![EventView::Real(number)],
        Outline::Integer(integer) => seq![EventView::Integer(integer)],
        Outline::String(string) => seq![EventView::String(string)],
    }
}

/// The events that describe outlines, one after the other.
pub open spec fn events_of_all(items: Seq<Outline>) -> Seq<EventView>
    decreases items,
{
    if items.len() == 0 {
        Seq::empty()
    } else {
        events_of(items[0]) + events_of_all(items.skip(1))
    }
}

/// The events that describe the entries of a dictionary: each key as a
/// string, then its value.
pub open spec fn events_of_pairs(pairs: Seq<(Seq<char>, Outline)>) -> Seq<EventView>
    decreases pairs,
{
    if pairs.len() == 0 {
        Seq::empty()
    } else {
        seq![EventView::String(pairs[0].0)] + events_of(pairs[0].1) + events_of_pairs(
            pairs.skip(1),
        )
    }
}

/// Whether `pulls` hold the events `events`, each as a successful request,
/// from place `at` on.
pub open spec fn spells(pulls: Seq<Pull>, at: int, events: Seq<EventView>) -> bool {
    &&& 0 <= at
    &&& at + events.len() <= pulls.len()
    &&& forall|i: int|
        0 <= i < events.len() ==> #[trigger] pulls[at + i] == Ok::<EventView, ErrorClass>(
            events[i],
        )
}

/// The events that describe an outline are at least one.
pub proof fn lemma_events_of_nonempty(outline: Outline)
    ensures
        events_of(outline).len() >= 1,
{
}

/// Where events describe an outline, the value built from them is the one
/// that the outline stands for, and the description is used up exactly.
pub proof fn lemma_value_of(pulls: Seq<Pull>, at: int, outline: Outline)
    requires
        spells(pulls, at, events_of(outline)),
    ensures
        value(pulls, at) == (
            Ok::<Tree, BuildFailure>(tree_of(outline)),
            (events_of(outline).len() - 1) as nat,
        ),
    decreases outline, 0nat,
{
    let events = events_of(outline);
    lemma_events_of_nonempty(outline);
    assert(pulls[at + 0] == Ok::<EventView, ErrorClass>(events[0]));
    match outline {
        Outline::Array(len, items) => {
            let inner = events_of_all(items) + seq![EventView::EndCollection];
            assert(events =~= seq![EventView::StartArray(len)] + inner);
            assert(spells(pulls, at + 1, inner)) by {
                assert forall|i: int| 0 <= i < inner.len() implies #[trigger] pulls[at + 1 + i]
                    == Ok::<EventView, ErrorClass>(inner[i]) by {
                    assert(pulls[at + (i + 1)] == Ok::<EventView, ErrorClass>(events[i + 1]));
                }
            }
            lemma_elements_of(pulls, at + 1, Seq::empty(), items);
            assert(Seq::<Tree>::empty() + trees_of(items) =~= trees_of(items));
        },
        Outline::Dictionary(len, pairs) => {
            let inner = events_of_pairs(pairs) + seq![EventView::EndCollection];
            assert(events =~= seq![EventView::StartDictionary(len)] + inner);
            assert(spells(pulls, at + 1, inner)) by {
                assert forall|i: int| 0 <= i < inner.len() implies #[trigger] pulls[at + 1 + i]
                    == Ok::<EventView, ErrorClass>(inner[i]) by {
                    assert(pulls[at + (i + 1)] == Ok::<EventView, ErrorClass>(events[i + 1]));
                }
            }
            lemma_entries_of(pulls, at + 1, Map::empty(), pairs);
        },
        _ => {},
    }
}

/// Where events describe the items of an array and then close it, the items
/// built from them are those that the outlines stand for.
pub proof fn lemma_elements_of(pulls: Seq<Pull>, at: int, done: Seq<Tree>, items: Seq<Outline>)
    requires
        spells(pulls, at, events_of_all(items) + seq![EventView::EndCollection]),
    ensures
        elements(pulls, at, done) == (
            Ok::<Seq<Tree>, BuildFailure>(done + trees_of(items)),
            (events_of_all(items).len() + 1) as nat,
        ),
    decreases items, 1nat,
{
    let all = events_of_all(items) + seq![EventView::EndCollection];
    if items.len() == 0 {
        assert(pulls[at + 0] == Ok::<EventView, ErrorClass>(all[0]));
        assert(done + trees_of(items) =~= done);
    } else {
        let first = events_of(items[0]);
        let rest = events_of_all(items.skip(1)) + seq![EventView::EndCollection];
        lemma_events_of_nonempty(items[0]);
        assert(all =~= first + rest);
        assert(spells(pulls, at, first)) by {
            assert forall|i: int| 0 <= i < first.len() implies #[trigger] pulls[at + i] == Ok::<
                EventView,
                ErrorClass,
            >(first[i]) by {
                assert(all[i] == first[i]);
            }
        }
        assert(spells(pulls, at + first.len(), rest)) by {
            assert forall|i: int| 0 <= i < rest.len() implies #[trigger] pulls[at + first.len()
                + i] == Ok::<EventView, ErrorClass>(rest[i]) by {
                assert(pulls[at + (first.len() + i)] == Ok::<EventView, ErrorClass>(
                    all[first.len() + i],
                ));
            }
        }
        lemma_value_of(pulls, at, items[0]);
        lemma_first_is_no_end(items[0]);
        assert(pulls[at + 0] == Ok::<EventView, ErrorClass>(first[0]));
        lemma_elements_of(pulls, at + first.len(), done.push(tree_of(items[0])), items.skip(1));
        assert(done.push(tree_of(items[0])) + trees_of(items.skip(1)) =~= done + trees_of(items));
        let taken = (first.len() - 1) as nat;
        assert(elements(pulls, at, done) == ({
            let (all, more) = elements(pulls, at + 1 + taken, done.push(tree_of(items[0])));
            (all, 1 + taken + more)
        }));
    }
}

/// Where events describe the entries of a dictionary and then close it, the
/// mapping built from them is `done` with those entries put into it.
pub proof fn lemma_entries_of(
    pulls: Seq<Pull>,
    at: int,
    done: Map<Seq<char>, Tree>,
    pairs: Seq<(Seq<char>, Outline)>,
)
    requires
        spells(pulls, at, events_of_pairs(pairs) + seq![EventView::EndCollection]),
    ensures
        entries(pulls, at, done) == (
            Ok::<Map<Seq<char>, Tree>, BuildFailure>(map_of(done, pairs)),
            (events_of_pairs(pairs).len() + 1) as nat,
        ),
    decreases pairs, 1nat,
{
    let all = events_of_pairs(pairs) + seq![EventView::EndCollection];
    if pairs.len() == 0 {
        assert(pulls[at + 0] == Ok::<EventView, ErrorClass>(all[0]));
    } else {
        let key = pairs[0].0;
        let first = events_of(pairs[0].1);
        let rest = events_of_pairs(pairs.skip(1)) + seq![EventView::EndCollection];
        lemma_events_of_nonempty(pairs[0].1);
        assert(all =~= seq![EventView::String(key)] + first + rest);
        assert(pulls[at + 0] == Ok::<EventView, ErrorClass>(all[0]));
        assert(spells(pulls, at + 1, first)) by {
            assert forall|i: int| 0 <= i < first.len() implies #[trigger] pulls[at + 1 + i]
                == Ok::<EventView, ErrorClass>(first[i]) by {
                assert(pulls[at + (1 + i)] == Ok::<EventView, ErrorClass>(all[1 + i]));
            }
        }
        assert(spells(pulls, at + 1 + first.len(), rest)) by {
            assert forall|i: int| 0 <= i < rest.len() implies #[trigger] pulls[at + 1
                + first.len() + i] == Ok::<EventView, ErrorClass>(rest[i]) by {
                assert(pulls[at + (1 + first.len() + i)] == Ok::<EventView, ErrorClass>(
                    all[1 + first.len() + i],
                ));
            }
        }
        lemma_value_of(pulls, at + 1, pairs[0].1);
        lemma_entries_of(
            pulls,
            at + 1 + first.len(),
            done.insert(key, tree_of(pairs[0].1)),
            pairs.skip(1),
        );
        let taken = (first.len() - 1) as nat;
        assert(entries(pulls, at, done) == ({
            let (all, more) = entries(
                pulls,
                at + 2 + taken,
                done.insert(key, tree_of(pairs[0].1)),
            );
            (all, 2 + taken + more)
        }));
    }
}

/// Where events describe entries of a dictionary, and then, where the next
/// key is due, an event comes that is neither a string nor the end of the
/// dictionary, the build fails for the key's sake, however many entries came
/// before: no part of the mapping is given.
pub proof fn lemma_unsupported_key_after_entries(
    pulls: Seq<Pull>,
    at: int,
    done: Map<Seq<char>, Tree>,
    pairs: Seq<(Seq<char>, Outline)>,
)
    requires
        spells(pulls, at, events_of_pairs(pairs)),
        at + events_of_pairs(pairs).len() < pulls.len(),
        pulls[at + events_of_pairs(pairs).len()] matches Ok(event) && !(event is String) && !(
        event is EndCollection),
    ensures
        entries(pulls, at, done).0 == Err::<Map<Seq<char>, Tree>, BuildFailure>(
            BuildFailure::UnsupportedDictionaryKey,
        ),
    decreases pairs.len(),
{
    let all = events_of_pairs(pairs);
    if pairs.len() == 0 {
        lemma_unsupported_key(pulls, at, done);
    } else {
        let key = pairs[0].0;
        let first = events_of(pairs[0].1);
        let rest = events_of_pairs(pairs.skip(1));
        lemma_events_of_nonempty(pairs[0].1);
        assert(all =~= seq![EventView::String(key)] + first + rest);
        assert(pulls[at + 0] == Ok::<EventView, ErrorClass>(all[0]));
        assert(spells(pulls, at + 1, first)) by {
            assert forall|i: int| 0 <= i < first.len() implies #[trigger] pulls[at + 1 + i]
                == Ok::<EventView, ErrorClass>(first[i]) by {
                assert(pulls[at + (1 + i)] == Ok::<EventView, ErrorClass>(all[1 + i]));
            }
        }
        assert(spells(pulls, at + 1 + first.len(), rest)) by {
            assert forall|i: int| 0 <= i < rest.len() implies #[trigger] pulls[at + 1
                + first.len() + i] == Ok::<EventView, ErrorClass>(rest[i]) by {
                assert(pulls[at + (1 + first.len() + i)] == Ok::<EventView, ErrorClass>(
                    all[1 + first.len() + i],
                ));
            }
        }
        lemma_value_of(pulls, at + 1, pairs[0].1);
        lemma_unsupported_key_after_entries(
            pulls,
            at + 1 + first.len(),
            done.insert(key, tree_of(pairs[0].1)),
            pairs.skip(1),
        );
        let taken = (first.len() - 1) as nat;
        assert(entries(pulls, at, done) == ({
            let (all, more) = entries(
                pulls,
                at + 2 + taken,
                done.insert(key, tree_of(pairs[0].1)),
            );
            (all, 2 + taken + more)
        }));
    }
}

/// A dictionary in which, after any number of entries, something other than
/// a string comes where a key is due cannot be built, and the failure says
/// so: it is not the one that other breaches of the grammar give.
pub proof fn lemma_document_with_unsupported_key_after_entries(
    pulls: Seq<Pull>,
    pairs: Seq<(Seq<char>, Outline)>,
)
    requires
        pulls.len() > 1 + events_of_pairs(pairs).len(),
        pulls[0] matches Ok(EventView::StartDictionary(_)),
        spells(pulls, 1, events_of_pairs(pairs)),
        pulls[1 + events_of_pairs(pairs).len() as int] matches Ok(event) && !(event is String) && !(
        event is EndCollection),
    ensures
        document(pulls) == Err::<Tree, BuildFailure>(BuildFailure::UnsupportedDictionaryKey),
{
    lemma_unsupported_key_after_entries(pulls, 1, Map::empty(), pairs);
    assert(value(pulls, 0).0 == Err::<Tree, BuildFailure>(BuildFailure::UnsupportedDictionaryKey));
}

/// The description of an outline does not start with the event that closes a
/// container.
pub proof fn lemma_first_is_no_end(outline: Outline)
    ensures
        events_of(outline).len() >= 1,
        events_of(outline)[0] != EventView::EndCollection,
        events_of(outline)[0] != EventView::StartPlist,
        events_of(outline)[0] != EventView::EndPlist,
{
}

/// The events of `events`, each as a successful request.
pub open spec fn granted(events: Seq<EventView>) -> Seq<Pull> {
    Seq::new(events.len(), |i: int| Ok::<EventView, ErrorClass>(events[i]))
}

/// Building from the events that describe an outline gives the value that the
/// outline stands for.
pub proof fn lemma_build_of_description(outline: Outline)
    ensures
        document(granted(events_of(outline))) == Ok::<Tree, BuildFailure>(tree_of(outline)),
{
    let pulls = granted(events_of(outline));
    lemma_first_is_no_end(outline);
    assert(spells(pulls, 0, events_of(outline)));
    lemma_value_of(pulls, 0, outline);
}

/// Building from the events that describe an outline between an opening and a
/// closing frame gives the value that the outline stands for.
pub proof fn lemma_build_of_framed_description(outline: Outline)
    ensures
        document(
            granted(
                seq![EventView::StartPlist] + events_of(outline) + seq![EventView::EndPlist],
            ),
        ) == Ok::<Tree, BuildFailure>(tree_of(outline)),
{
    let events = events_of(outline);
    let pulls = granted(seq![EventView::StartPlist] + events + seq![EventView::EndPlist]);
    lemma_first_is_no_end(outline);
    assert(spells(pulls, 1, events));
    lemma_value_of(pulls, 1, outline);
    assert(pulls[0] == Ok::<EventView, ErrorClass>(EventView::StartPlist));
    assert(pulls[1 + events.len() as int] == Ok::<EventView, ErrorClass>(EventView::EndPlist));
}

} // verus!
