//! What a binary property list means: the outline that its objects write
//! down, and that its decoder hands out the events of that outline.

use crate::builder::{document, BuildFailure};
use crate::description::{
    events_of, events_of_all, events_of_pairs, granted, lemma_build_of_description, tree_of,
    Outline,
};
use crate::error::ErrorClass;
use crate::event::{EventView, Pull};
use crate::stream::format::{children, header, object, opening, Layout, Node};
use crate::stream::walk::{
    advance, containers, events, is_container, lemma_advance, lemma_step_wf, lemma_visit_wf,
    on_stack, settle, stack_wf, step, visit, Decoding, Frame, Walk,
};
use crate::value::Tree;
use vstd::prelude::*;

verus! {

/// The outline of the value that one event describes, if the event is of that
/// kind.
pub open spec fn leaf_outline(event: EventView) -> Option<Outline> {
    match event {
        EventView::Boolean(b) => Some(Outline::Boolean(b)),
        EventView::Data(bytes) => Some(Outline::Data(bytes)),
        EventView::Date(date) => Some(Outline::Date(date)),
        EventView::Integer(integer) => Some(Outline::Integer(integer)),
        EventView::Real(number) => Some(Outline::Real(number)),
        EventView::String(string) => Some(Outline::String(string)),
        _ => None,
    }
}

/// Whether the object with number `index` writes down `outline`: it is the
/// value of the outline, or the container of it, declares the length that it
/// has, and holds references to objects that write down what the outline
/// holds, a dictionary to a string for each key and to the key's value after
/// it.
pub open spec fn describes(source: Seq<u8>, layout: Layout, index: u64, outline: Outline) -> bool
    decreases outline,
{
    match object(source, layout, index) {
        Err(_) => false,
        Ok(Node::Leaf(event)) => leaf_outline(event) == Some(outline),
        Ok(Node::Array(refs)) => {
            &&& outline matches Outline::Array(len, items)
            &&& len == Some(refs.len() as u64)
            &&& items.len() == refs.len()
            &&& forall|i: int|
                0 <= i < items.len() ==> describes(source, layout, refs[i], #[trigger] items[i])
        },
        Ok(Node::Dictionary(refs)) => {
            &&& outline matches Outline::Dictionary(len, pairs)
            &&& len == Some((refs.len() / 2) as u64)
            &&& 2 * pairs.len() == refs.len()
            &&& forall|i: int|
                0 <= i < pairs.len() ==> {
                    &&& object(source, layout, refs[2 * i]) == Ok::<Node, ErrorClass>(
                        Node::Leaf(EventView::String((#[trigger] pairs[i]).0)),
                    )
                    &&& describes(source, layout, refs[2 * i + 1], pairs[i].1)
                }
        },
    }
}

/// How much is written in an outline: one for each value and each key.
pub open spec fn size(outline: Outline) -> nat
    decreases outline,
{
    match outline {
        Outline::Array(_, items) => 1 + sizes(items),
        Outline::Dictionary(_, pairs) => 1 + pair_sizes(pairs),
        _ => 1,
    }
}

/// How much is written in outlines, taken together.
pub open spec fn sizes(items: Seq<Outline>) -> nat
    decreases items,
{
    if items.len() == 0 {
        0
    } else {
        size(items[0]) + sizes(items.skip(1))
    }
}

/// How much is written in the entries of a dictionary, taken together.
pub open spec fn pair_sizes(pairs: Seq<(Seq<char>, Outline)>) -> nat
    decreases pairs,
{
    if pairs.len() == 0 {
        0
    } else {
        1 + size(pairs[0].1) + pair_sizes(pairs.skip(1))
    }
}

/// The keys and values of a dictionary as outlines, each key followed by its
/// value.
pub open spec fn flat(pairs: Seq<(Seq<char>, Outline)>) -> Seq<Outline> {
    Seq::new(
        2 * pairs.len(),
        |i: int|
            if i % 2 == 0 {
                Outline::String(pairs[i / 2].0)
            } else {
                pairs[i / 2].1
            },
    )
}

/// The outlines that a container's outline holds, in the order in which its
/// objects are visited.
pub open spec fn members(outline: Outline) -> Seq<Outline> {
    match outline {
        Outline::Array(_, items) => items,
        Outline::Dictionary(_, pairs) => flat(pairs),
        _ => Seq::empty(),
    }
}

/// An outline is at least of size one.
pub proof fn lemma_size_positive(outline: Outline)
    ensures
        size(outline) >= 1,
{
}

/// Each of several outlines is no larger than all of them together.
pub proof fn lemma_sizes(items: Seq<Outline>, i: int)
    requires
        0 <= i < items.len(),
    ensures
        size(items[i]) <= sizes(items),
    decreases items.len(),
{
    if i > 0 {
        lemma_sizes(items.skip(1), i - 1);
    }
}

/// Each value of several entries is smaller than all of them together.
pub proof fn lemma_pair_sizes(pairs: Seq<(Seq<char>, Outline)>, i: int)
    requires
        0 <= i < pairs.len(),
    ensures
        size(pairs[i].1) < pair_sizes(pairs),
    decreases pairs.len(),
{
    if i > 0 {
        lemma_pair_sizes(pairs.skip(1), i - 1);
    }
}

/// What a container's outline holds is smaller than the outline.
pub proof fn lemma_member_sizes(outline: Outline, i: int)
    requires
        0 <= i < members(outline).len(),
    ensures
        size(members(outline)[i]) < size(outline),
{
    match outline {
        Outline::Array(_, items) => {
            lemma_sizes(items, i);
        },
        Outline::Dictionary(_, pairs) => {
            lemma_pair_sizes(pairs, i / 2);
        },
        _ => {},
    }
}

/// The events that describe the keys and values of a dictionary one after the
/// other are those that describe its entries.
pub proof fn lemma_events_of_flat(pairs: Seq<(Seq<char>, Outline)>)
    ensures
        events_of_all(flat(pairs)) == events_of_pairs(pairs),
    decreases pairs.len(),
{
    let all = flat(pairs);
    if pairs.len() > 0 {
        let rest = pairs.skip(1);
        lemma_events_of_flat(rest);
        assert(all.skip(1).skip(1) =~= flat(rest)) by {
            assert forall|i: int| 0 <= i < flat(rest).len() implies all.skip(1).skip(1)[i] == flat(
                rest,
            )[i] by {
                assert(all.skip(1).skip(1)[i] == all[i + 2]);
                assert((i + 2) / 2 == i / 2 + 1);
                assert((i + 2) % 2 == i % 2);
                assert(rest[i / 2] == pairs[i / 2 + 1]);
            }
        }
        assert(all[0] == Outline::String(pairs[0].0));
        assert(all.skip(1)[0] == pairs[0].1);
        assert(events_of_all(all) == events_of(all[0]) + events_of_all(all.skip(1)));
        assert(events_of_all(all.skip(1)) == events_of(all.skip(1)[0]) + events_of_all(
            all.skip(1).skip(1),
        ));
        assert(events_of(all[0]) =~= seq![EventView::String(pairs[0].0)]);
        assert(events_of_all(all) =~= seq![EventView::String(pairs[0].0)] + events_of(pairs[0].1)
            + events_of_pairs(rest));
    } else {
        assert(all.len() == 0);
    }
}

/// The objects that a container holds write down what its outline holds.
pub proof fn lemma_members_described(source: Seq<u8>, layout: Layout, index: u64, outline: Outline)
    requires
        describes(source, layout, index, outline),
        is_container(object(source, layout, index)),
    ensures
        members(outline).len() == children(object(source, layout, index)->Ok_0).len(),
        forall|i: int|
            0 <= i < members(outline).len() ==> describes(
                source,
                layout,
                children(object(source, layout, index)->Ok_0)[i],
                #[trigger] members(outline)[i],
            ),
        events_of(outline) == seq![opening(object(source, layout, index)->Ok_0)] + events_of_all(
            members(outline),
        ) + seq![EventView::EndCollection],
{
    let node = object(source, layout, index)->Ok_0;
    let refs = children(node);
    match node {
        Node::Leaf(_) => {},
        Node::Array(_) => {},
        Node::Dictionary(_) => {
            let pairs = outline->Dictionary_1;
            lemma_events_of_flat(pairs);
            assert forall|i: int| 0 <= i < members(outline).len() implies describes(
                source,
                layout,
                refs[i],
                #[trigger] members(outline)[i],
            ) by {
                let j = i / 2;
                assert(object(source, layout, refs[2 * j]) == Ok::<Node, ErrorClass>(
                    Node::Leaf(EventView::String(pairs[j].0)),
                ));
                assert(describes(source, layout, refs[2 * j + 1], pairs[j].1));
                if i % 2 == 0 {
                    assert(i == 2 * j);
                } else {
                    assert(i == 2 * j + 1);
                }
            }
        },
    }
}

/// An object writes down one outline at most.
pub proof fn lemma_one_outline(
    source: Seq<u8>,
    layout: Layout,
    index: u64,
    first: Outline,
    second: Outline,
)
    requires
        describes(source, layout, index, first),
        describes(source, layout, index, second),
    ensures
        first == second,
    decreases first,
{
    match object(source, layout, index) {
        Err(_) => {},
        Ok(Node::Leaf(_)) => {},
        Ok(Node::Array(refs)) => {
            let a = first->Array_1;
            let b = second->Array_1;
            assert forall|i: int| 0 <= i < a.len() implies a[i] == b[i] by {
                assert(describes(source, layout, refs[i], a[i]));
                assert(describes(source, layout, refs[i], b[i]));
                lemma_one_outline(source, layout, refs[i], a[i], b[i]);
            }
            assert(a =~= b);
        },
        Ok(Node::Dictionary(refs)) => {
            let a = first->Dictionary_1;
            let b = second->Dictionary_1;
            assert forall|i: int| 0 <= i < a.len() implies a[i] == b[i] by {
                assert(describes(source, layout, refs[2 * i + 1], a[i].1));
                assert(describes(source, layout, refs[2 * i + 1], b[i].1));
                assert(object(source, layout, refs[2 * i]) == Ok::<Node, ErrorClass>(
                    Node::Leaf(EventView::String(a[i].0)),
                ));
                assert(object(source, layout, refs[2 * i]) == Ok::<Node, ErrorClass>(
                    Node::Leaf(EventView::String(b[i].0)),
                ));
                lemma_one_outline(source, layout, refs[2 * i + 1], a[i].1, b[i].1);
            }
            assert(a =~= b);
        },
    }
}

/// Whether the object with number `index` writes down an outline of more than
/// size `bound`.
pub open spec fn outline_above(source: Seq<u8>, layout: Layout, index: u64, bound: nat) -> bool {
    exists|outline: Outline| #[trigger] describes(source, layout, index, outline) && size(outline) > bound
}

/// Whether each container that the walk is inside of writes down an outline of
/// more than size `bound`.
pub open spec fn above(source: Seq<u8>, layout: Layout, stack: Seq<Frame>, bound: nat) -> bool {
    forall|i: int|
        0 <= i < stack.len() ==> outline_above(source, layout, (#[trigger] stack[i]).object, bound)
}

/// The decoder that is inside the containers of `stack`.
pub open spec fn inside(source: Seq<u8>, layout: Layout, stack: Seq<Frame>) -> Decoding {
    Decoding { source, walk: settle(layout, stack) }
}

/// Where the next object to visit writes down an outline, and each container
/// that the walk is inside of a larger one, the decoder hands out the events
/// of the outline, and then goes on as if it had visited a single value.
pub proof fn lemma_member_events(
    source: Seq<u8>,
    layout: Layout,
    stack: Seq<Frame>,
    outline: Outline,
)
    requires
        stack.len() > 0,
        inside(source, layout, stack).wf(),
        stack.last().pending.len() > 0,
        describes(source, layout, stack.last().pending[0], outline),
        above(source, layout, stack, size(outline)),
    ensures
        inside(source, layout, advance(stack)).wf(),
        events(inside(source, layout, stack)) == granted(events_of(outline)) + events(
            inside(source, layout, advance(stack)),
        ),
    decreases size(outline), 0nat,
{
    let d = inside(source, layout, stack);
    let index = stack.last().pending[0];
    let next = advance(stack);
    lemma_advance(source, layout, stack);
    let after = inside(source, layout, next);
    assert(step(d).0 is Some);
    lemma_step_wf(d);
    assert(events(d) == seq![step(d).0->Some_0] + events(step(d).1));
    match object(source, layout, index) {
        Err(_) => {},
        Ok(Node::Leaf(event)) => {
            assert(step(d).1 == after);
            assert(events_of(outline) =~= seq![event]);
            assert(granted(events_of(outline)) =~= seq![Ok::<EventView, ErrorClass>(event)]);
        },
        Ok(node) => {
            assert(is_container(object(source, layout, index)));
            if on_stack(next, index) {
                let i = choose|i: int| 0 <= i < stack.len() && #[trigger] stack[i].object == index;
                assert(outline_above(source, layout, stack[i].object, size(outline)));
                let other = choose|other: Outline| #[trigger]
                    describes(source, layout, index, other) && size(other) > size(outline);
                lemma_one_outline(source, layout, index, other, outline);
            }
            let deeper = next.push(Frame { object: index, pending: children(node) });
            assert(step(d).1 == inside(source, layout, deeper));
            lemma_visit_wf(source, layout, next, index);
            lemma_members_described(source, layout, index, outline);
            lemma_size_positive(outline);
            let bound = (size(outline) - 1) as nat;
            assert(above(source, layout, deeper, bound)) by {
                assert forall|i: int| 0 <= i < deeper.len() implies outline_above(
                    source,
                    layout,
                    (#[trigger] deeper[i]).object,
                    bound,
                ) by {
                    if i < stack.len() {
                        assert(deeper[i].object == stack[i].object);
                        assert(outline_above(source, layout, stack[i].object, size(outline)));
                        let other = choose|other: Outline| #[trigger]
                            describes(source, layout, stack[i].object, other) && size(other) > size(
                                outline,
                            );
                        assert(describes(source, layout, deeper[i].object, other) && size(other)
                            > bound);
                    } else {
                        assert(describes(source, layout, deeper[i].object, outline) && size(
                            outline,
                        ) > bound);
                    }
                }
            }
            assert forall|i: int| 0 <= i < members(outline).len() implies size(
                #[trigger] members(outline)[i],
            ) <= bound by {
                lemma_member_sizes(outline, i);
            }
            lemma_members_events(source, layout, deeper, members(outline), bound);
            assert(deeper.drop_last() =~= next);
            let inner = events_of_all(members(outline));
            assert(events_of(outline) == seq![opening(node)] + inner + seq![
                EventView::EndCollection,
            ]);
            assert(seq![Ok::<EventView, ErrorClass>(opening(node))] + (granted(inner) + seq![
                Ok::<EventView, ErrorClass>(EventView::EndCollection),
            ] + events(after)) =~= granted(events_of(outline)) + events(after));
        },
    }
}

/// Where the objects still to be visited in the innermost container write
/// down outlines, and each container that the walk is inside of a larger one
/// than any of them, the decoder hands out the events of those outlines, then
/// the event that closes the container, and then goes on outside of it.
pub proof fn lemma_members_events(
    source: Seq<u8>,
    layout: Layout,
    stack: Seq<Frame>,
    outlines: Seq<Outline>,
    bound: nat,
)
    requires
        stack.len() > 0,
        inside(source, layout, stack).wf(),
        stack.last().pending.len() == outlines.len(),
        forall|i: int|
            0 <= i < outlines.len() ==> describes(
                source,
                layout,
                stack.last().pending[i],
                #[trigger] outlines[i],
            ),
        forall|i: int| 0 <= i < outlines.len() ==> size(#[trigger] outlines[i]) <= bound,
        above(source, layout, stack, bound),
    ensures
        inside(source, layout, stack.drop_last()).wf(),
        events(inside(source, layout, stack)) == granted(events_of_all(outlines)) + seq![
            Ok::<EventView, ErrorClass>(EventView::EndCollection),
        ] + events(inside(source, layout, stack.drop_last())),
    decreases bound, outlines.len() + 1,
{
    let d = inside(source, layout, stack);
    let rest = stack.drop_last();
    assert(inside(source, layout, rest).wf()) by {
        assert forall|i: int| 0 <= i < rest.len() implies rest[i] == stack[i] by {}
        assert(stack_wf(layout, rest));
        assert(containers(source, layout, rest)) by {
            assert forall|i: int| 0 <= i < rest.len() implies is_container(
                object(source, layout, (#[trigger] rest[i]).object),
            ) by {
                assert(is_container(object(source, layout, stack[i].object)));
            }
        }
    }
    if outlines.len() == 0 {
        assert(step(d).0 == Some(Ok::<EventView, ErrorClass>(EventView::EndCollection)));
        assert(step(d).1 == inside(source, layout, rest));
        lemma_step_wf(d);
        assert(events(d) == seq![step(d).0->Some_0] + events(step(d).1));
        assert(granted(events_of_all(outlines)) =~= Seq::<Pull>::empty());
        assert(events(d) =~= granted(events_of_all(outlines)) + seq![
            Ok::<EventView, ErrorClass>(EventView::EndCollection),
        ] + events(inside(source, layout, rest)));
    } else {
        let first = outlines[0];
        let next = advance(stack);
        assert(describes(source, layout, stack.last().pending[0], first));
        assert(above(source, layout, stack, size(first))) by {
            assert forall|i: int| 0 <= i < stack.len() implies outline_above(
                source,
                layout,
                (#[trigger] stack[i]).object,
                size(first),
            ) by {
                assert(outline_above(source, layout, stack[i].object, bound));
                let other = choose|other: Outline| #[trigger]
                    describes(source, layout, stack[i].object, other) && size(other) > bound;
                assert(describes(source, layout, stack[i].object, other) && size(other) > size(
                    first,
                ));
            }
        }
        lemma_member_events(source, layout, stack, first);
        lemma_advance(source, layout, stack);
        let later = outlines.skip(1);
        assert(next.last().pending =~= stack.last().pending.skip(1));
        assert forall|i: int| 0 <= i < later.len() implies describes(
            source,
            layout,
            next.last().pending[i],
            #[trigger] later[i],
        ) by {
            assert(describes(source, layout, stack.last().pending[i + 1], outlines[i + 1]));
        }
        assert forall|i: int| 0 <= i < later.len() implies size(#[trigger] later[i]) <= bound by {
            assert(size(outlines[i + 1]) <= bound);
        }
        assert(above(source, layout, next, bound)) by {
            assert forall|i: int| 0 <= i < next.len() implies outline_above(
                source,
                layout,
                (#[trigger] next[i]).object,
                bound,
            ) by {
                assert(next[i].object == stack[i].object);
                assert(outline_above(source, layout, stack[i].object, bound));
            }
        }
        lemma_members_events(source, layout, next, later, bound);
        assert(next.drop_last() =~= rest);
        assert(events_of_all(outlines) == events_of(first) + events_of_all(later));
        assert(granted(events_of(first)) + (granted(events_of_all(later)) + seq![
            Ok::<EventView, ErrorClass>(EventView::EndCollection),
        ] + events(inside(source, layout, rest))) =~= granted(events_of_all(outlines)) + seq![
            Ok::<EventView, ErrorClass>(EventView::EndCollection),
        ] + events(inside(source, layout, rest)));
    }
}

/// Where the root object of a source writes down an outline, the decoder
/// hands out the events that describe the outline, and nothing else.
pub proof fn lemma_events_of_source(source: Seq<u8>, outline: Outline)
    requires
        header(source) matches Ok((layout, root)) && describes(source, layout, root, outline),
    ensures
        events(Decoding { source, walk: Walk::Fresh }) == granted(events_of(outline)),
{
    let d = Decoding { source, walk: Walk::Fresh };
    let (layout, root) = header(source)->Ok_0;
    let done = Decoding { source, walk: Walk::Done };
    assert(step(done).0 is None);
    assert(events(done) == Seq::<Pull>::empty());
    assert(d.wf());
    assert(step(d).0 == Some(visit(source, layout, Seq::empty(), root).0));
    lemma_step_wf(d);
    assert(events(d) == seq![step(d).0->Some_0] + events(step(d).1));
    let empty = Seq::<Frame>::empty();
    match object(source, layout, root) {
        Err(_) => {},
        Ok(Node::Leaf(event)) => {
            assert(step(d).1 == done);
            assert(events_of(outline) =~= seq![event]);
            assert(events(d) =~= granted(events_of(outline)));
        },
        Ok(node) => {
            assert(is_container(object(source, layout, root)));
            let stack = empty.push(Frame { object: root, pending: children(node) });
            assert(step(d).1 == inside(source, layout, stack));
            lemma_visit_wf(source, layout, empty, root);
            lemma_members_described(source, layout, root, outline);
            lemma_size_positive(outline);
            let bound = (size(outline) - 1) as nat;
            assert(above(source, layout, stack, bound)) by {
                assert forall|i: int| 0 <= i < stack.len() implies outline_above(
                    source,
                    layout,
                    (#[trigger] stack[i]).object,
                    bound,
                ) by {
                    assert(describes(source, layout, stack[i].object, outline) && size(outline)
                        > bound);
                }
            }
            assert forall|i: int| 0 <= i < members(outline).len() implies size(
                #[trigger] members(outline)[i],
            ) <= bound by {
                lemma_member_sizes(outline, i);
            }
            lemma_members_events(source, layout, stack, members(outline), bound);
            assert(stack.drop_last() =~= empty);
            assert(inside(source, layout, empty) == done);
            let inner = events_of_all(members(outline));
            assert(seq![Ok::<EventView, ErrorClass>(opening(node))] + (granted(inner) + seq![
                Ok::<EventView, ErrorClass>(EventView::EndCollection),
            ] + events(done)) =~= granted(events_of(outline)));
        },
    }
}

/// Decoding a source whose root object writes down an outline, and building
/// from the events, gives the value that the outline stands for.
pub proof fn lemma_value_of_source(source: Seq<u8>, outline: Outline)
    requires
        header(source) matches Ok((layout, root)) && describes(source, layout, root, outline),
    ensures
        document(events(Decoding { source, walk: Walk::Fresh })) == Ok::<Tree, BuildFailure>(
            tree_of(outline),
        ),
{
    lemma_events_of_source(source, outline);
    lemma_build_of_description(outline);
}

} // verus!
