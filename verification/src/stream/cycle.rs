//! Containers that hold themselves: a source in which the walk from the root
//! can come back to a container that it is inside of is never decoded to its
//! end.

use crate::error::ErrorClass;
use crate::stream::format::{children, header, object, Layout};
use crate::stream::meaning::inside;
use crate::stream::walk::{
    advance, events, is_container, lemma_advance, lemma_advance_rank, lemma_cycle_is_rejected,
    lemma_events_unfold, lemma_failure_classes_after_header, lemma_failure_comes_last, no_failure,
    on_stack, rank, step, visit, Decoding, Frame, Walk,
};
use vstd::prelude::*;

verus! {

/// Whether the object with number `container` is a container that holds a
/// reference to the object with number `member`.
pub open spec fn refers_to(source: Seq<u8>, layout: Layout, container: u64, member: u64) -> bool {
    is_container(object(source, layout, container)) && children(
        object(source, layout, container)->Ok_0,
    ).contains(member)
}

/// Whether each object of `path` but the last holds a reference to the one
/// after it.
pub open spec fn chain(source: Seq<u8>, layout: Layout, path: Seq<u64>) -> bool {
    forall|i: int|
        0 <= i < path.len() - 1 ==> refers_to(source, layout, #[trigger] path[i], path[i + 1])
}

/// Where a decoder hands out no failure, it hands out none after it has
/// visited the next object of the innermost container and all that the object
/// holds.
pub proof fn lemma_after_member(source: Seq<u8>, layout: Layout, stack: Seq<Frame>)
    requires
        stack.len() > 0,
        inside(source, layout, stack).wf(),
        stack.last().pending.len() > 0,
        no_failure(inside(source, layout, stack)),
    ensures
        inside(source, layout, advance(stack)).wf(),
        no_failure(inside(source, layout, advance(stack))),
    decreases rank(inside(source, layout, stack)), 0nat,
{
    let d = inside(source, layout, stack);
    let next = advance(stack);
    let index = stack.last().pending[0];
    lemma_advance(source, layout, stack);
    assert(step(d).0 is Some);
    lemma_events_unfold(d);
    if is_container(object(source, layout, index)) {
        let node = object(source, layout, index)->Ok_0;
        let deeper = next.push(Frame { object: index, pending: children(node) });
        assert(step(d).1 == inside(source, layout, deeper));
        lemma_after_container(source, layout, deeper);
        assert(deeper.drop_last() =~= next);
    } else {
        assert(step(d).1 == inside(source, layout, next));
    }
}

/// Where a decoder hands out no failure, it hands out none after it has left
/// the innermost container.
pub proof fn lemma_after_container(source: Seq<u8>, layout: Layout, stack: Seq<Frame>)
    requires
        stack.len() > 0,
        inside(source, layout, stack).wf(),
        no_failure(inside(source, layout, stack)),
    ensures
        inside(source, layout, stack.drop_last()).wf(),
        no_failure(inside(source, layout, stack.drop_last())),
    decreases rank(inside(source, layout, stack)), 1nat,
{
    let d = inside(source, layout, stack);
    if stack.last().pending.len() == 0 {
        assert(step(d).0 is Some);
        lemma_events_unfold(d);
        assert(step(d).1 == inside(source, layout, stack.drop_last()));
    } else {
        lemma_after_member(source, layout, stack);
        lemma_advance(source, layout, stack);
        lemma_advance_rank(source, layout, stack);
        lemma_after_container(source, layout, advance(stack));
        assert(advance(stack).drop_last() =~= stack.drop_last());
    }
}

/// Where one of the objects still to be visited in the innermost container
/// leads, from reference to reference, to a container that the walk is inside
/// of, the decoder hands out a failure.
pub proof fn lemma_chain_to_open_container(
    source: Seq<u8>,
    layout: Layout,
    stack: Seq<Frame>,
    at: int,
    path: Seq<u64>,
)
    requires
        stack.len() > 0,
        inside(source, layout, stack).wf(),
        0 <= at < stack.last().pending.len(),
        path.len() >= 1,
        path[0] == stack.last().pending[at],
        chain(source, layout, path),
        on_stack(stack, path.last()),
    ensures
        !no_failure(inside(source, layout, stack)),
    decreases path.len(), at,
{
    let d = inside(source, layout, stack);
    if no_failure(d) {
        lemma_advance(source, layout, stack);
        let next = advance(stack);
        if at > 0 {
            lemma_after_member(source, layout, stack);
            assert(next.last().pending[at - 1] == stack.last().pending[at]);
            lemma_chain_to_open_container(source, layout, next, at - 1, path);
        } else {
            let index = path[0];
            assert(step(d).0 is Some);
            lemma_events_unfold(d);
            if on_stack(stack, index) {
                lemma_cycle_is_rejected(d);
            } else {
                assert(path.len() > 1);
                assert(refers_to(source, layout, path[0], path[1]));
                let node = object(source, layout, index)->Ok_0;
                let deeper = next.push(Frame { object: index, pending: children(node) });
                assert(step(d).1 == inside(source, layout, deeper));
                let member = choose|j: int|
                    0 <= j < children(node).len() && children(node)[j] == path[1];
                let rest = path.skip(1);
                assert(chain(source, layout, rest)) by {
                    assert forall|i: int| 0 <= i < rest.len() - 1 implies refers_to(
                        source,
                        layout,
                        #[trigger] rest[i],
                        rest[i + 1],
                    ) by {
                        assert(refers_to(source, layout, path[i + 1], path[i + 2]));
                    }
                }
                assert(on_stack(deeper, rest.last())) by {
                    let k = choose|k: int|
                        0 <= k < stack.len() && #[trigger] stack[k].object == path.last();
                    assert(deeper[k].object == next[k].object);
                }
                lemma_chain_to_open_container(source, layout, deeper, member, rest);
            }
        }
    }
}

/// Where one of the objects still to be visited in the innermost container
/// leads, from reference to reference, to an object and on to the same object
/// again, the decoder hands out a failure.
pub proof fn lemma_chain_with_repeat(
    source: Seq<u8>,
    layout: Layout,
    stack: Seq<Frame>,
    at: int,
    path: Seq<u64>,
    first: int,
    second: int,
)
    requires
        stack.len() > 0,
        inside(source, layout, stack).wf(),
        0 <= at < stack.last().pending.len(),
        path[0] == stack.last().pending[at],
        chain(source, layout, path),
        0 <= first < second < path.len(),
        path[first] == path[second],
    ensures
        !no_failure(inside(source, layout, stack)),
    decreases path.len(), at,
{
    let d = inside(source, layout, stack);
    if no_failure(d) {
        lemma_advance(source, layout, stack);
        let next = advance(stack);
        if at > 0 {
            lemma_after_member(source, layout, stack);
            assert(next.last().pending[at - 1] == stack.last().pending[at]);
            lemma_chain_with_repeat(source, layout, next, at - 1, path, first, second);
        } else {
            let index = path[0];
            assert(step(d).0 is Some);
            lemma_events_unfold(d);
            assert(refers_to(source, layout, path[0], path[1]));
            if on_stack(stack, index) {
                lemma_cycle_is_rejected(d);
            } else {
                let node = object(source, layout, index)->Ok_0;
                let deeper = next.push(Frame { object: index, pending: children(node) });
                assert(step(d).1 == inside(source, layout, deeper));
                let member = choose|j: int|
                    0 <= j < children(node).len() && children(node)[j] == path[1];
                lemma_below(source, layout, deeper, member, path, first, second);
            }
        }
    }
}

/// The step of the two lemmas above that follows the entry into the first
/// object of the path: the walk is inside of it, and the rest of the path
/// leads back to it or repeats another object.
proof fn lemma_below(
    source: Seq<u8>,
    layout: Layout,
    deeper: Seq<Frame>,
    member: int,
    path: Seq<u64>,
    first: int,
    second: int,
)
    requires
        deeper.len() > 0,
        inside(source, layout, deeper).wf(),
        deeper.last().object == path[0],
        0 <= member < deeper.last().pending.len(),
        deeper.last().pending[member] == path[1],
        chain(source, layout, path),
        0 <= first < second < path.len(),
        path[first] == path[second],
    ensures
        !no_failure(inside(source, layout, deeper)),
    decreases path.len() - 1, deeper.last().pending.len(),
{
    if first == 0 {
        let back = path.subrange(1, second + 1);
        assert(chain(source, layout, back)) by {
            assert forall|i: int| 0 <= i < back.len() - 1 implies refers_to(
                source,
                layout,
                #[trigger] back[i],
                back[i + 1],
            ) by {
                assert(refers_to(source, layout, path[i + 1], path[i + 2]));
            }
        }
        assert(back.last() == path[second]);
        assert(on_stack(deeper, back.last())) by {
            assert(deeper[deeper.len() - 1].object == path[0]);
        }
        lemma_chain_to_open_container(source, layout, deeper, member, back);
    } else {
        let rest = path.skip(1);
        assert(chain(source, layout, rest)) by {
            assert forall|i: int| 0 <= i < rest.len() - 1 implies refers_to(
                source,
                layout,
                #[trigger] rest[i],
                rest[i + 1],
            ) by {
                assert(refers_to(source, layout, path[i + 1], path[i + 2]));
            }
        }
        lemma_chain_with_repeat(source, layout, deeper, member, rest, first - 1, second - 1);
    }
}

/// A source in which the root object leads, from reference to reference, to
/// an object and on to the same object again is never decoded to its end:
/// the decoder hands out a failure, which is the last thing it hands out and
/// says that the source is malformed or cut short. The failure comes when the
/// walk reaches a container that it is inside of, if no other comes before.
pub proof fn lemma_source_with_cycle_fails(
    source: Seq<u8>,
    path: Seq<u64>,
    first: int,
    second: int,
)
    requires
        header(source) matches Ok((layout, root)) && path[0] == root && chain(
            source,
            layout,
            path,
        ),
        0 <= first < second < path.len(),
        path[first] == path[second],
    ensures
        events(Decoding { source, walk: Walk::Fresh }).len() > 0,
        events(Decoding { source, walk: Walk::Fresh }).last() is Err,
        events(Decoding { source, walk: Walk::Fresh }).last()->Err_0 == ErrorClass::InvalidData
            || events(Decoding { source, walk: Walk::Fresh }).last()->Err_0
            == ErrorClass::UnexpectedEof,
{
    let d = Decoding { source, walk: Walk::Fresh };
    let (layout, root) = header(source)->Ok_0;
    assert(step(d).0 is Some);
    lemma_events_unfold(d);
    if no_failure(d) {
        assert(refers_to(source, layout, path[0], path[1]));
        let node = object(source, layout, root)->Ok_0;
        let empty = Seq::<Frame>::empty();
        assert(!on_stack(empty, root));
        let deeper = empty.push(Frame { object: root, pending: children(node) });
        assert(step(d).0 == Some(visit(source, layout, empty, root).0));
        assert(step(d).1 == inside(source, layout, deeper));
        let member = choose|j: int| 0 <= j < children(node).len() && children(node)[j] == path[1];
        lemma_below(source, layout, deeper, member, path, first, second);
    }
    let i = choose|i: int| 0 <= i < events(d).len() && !(#[trigger] events(d)[i] is Ok);
    lemma_failure_comes_last(d, i);
    lemma_failure_classes_after_header(d, i);
}

} // verus!
