//! The walk through the objects of a binary property list, as a machine that
//! hands out one event at each step.
//!
//! The machine keeps the containers that it is inside of, the outermost first:
//! of each its number and the objects in it that are still to be visited. An
//! object that is reached while it is among them would make the walk endless;
//! reaching it is a failure.

use crate::error::ErrorClass;
use crate::event::{closed_more, EventView, Pull};
use crate::stream::format::{
    children, declares_beyond_ceiling, header, length, lemma_children_bound,
    lemma_header_failures, lemma_leaf_is_value, lemma_length_beyond_ceiling,
    lemma_object_failures, object, opening, valid_width, Layout, Node, TRAILER_BYTES,
};
use vstd::prelude::*;
use vstd::set_lib::{lemma_int_range, lemma_len_subset, set_int_range};

verus! {

/// A container that the walk is inside of.
pub struct Frame {
    /// The number of the container.
    pub object: u64,
    /// The objects in it that are still to be visited, the next one first.
    pub pending: Seq<u64>,
}

/// How far a walk has come.
pub enum Walk {
    /// Nothing has been read yet.
    Fresh,
    /// The walk is inside at least one container.
    Open { layout: Layout, stack: Seq<Frame> },
    /// Nothing more will be handed out: the root has been described in full,
    /// or a failure has been reported.
    Done,
}

/// A decoder as mathematics sees it: the bytes, and how far the walk has come.
pub struct Decoding {
    pub source: Seq<u8>,
    pub walk: Walk,
}

/// Whether the walk is inside the container with number `object`.
pub open spec fn on_stack(stack: Seq<Frame>, object: u64) -> bool {
    exists|i: int| 0 <= i < stack.len() && #[trigger] stack[i].object == object
}

/// The walk that is inside the containers of `stack`.
pub open spec fn settle(layout: Layout, stack: Seq<Frame>) -> Walk {
    if stack.len() == 0 {
        Walk::Done
    } else {
        Walk::Open { layout, stack }
    }
}

/// What visiting the object with number `index` hands out, and the walk after it.
pub open spec fn visit(source: Seq<u8>, layout: Layout, stack: Seq<Frame>, index: u64) -> (
    Pull,
    Walk,
) {
    match object(source, layout, index) {
        Err(class) => (Err(class), Walk::Done),
        Ok(Node::Leaf(event)) => (Ok(event), settle(layout, stack)),
        Ok(node) => if on_stack(stack, index) {
            (Err(ErrorClass::InvalidData), Walk::Done)
        } else {
            (
                Ok(opening(node)),
                Walk::Open {
                    layout,
                    stack: stack.push(Frame { object: index, pending: children(node) }),
                },
            )
        },
    }
}

/// The containers of `stack` once the next object of the innermost one has
/// been taken.
pub open spec fn advance(stack: Seq<Frame>) -> Seq<Frame> {
    stack.drop_last().push(
        Frame { object: stack.last().object, pending: stack.last().pending.skip(1) },
    )
}

/// One step: what is handed out, if anything, and the decoder after it.
pub open spec fn step(d: Decoding) -> (Option<Pull>, Decoding) {
    match d.walk {
        Walk::Fresh => match header(d.source) {
            Err(class) => (Some(Err(class)), Decoding { source: d.source, walk: Walk::Done }),
            Ok((layout, root)) => {
                let (pull, walk) = visit(d.source, layout, Seq::empty(), root);
                (Some(pull), Decoding { source: d.source, walk })
            },
        },
        Walk::Open { layout, stack } => {
            if stack.last().pending.len() > 0 {
                let (pull, walk) = visit(
                    d.source,
                    layout,
                    advance(stack),
                    stack.last().pending[0],
                );
                (Some(pull), Decoding { source: d.source, walk })
            } else {
                (
                    Some(Ok(EventView::EndCollection)),
                    Decoding { source: d.source, walk: settle(layout, stack.drop_last()) },
                )
            }
        },
        Walk::Done => (None, d),
    }
}

/// Whether no container occurs twice in `stack`.
pub open spec fn distinct(stack: Seq<Frame>) -> bool {
    forall|i: int, j: int| 0 <= i < j < stack.len() ==> stack[i].object != stack[j].object
}

/// Whether the containers of `stack` are distinct objects of the layout, each
/// with no more objects to visit than the ceiling is.
pub open spec fn stack_wf(layout: Layout, stack: Seq<Frame>) -> bool {
    &&& distinct(stack)
    &&& forall|i: int|
        0 <= i < stack.len() ==> #[trigger] stack[i].object < layout.offsets.len()
            && stack[i].pending.len() <= layout.ceiling
}

/// Whether reading an object gave a container.
pub open spec fn is_container(read: Result<Node, ErrorClass>) -> bool {
    read matches Ok(node) && !(node is Leaf)
}

/// Whether each member of `stack` is a container of the source.
pub open spec fn containers(source: Seq<u8>, layout: Layout, stack: Seq<Frame>) -> bool {
    forall|i: int|
        0 <= i < stack.len() ==> is_container(object(source, layout, (#[trigger] stack[i]).object))
}

impl Decoding {
    /// Whether the decoder is in a state that it can reach.
    pub open spec fn wf(self) -> bool {
        match self.walk {
            Walk::Open { layout, stack } => {
                &&& stack.len() > 0
                &&& valid_width(layout.ref_size)
                &&& stack_wf(layout, stack)
                &&& containers(self.source, layout, stack)
            },
            _ => true,
        }
    }

    /// How many containers the walk is inside of.
    pub open spec fn depth(self) -> nat {
        match self.walk {
            Walk::Open { layout, stack } => stack.len(),
            _ => 0,
        }
    }
}

/// `base` to the power `exponent`.
pub open spec fn power(base: nat, exponent: nat) -> nat
    decreases exponent,
{
    if exponent == 0 {
        1
    } else {
        base * power(base, (exponent - 1) as nat)
    }
}

/// A bound on the steps that a walk inside the containers of `stack` can still
/// take, where there are `objects` objects and a container holds fewer than
/// `base - 1` of them: the number that the counts of what is still to be done
/// in each container spell in that base, the outermost container counting most.
pub open spec fn weight(stack: Seq<Frame>, objects: nat, base: nat) -> nat
    decreases stack.len(),
{
    if stack.len() == 0 {
        0
    } else {
        weight(stack.drop_last(), objects, base) + (stack.last().pending.len() + 1) * power(
            base,
            if objects >= stack.len() {
                (objects - stack.len()) as nat
            } else {
                0
            },
        )
    }
}

/// A bound on the steps that a walk can still take.
pub open spec fn walk_rank(walk: Walk) -> nat {
    match walk {
        Walk::Fresh => 0,
        Walk::Open { layout, stack } => weight(stack, layout.offsets.len(), layout.ceiling + 2),
        Walk::Done => 0,
    }
}

/// A bound on the steps that a decoder can still take.
pub open spec fn rank(d: Decoding) -> nat {
    match d.walk {
        Walk::Fresh => 1 + walk_rank(step(d).1.walk),
        _ => walk_rank(d.walk),
    }
}

/// A power of a positive number is positive.
pub proof fn lemma_power_positive(base: nat, exponent: nat)
    requires
        base > 0,
    ensures
        power(base, exponent) > 0,
    decreases exponent,
{
    if exponent > 0 {
        lemma_power_positive(base, (exponent - 1) as nat);
        assert(base * power(base, (exponent - 1) as nat) > 0) by (nonlinear_arith)
            requires
                base > 0,
                power(base, (exponent - 1) as nat) > 0,
        ;
    }
}

/// The walk is never inside more containers than there are objects.
pub proof fn lemma_depth_bound(layout: Layout, stack: Seq<Frame>)
    requires
        stack_wf(layout, stack),
    ensures
        stack.len() <= layout.offsets.len(),
{
    let numbers = Seq::new(stack.len(), |i: int| stack[i].object as int);
    assert(numbers.no_duplicates());
    numbers.unique_seq_to_set();
    let range = set_int_range(0, layout.offsets.len() as int);
    lemma_int_range(0, layout.offsets.len() as int);
    assert(numbers.to_set().subset_of(range)) by {
        assert forall|n: int| numbers.to_set().contains(n) implies range.contains(n) by {
            let i = choose|i: int| 0 <= i < numbers.len() && numbers[i] == n;
            assert(stack[i].object < layout.offsets.len());
        }
    }
    lemma_len_subset(numbers.to_set(), range);
}

/// A step leaves the decoder in a state that it can reach.
pub proof fn lemma_step_wf(d: Decoding)
    requires
        d.wf(),
    ensures
        step(d).1.wf(),
        step(d).1.source == d.source,
{
    match d.walk {
        Walk::Fresh => {
            if let Ok((layout, root)) = header(d.source) {
                lemma_visit_wf(d.source, layout, Seq::empty(), root);
            }
        },
        Walk::Open { layout, stack } => {
            if stack.last().pending.len() > 0 {
                let next = advance(stack);
                lemma_advance(d.source, layout, stack);
                lemma_visit_wf(d.source, layout, next, stack.last().pending[0]);
            } else {
                let rest = stack.drop_last();
                assert forall|i: int| 0 <= i < rest.len() implies rest[i] == stack[i] by {}
                assert(stack_wf(layout, rest));
                assert(containers(d.source, layout, rest)) by {
                    assert forall|i: int| 0 <= i < rest.len() implies is_container(
                        object(d.source, layout, (#[trigger] rest[i]).object),
                    ) by {
                        assert(is_container(object(d.source, layout, stack[i].object)));
                    }
                }
            }
        },
        Walk::Done => {},
    }
}

/// Taking the next object of the innermost container leaves the containers
/// what they are.
pub proof fn lemma_advance(source: Seq<u8>, layout: Layout, stack: Seq<Frame>)
    requires
        stack.len() > 0,
        stack.last().pending.len() > 0,
        stack_wf(layout, stack),
        containers(source, layout, stack),
    ensures
        advance(stack).len() == stack.len(),
        forall|i: int| 0 <= i < stack.len() ==> #[trigger] advance(stack)[i].object == stack[i].object,
        forall|index: u64| on_stack(advance(stack), index) == on_stack(stack, index),
        stack_wf(layout, advance(stack)),
        containers(source, layout, advance(stack)),
{
    let next = advance(stack);
    assert forall|i: int| 0 <= i < next.len() implies #[trigger] next[i].object == stack[i].object
        && next[i].pending.len() <= stack[i].pending.len() by {}
    assert forall|index: u64| on_stack(next, index) == on_stack(stack, index) by {
        if on_stack(next, index) {
            let i = choose|i: int| 0 <= i < next.len() && #[trigger] next[i].object == index;
            assert(stack[i].object == index);
        }
        if on_stack(stack, index) {
            let i = choose|i: int| 0 <= i < stack.len() && #[trigger] stack[i].object == index;
            assert(next[i].object == index);
        }
    }
    assert forall|i: int| 0 <= i < next.len() implies is_container(
        object(source, layout, (#[trigger] next[i]).object),
    ) by {
        assert(is_container(object(source, layout, stack[i].object)));
    }
}

/// Visiting an object leaves the walk in a state that it can reach.
pub proof fn lemma_visit_wf(source: Seq<u8>, layout: Layout, stack: Seq<Frame>, index: u64)
    requires
        valid_width(layout.ref_size),
        stack_wf(layout, stack),
        containers(source, layout, stack),
    ensures
        (Decoding { source, walk: visit(source, layout, stack, index).1 }).wf(),
{
    match object(source, layout, index) {
        Err(_) => {},
        Ok(Node::Leaf(_)) => {},
        Ok(node) => {
            if !on_stack(stack, index) {
                lemma_children_bound(source, layout, index);
                let deeper = stack.push(Frame { object: index, pending: children(node) });
                assert forall|i: int, j: int| 0 <= i < j < deeper.len() implies deeper[i].object
                    != deeper[j].object by {
                    if j == stack.len() {
                        assert(stack[i].object != index);
                    } else {
                        assert(deeper[i] == stack[i] && deeper[j] == stack[j]);
                    }
                }
                assert forall|i: int| 0 <= i < deeper.len() implies #[trigger] deeper[i].object
                    < layout.offsets.len() && deeper[i].pending.len() <= layout.ceiling by {
                    if i < stack.len() {
                        assert(deeper[i] == stack[i]);
                    }
                }
                assert forall|i: int| 0 <= i < deeper.len() implies is_container(
                    object(source, layout, (#[trigger] deeper[i]).object),
                ) by {
                    if i < stack.len() {
                        assert(deeper[i] == stack[i]);
                        assert(is_container(object(source, layout, stack[i].object)));
                    }
                }
            }
        },
    }
}

/// Taking the next object of the innermost container brings the bound on the
/// steps still to come down by what one step counts at that depth.
pub proof fn lemma_advance_rank(source: Seq<u8>, layout: Layout, stack: Seq<Frame>)
    requires
        stack.len() > 0,
        stack.last().pending.len() > 0,
        stack_wf(layout, stack),
        containers(source, layout, stack),
    ensures
        stack.len() <= layout.offsets.len(),
        weight(stack, layout.offsets.len(), layout.ceiling + 2) == weight(
            advance(stack),
            layout.offsets.len(),
            layout.ceiling + 2,
        ) + power(layout.ceiling + 2, (layout.offsets.len() - stack.len()) as nat),
        power(layout.ceiling + 2, (layout.offsets.len() - stack.len()) as nat) > 0,
        walk_rank(Walk::Open { layout, stack: advance(stack) }) < walk_rank(
            Walk::Open { layout, stack },
        ),
{
    let objects = layout.offsets.len();
    let base = layout.ceiling + 2;
    let next = advance(stack);
    let rest = stack.drop_last();
    lemma_depth_bound(layout, stack);
    let place = power(base, (objects - stack.len()) as nat);
    lemma_power_positive(base, (objects - stack.len()) as nat);
    let count = stack.last().pending.len();
    assert(next.drop_last() =~= rest);
    assert(next.last().pending.len() == count - 1);
    assert(weight(stack, objects, base) == weight(rest, objects, base) + (count + 1) * place);
    assert(weight(next, objects, base) == weight(rest, objects, base) + count * place);
    assert((count + 1) * place == count * place + place) by (nonlinear_arith);
}

/// Visiting the next object of the innermost container brings the bound on the
/// steps still to come down.
pub proof fn lemma_visit_rank(source: Seq<u8>, layout: Layout, stack: Seq<Frame>)
    requires
        valid_width(layout.ref_size),
        stack_wf(layout, stack),
        containers(source, layout, stack),
        stack.len() > 0,
        stack.last().pending.len() > 0,
    ensures
        walk_rank(visit(source, layout, advance(stack), stack.last().pending[0]).1) < walk_rank(
            Walk::Open { layout, stack },
        ),
{
    let objects = layout.offsets.len();
    let base = layout.ceiling + 2;
    let index = stack.last().pending[0];
    let next = advance(stack);
    let place = power(base, (objects - stack.len()) as nat);
    lemma_advance_rank(source, layout, stack);
    lemma_advance(source, layout, stack);
    match object(source, layout, index) {
        Err(_) => {},
        Ok(Node::Leaf(_)) => {},
        Ok(node) => {
            if !on_stack(next, index) {
                lemma_children_bound(source, layout, index);
                lemma_visit_wf(source, layout, next, index);
                let deeper = next.push(Frame { object: index, pending: children(node) });
                lemma_depth_bound(layout, deeper);
                assert(deeper.drop_last() =~= next);
                let below = power(base, (objects - deeper.len()) as nat);
                lemma_power_positive(base, (objects - deeper.len()) as nat);
                assert(place == base * below);
                let more = children(node).len();
                assert(weight(deeper, objects, base) == weight(next, objects, base) + (more + 1)
                    * below);
                assert((more + 1) * below < base * below) by (nonlinear_arith)
                    requires
                        more + 1 < base,
                        below > 0,
                ;
            }
        },
    }
}

/// Each step that hands something out brings the bound on the steps still to
/// come down.
pub proof fn lemma_step_rank(d: Decoding)
    requires
        d.wf(),
        step(d).0 is Some,
    ensures
        rank(step(d).1) < rank(d),
{
    match d.walk {
        Walk::Fresh => {
            if let Ok((layout, root)) = header(d.source) {
                let (pull, walk) = visit(d.source, layout, Seq::empty(), root);
                assert(!(walk is Fresh));
            }
            assert(!(step(d).1.walk is Fresh));
        },
        Walk::Open { layout, stack } => {
            if stack.last().pending.len() > 0 {
                lemma_visit_rank(d.source, layout, stack);
            } else {
                let objects = layout.offsets.len();
                let base = layout.ceiling + 2;
                lemma_depth_bound(layout, stack);
                lemma_power_positive(base, (objects - stack.len()) as nat);
                assert(weight(stack, objects, base) == weight(stack.drop_last(), objects, base) + (
                0 + 1) * power(base, (objects - stack.len()) as nat));
                assert(weight(Seq::<Frame>::empty(), objects, base) == 0);
            }
        },
        Walk::Done => {},
    }
}

/// The walk is never inside more containers than the source has objects.
pub proof fn lemma_depth_bounded(d: Decoding)
    requires
        d.wf(),
    ensures
        d.walk matches Walk::Open { layout, stack } ==> d.depth() <= layout.offsets.len(),
{
    if let Walk::Open { layout, stack } = d.walk {
        lemma_depth_bound(layout, stack);
    }
}

/// Where the next object to visit is a container that the walk is inside of,
/// the step reports that the source is malformed, and the walk is over.
pub proof fn lemma_cycle_is_rejected(d: Decoding)
    requires
        d.wf(),
        d.walk matches Walk::Open { layout, stack } && stack.last().pending.len() > 0 && on_stack(
            stack,
            stack.last().pending[0],
        ),
    ensures
        step(d).0 == Some(Err::<EventView, ErrorClass>(ErrorClass::InvalidData)),
        step(d).1.walk is Done,
{
    if let Walk::Open { layout, stack } = d.walk {
        let index = stack.last().pending[0];
        lemma_advance(d.source, layout, stack);
        let i = choose|i: int| 0 <= i < stack.len() && #[trigger] stack[i].object == index;
        assert(is_container(object(d.source, layout, stack[i].object)));
    }
}

/// Where the next object to visit declares a length for which there is no
/// room under the ceiling, the step hands out no event, whatever part of the
/// object the source holds: it reports the object as malformed or, where it is
/// a dictionary, as malformed or cut short, and the walk is over.
pub proof fn lemma_length_beyond_ceiling_ends_walk(d: Decoding)
    requires
        d.wf(),
        d.walk matches Walk::Open { layout, stack } && stack.last().pending.len() > 0
            && declares_beyond_ceiling(d.source, layout, stack.last().pending[0]),
    ensures
        step(d).0 matches Some(Err(class)) && (class == ErrorClass::InvalidData || class
            == ErrorClass::UnexpectedEof),
        step(d).1.walk is Done,
{
    if let Walk::Open { layout, stack } = d.walk {
        let index = stack.last().pending[0];
        let at = layout.offsets[index as int] as int;
        let count = length(d.source, at + 1, d.source[at] % 16)->Ok_0.0;
        lemma_length_beyond_ceiling(d.source, layout, index, count);
    }
}

/// Where the root object declares a length for which there is no room under
/// the ceiling, the decoder hands out one failure and nothing else.
pub proof fn lemma_root_beyond_ceiling(source: Seq<u8>)
    requires
        header(source) matches Ok((layout, root)) && declares_beyond_ceiling(source, layout, root),
    ensures
        events(Decoding { source, walk: Walk::Fresh }).len() == 1,
        events(Decoding { source, walk: Walk::Fresh })[0] matches Err(class) && (class
            == ErrorClass::InvalidData || class == ErrorClass::UnexpectedEof),
{
    let d = Decoding { source, walk: Walk::Fresh };
    let (layout, root) = header(source)->Ok_0;
    let at = layout.offsets[root as int] as int;
    let count = length(source, at + 1, source[at] % 16)->Ok_0.0;
    lemma_length_beyond_ceiling(source, layout, root, count);
    assert(step(d).0 is Some);
    lemma_step_wf(d);
    lemma_step_rank(d);
    assert(events(d) == seq![step(d).0->Some_0] + events(step(d).1));
    lemma_end_is_final(step(d).1);
}

/// A failure is the last thing that a decoder hands out.
pub proof fn lemma_failure_is_final(d: Decoding)
    requires
        step(d).0 matches Some(Err(_)),
    ensures
        step(d).1.walk is Done,
        step(step(d).1) == (None::<Pull>, step(d).1),
{
}

/// A decoder that has nothing more to hand out stays as it is, whatever
/// number of times it is asked.
pub proof fn lemma_end_is_final(d: Decoding)
    requires
        step(d).0 is None,
    ensures
        d.walk is Done,
        step(d).1 == d,
        events(d) == Seq::<Pull>::empty(),
{
    assert(d.wf());
}

/// All that a decoder hands out from now on, in order. A failure, if there is
/// one, comes last.
pub open spec fn events(d: Decoding) -> Seq<Pull>
    decreases rank(d),
    when d.wf()
    via events_decreases
{
    match step(d).0 {
        None => Seq::empty(),
        Some(pull) => seq![pull] + events(step(d).1),
    }
}

#[via_fn]
proof fn events_decreases(d: Decoding) {
    if step(d).0 is Some {
        lemma_step_rank(d);
    }
}

/// Of all that a decoder hands out, only the last can be a failure.
pub proof fn lemma_failure_comes_last(d: Decoding, i: int)
    requires
        d.wf(),
        0 <= i < events(d).len(),
        events(d)[i] is Err,
    ensures
        i == events(d).len() - 1,
    decreases rank(d),
{
    let next = step(d).1;
    lemma_step_wf(d);
    assert(step(d).0 is Some);
    lemma_step_rank(d);
    assert(events(d) == seq![step(d).0->Some_0] + events(next));
    if i == 0 {
        lemma_failure_is_final(d);
        lemma_end_is_final(next);
    } else {
        assert(events(d)[i] == events(next)[i - 1]);
        lemma_failure_comes_last(next, i - 1);
    }
}

/// Where a decoder reports no failure, what it hands out closes exactly the
/// containers that the walk is inside of, and opens none that it does not
/// close: from the start, as many containers are closed as are opened.
pub proof fn lemma_events_are_balanced(d: Decoding)
    requires
        d.wf(),
        forall|i: int| 0 <= i < events(d).len() ==> #[trigger] events(d)[i] is Ok,
    ensures
        closed_more(events(d)) == d.depth(),
    decreases rank(d),
{
    let next = step(d).1;
    lemma_step_wf(d);
    if step(d).0 is Some {
        let pull = step(d).0->Some_0;
        lemma_step_rank(d);
        assert(events(d) == seq![pull] + events(next));
        assert(events(d).skip(1) =~= events(next));
        assert(events(d)[0] == pull);
        assert forall|i: int| 0 <= i < events(next).len() implies #[trigger] events(next)[i] is Ok by {
            assert(events(d)[i + 1] is Ok);
        }
        lemma_events_are_balanced(next);
        match d.walk {
            Walk::Fresh => {
                let (layout, root) = header(d.source)->Ok_0;
                lemma_visit_depth(d.source, layout, Seq::empty(), root);
            },
            Walk::Open { layout, stack } => {
                if stack.last().pending.len() > 0 {
                    lemma_visit_depth(d.source, layout, advance(stack), stack.last().pending[0]);
                }
            },
            Walk::Done => {},
        }
    } else {
        assert(events(d) == Seq::<Pull>::empty());
    }
}

/// Whether nothing that a decoder hands out from now on is a failure.
pub open spec fn no_failure(d: Decoding) -> bool {
    forall|i: int| 0 <= i < events(d).len() ==> #[trigger] events(d)[i] is Ok
}

/// What a decoder hands out is what its next step gives, and then what the
/// decoder after that step hands out.
pub proof fn lemma_events_unfold(d: Decoding)
    requires
        d.wf(),
        step(d).0 is Some,
    ensures
        step(d).1.wf(),
        rank(step(d).1) < rank(d),
        events(d) == seq![step(d).0->Some_0] + events(step(d).1),
        no_failure(d) == (step(d).0->Some_0 is Ok && no_failure(step(d).1)),
{
    let next = step(d).1;
    lemma_step_wf(d);
    lemma_step_rank(d);
    assert(events(d) == seq![step(d).0->Some_0] + events(next));
    if no_failure(d) {
        assert(events(d)[0] is Ok);
        assert forall|i: int| 0 <= i < events(next).len() implies #[trigger] events(next)[i] is Ok by {
            assert(events(d)[i + 1] is Ok);
        }
    }
    if step(d).0->Some_0 is Ok && no_failure(next) {
        assert forall|i: int| 0 <= i < events(d).len() implies #[trigger] events(d)[i] is Ok by {
            if i > 0 {
                assert(events(next)[i - 1] is Ok);
            }
        }
    }
}

/// A failure that a decoder hands out says that the source is malformed, that
/// it is cut short, or that there was no place to move to in it, and nothing
/// else.
pub proof fn lemma_failure_classes(d: Decoding, i: int)
    requires
        d.wf(),
        0 <= i < events(d).len(),
        events(d)[i] is Err,
    ensures
        events(d)[i]->Err_0 == ErrorClass::InvalidData || events(d)[i]->Err_0
            == ErrorClass::UnexpectedEof || events(d)[i]->Err_0 == ErrorClass::Io,
    decreases rank(d),
{
    assert(step(d).0 is Some);
    lemma_events_unfold(d);
    if i == 0 {
        match d.walk {
            Walk::Fresh => {
                lemma_header_failures(d.source);
                if let Ok((layout, root)) = header(d.source) {
                    lemma_object_failures(d.source, layout, root);
                }
            },
            Walk::Open { layout, stack } => {
                if stack.last().pending.len() > 0 {
                    lemma_object_failures(d.source, layout, stack.last().pending[0]);
                }
            },
            Walk::Done => {},
        }
    } else {
        assert(events(d)[i] == events(step(d).1)[i - 1]);
        lemma_failure_classes(step(d).1, i - 1);
    }
}

/// Once the trailer and the table of offsets have been read, a failure that
/// the decoder hands out says that the source is malformed or that it is cut
/// short, and nothing else.
pub proof fn lemma_failure_classes_after_header(d: Decoding, i: int)
    requires
        d.wf(),
        d.walk is Fresh ==> header(d.source) is Ok,
        0 <= i < events(d).len(),
        events(d)[i] is Err,
    ensures
        events(d)[i]->Err_0 == ErrorClass::InvalidData || events(d)[i]->Err_0
            == ErrorClass::UnexpectedEof,
    decreases rank(d),
{
    assert(step(d).0 is Some);
    lemma_events_unfold(d);
    if i == 0 {
        match d.walk {
            Walk::Fresh => {
                let (layout, root) = header(d.source)->Ok_0;
                lemma_object_failures(d.source, layout, root);
            },
            Walk::Open { layout, stack } => {
                if stack.last().pending.len() > 0 {
                    lemma_object_failures(d.source, layout, stack.last().pending[0]);
                }
            },
            Walk::Done => {},
        }
    } else {
        assert(events(d)[i] == events(step(d).1)[i - 1]);
        assert(!(step(d).1.walk is Fresh));
        lemma_failure_classes_after_header(step(d).1, i - 1);
    }
}

/// A source too short to hold the tag and the trailer gives one failure and
/// nothing else.
pub proof fn lemma_source_without_trailer(source: Seq<u8>)
    requires
        source.len() < TRAILER_BYTES,
    ensures
        header(source) is Err,
        events(Decoding { source, walk: Walk::Fresh }) == seq![
            Err::<EventView, ErrorClass>(header(source)->Err_0),
        ],
{
    let d = Decoding { source, walk: Walk::Fresh };
    lemma_header_failures(source);
    assert(step(d).0 is Some);
    lemma_events_unfold(d);
    lemma_end_is_final(step(d).1);
    assert(events(d) =~= seq![Err::<EventView, ErrorClass>(header(source)->Err_0)]);
}

/// Whatever a decoder hands out, it never closes a container that the walk is
/// not inside of: of what it hands out up to any place, the events that close
/// a container exceed those that open one by no more than the number of
/// containers that the walk was inside of at the start.
pub proof fn lemma_events_close_only_what_is_open(d: Decoding, upto: int)
    requires
        d.wf(),
        0 <= upto <= events(d).len(),
    ensures
        closed_more(events(d).take(upto)) <= d.depth(),
    decreases rank(d),
{
    let next = step(d).1;
    lemma_step_wf(d);
    if upto == 0 {
        assert(events(d).take(0).len() == 0);
    } else {
        assert(step(d).0 is Some);
        let pull = step(d).0->Some_0;
        lemma_step_rank(d);
        assert(events(d) == seq![pull] + events(next));
        let front = events(d).take(upto);
        assert(front[0] == pull);
        assert(front.skip(1) =~= events(next).take(upto - 1));
        lemma_events_close_only_what_is_open(next, upto - 1);
        match d.walk {
            Walk::Fresh => {
                if let Ok((layout, root)) = header(d.source) {
                    if pull is Ok {
                        lemma_visit_depth(d.source, layout, Seq::empty(), root);
                    }
                }
            },
            Walk::Open { layout, stack } => {
                if stack.last().pending.len() > 0 && pull is Ok {
                    lemma_visit_depth(d.source, layout, advance(stack), stack.last().pending[0]);
                }
            },
            Walk::Done => {},
        }
    }
}

/// Visiting an object that is a value leaves the walk inside the same
/// containers; visiting a container hands out the event that opens it and
/// takes the walk inside of it.
pub proof fn lemma_visit_depth(source: Seq<u8>, layout: Layout, stack: Seq<Frame>, index: u64)
    requires
        visit(source, layout, stack, index).0 is Ok,
    ensures
        ({
            let (pull, walk) = visit(source, layout, stack, index);
            let depth = (Decoding { source, walk }).depth();
            if pull->Ok_0.opens() {
                depth == stack.len() + 1
            } else {
                pull->Ok_0.is_value() && depth == stack.len()
            }
        }),
{
    match object(source, layout, index) {
        Err(_) => {},
        Ok(Node::Leaf(_)) => {
            lemma_leaf_is_value(source, layout, index);
        },
        Ok(_) => {},
    }
}

} // verus!
