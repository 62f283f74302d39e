//! What holds of every dump.
use crate::address::Address;
use crate::assembly::{
    assembled, lemma_assembled_bytes, lemma_assembled_pointer, lemma_assembled_push, Cell,
};
use crate::image::{binds, declared, mentions, word, written, DirectiveView};
use crate::label::{Label, LabelName};
use crate::layout::header_alignment;
use crate::references::inside;
use crate::registry::{known, lemma_lookup_is, lemma_owner_is, lookup, owner, ObjectInfo, ObjectState};
use crate::fault::Fault;
use crate::image::{with_bytes, with_pointer};
use crate::registry::{crowded, DumpFunction};
use crate::state::{
    all_emitted, bindings, closing, emitted_bytes, layout_allowed, opening, DumpState, Outcome,
};
use vstd::prelude::*;

verus! {

/// The number of bytes that the objects take up in the image, each with its
/// header.
pub open spec fn object_bytes(objects: Seq<ObjectInfo>) -> int
    decreases objects.len(),
{
    if objects.len() == 0 {
        0
    } else {
        object_bytes(objects.drop_last()) + header_alignment(objects.last().alignment)
            + objects.last().size
    }
}

/// No two complete objects of a dump share a byte.
pub proof fn lemma_no_overlap(state: DumpState, first: Address, second: Address)
    requires
        state.wf(),
        first != second,
        lookup(state.objects, first) is Some,
        lookup(state.objects, second) is Some,
    ensures
        lookup(state.objects, first)->0.end() <= lookup(state.objects, second)->0.start.0 || lookup(
            state.objects,
            second,
        )->0.end() <= lookup(state.objects, first)->0.start.0,
{
    let i = choose|i: int|
        0 <= i < state.objects.len() && (#[trigger] state.objects[i]).start == first;
    let j = choose|j: int|
        0 <= j < state.objects.len() && (#[trigger] state.objects[j]).start == second;
    lemma_lookup_is(state.objects, i);
    lemma_lookup_is(state.objects, j);
    if i < j {
        assert(state.objects[i].end() <= state.objects[j].start.0);
    } else {
        assert(state.objects[j].end() <= state.objects[i].start.0);
    }
}

/// Every byte of the image is accounted for: what is written is the objects
/// that are written in full, each with its header, and what is written so far of
/// the object that is being written.
pub proof fn lemma_gapless(state: DumpState)
    requires
        state.wf(),
    ensures
        written(state.image) == emitted_bytes(state.objects) + state.partial_bytes(),
        state.idle() ==> written(state.image) == emitted_bytes(state.objects),
{
}

/// Once every object is written in full, the length of the image is the sum of
/// the sizes of the objects and of their headers.
pub proof fn lemma_gapless_finished(state: DumpState)
    requires
        state.wf(),
        state.idle(),
        all_emitted(state.objects),
    ensures
        written(state.image) == object_bytes(state.objects),
{
    lemma_all_emitted_bytes(state.objects);
}

/// Objects that are all written in full take up their sizes and their headers.
pub proof fn lemma_all_emitted_bytes(objects: Seq<ObjectInfo>)
    requires
        all_emitted(objects),
    ensures
        emitted_bytes(objects) == object_bytes(objects),
    decreases objects.len(),
{
    if objects.len() > 0 {
        let front = objects.drop_last();
        assert forall|i: int| 0 <= i < front.len() implies (#[trigger] front[i]).state
            == ObjectState::Emitted by {
            assert(objects[i].state == ObjectState::Emitted);
        }
        lemma_all_emitted_bytes(front);
        assert(objects[objects.len() - 1].state == ObjectState::Emitted);
    }
}

/// The size of an object stands in the word right before its first label, so
/// that it is found there once the image is loaded.
pub proof fn lemma_size_before_object(object: ObjectInfo, name: Option<Seq<char>>)
    ensures
        exists|i: int|
            0 <= i < opening(object, name).len() - 1 && #[trigger] opening(object, name)[i]
                == DirectiveView::Word(object.size) && opening(object, name)[i + 1] is Declare,
{
    let all = opening(object, name);
    let head = crate::layout::header(object.size, object.alignment);
    match name {
        Some(name) => {
            let i = 4 + head.len() - 1;
            assert(all[i] == head[head.len() - 1]);
            assert(all[i + 1] is Declare);
        },
        None => {
            let i = 1 + head.len() - 1;
            assert(all[i] == head[head.len() - 1]);
            assert(all[i + 1] is Declare);
        },
    }
}

/// The label that a pointer is written as stands for the address that the
/// pointer holds.
pub proof fn lemma_reference_names_target(state: DumpState, target: Address)
    requires
        state.wf(),
    ensures
        state.label_of(target).stands_for() == target.0,
{
    match owner(state.objects, target) {
        Some(object) => {
            let i = choose|i: int|
                0 <= i < state.objects.len() && (#[trigger] state.objects[i]).contains(target);
            assert(state.objects[i].fits());
        },
        None => {},
    }
}

/// A pointer into an object that is known is written as a place in that
/// object, whatever else is found later: two fields that hold one address name
/// one object.
pub proof fn lemma_reference_stable(before: DumpState, after: DumpState, target: Address)
    requires
        before.wf(),
        after.wf(),
        before.grows(after),
        owner(before.objects, target) is Some,
    ensures
        after.label_of(target) == before.label_of(target),
        after.label_of(target).base == LabelName::Object(owner(before.objects, target)->0.start),
{
    let i = choose|i: int|
        0 <= i < before.objects.len() && (#[trigger] before.objects[i]).contains(target);
    let object = before.objects[i];
    lemma_owner_is(before.objects, i, target);
    lemma_lookup_is(before.objects, i);
    assert(crate::state::kept(
        lookup(before.objects, object.start),
        lookup(after.objects, object.start),
    ));
    let found = lookup(after.objects, object.start)->0;
    assert(known(after.objects, object.start));
    let j = choose|j: int|
        0 <= j < after.objects.len() && (#[trigger] after.objects[j]).start == object.start;
    lemma_lookup_is(after.objects, j);
    assert(after.objects[j].contains(target));
    lemma_owner_is(after.objects, j, target);
}

/// A reference that waited for its owner is bound, when the owner is found, to
/// a place in the owner that stands for the address of the reference.
pub proof fn lemma_binding_names_target(state: DumpState, object: ObjectInfo, i: int)
    requires
        state.wf(),
        object.fits(),
        0 <= i < inside(state.references, object.start, object.size).len(),
    ensures
        bindings(inside(state.references, object.start, object.size), object.start)[i]
            matches DirectiveView::Equiv(name, place) && name == LabelName::Pointer(
            inside(state.references, object.start, object.size)[i],
        ) && place.stands_for() == inside(state.references, object.start, object.size)[i].0
            && place.base == LabelName::Object(object.start),
{
    let taken = inside(state.references, object.start, object.size);
    crate::invariants::lemma_rank_exists(state.references, object.start.0 as int);
    crate::invariants::lemma_rank_exists(state.references, object.start.0 + object.size);
    crate::references::lemma_inside_outside(state.references, object.start, object.size);
    assert(taken.contains(taken[i]));
    assert(taken[i].within(object.start, object.size as int));
}

/// The label of an object is declared once in the image from the time that the
/// object begins to be written, and no label of an object is declared else.
pub proof fn lemma_declared_once(state: DumpState, start: Address)
    requires
        state.wf(),
    ensures
        declared(state.image, LabelName::Object(start)) == state.due(start),
        lookup(state.objects, start) matches Some(object) && object.state != ObjectState::Pending
            ==> declared(state.image, LabelName::Object(start)) == 1,
        lookup(state.objects, start) is None ==> declared(state.image, LabelName::Object(start))
            == 0,
{
    reveal(DumpState::linked);
}

/// Every binding of the image gives the temporary label of a reference to a
/// place in a known object, and the place stands for the address of the
/// reference.
pub proof fn lemma_bindings_name_targets(state: DumpState, name: LabelName, place: Label)
    requires
        state.wf(),
        binds(state.image, name, place),
    ensures
        state.binding(name, place),
{
    reveal(DumpState::linked);
}

/// Every pointer of the image is written as a label that names a place: a
/// place in a known object, or the temporary label of a reference that waits
/// for its owner or was bound to a place in its owner.
pub proof fn lemma_pointers_grounded(state: DumpState, label: Label)
    requires
        state.wf(),
        mentions(state.image, label),
    ensures
        state.grounded(label),
{
    reveal(DumpState::linked);
}

/// Once no reference waits for its owner, every pointer of the image leads
/// into a known object: it names the object, or it is bound to a place in one
/// that stands for the address that was referenced.
pub proof fn lemma_pointers_resolve(state: DumpState, label: Label)
    requires
        state.wf(),
        state.references.len() == 0,
        mentions(state.image, label),
    ensures
        match label.base {
            LabelName::Object(start) => lookup(state.objects, start) is Some,
            LabelName::Pointer(target) => exists|place: Label|
                binds(state.image, label.base, place) && state.binding(label.base, place)
                    && place.stands_for() == label.stands_for(),
            LabelName::Global(_) => false,
        },
{
    reveal(DumpState::linked);
    assert(state.grounded(label));
    match label.base {
        LabelName::Pointer(target) => {
            assert(!state.references.contains(target));
            let place = choose|place: Label| binds(state.image, LabelName::Pointer(target), place);
            assert(state.binding(label.base, place));
        },
        _ => {},
    }
}

/// The assembled image holds something at an address where, and only where, an
/// object that is written lies there: no byte of an object is missing, and
/// nothing lies outside the objects.
pub proof fn lemma_image_holds_objects(state: DumpState, address: int)
    requires
        state.wf(),
    ensures
        assembled(state.image).cells.dom().contains(address) <==> state.holds(address),
{
    reveal(DumpState::placed);
}

/// The raw bytes that a value hands to the dumper lie in the assembled image
/// at the addresses from the cursor on, byte for byte.
pub proof fn lemma_value_placed(state: DumpState, bytes: Seq<u8>, k: int)
    requires
        state.wf(),
        state.room(bytes.len() as int),
        0 <= k < bytes.len(),
    ensures
        assembled(state.valued(bytes).state.image).cells.dom().contains(state.cursor.0 + k),
        assembled(state.valued(bytes).state.image).cells[state.cursor.0 + k] == Cell::Byte(
            bytes[k],
        ),
{
    reveal(DumpState::placed);
    lemma_assembled_bytes(state.image, bytes);
}

/// A pointer that a value hands to the dumper lies in the assembled image at
/// the cursor, as a label that stands for the address that the pointer holds.
pub proof fn lemma_pointer_placed(state: DumpState, target: Address)
    requires
        state.wf(),
        state.room(word() as int),
    ensures
        assembled(state.referenced(target).state.image).cells.dom().contains(
            state.cursor.0 as int,
        ),
        assembled(state.referenced(target).state.image).cells[state.cursor.0 as int]
            == Cell::Pointer(state.label_of(target)),
        state.label_of(target).stands_for() == target.0,
{
    reveal(DumpState::placed);
    lemma_assembled_pointer(state.image, state.label_of(target));
    lemma_reference_names_target(state, target);
}

/// Padding lies in the assembled image at the addresses from the cursor on.
pub proof fn lemma_padding_placed(state: DumpState, size: usize, k: int)
    requires
        state.wf(),
        state.room(size as int),
        0 <= k < size,
    ensures
        assembled(state.padded(size).state.image).cells.dom().contains(state.cursor.0 + k),
        assembled(state.padded(size).state.image).cells[state.cursor.0 + k] == Cell::Padding,
{
    reveal(DumpState::placed);
    lemma_assembled_push(state.image, DirectiveView::Skip(size));
}

/// What the assembled image holds at an address it holds there to the end of
/// the dump: nothing that is written is written over.
pub proof fn lemma_written_stays(before: DumpState, after: DumpState, address: int)
    requires
        before.grows(after) || before.evolves(after),
        assembled(before.image).cells.dom().contains(address),
    ensures
        assembled(after.image).cells.dom().contains(address),
        assembled(after.image).cells[address] == assembled(before.image).cells[address],
{
    reveal(DumpState::keeps);
}

/// Raw bytes that the object being written has room for are written as they
/// are, in their order, behind what the image held; the cursor moves on by
/// their number, and nothing else changes.
pub proof fn lemma_value_written(state: DumpState, bytes: Seq<u8>)
    requires
        state.wf(),
        state.room(bytes.len() as int),
    ensures
        state.valued(bytes).fault is None,
        state.valued(bytes).state == (DumpState {
            image: with_bytes(state.image, bytes),
            cursor: Address((state.cursor.0 + bytes.len()) as usize),
            ..state
        }),
        written(state.valued(bytes).state.image) == written(state.image) + bytes.len(),
{
    crate::image::lemma_written_bytes(state.image, bytes);
}

/// A pointer into a known object, where the object being written has room for
/// it, is written as the label of the object that owns its target, moved by how
/// far the target lies behind the start of that object; no reference is left
/// waiting, and the cursor moves on by a word.
pub proof fn lemma_reference_written(state: DumpState, target: Address, object: ObjectInfo)
    requires
        state.wf(),
        state.room(word() as int),
        lookup(state.objects, object.start) == Some(object),
        object.contains(target),
    ensures
        state.referenced(target).fault is None,
        state.referenced(target).state == (DumpState {
            image: with_pointer(
                state.image,
                Label::object(object.start).moved((target.0 - object.start.0) as isize),
            ),
            cursor: Address((state.cursor.0 + word()) as usize),
            ..state
        }),
{
    assert(known(state.objects, object.start));
    let i = choose|i: int|
        0 <= i < state.objects.len() && (#[trigger] state.objects[i]).start == object.start;
    lemma_lookup_is(state.objects, i);
    lemma_owner_is(state.objects, i, target);
    assert(object.fits());
}

/// A pointer to an object that is known with the same layout is written as the
/// label of that object, moved by the offset, whatever was written before; the
/// registry stays as it is, and the cursor moves on by a word.
pub proof fn lemma_known_object_referenced(
    state: DumpState,
    value: Address,
    dump: DumpFunction,
    object: ObjectInfo,
    offset: isize,
)
    requires
        state.wf(),
        state.room(word() as int),
        lookup(state.objects, object.start) == Some(object),
        object.size != 0,
    ensures
        state.object_referenced(
            value,
            dump,
            object.start,
            object.size,
            object.alignment,
            offset,
        ).fault is None,
        state.object_referenced(
            value,
            dump,
            object.start,
            object.size,
            object.alignment,
            offset,
        ).state == (DumpState {
            image: with_pointer(state.image, Label::object(object.start).moved(offset)),
            cursor: Address((state.cursor.0 + word()) as usize),
            ..state
        }),
{
}

/// The second of two equal registrations changes nothing and returns what the
/// first returned.
pub proof fn lemma_registered_twice(
    state: DumpState,
    value: Address,
    dump: DumpFunction,
    start: Address,
    size: usize,
    alignment: usize,
)
    requires
        state.wf(),
        layout_allowed(start, size, alignment),
    ensures
        state.registered(value, dump, start, size, alignment).state.registered(
            value,
            dump,
            start,
            size,
            alignment,
        ) == (Outcome {
            state: state.registered(value, dump, start, size, alignment).state,
            fault: state.registered(value, dump, start, size, alignment).fault,
        }),
{
    let first = state.registered(value, dump, start, size, alignment);
    if first.fault is None && lookup(state.objects, start) is None {
        crate::invariants::lemma_lookup_inserted(
            state.objects,
            ObjectInfo { start, size, alignment, value, dump, state: ObjectState::Pending },
            start,
        );
    }
}

/// A region that shares a byte with a known object, and does not start where
/// one starts, is refused with `OverlapViolation`, and the state stays as it is.
pub proof fn lemma_overlap_refused(
    state: DumpState,
    value: Address,
    dump: DumpFunction,
    start: Address,
    size: usize,
    alignment: usize,
)
    requires
        size != 0,
        lookup(state.objects, start) is None,
        crowded(state.objects, start, size),
    ensures
        state.registered(value, dump, start, size, alignment) == Outcome::failed(
            state,
            Fault::OverlapViolation,
        ),
{
}

/// The end of an object writes one run of padding, as long as the object still
/// lacks, or none where it lacks nothing; and leaves the cursor at the end of
/// the object.
pub proof fn lemma_end_pads(state: DumpState)
    requires
        state.wf(),
        state.emitting is Some,
    ensures
        state.ended().cursor.0 == state.emitting->0.end(),
        state.ended().image == state.image + closing(state.emitting->0, state.cursor),
        state.cursor.0 == state.emitting->0.end() ==> closing(state.emitting->0, state.cursor).len()
            == 1,
        state.cursor.0 < state.emitting->0.end() ==> closing(state.emitting->0, state.cursor)[0]
            == DirectiveView::Skip((state.emitting->0.end() - state.cursor.0) as usize),
        written(state.ended().image) == written(state.image) + state.emitting->0.end()
            - state.cursor.0,
{
    crate::invariants::lemma_ended(state);
}

} // verus!
