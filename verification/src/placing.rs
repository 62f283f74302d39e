//! Why the assembled image holds the bytes of the objects, each at the address
//! that it had in memory, after every operation of a dump.
use crate::address::Address;
use crate::assembly::{
    assembled, byte_cells, content, filled, lemma_assembled_bytes, lemma_assembled_inert,
    lemma_assembled_pointer, lemma_assembled_push, lemma_filled_nothing, moves, padding_cells,
    step, wide, Cell, Memory,
};
use crate::image::{with_bytes, with_pointer, word, DirectiveView};
use crate::label::{Label, LabelName};
use crate::layout::header;
use crate::registry::{
    crowded, inserted, known, lemma_lookup_is, lemma_owner_is, lookup, owner, registry, ObjectInfo,
    ObjectState,
};
use crate::state::{bindings, closing, opening, DumpState};
use vstd::prelude::*;

verus! {

/// The assembled image after the directives that stand before an object: it
/// goes on at the start of the object, and holds what it held.
pub proof fn lemma_assembled_opening(
    image: Seq<DirectiveView>,
    object: ObjectInfo,
    name: Option<Seq<char>>,
)
    ensures
        assembled(image + opening(object, name)) == (Memory {
            at: Some(object.start.0 as int),
            cells: assembled(image).cells,
        }),
{
    let own = LabelName::Object(object.start);
    let m = header_alignment_directive(object);
    let first: Seq<DirectiveView> = match name {
        Some(name) => seq![
            DirectiveView::Global(LabelName::Global(name)),
            DirectiveView::TypeObject(LabelName::Global(name)),
        ],
        None => Seq::empty(),
    };
    let second: Seq<DirectiveView> = match name {
        Some(name) => seq![DirectiveView::Size(LabelName::Global(name), object.size)],
        None => Seq::empty(),
    };
    // Up to the alignment nothing but the current address changes.
    assert forall|i: int| 0 <= i < first.len() implies content(#[trigger] first[i]).len() == 0
        && !moves(first[i]) by {}
    lemma_assembled_inert(image, first);
    let a = image + first;
    let b = a + second;
    if name is Some {
        assert(b =~= a.push(second[0]));
        lemma_assembled_push(a, second[0]);
    } else {
        assert(b =~= a);
    }
    assert(assembled(b).cells == assembled(image).cells);
    let c = b.push(DirectiveView::TypeObject(own));
    lemma_assembled_push(b, DirectiveView::TypeObject(own));
    crate::assembly::lemma_step_inert(assembled(b), DirectiveView::TypeObject(own));
    let d = c.push(m);
    lemma_assembled_push(c, m);
    assert(assembled(d) == (Memory { at: None, cells: assembled(image).cells }));
    // The rest of the header lies at no address.
    let head = header(object.size, object.alignment);
    let rest = head.subrange(1, head.len() as int);
    let e = d + rest;
    lemma_assembled_headless(d, rest);
    let last: Seq<DirectiveView> = match name {
        Some(name) => seq![DirectiveView::Declare(LabelName::Global(name))],
        None => Seq::empty(),
    };
    assert forall|i: int| 0 <= i < last.len() implies content(#[trigger] last[i]).len() == 0
        && !moves(last[i]) by {}
    lemma_assembled_inert(e, last);
    let f = e + last;
    lemma_assembled_push(f, DirectiveView::Declare(own));
    assert(head =~= seq![m] + rest);
    assert(image + opening(object, name) =~= f.push(DirectiveView::Declare(own)));
}

/// The alignment that the header of `object` begins with.
pub open spec fn header_alignment_directive(object: ObjectInfo) -> DirectiveView {
    header(object.size, object.alignment)[0]
}

/// Directives that put cells change nothing where the image goes on at no
/// address.
pub proof fn lemma_assembled_headless(image: Seq<DirectiveView>, tail: Seq<DirectiveView>)
    requires
        assembled(image).at is None,
        forall|i: int| 0 <= i < tail.len() ==> !moves(#[trigger] tail[i]),
    ensures
        assembled(image + tail) == assembled(image),
    decreases tail.len(),
{
    if tail.len() == 0 {
        assert(image + tail =~= image);
    } else {
        let front = tail.drop_last();
        assert forall|i: int| 0 <= i < front.len() implies !moves(#[trigger] front[i]) by {
            assert(front[i] == tail[i]);
        }
        lemma_assembled_headless(image, front);
        assert(image + tail =~= (image + front).push(tail.last()));
        lemma_assembled_push(image + front, tail.last());
        assert(!moves(tail[tail.len() - 1]));
    }
}

/// The assembled image after the directives that stand behind an object: the
/// rest of the object is padding, and the image goes on at no address.
pub proof fn lemma_assembled_closing(image: Seq<DirectiveView>, object: ObjectInfo, cursor: Address)
    requires
        assembled(image).at == Some(cursor.0 as int),
        object.fits(),
        cursor.0 <= object.end(),
    ensures
        assembled(image + closing(object, cursor)) == (Memory {
            at: None,
            cells: filled(
                assembled(image).cells,
                cursor.0 as int,
                padding_cells(object.end() - cursor.0),
            ),
        }),
{
    let size = DirectiveView::Size(LabelName::Object(object.start), object.size);
    if cursor.0 < object.end() {
        let skip = DirectiveView::Skip((object.end() - cursor.0) as usize);
        lemma_assembled_push(image, skip);
        lemma_assembled_push(image.push(skip), size);
        assert(image + closing(object, cursor) =~= image.push(skip).push(size));
    } else {
        lemma_assembled_push(image, size);
        assert(image + closing(object, cursor) =~= image.push(size));
        assert(padding_cells(object.end() - cursor.0) =~= Seq::<Cell>::empty());
        lemma_filled_nothing(assembled(image).cells, cursor.0 as int);
    }
}

/// A state stays placed when cells are put at the cursor, inside the object
/// that is being written, and the cursor moves behind them.
pub proof fn lemma_placed_written(before: DumpState, after: DumpState, cells: Seq<Cell>)
    requires
        before.wf(),
        before.room(cells.len() as int),
        assembled(after.image) == (Memory {
            at: Some(before.cursor.0 + cells.len()),
            cells: filled(assembled(before.image).cells, before.cursor.0 as int, cells),
        }),
        after.objects == before.objects,
        after.emitting == before.emitting,
        after.cursor.0 == before.cursor.0 + cells.len(),
    ensures
        after.placed(),
{
    reveal(DumpState::placed);
    let object = before.emitting->0;
    assert(known(before.objects, object.start));
    let at = choose|i: int|
        0 <= i < before.objects.len() && (#[trigger] before.objects[i]).start == object.start;
    lemma_lookup_is(before.objects, at);
    assert forall|address: int| #[trigger]
        assembled(after.image).cells.dom().contains(address) <==> after.holds(address) by {
        assert(assembled(before.image).cells.dom().contains(address) <==> before.holds(address));
        if before.cursor.0 <= address < before.cursor.0 + cells.len() {
            lemma_owner_is(before.objects, at, Address(address as usize));
        }
        if 0 <= address <= usize::MAX {
            match owner(before.objects, Address(address as usize)) {
                Some(found) => {
                    let i = choose|i: int|
                        0 <= i < before.objects.len() && (#[trigger] before.objects[i]).contains(
                            Address(address as usize),
                        );
                    if found.state == ObjectState::Emitting {
                        assert(before.emitting == Some(before.objects[i]));
                    }
                },
                None => {},
            }
        }
    }
}

/// A state stays placed when nothing but its offset, its references and its
/// tags changes, and its image takes directives that put no cells.
pub proof fn lemma_placed_same(before: DumpState, after: DumpState)
    requires
        before.placed(),
        assembled(after.image) == assembled(before.image),
        after.objects == before.objects,
        after.emitting == before.emitting,
        after.cursor == before.cursor,
    ensures
        after.placed(),
{
    reveal(DumpState::placed);
    assert forall|address: int| #[trigger]
        assembled(after.image).cells.dom().contains(address) <==> after.holds(address) by {
        assert(assembled(before.image).cells.dom().contains(address) <==> before.holds(address));
    }
}

/// A state stays placed when an object is discovered.
pub proof fn lemma_placed_discovered(before: DumpState, object: ObjectInfo)
    requires
        before.placed(),
        registry(before.objects),
        object.fits(),
        object.state == ObjectState::Pending,
        !crowded(before.objects, object.start, object.size),
        forall|target: Address| #[trigger]
            owner(inserted(before.objects, object), target) == if object.contains(target) {
                Some(object)
            } else {
                owner(before.objects, target)
            },
    ensures
        before.discovered(object).placed(),
{
    reveal(DumpState::placed);
    let after = before.discovered(object);
    let tail = bindings(
        crate::references::inside(before.references, object.start, object.size),
        object.start,
    );
    assert forall|i: int| 0 <= i < tail.len() implies content(#[trigger] tail[i]).len() == 0
        && !moves(tail[i]) by {}
    lemma_assembled_inert(before.image, tail);
    assert forall|address: int| #[trigger]
        assembled(after.image).cells.dom().contains(address) <==> after.holds(address) by {
        assert(assembled(before.image).cells.dom().contains(address) <==> before.holds(address));
        if 0 <= address <= usize::MAX {
            let target = Address(address as usize);
            assert(owner(after.objects, target) == if object.contains(target) {
                Some(object)
            } else {
                owner(before.objects, target)
            });
            if object.contains(target) {
                if crate::registry::covered(before.objects, target) {
                    let i = choose|i: int|
                        0 <= i < before.objects.len() && (#[trigger] before.objects[i]).contains(
                            target,
                        );
                    assert(before.objects[i].overlaps(object.start, object.size));
                }
            }
        }
    }
}

/// A state stays placed when the header of a known object is written.
pub proof fn lemma_placed_begun(
    before: DumpState,
    object: ObjectInfo,
    name: Option<Seq<char>>,
    after: DumpState,
)
    requires
        before.wf(),
        before.idle(),
        object.state == ObjectState::Pending,
        after.image == before.image + opening(object, name),
        after.emitting == Some(object.in_state(ObjectState::Emitting)),
        after.cursor == object.start,
        forall|target: Address| #[trigger]
            owner(after.objects, target) == match owner(before.objects, target) {
                Some(found) => Some(
                    if found.start == object.start {
                        found.in_state(ObjectState::Emitting)
                    } else {
                        found
                    },
                ),
                None => None,
            },
        lookup(before.objects, object.start) == Some(object),
    ensures
        after.placed(),
{
    reveal(DumpState::placed);
    lemma_assembled_opening(before.image, object, name);
    assert forall|address: int| #[trigger]
        assembled(after.image).cells.dom().contains(address) <==> after.holds(address) by {
        assert(assembled(before.image).cells.dom().contains(address) <==> before.holds(address));
        if 0 <= address <= usize::MAX {
            let target = Address(address as usize);
            match owner(before.objects, target) {
                Some(found) => {
                    let i = choose|i: int|
                        0 <= i < before.objects.len() && (#[trigger] before.objects[i]).contains(
                            target,
                        );
                    if found.state == ObjectState::Emitting {
                        assert(before.emitting == Some(before.objects[i]));
                    }
                    lemma_owner_is(before.objects, i, target);
                    lemma_lookup_is(before.objects, i);
                },
                None => {},
            }
        }
    }
}

/// A state stays placed when the object that is being written ends.
pub proof fn lemma_placed_ended(before: DumpState, object: ObjectInfo, after: DumpState)
    requires
        before.wf(),
        before.emitting == Some(object),
        after.image == before.image + closing(object, before.cursor),
        after.emitting is None,
        forall|target: Address| #[trigger]
            owner(after.objects, target) == match owner(before.objects, target) {
                Some(found) => Some(
                    if found.start == object.start {
                        found.in_state(ObjectState::Emitted)
                    } else {
                        found
                    },
                ),
                None => None,
            },
    ensures
        after.placed(),
{
    reveal(DumpState::placed);
    assert(known(before.objects, object.start));
    let at = choose|i: int|
        0 <= i < before.objects.len() && (#[trigger] before.objects[i]).start == object.start;
    lemma_lookup_is(before.objects, at);
    assert(object.fits());
    lemma_assembled_closing(before.image, object, before.cursor);
    assert forall|address: int| #[trigger]
        assembled(after.image).cells.dom().contains(address) <==> after.holds(address) by {
        assert(assembled(before.image).cells.dom().contains(address) <==> before.holds(address));
        if 0 <= address <= usize::MAX {
            let target = Address(address as usize);
            if object.contains(target) {
                lemma_owner_is(before.objects, at, target);
            }
            match owner(before.objects, target) {
                Some(found) => {
                    let i = choose|i: int|
                        0 <= i < before.objects.len() && (#[trigger] before.objects[i]).contains(
                            target,
                        );
                    lemma_owner_is(before.objects, i, target);
                    if found.state == ObjectState::Emitting {
                        assert(before.emitting == Some(before.objects[i]));
                    }
                    if found.start == object.start {
                        lemma_lookup_is(before.objects, i);
                    }
                },
                None => {},
            }
        }
    }
}

/// A dump that has just begun is placed.
pub proof fn lemma_placed_initial()
    ensures
        DumpState::initial().placed(),
{
    reveal(DumpState::placed);
    let image = DumpState::initial().image;
    let empty = Seq::<DirectiveView>::empty();
    assert forall|i: int| 0 <= i < image.len() implies content(#[trigger] image[i]).len() == 0
        && !moves(image[i]) by {}
    lemma_assembled_inert(empty, image);
    assert(empty + image =~= image);
    assert forall|address: int| #[trigger]
        assembled(image).cells.dom().contains(address) <==> DumpState::initial().holds(
            address,
        ) by {
        if 0 <= address <= usize::MAX {
            assert(!crate::registry::covered(
                DumpState::initial().objects,
                Address(address as usize),
            ));
        }
    }
}

/// A state stays placed when padding is written.
pub proof fn lemma_placed_padded(before: DumpState, size: usize)
    requires
        before.wf(),
        before.room(size as int),
    ensures
        before.appended(DirectiveView::Skip(size)).advanced(size as int).placed(),
{
    let after = before.appended(DirectiveView::Skip(size)).advanced(size as int);
    assert(assembled(before.image).at == Some(before.cursor.0 as int)) by {
        reveal(DumpState::placed);
    }
    lemma_assembled_push(before.image, DirectiveView::Skip(size));
    lemma_placed_written(before, after, padding_cells(size as int));
}

/// A state stays placed when raw bytes are written.
pub proof fn lemma_placed_valued(before: DumpState, bytes: Seq<u8>)
    requires
        before.wf(),
        before.room(bytes.len() as int),
    ensures
        (DumpState { image: with_bytes(before.image, bytes), ..before }).advanced(
            bytes.len() as int,
        ).placed(),
{
    let after = (DumpState { image: with_bytes(before.image, bytes), ..before }).advanced(
        bytes.len() as int,
    );
    assert(assembled(before.image).at == Some(before.cursor.0 as int)) by {
        reveal(DumpState::placed);
    }
    lemma_assembled_bytes(before.image, bytes);
    lemma_placed_written(before, after, byte_cells(bytes));
}

/// A state stays placed when a pointer is written.
pub proof fn lemma_placed_pointer(before: DumpState, label: Label, after: DumpState)
    requires
        before.wf(),
        before.room(word() as int),
        after.image == with_pointer(before.image, label),
        after.objects == before.objects,
        after.emitting == before.emitting,
        after.cursor.0 == before.cursor.0 + word(),
    ensures
        after.placed(),
{
    assert(assembled(before.image).at == Some(before.cursor.0 as int)) by {
        reveal(DumpState::placed);
    }
    lemma_assembled_pointer(before.image, label);
    lemma_placed_written(before, after, wide(Cell::Pointer(label)));
}

/// A state stays placed when a word is written.
pub proof fn lemma_placed_worded(before: DumpState, value: usize)
    requires
        before.wf(),
        before.room(word() as int),
    ensures
        before.worded(value).placed(),
{
    assert(assembled(before.image).at == Some(before.cursor.0 as int)) by {
        reveal(DumpState::placed);
    }
    lemma_assembled_push(before.image, DirectiveView::Word(value));
    lemma_placed_written(before, before.worded(value), wide(Cell::Word(value)));
}

/// A state stays placed when the image ends.
pub proof fn lemma_placed_finished(before: DumpState, tail: Seq<DirectiveView>, after: DumpState)
    requires
        before.placed(),
        forall|i: int|
            0 <= i < tail.len() ==> content(#[trigger] tail[i]).len() == 0 && !moves(tail[i]),
        after.image == before.image + tail,
        after.objects == before.objects,
        after.emitting == before.emitting,
        after.cursor == before.cursor,
    ensures
        after.placed(),
{
    lemma_assembled_inert(before.image, tail);
    lemma_placed_same(before, after);
}

/// What the image holds it keeps when nothing happens.
pub proof fn lemma_keeps_reflexive(state: DumpState)
    ensures
        state.keeps(state),
{
    reveal(DumpState::keeps);
}

/// What the image keeps from step to step it keeps over both.
pub proof fn lemma_keeps_transitive(first: DumpState, second: DumpState, third: DumpState)
    requires
        first.keeps(second),
        second.keeps(third),
    ensures
        first.keeps(third),
{
    reveal(DumpState::keeps);
    assert forall|address: int| #[trigger]
        assembled(first.image).cells.dom().contains(address) implies assembled(
        third.image,
    ).cells.dom().contains(address) && assembled(third.image).cells[address] == assembled(
        first.image,
    ).cells[address] by {
        assert(assembled(second.image).cells.dom().contains(address));
    }
}

/// What the image holds it keeps when it holds the same cells after.
pub proof fn lemma_keeps_same(before: DumpState, after: DumpState)
    requires
        assembled(after.image).cells == assembled(before.image).cells,
    ensures
        before.keeps(after),
{
    reveal(DumpState::keeps);
}

/// What the image holds it keeps when cells are put at the cursor, inside the
/// object that is being written: nothing lay there before.
pub proof fn lemma_keeps_written(before: DumpState, after: DumpState, cells: Seq<Cell>)
    requires
        before.wf(),
        before.room(cells.len() as int),
        assembled(after.image).cells == filled(
            assembled(before.image).cells,
            before.cursor.0 as int,
            cells,
        ),
    ensures
        before.keeps(after),
{
    reveal(DumpState::placed);
    reveal(DumpState::keeps);
    let object = before.emitting->0;
    assert(known(before.objects, object.start));
    let at = choose|i: int|
        0 <= i < before.objects.len() && (#[trigger] before.objects[i]).start == object.start;
    lemma_lookup_is(before.objects, at);
    assert forall|address: int| #[trigger]
        assembled(before.image).cells.dom().contains(address) implies assembled(
        after.image,
    ).cells.dom().contains(address) && assembled(after.image).cells[address] == assembled(
        before.image,
    ).cells[address] by {
        assert(before.holds(address));
        if before.cursor.0 <= address < before.cursor.0 + cells.len() {
            lemma_owner_is(before.objects, at, Address(address as usize));
        }
    }
}

/// What the image holds it keeps when padding is written.
pub proof fn lemma_keeps_padded(before: DumpState, size: usize)
    requires
        before.wf(),
        before.room(size as int),
    ensures
        before.keeps(before.appended(DirectiveView::Skip(size)).advanced(size as int)),
{
    let after = before.appended(DirectiveView::Skip(size)).advanced(size as int);
    assert(assembled(before.image).at == Some(before.cursor.0 as int)) by {
        reveal(DumpState::placed);
    }
    lemma_assembled_push(before.image, DirectiveView::Skip(size));
    lemma_keeps_written(before, after, padding_cells(size as int));
}

/// What the image holds it keeps when raw bytes are written.
pub proof fn lemma_keeps_valued(before: DumpState, bytes: Seq<u8>)
    requires
        before.wf(),
        before.room(bytes.len() as int),
    ensures
        before.keeps(
            (DumpState { image: with_bytes(before.image, bytes), ..before }).advanced(
                bytes.len() as int,
            ),
        ),
{
    let after = (DumpState { image: with_bytes(before.image, bytes), ..before }).advanced(
        bytes.len() as int,
    );
    assert(assembled(before.image).at == Some(before.cursor.0 as int)) by {
        reveal(DumpState::placed);
    }
    lemma_assembled_bytes(before.image, bytes);
    lemma_keeps_written(before, after, byte_cells(bytes));
}

/// What the image holds it keeps when a pointer is written.
pub proof fn lemma_keeps_pointer(before: DumpState, label: Label, after: DumpState)
    requires
        before.wf(),
        before.room(word() as int),
        after.image == with_pointer(before.image, label),
    ensures
        before.keeps(after),
{
    assert(assembled(before.image).at == Some(before.cursor.0 as int)) by {
        reveal(DumpState::placed);
    }
    lemma_assembled_pointer(before.image, label);
    lemma_keeps_written(before, after, wide(Cell::Pointer(label)));
}

/// What the image holds it keeps when a word is written.
pub proof fn lemma_keeps_worded(before: DumpState, value: usize)
    requires
        before.wf(),
        before.room(word() as int),
    ensures
        before.keeps(before.worded(value)),
{
    assert(assembled(before.image).at == Some(before.cursor.0 as int)) by {
        reveal(DumpState::placed);
    }
    lemma_assembled_push(before.image, DirectiveView::Word(value));
    lemma_keeps_written(before, before.worded(value), wide(Cell::Word(value)));
}

/// What the image holds it keeps when an object is discovered.
pub proof fn lemma_keeps_discovered(before: DumpState, object: ObjectInfo)
    ensures
        before.keeps(before.discovered(object)),
{
    let tail = bindings(
        crate::references::inside(before.references, object.start, object.size),
        object.start,
    );
    assert forall|i: int| 0 <= i < tail.len() implies content(#[trigger] tail[i]).len() == 0
        && !moves(tail[i]) by {}
    lemma_assembled_inert(before.image, tail);
    lemma_keeps_same(before, before.discovered(object));
}

/// What the image holds it keeps when the header of an object is written.
pub proof fn lemma_keeps_begun(
    before: DumpState,
    object: ObjectInfo,
    name: Option<Seq<char>>,
    after: DumpState,
)
    requires
        after.image == before.image + opening(object, name),
    ensures
        before.keeps(after),
{
    lemma_assembled_opening(before.image, object, name);
    lemma_keeps_same(before, after);
}

/// What the image holds it keeps when the object that is being written ends.
pub proof fn lemma_keeps_ended(before: DumpState, object: ObjectInfo, after: DumpState)
    requires
        before.wf(),
        before.emitting == Some(object),
        after.image == before.image + closing(object, before.cursor),
    ensures
        before.keeps(after),
{
    assert(assembled(before.image).at == Some(before.cursor.0 as int)) by {
        reveal(DumpState::placed);
    }
    assert(known(before.objects, object.start));
    let at = choose|i: int|
        0 <= i < before.objects.len() && (#[trigger] before.objects[i]).start == object.start;
    lemma_lookup_is(before.objects, at);
    assert(object.fits());
    lemma_assembled_closing(before.image, object, before.cursor);
    lemma_keeps_written(before, after, padding_cells(object.end() - before.cursor.0));
}

/// What the image holds it keeps when it takes directives that put no cells.
pub proof fn lemma_keeps_inert(before: DumpState, tail: Seq<DirectiveView>, after: DumpState)
    requires
        forall|i: int|
            0 <= i < tail.len() ==> content(#[trigger] tail[i]).len() == 0 && !moves(tail[i]),
        after.image == before.image + tail,
    ensures
        before.keeps(after),
{
    lemma_assembled_inert(before.image, tail);
    lemma_keeps_same(before, after);
}

} // verus!
