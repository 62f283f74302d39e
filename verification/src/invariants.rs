//! Why every operation of a dump leaves the state one that a dump can be in.
use crate::address::Address;
use crate::image::{
    lemma_written_bytes, lemma_written_pointer, lemma_written_push, with_bytes, with_pointer, word,
    written, DirectiveView,
};
use crate::placing::{
    lemma_keeps_begun, lemma_keeps_discovered, lemma_keeps_ended, lemma_keeps_inert,
    lemma_keeps_padded, lemma_keeps_pointer, lemma_keeps_reflexive, lemma_keeps_same,
    lemma_keeps_transitive, lemma_keeps_valued, lemma_keeps_worded, lemma_placed_begun, lemma_placed_discovered, lemma_placed_ended, lemma_placed_finished,
    lemma_placed_initial, lemma_placed_padded, lemma_placed_pointer, lemma_placed_same,
    lemma_placed_valued, lemma_placed_worded,
};
use crate::references::{
    inside, is_rank, lemma_inside_outside, lemma_with_reference, rank_of, rising,
};
use crate::registry::{
    covered, crowded, inserted, is_slot, known, lemma_inserted_registry,
    lemma_lookup_is, lemma_owner_is, lookup, owner, registry, slot_of, DumpFunction, ObjectInfo,
    ObjectState,
};
use crate::layout::{header, header_alignment, lemma_header_written};
use crate::linking::{
    lemma_linked_begun, lemma_linked_bytes, lemma_linked_discovered, lemma_linked_ended,
    lemma_linked_initial, lemma_linked_object_pointer, lemma_linked_plain, lemma_linked_pointed,
    lemma_linked_pushed, lemma_linked_same, plain,
};
use crate::state::{
    all_emitted, bindings, closing, emitted_at, emitted_bytes, emitted_set, footprint, kept,
    layout_allowed, marked, opening, table_fits, table_size, tags_function, tags_name, unemitted,
    DumpState,
};
use vstd::prelude::*;

verus! {

/// Every registry has a place for every address.
pub proof fn lemma_slot_exists(objects: Seq<ObjectInfo>, start: Address)
    requires
        registry(objects),
    ensures
        is_slot(objects, start, slot_of(objects, start)),
    decreases objects.len(),
{
    if objects.len() == 0 {
        assert(is_slot(objects, start, 0));
    } else {
        let front = objects.drop_last();
        assert forall|i: int, j: int| 0 <= i < j < front.len() implies (#[trigger] front[i]).end()
            <= (#[trigger] front[j]).start.0 by {
            assert(objects[i].end() <= objects[j].start.0);
        }
        assert forall|i: int| 0 <= i < front.len() implies (#[trigger] front[i]).fits() by {
            assert(objects[i].fits());
        }
        lemma_slot_exists(front, start);
        let below = slot_of(front, start);
        if objects.last().start.0 < start.0 {
            assert forall|i: int| 0 <= i < objects.len() implies (#[trigger] objects[i]).start.0
                < start.0 by {
                if i < objects.len() - 1 {
                    assert(objects[i].end() <= objects[objects.len() - 1].start.0);
                    assert(objects[i].fits());
                }
            }
            assert(is_slot(objects, start, objects.len() as int));
        } else {
            assert forall|i: int| 0 <= i < below implies (#[trigger] objects[i]).start.0
                < start.0 by {
                assert(front[i].start.0 < start.0);
            }
            assert forall|i: int| below <= i < objects.len() implies (#[trigger] objects[i]).start.0
                >= start.0 by {
                if i < front.len() {
                    assert(front[i].start.0 >= start.0);
                }
            }
            assert(is_slot(objects, start, below));
        }
    }
}

/// Every rising sequence of references has a rank for every bound.
pub proof fn lemma_rank_exists(references: Seq<Address>, bound: int)
    requires
        rising(references),
    ensures
        is_rank(references, bound, rank_of(references, bound)),
    decreases references.len(),
{
    if references.len() == 0 {
        assert(is_rank(references, bound, 0));
    } else {
        let front = references.drop_last();
        assert forall|i: int, j: int| 0 <= i < j < front.len() implies (#[trigger] front[i]).0 < (
        #[trigger] front[j]).0 by {
            assert(references[i].0 < references[j].0);
        }
        lemma_rank_exists(front, bound);
        let below = rank_of(front, bound);
        if references.last().0 < bound {
            assert forall|i: int| 0 <= i < references.len() implies (#[trigger] references[i]).0
                < bound by {
                if i < references.len() - 1 {
                    assert(references[i].0 < references[references.len() - 1].0);
                }
            }
            assert(is_rank(references, bound, references.len() as int));
        } else {
            assert forall|i: int| 0 <= i < below implies (#[trigger] references[i]).0 < bound by {
                assert(front[i].0 < bound);
            }
            assert forall|i: int| below <= i < references.len() implies (
            #[trigger] references[i]).0 >= bound by {
                if i < front.len() {
                    assert(front[i].0 >= bound);
                }
            }
            assert(is_rank(references, bound, below));
        }
    }
}

/// What a lookup finds after an object was put into the registry: the new object
/// at its own start, and what it found before everywhere else.
pub proof fn lemma_lookup_inserted(objects: Seq<ObjectInfo>, object: ObjectInfo, start: Address)
    requires
        registry(objects),
        object.fits(),
        !crowded(objects, object.start, object.size),
    ensures
        registry(inserted(objects, object)),
        lookup(inserted(objects, object), start) == if start == object.start {
            Some(object)
        } else {
            lookup(objects, start)
        },
{
    lemma_slot_exists(objects, object.start);
    lemma_inserted_registry(objects, object);
    let at = slot_of(objects, object.start);
    let after = inserted(objects, object);
    if start == object.start {
        assert(after[at] == object);
        lemma_lookup_is(after, at);
    } else if known(objects, start) {
        let i = choose|i: int| 0 <= i < objects.len() && (#[trigger] objects[i]).start == start;
        lemma_lookup_is(objects, i);
        let j = if i < at { i } else { i + 1 };
        assert(after[j] == objects[i]);
        lemma_lookup_is(after, j);
    } else {
        if known(after, start) {
            let j = choose|j: int| 0 <= j < after.len() && (#[trigger] after[j]).start == start;
            let i = if j < at { j } else { j - 1 };
            assert(objects[i].start == start);
        }
    }
}

/// What owns an address after an object was put into the registry: the new
/// object where it contains the address, and the owner of before otherwise.
pub proof fn lemma_owner_inserted(objects: Seq<ObjectInfo>, object: ObjectInfo, target: Address)
    requires
        registry(objects),
        object.fits(),
        !crowded(objects, object.start, object.size),
    ensures
        owner(inserted(objects, object), target) == if object.contains(target) {
            Some(object)
        } else {
            owner(objects, target)
        },
{
    lemma_slot_exists(objects, object.start);
    lemma_inserted_registry(objects, object);
    let at = slot_of(objects, object.start);
    let after = inserted(objects, object);
    if object.contains(target) {
        assert(after[at] == object);
        lemma_owner_is(after, at, target);
    } else if covered(objects, target) {
        let i = choose|i: int| 0 <= i < objects.len() && (#[trigger] objects[i]).contains(target);
        lemma_owner_is(objects, i, target);
        let j = if i < at { i } else { i + 1 };
        assert(after[j] == objects[i]);
        lemma_owner_is(after, j, target);
    } else {
        if covered(after, target) {
            let j = choose|j: int| 0 <= j < after.len() && (#[trigger] after[j]).contains(target);
            let i = if j < at { j } else { j - 1 };
            assert(objects[i].contains(target));
        }
    }
}

/// An object that is put into the registry adds its own bytes to those written
/// in full, if it is written in full, and nothing otherwise.
pub proof fn lemma_emitted_bytes_insert(objects: Seq<ObjectInfo>, at: int, object: ObjectInfo)
    requires
        0 <= at <= objects.len(),
    ensures
        emitted_bytes(objects.insert(at, object)) == emitted_bytes(objects) + footprint(object),
    decreases objects.len() - at,
{
    let after = objects.insert(at, object);
    if at == objects.len() {
        assert(after.drop_last() =~= objects);
    } else {
        assert(after.drop_last() =~= objects.drop_last().insert(at, object));
        lemma_emitted_bytes_insert(objects.drop_last(), at, object);
    }
}

/// An object whose state changes takes its bytes to or from those written in
/// full.
pub proof fn lemma_emitted_bytes_update(objects: Seq<ObjectInfo>, at: int, object: ObjectInfo)
    requires
        0 <= at < objects.len(),
    ensures
        emitted_bytes(objects.update(at, object)) == emitted_bytes(objects) - footprint(
            objects[at],
        ) + footprint(object),
    decreases objects.len() - at,
{
    let after = objects.update(at, object);
    if at == objects.len() - 1 {
        assert(after.drop_last() =~= objects.drop_last());
    } else {
        assert(after.drop_last() =~= objects.drop_last().update(at, object));
        lemma_emitted_bytes_update(objects.drop_last(), at, object);
    }
}

/// Bindings put no bytes into the image.
pub proof fn lemma_written_bindings(image: Seq<DirectiveView>, targets: Seq<Address>, start: Address)
    ensures
        written(image + bindings(targets, start)) == written(image),
    decreases targets.len(),
{
    let all = bindings(targets, start);
    if targets.len() == 0 {
        assert(image + all =~= image);
    } else {
        let front = bindings(targets.drop_last(), start);
        assert(image + all =~= (image + front).push(all.last()));
        lemma_written_push(image + front, all.last());
        lemma_written_bindings(image, targets.drop_last(), start);
    }
}

/// Every state can follow from itself.
pub proof fn lemma_evolves_reflexive(state: DumpState)
    ensures
        state.evolves(state),
{
    lemma_keeps_reflexive(state);
    assert(state.tags.subrange(0, state.tags.len() as int) =~= state.tags);
}

/// What can follow from what can follow can follow.
pub proof fn lemma_evolves_transitive(first: DumpState, second: DumpState, third: DumpState)
    requires
        first.evolves(second),
        second.evolves(third),
    ensures
        first.evolves(third),
{
    lemma_keeps_transitive(first, second, third);
    assert(third.tags.subrange(0, first.tags.len() as int) =~= second.tags.subrange(
        0,
        first.tags.len() as int,
    ));
    assert forall|start: Address| (#[trigger] lookup(first.objects, start)) is Some implies lookup(
        third.objects,
        start,
    ) == lookup(first.objects, start) by {
        assert(lookup(second.objects, start) == lookup(first.objects, start));
    }
    assert forall|start: Address| lookup(first.objects, start) is None implies (match #[trigger] lookup(
        third.objects,
        start,
    ) {
        Some(object) => object.state == ObjectState::Pending,
        None => true,
    }) by {
        if lookup(second.objects, start) is Some {
            assert(lookup(third.objects, start) == lookup(second.objects, start));
        }
    }
}

/// Padding keeps the state well formed.
pub proof fn lemma_padded(state: DumpState, size: usize)
    requires
        state.wf(),
    ensures
        state.padded(size).state.wf(),
        state.evolves(state.padded(size).state),
{
    lemma_evolves_reflexive(state);
    if state.room(size as int) && size != 0 {
        lemma_written_push(state.image, DirectiveView::Skip(size));
        let after = state.padded(size).state;
        lemma_linked_pushed(state, DirectiveView::Skip(size));
        lemma_linked_same(state.appended(DirectiveView::Skip(size)), after);
        lemma_placed_padded(state, size);
        lemma_keeps_padded(state, size);
        assert(after.tags.subrange(0, state.tags.len() as int) =~= state.tags);
    }
}

/// Raw bytes keep the state well formed.
pub proof fn lemma_valued(state: DumpState, bytes: Seq<u8>)
    requires
        state.wf(),
    ensures
        state.valued(bytes).state.wf(),
        state.evolves(state.valued(bytes).state),
{
    lemma_evolves_reflexive(state);
    if state.room(bytes.len() as int) {
        lemma_written_bytes(state.image, bytes);
        let after = state.valued(bytes).state;
        lemma_linked_bytes(state, bytes);
        lemma_linked_same(DumpState { image: with_bytes(state.image, bytes), ..state }, after);
        lemma_placed_valued(state, bytes);
        lemma_keeps_valued(state, bytes);
        assert(after.tags.subrange(0, state.tags.len() as int) =~= state.tags);
    }
}

/// A pointer keeps the state well formed.
pub proof fn lemma_referenced(state: DumpState, target: Address)
    requires
        state.wf(),
    ensures
        state.referenced(target).state.wf(),
        state.evolves(state.referenced(target).state),
{
    lemma_evolves_reflexive(state);
    if state.room(word() as int) {
        lemma_written_pointer(state.image, state.label_of(target));
        let after = state.referenced(target).state;
        lemma_rank_exists(state.references, target.0 as int);
        lemma_linked_pointed(state, target);
        lemma_placed_pointer(state, state.label_of(target), after);
        lemma_keeps_pointer(state, state.label_of(target), after);
        assert(after.tags.subrange(0, state.tags.len() as int) =~= state.tags);
        if owner(state.objects, target) is None {
            lemma_rank_exists(state.references, target.0 as int);
            lemma_with_reference(state.references, target);
            assert forall|i: int| 0 <= i < after.references.len() implies owner(
                after.objects,
                #[trigger] after.references[i],
            ) is None by {
                let other = after.references[i];
                assert(after.references.contains(other));
                if other != target {
                    assert(state.references.contains(other));
                    let j = choose|j: int|
                        0 <= j < state.references.len() && state.references[j] == other;
                    assert(owner(state.objects, state.references[j]) is None);
                }
            }
        }
    }
}

/// The discovery of an object keeps the state well formed.
pub proof fn lemma_discovered(state: DumpState, object: ObjectInfo)
    requires
        state.wf(),
        object.fits(),
        object.state == ObjectState::Pending,
        !crowded(state.objects, object.start, object.size),
        lookup(state.objects, object.start) is None,
    ensures
        state.discovered(object).wf(),
        state.evolves(state.discovered(object)),
{
    let after = state.discovered(object);
    lemma_slot_exists(state.objects, object.start);
    lemma_inserted_registry(state.objects, object);
    lemma_rank_exists(state.references, object.start.0 as int);
    lemma_rank_exists(state.references, object.start.0 + object.size);
    lemma_inside_outside(state.references, object.start, object.size);
    lemma_written_bindings(
        state.image,
        inside(state.references, object.start, object.size),
        object.start,
    );
    lemma_emitted_bytes_insert(state.objects, slot_of(state.objects, object.start), object);
    assert forall|start: Address| #[trigger]
        lookup(inserted(state.objects, object), start) == if start == object.start {
            Some(object)
        } else {
            lookup(state.objects, start)
        } by {
        lemma_lookup_inserted(state.objects, object, start);
    }
    lemma_linked_discovered(state, object);
    assert forall|target: Address| #[trigger]
        owner(inserted(state.objects, object), target) == if object.contains(target) {
            Some(object)
        } else {
            owner(state.objects, target)
        } by {
        lemma_owner_inserted(state.objects, object, target);
    }
    lemma_placed_discovered(state, object);
    lemma_keeps_discovered(state, object);
    assert(after.tags.subrange(0, state.tags.len() as int) =~= state.tags);
    assert forall|i: int| 0 <= i < after.references.len() implies owner(
        after.objects,
        #[trigger] after.references[i],
    ) is None by {
        let other = after.references[i];
        assert(after.references.contains(other));
        assert(state.references.contains(other) && !other.within(
            object.start,
            object.size as int,
        ));
        let j = choose|j: int| 0 <= j < state.references.len() && state.references[j] == other;
        assert(owner(state.objects, state.references[j]) is None);
        lemma_owner_inserted(state.objects, object, other);
    }
    let at = slot_of(state.objects, object.start);
    assert forall|i: int|
        0 <= i < after.objects.len() && (#[trigger] after.objects[i]).state
            == ObjectState::Emitting implies after.emitting == Some(after.objects[i]) by {
        if i < at {
            assert(after.objects[i] == state.objects[i]);
        } else if i > at {
            assert(after.objects[i] == state.objects[i - 1]);
        }
    }
    assert forall|start: Address| (#[trigger] lookup(state.objects, start)) is Some implies lookup(
        after.objects,
        start,
    ) == lookup(state.objects, start) by {
        lemma_lookup_inserted(state.objects, object, start);
    }
    assert forall|start: Address| lookup(state.objects, start) is None implies (match #[trigger] lookup(
        after.objects,
        start,
    ) {
        Some(found) => found.state == ObjectState::Pending,
        None => true,
    }) by {
        lemma_lookup_inserted(state.objects, object, start);
    }
    if state.emitting is Some {
        lemma_lookup_inserted(state.objects, object, state.emitting->0.start);
    }
}

/// A registration keeps the state well formed.
pub proof fn lemma_registered(
    state: DumpState,
    value: Address,
    dump: DumpFunction,
    start: Address,
    size: usize,
    alignment: usize,
)
    requires
        state.wf(),
        layout_allowed(start, size, alignment),
    ensures
        state.registered(value, dump, start, size, alignment).state.wf(),
        state.evolves(state.registered(value, dump, start, size, alignment).state),
{
    lemma_evolves_reflexive(state);
    if state.refusal(start, size, alignment) is None && lookup(state.objects, start) is None {
        lemma_discovered(
            state,
            ObjectInfo { start, size, alignment, value, dump, state: ObjectState::Pending },
        );
    }
}

/// A registration with a pointer keeps the state well formed.
pub proof fn lemma_object_referenced(
    state: DumpState,
    value: Address,
    dump: DumpFunction,
    start: Address,
    size: usize,
    alignment: usize,
    offset: isize,
)
    requires
        state.wf(),
        layout_allowed(start, size, alignment),
    ensures
        state.object_referenced(value, dump, start, size, alignment, offset).state.wf(),
        state.evolves(state.object_referenced(value, dump, start, size, alignment, offset).state),
{
    lemma_evolves_reflexive(state);
    lemma_registered(state, value, dump, start, size, alignment);
    let registered = state.registered(value, dump, start, size, alignment);
    if state.room(word() as int) && registered.fault is None {
        let middle = registered.state;
        let after = state.object_referenced(value, dump, start, size, alignment, offset).state;
        let label = crate::label::Label::object(start).moved(offset);
        lemma_written_pointer(middle.image, label);
        if lookup(state.objects, start) is None {
            lemma_lookup_inserted(
                state.objects,
                ObjectInfo { start, size, alignment, value, dump, state: ObjectState::Pending },
                start,
            );
        }
        lemma_linked_object_pointer(middle, label);
        lemma_linked_same(DumpState { image: with_pointer(middle.image, label), ..middle }, after);
        lemma_placed_pointer(middle, label, after);
        lemma_keeps_pointer(middle, label, after);
        assert(after.tags.subrange(0, middle.tags.len() as int) =~= middle.tags);
        assert(middle.evolves(after));
        lemma_evolves_transitive(state, middle, after);
    }
}

/// A tag keeps the state well formed.
pub proof fn lemma_tagged(state: DumpState, address: Address, tag: usize)
    requires
        state.wf(),
    ensures
        state.tagged(address, tag).wf(),
        state.evolves(state.tagged(address, tag)),
{
    let after = state.tagged(address, tag);
    lemma_linked_same(state, after);
    lemma_placed_same(state, after);
    lemma_keeps_same(state, after);
    assert(after.tags.subrange(0, state.tags.len() as int) =~= state.tags);
}

/// Another position keeps the state well formed.
pub proof fn lemma_positioned(state: DumpState, position: Address)
    requires
        state.wf(),
    ensures
        state.positioned(position).wf(),
        state.evolves(state.positioned(position)),
        state.positioned(position).position() == position,
{
    let after = state.positioned(position);
    lemma_linked_same(state, after);
    lemma_placed_same(state, after);
    lemma_keeps_same(state, after);
    assert(after.tags.subrange(0, state.tags.len() as int) =~= state.tags);
}

/// Another offset keeps the state well formed.
pub proof fn lemma_with_offset(state: DumpState, offset: isize)
    requires
        state.wf(),
    ensures
        state.with_offset(offset).wf(),
        state.evolves(state.with_offset(offset)),
{
    let after = state.with_offset(offset);
    lemma_linked_same(state, after);
    lemma_placed_same(state, after);
    lemma_keeps_same(state, after);
    assert(after.tags.subrange(0, state.tags.len() as int) =~= state.tags);
}

/// In a registry, the place of an object is the number of objects that start
/// below it.
pub proof fn lemma_slot_is(objects: Seq<ObjectInfo>, at: int)
    requires
        registry(objects),
        0 <= at < objects.len(),
    ensures
        slot_of(objects, objects[at].start) == at,
{
    assert forall|i: int| 0 <= i < at implies (#[trigger] objects[i]).start.0
        < objects[at].start.0 by {
        assert(objects[i].end() <= objects[at].start.0);
        assert(objects[i].fits());
    }
    assert forall|i: int| at <= i < objects.len() implies (#[trigger] objects[i]).start.0
        >= objects[at].start.0 by {
        if at < i {
            assert(objects[at].end() <= objects[i].start.0);
            assert(objects[at].fits());
        }
    }
    crate::registry::lemma_slot_unique(objects, objects[at].start, at);
}

/// What a known object is found as after its state was changed, and that
/// nothing else about the registry has changed.
pub proof fn lemma_marked(objects: Seq<ObjectInfo>, at: int, state: ObjectState)
    requires
        registry(objects),
        0 <= at < objects.len(),
    ensures
        marked(objects, objects[at].start, state) == objects.update(
            at,
            objects[at].in_state(state),
        ),
        registry(marked(objects, objects[at].start, state)),
        forall|start: Address|
            #[trigger] lookup(marked(objects, objects[at].start, state), start) == if start
                == objects[at].start {
                Some(objects[at].in_state(state))
            } else {
                lookup(objects, start)
            },
        forall|target: Address|
            #[trigger] owner(marked(objects, objects[at].start, state), target) is None
                <==> owner(objects, target) is None,
        emitted_bytes(marked(objects, objects[at].start, state)) == emitted_bytes(objects)
            - footprint(objects[at]) + footprint(objects[at].in_state(state)),
{
    lemma_slot_is(objects, at);
    let after = marked(objects, objects[at].start, state);
    assert(after == objects.update(at, objects[at].in_state(state)));
    assert forall|i: int, j: int| 0 <= i < j < after.len() implies (#[trigger] after[i]).end() <= (
    #[trigger] after[j]).start.0 by {
        assert(objects[i].end() <= objects[j].start.0);
    }
    assert forall|i: int| 0 <= i < after.len() implies (#[trigger] after[i]).fits() by {
        assert(objects[i].fits());
    }
    assert forall|start: Address| #[trigger]
        lookup(after, start) == if start == objects[at].start {
            Some(objects[at].in_state(state))
        } else {
            lookup(objects, start)
        } by {
        if start == objects[at].start {
            lemma_lookup_is(after, at);
        } else if known(objects, start) {
            let i = choose|i: int| 0 <= i < objects.len() && (#[trigger] objects[i]).start == start;
            lemma_lookup_is(objects, i);
            assert(after[i] == objects[i]);
            lemma_lookup_is(after, i);
        } else if known(after, start) {
            let i = choose|i: int| 0 <= i < after.len() && (#[trigger] after[i]).start == start;
            assert(objects[i].start == start);
        }
    }
    assert forall|target: Address| #[trigger]
        owner(after, target) is None <==> owner(objects, target) is None by {
        if covered(objects, target) {
            let i = choose|i: int| 0 <= i < objects.len() && (#[trigger] objects[i]).contains(target);
            assert(after[i].contains(target));
        }
        if covered(after, target) {
            let i = choose|i: int| 0 <= i < after.len() && (#[trigger] after[i]).contains(target);
            assert(objects[i].contains(target));
        }
    }
    lemma_emitted_bytes_update(objects, at, objects[at].in_state(state));
}

/// What owns an address after the state of a known object was changed: the
/// owner of before, in its new state where it is that object.
pub proof fn lemma_owner_marked(
    objects: Seq<ObjectInfo>,
    at: int,
    state: ObjectState,
    target: Address,
)
    requires
        registry(objects),
        0 <= at < objects.len(),
    ensures
        owner(marked(objects, objects[at].start, state), target) == match owner(objects, target) {
            Some(object) => Some(
                if object.start == objects[at].start {
                    object.in_state(state)
                } else {
                    object
                },
            ),
            None => None,
        },
{
    lemma_marked(objects, at, state);
    let after = marked(objects, objects[at].start, state);
    if covered(objects, target) {
        let i = choose|i: int| 0 <= i < objects.len() && (#[trigger] objects[i]).contains(target);
        lemma_owner_is(objects, i, target);
        assert(after[i].contains(target));
        lemma_owner_is(after, i, target);
        if i != at {
            assert(objects[i].end() <= objects[at].start.0 || objects[at].end()
                <= objects[i].start.0);
            assert(objects[i].fits());
        }
    }
}

/// The directives before an object put as many bytes into the image as the
/// alignment of its header says.
pub proof fn lemma_written_opening(
    image: Seq<DirectiveView>,
    object: ObjectInfo,
    name: Option<Seq<char>>,
)
    requires
        word() <= header_alignment(object.alignment) <= usize::MAX,
    ensures
        written(image + opening(object, name)) == written(image) + header_alignment(
            object.alignment,
        ),
{
    let own = crate::label::LabelName::Object(object.start);
    let head = header(object.size, object.alignment);
    match name {
        Some(name) => {
            let global = crate::label::LabelName::Global(name);
            let a = image.push(DirectiveView::Global(global));
            let b = a.push(DirectiveView::TypeObject(global));
            let c = b.push(DirectiveView::Size(global, object.size));
            let d = c.push(DirectiveView::TypeObject(own));
            lemma_written_push(image, DirectiveView::Global(global));
            lemma_written_push(a, DirectiveView::TypeObject(global));
            lemma_written_push(b, DirectiveView::Size(global, object.size));
            lemma_written_push(c, DirectiveView::TypeObject(own));
            lemma_header_written(d, object.size, object.alignment);
            let e = (d + head).push(DirectiveView::Declare(global));
            lemma_written_push(d + head, DirectiveView::Declare(global));
            lemma_written_push(e, DirectiveView::Declare(own));
            assert(image + opening(object, Some(name)) =~= e.push(DirectiveView::Declare(own)));
        },
        None => {
            let a = image.push(DirectiveView::TypeObject(own));
            lemma_written_push(image, DirectiveView::TypeObject(own));
            lemma_header_written(a, object.size, object.alignment);
            lemma_written_push(a + head, DirectiveView::Declare(own));
            assert(image + opening(object, None) =~= (a + head).push(DirectiveView::Declare(own)));
        },
    }
}

/// The directives behind an object put as many bytes into the image as the
/// object still lacks.
pub proof fn lemma_written_closing(image: Seq<DirectiveView>, object: ObjectInfo, cursor: Address)
    requires
        object.fits(),
        cursor.0 <= object.end(),
    ensures
        written(image + closing(object, cursor)) == written(image) + object.end() - cursor.0,
{
    let size = DirectiveView::Size(crate::label::LabelName::Object(object.start), object.size);
    if cursor.0 < object.end() {
        let skip = DirectiveView::Skip((object.end() - cursor.0) as usize);
        lemma_written_push(image, skip);
        lemma_written_push(image.push(skip), size);
        assert(image + closing(object, cursor) =~= image.push(skip).push(size));
    } else {
        lemma_written_push(image, size);
        assert(image + closing(object, cursor) =~= image.push(size));
    }
}

/// The alignment of a header is at least a word and fits an unsigned number,
/// for every alignment that an object can have.
pub proof fn lemma_header_alignment(alignment: usize)
    requires
        alignment > 0,
        alignment * word() <= usize::MAX,
    ensures
        word() <= header_alignment(alignment) <= alignment * word(),
        header_alignment(alignment) % (word() as int) == 0,
        header_alignment(alignment) % (alignment as int) == 0,
{
    let w = word() as int;
    let a = alignment as int;
    let product = w * a;
    assert(product > 0 && product % w == 0 && product % a == 0) by (nonlinear_arith)
        requires
            product == w * a,
            w > 0,
            a > 0,
    ;
    lemma_least_multiple(w, a, product);
    let m = header_alignment(alignment);
    assert(crate::layout::is_lcm(m, w, a));
    if m < w {
        vstd::arithmetic::div_mod::lemma_small_mod(m as nat, w as nat);
    }
    assert(product == alignment * word()) by (nonlinear_arith)
        requires
            product == w * a,
            w == word(),
            a == alignment,
    ;
}

/// Two positive numbers that have a common multiple have a least one.
pub proof fn lemma_least_multiple(a: int, b: int, bound: int)
    requires
        a > 0,
        b > 0,
        bound > 0,
        bound % a == 0,
        bound % b == 0,
    ensures
        crate::layout::is_lcm(crate::layout::least_common_multiple(a, b), a, b),
        crate::layout::least_common_multiple(a, b) <= bound,
    decreases bound,
{
    if exists|c: int| 0 < c < bound && #[trigger] (c % a) == 0 && c % b == 0 {
        let c = choose|c: int| 0 < c < bound && #[trigger] (c % a) == 0 && c % b == 0;
        lemma_least_multiple(a, b, c);
    } else {
        assert(crate::layout::is_lcm(bound, a, b));
        crate::layout::lemma_lcm_unique(bound, a, b);
    }
}

/// The header of a known object keeps the state well formed.
pub proof fn lemma_begun(state: DumpState, at: int, name: Option<Seq<char>>)
    requires
        state.wf(),
        state.idle(),
        0 <= at < state.objects.len(),
        state.objects[at].state == ObjectState::Pending,
    ensures
        state.begun(state.objects[at].start, name).wf(),
        state.begun(state.objects[at].start, name).emitting == Some(
            state.objects[at].in_state(ObjectState::Emitting),
        ),
        state.begun(state.objects[at].start, name).objects == state.objects.update(
            at,
            state.objects[at].in_state(ObjectState::Emitting),
        ),
{
    let object = state.objects[at];
    let after = state.begun(object.start, name);
    lemma_lookup_is(state.objects, at);
    lemma_marked(state.objects, at, ObjectState::Emitting);
    assert(object.fits());
    lemma_header_alignment(object.alignment);
    lemma_written_opening(state.image, object, name);
    lemma_linked_begun(state, object, name, after);
    assert forall|target: Address| #[trigger]
        owner(after.objects, target) == match owner(state.objects, target) {
            Some(found) => Some(
                if found.start == object.start {
                    found.in_state(ObjectState::Emitting)
                } else {
                    found
                },
            ),
            None => None,
        } by {
        lemma_owner_marked(state.objects, at, ObjectState::Emitting, target);
    }
    lemma_placed_begun(state, object, name, after);
    assert forall|i: int| 0 <= i < after.references.len() implies owner(
        after.objects,
        #[trigger] after.references[i],
    ) is None by {
        assert(owner(state.objects, state.references[i]) is None);
    }
    assert forall|i: int|
        0 <= i < after.objects.len() && (#[trigger] after.objects[i]).state
            == ObjectState::Emitting implies after.emitting == Some(after.objects[i]) by {
        if i != at {
            assert(state.objects[i].state == ObjectState::Emitting);
        }
    }
}

/// The end of the object that is being written keeps the state well formed.
pub proof fn lemma_ended(state: DumpState)
    requires
        state.wf(),
        state.emitting is Some,
    ensures
        state.ended().wf(),
        state.ended().idle(),
        written(state.ended().image) == written(state.image) + state.emitting->0.end()
            - state.cursor.0,
        state.ended().cursor.0 == state.emitting->0.end(),
        forall|start: Address|
            #[trigger] lookup(state.ended().objects, start) == if start
                == state.emitting->0.start {
                Some(state.emitting->0.in_state(ObjectState::Emitted))
            } else {
                lookup(state.objects, start)
            },
{
    let object = state.emitting->0;
    let after = state.ended();
    assert(known(state.objects, object.start));
    let at = choose|i: int|
        0 <= i < state.objects.len() && (#[trigger] state.objects[i]).start == object.start;
    lemma_lookup_is(state.objects, at);
    lemma_marked(state.objects, at, ObjectState::Emitted);
    assert(object.fits());
    lemma_header_alignment(object.alignment);
    lemma_written_closing(state.image, object, state.cursor);
    lemma_linked_ended(state, object, after);
    assert forall|target: Address| #[trigger]
        owner(after.objects, target) == match owner(state.objects, target) {
            Some(found) => Some(
                if found.start == object.start {
                    found.in_state(ObjectState::Emitted)
                } else {
                    found
                },
            ),
            None => None,
        } by {
        lemma_owner_marked(state.objects, at, ObjectState::Emitted, target);
    }
    lemma_placed_ended(state, object, after);
    assert forall|i: int| 0 <= i < after.references.len() implies owner(
        after.objects,
        #[trigger] after.references[i],
    ) is None by {
        assert(owner(state.objects, state.references[i]) is None);
    }
    assert forall|i: int| 0 <= i < after.objects.len() implies (#[trigger] after.objects[i]).state
        != ObjectState::Emitting by {
        if i != at {
            if state.objects[i].state == ObjectState::Emitting {
                assert(state.emitting == Some(state.objects[i]));
                assert(state.objects[at].end() <= state.objects[i].start.0 || state.objects[i].end()
                    <= state.objects[at].start.0);
            }
        }
    }
}

/// The header of a root keeps the state well formed.
pub proof fn lemma_root_begun(
    state: DumpState,
    name: Seq<char>,
    value: Address,
    dump: DumpFunction,
    size: usize,
    alignment: usize,
)
    requires
        state.wf(),
        state.idle(),
        layout_allowed(value, size, alignment),
    ensures
        state.root_begun(name, value, dump, size, alignment).state.wf(),
        state.grows(state.root_begun(name, value, dump, size, alignment).state),
        unemitted(state.root_begun(name, value, dump, size, alignment).state.objects) == unemitted(
            state.objects,
        ),
        state.root_begun(name, value, dump, size, alignment).fault is None ==> {
            &&& state.root_begun(name, value, dump, size, alignment).state.emitting == Some(
                state.root_entry(value, dump, size, alignment).in_state(ObjectState::Emitting),
            )
            &&& state.root_entry(value, dump, size, alignment).start == value
            &&& state.root_entry(value, dump, size, alignment).size == size
            &&& state.root_entry(value, dump, size, alignment).alignment == alignment
            &&& state.root_begun(name, value, dump, size, alignment).state.cursor == value
            &&& state.root_begun(name, value, dump, size, alignment).state.tags == state.tags
            &&& written(state.root_begun(name, value, dump, size, alignment).state.image)
                == written(state.image) + header_alignment(alignment)
        },
{
    lemma_grows_reflexive(state);
    if state.root_refusal(value, size, alignment) is None {
        let entry = state.root_entry(value, dump, size, alignment);
        lemma_header_alignment(alignment);
        lemma_written_bindings(state.image, inside(state.references, value, size), value);
        if known(state.objects, value) {
            lemma_written_opening(state.image, entry, Some(name));
        } else {
            lemma_written_opening(state.discovered(entry).image, entry, Some(name));
        }
        if known(state.objects, value) {
            let at = choose|i: int|
                0 <= i < state.objects.len() && (#[trigger] state.objects[i]).start == value;
            lemma_lookup_is(state.objects, at);
            lemma_begun(state, at, Some(name));
            lemma_unemitted_begun(state, at, Some(name));
        } else {
            let object = state.root_entry(value, dump, size, alignment);
            lemma_discovered(state, object);
            let middle = state.discovered(object);
            lemma_slot_exists(state.objects, value);
            let at = slot_of(state.objects, value);
            assert(middle.objects[at] == object);
            lemma_lookup_is(middle.objects, at);
            lemma_begun(middle, at, Some(name));
            lemma_unemitted_begun(middle, at, Some(name));
            lemma_unemitted_evolves(state, middle);
            lemma_grows_transitive(state, middle, middle.begun(value, Some(name)));
        }
    }
}

/// The end of the image keeps the state well formed.
pub proof fn lemma_finished(state: DumpState)
    requires
        state.wf(),
    ensures
        state.finished().state.wf(),
        state.keeps(state.finished().state),
{
    lemma_keeps_reflexive(state);
    if state.references.len() == 0 {
        let global = crate::label::LabelName::Global(crate::state::end_name());
        let a = state.image.push(DirectiveView::Global(global));
        let b = a.push(DirectiveView::Declare(global));
        lemma_written_push(state.image, DirectiveView::Global(global));
        lemma_written_push(a, DirectiveView::Declare(global));
        lemma_written_push(b, DirectiveView::End);
        assert(state.finished().state.image =~= b.push(DirectiveView::End));
        let tail = seq![
            DirectiveView::Global(global),
            DirectiveView::Declare(global),
            DirectiveView::End,
        ];
        assert forall|i: int| 0 <= i < tail.len() implies (#[trigger] plain(tail[i])) by {}
        lemma_linked_plain(state, state.finished().state, tail);
        assert forall|i: int| 0 <= i < tail.len() implies crate::assembly::content(
            #[trigger] tail[i],
        ).len() == 0 && !crate::assembly::moves(tail[i]) by {}
        lemma_placed_finished(state, tail, state.finished().state);
        lemma_keeps_inert(state, tail, state.finished().state);
    }
}

/// A dump that has just begun is in a state that a dump can be in.
pub proof fn lemma_initial()
    ensures
        DumpState::initial().wf(),
        DumpState::initial().idle(),
{
    lemma_linked_initial();
    lemma_placed_initial();
    let name = crate::label::LabelName::Global(crate::state::start_name());
    let a = Seq::<DirectiveView>::empty().push(DirectiveView::Start);
    let b = a.push(DirectiveView::Data);
    let c = b.push(DirectiveView::Global(name));
    lemma_written_push(Seq::<DirectiveView>::empty(), DirectiveView::Start);
    lemma_written_push(a, DirectiveView::Data);
    lemma_written_push(b, DirectiveView::Global(name));
    lemma_written_push(c, DirectiveView::Declare(name));
    assert(DumpState::initial().image =~= c.push(DirectiveView::Declare(name)));
}

/// The objects written in full are finitely many, and no more than there are
/// addresses.
pub proof fn lemma_unemitted_bounds(objects: Seq<ObjectInfo>)
    ensures
        emitted_set(objects).finite(),
        0 <= unemitted(objects) <= crate::address::address_space(),
{
    let all = vstd::set_lib::set_int_range(0, crate::address::address_space());
    vstd::set_lib::lemma_int_range(0, crate::address::address_space());
    assert(emitted_set(objects).subset_of(all));
    vstd::set_lib::lemma_len_subset(emitted_set(objects), all);
}

/// What a traversal routine does leaves the objects written in full as they
/// were.
pub proof fn lemma_unemitted_evolves(before: DumpState, after: DumpState)
    requires
        before.evolves(after),
    ensures
        emitted_set(after.objects) == emitted_set(before.objects),
        before.grows(after),
{
    assert forall|start: int| emitted_at(after.objects, start) == emitted_at(
        before.objects,
        start,
    ) by {
        if 0 <= start <= usize::MAX {
            let address = Address(start as usize);
            if lookup(before.objects, address) is Some {
                assert(lookup(after.objects, address) == lookup(before.objects, address));
            } else {
                assert(lookup(before.objects, address) is None);
                assert(match lookup(after.objects, address) {
                    Some(object) => object.state == ObjectState::Pending,
                    None => true,
                });
            }
        }
    }
    assert(emitted_set(after.objects) =~= emitted_set(before.objects));
}

/// Every state can follow from itself in the course of a dump.
pub proof fn lemma_grows_reflexive(state: DumpState)
    ensures
        state.grows(state),
{
    lemma_keeps_reflexive(state);
    assert(state.tags.subrange(0, state.tags.len() as int) =~= state.tags);
}

/// What can follow from what can follow in the course of a dump can follow.
pub proof fn lemma_grows_transitive(first: DumpState, second: DumpState, third: DumpState)
    requires
        first.grows(second),
        second.grows(third),
    ensures
        first.grows(third),
{
    lemma_keeps_transitive(first, second, third);
    assert(third.tags.subrange(0, first.tags.len() as int) =~= second.tags.subrange(
        0,
        first.tags.len() as int,
    ));
    assert forall|start: Address|
        kept(#[trigger] lookup(first.objects, start), lookup(third.objects, start)) by {
        assert(kept(lookup(first.objects, start), lookup(second.objects, start)));
        assert(kept(lookup(second.objects, start), lookup(third.objects, start)));
    }
}

/// The header of a known object leaves the objects written in full as they
/// were.
pub proof fn lemma_unemitted_begun(state: DumpState, at: int, name: Option<Seq<char>>)
    requires
        state.wf(),
        state.idle(),
        0 <= at < state.objects.len(),
        state.objects[at].state == ObjectState::Pending,
    ensures
        emitted_set(state.begun(state.objects[at].start, name).objects) == emitted_set(
            state.objects,
        ),
        state.grows(state.begun(state.objects[at].start, name)),
{
    let after = state.begun(state.objects[at].start, name);
    lemma_marked(state.objects, at, ObjectState::Emitting);
    lemma_lookup_is(state.objects, at);
    lemma_keeps_begun(state, state.objects[at], name, after);
    assert forall|start: int| emitted_at(after.objects, start) == emitted_at(
        state.objects,
        start,
    ) by {
        if 0 <= start <= usize::MAX {
            let address = Address(start as usize);
            assert(lookup(after.objects, address) == if address == state.objects[at].start {
                Some(state.objects[at].in_state(ObjectState::Emitting))
            } else {
                lookup(state.objects, address)
            });
        }
    }
    assert(emitted_set(after.objects) =~= emitted_set(state.objects));
    assert(after.tags.subrange(0, state.tags.len() as int) =~= state.tags);
    assert forall|start: Address|
        kept(#[trigger] lookup(state.objects, start), lookup(after.objects, start)) by {
        assert(lookup(after.objects, start) == if start == state.objects[at].start {
            Some(state.objects[at].in_state(ObjectState::Emitting))
        } else {
            lookup(state.objects, start)
        });
    }
}

/// The end of the object that is being written makes it one more that is
/// written in full.
pub proof fn lemma_unemitted_ended(state: DumpState)
    requires
        state.wf(),
        state.emitting is Some,
    ensures
        unemitted(state.ended().objects) == unemitted(state.objects) - 1,
        state.grows(state.ended()),
{
    let object = state.emitting->0;
    let after = state.ended();
    lemma_ended(state);
    lemma_keeps_ended(state, object, after);
    lemma_unemitted_bounds(state.objects);
    let start = object.start.0 as int;
    assert forall|other: int| emitted_at(after.objects, other) == (other == start || emitted_at(
        state.objects,
        other,
    )) by {
        if 0 <= other <= usize::MAX {
            let address = Address(other as usize);
            assert(lookup(after.objects, address) == if address == object.start {
                Some(object.in_state(ObjectState::Emitted))
            } else {
                lookup(state.objects, address)
            });
        }
    }
    assert(!emitted_at(state.objects, start));
    assert(emitted_set(after.objects) =~= emitted_set(state.objects).insert(start));
    assert(after.tags.subrange(0, state.tags.len() as int) =~= state.tags);
    assert forall|address: Address|
        kept(#[trigger] lookup(state.objects, address), lookup(after.objects, address)) by {
        assert(lookup(after.objects, address) == if address == object.start {
            Some(object.in_state(ObjectState::Emitted))
        } else {
            lookup(state.objects, address)
        });
    }
}

/// A word keeps the state well formed, where the object that is being written
/// has room for it.
pub proof fn lemma_worded(state: DumpState, value: usize)
    requires
        state.wf(),
        state.room(word() as int),
    ensures
        state.worded(value).wf(),
        state.evolves(state.worded(value)),
{
    lemma_written_push(state.image, DirectiveView::Word(value));
    let after = state.worded(value);
    lemma_linked_pushed(state, DirectiveView::Word(value));
    lemma_linked_same(state.appended(DirectiveView::Word(value)), after);
    lemma_placed_worded(state, value);
    lemma_keeps_worded(state, value);
    assert(after.tags.subrange(0, state.tags.len() as int) =~= state.tags);
}

/// The tags of a table keep the state well formed, where the object that is
/// being written has room for them; and they take up two words each.
pub proof fn lemma_tags_written(state: DumpState, count: nat)
    requires
        state.wf(),
        count <= state.tags.len(),
        state.room(2 * count * word()),
    ensures
        state.tags_written(count).wf(),
        state.evolves(state.tags_written(count)),
        state.tags_written(count).cursor.0 == state.cursor.0 + 2 * count * word(),
        state.tags_written(count).tags == state.tags,
    decreases count,
{
    lemma_evolves_reflexive(state);
    let w = word() as int;
    if count == 0 {
        assert(2 * count * word() == 0) by (nonlinear_arith)
            requires
                count == 0,
        ;
    } else {
        let fewer = (count - 1) as nat;
        assert(2 * fewer * word() + 2 * w == 2 * count * word() && 2 * fewer * word() >= 0)
            by (nonlinear_arith)
            requires
                fewer == count - 1,
                w == word(),
                w >= 0,
                count >= 1,
        ;
        lemma_tags_written(state, fewer);
        let before = state.tags_written(fewer);
        let tag = state.tags[count - 1];
        assert(before.room(w));
        lemma_worded(before, tag.tag);
        let middle = before.worded(tag.tag);
        assert(middle.room(w));
        lemma_referenced(middle, tag.address);
        assert(middle.referenced(tag.address).state == middle.pointed(tag.address));
        lemma_evolves_transitive(state, before, middle);
        lemma_evolves_transitive(state, middle, middle.pointed(tag.address));
    }
}

/// What a table of tags that was written leaves: every object that was written
/// in full still is, the table is one of them, and the tags are as they were.
pub proof fn lemma_tabled(state: DumpState, position: Address)
    requires
        state.wf(),
        state.idle(),
        all_emitted(state.objects),
        table_fits(state.tags.len(), position),
        state.tabled(position).fault is None,
    ensures
        all_emitted(state.tabled(position).state.objects),
        state.tabled(position).state.idle(),
        state.tabled(position).state.tags == state.tags,
        lookup(state.tabled(position).state.objects, position) matches Some(table) && table.size
            == table_size(state.tags.len()),
{
    let w = word() as int;
    let count = state.tags.len();
    let size = table_size(count);
    assert(size == w + 2 * count * w && size >= w) by (nonlinear_arith)
        requires
            size == w * (1 + 2 * count),
            w >= 1,
            count >= 0,
    ;
    assert(w * w <= usize::MAX) by (nonlinear_arith)
        requires
            w == 4 || w == 8,
            usize::MAX >= 0xffff_ffff,
    ;
    assert(count <= size) by (nonlinear_arith)
        requires
            size == w * (1 + 2 * count),
            w >= 1,
            count >= 0,
    ;
    assert(2 * count * word() == 2 * count * w);
    lemma_root_begun(state, tags_name(), position, tags_function(), size as usize, word());
    let root = state.root_begun(tags_name(), position, tags_function(), size as usize, word()).state;
    lemma_worded(root, count as usize);
    let base = root.worded(count as usize);
    lemma_tags_written(base, count);
    let filled = base.tags_written(count);
    lemma_ended(filled);
    let after = filled.ended();
    let table = filled.emitting->0;
    lemma_evolves_transitive(root, base, filled);
    // Every object but the table was known before the table was begun.
    let object = ObjectInfo {
        start: position,
        size: size as usize,
        alignment: word(),
        value: position,
        dump: tags_function(),
        state: ObjectState::Pending,
    };
    if known(state.objects, position) {
        let i = choose|i: int|
            0 <= i < state.objects.len() && (#[trigger] state.objects[i]).start == position;
        assert(state.objects[i].fits());
        assert(state.objects[i].overlaps(position, size as usize));
    }
    lemma_discovered(state, object);
    let found = state.discovered(object);
    lemma_slot_exists(state.objects, position);
    let at = slot_of(state.objects, position);
    assert(found.objects[at] == object);
    lemma_begun(found, at, Some(tags_name()));
    assert forall|i: int| 0 <= i < root.objects.len() && i != at implies (
    #[trigger] root.objects[i]).state == ObjectState::Emitted by {
        let j = if i < at { i } else { i - 1 };
        assert(root.objects[i] == state.objects[j]);
    }
    assert forall|i: int| 0 <= i < after.objects.len() implies (#[trigger] after.objects[i]).state
        == ObjectState::Emitted by {
        let start = after.objects[i].start;
        lemma_lookup_is(after.objects, i);
        if start != table.start {
            assert(lookup(filled.objects, start) == Some(after.objects[i]));
            if lookup(root.objects, start) is Some {
                assert(lookup(filled.objects, start) == lookup(root.objects, start));
                assert(known(root.objects, start));
                let k = choose|k: int|
                    0 <= k < root.objects.len() && (#[trigger] root.objects[k]).start == start;
                lemma_lookup_is(root.objects, k);
                assert(k != at);
            } else {
                assert(after.objects[i].state == ObjectState::Pending);
                // Nothing is registered while the table is written.
                lemma_tags_keep_objects(base, count);
                assert(filled.objects == root.objects);
            }
        }
    }
}

/// The tags of a table are written without a registration.
pub proof fn lemma_tags_keep_objects(state: DumpState, count: nat)
    ensures
        state.tags_written(count).objects == state.objects,
        state.tags_written(count).emitting == state.emitting,
    decreases count,
{
    if count > 0 {
        lemma_tags_keep_objects(state, (count - 1) as nat);
    }
}

/// A table of tags leaves no object that is being written, whether it is
/// written or refused.
pub proof fn lemma_tabled_idle(state: DumpState, position: Address)
    requires
        state.wf(),
        state.idle(),
        table_fits(state.tags.len(), position),
    ensures
        state.tabled(position).state.idle(),
{
    let w = word() as int;
    let count = state.tags.len();
    let size = table_size(count);
    if state.root_refusal(position, size as usize, word()) is None {
        assert(size == w + 2 * count * w && size >= w && count <= size) by (nonlinear_arith)
            requires
                size == w * (1 + 2 * count),
                w >= 1,
                count >= 0,
        ;
        assert(w * w <= usize::MAX) by (nonlinear_arith)
            requires
                w == 4 || w == 8,
                usize::MAX >= 0xffff_ffff,
        ;
        assert(2 * count * word() == 2 * count * w);
        lemma_root_begun(state, tags_name(), position, tags_function(), size as usize, word());
        let root = state.root_begun(
            tags_name(),
            position,
            tags_function(),
            size as usize,
            word(),
        ).state;
        lemma_worded(root, count as usize);
        let base = root.worded(count as usize);
        lemma_tags_written(base, count);
        lemma_ended(base.tags_written(count));
    }
}

} // verus!
