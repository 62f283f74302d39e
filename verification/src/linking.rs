//! Why the labels of the image hang together after every operation of a dump.
use crate::address::{wrap_signed, Address};
use crate::image::{binds, declared, mentions, with_bytes, with_pointer, DirectiveView};
use crate::label::{Label, LabelName};
use crate::layout::header;
use crate::references::{inside, lemma_inside_outside, lemma_with_reference, outside};
use crate::references::{is_rank, rank_of, rising};
use crate::registry::{
    crowded, inserted, known, lemma_lookup_is, lookup, owner, registry, ObjectInfo,
    ObjectState,
};
use crate::state::{bindings, closing, opening, DumpState};
use vstd::prelude::*;

verus! {

/// Whether the directive is no run of pointers, no binding and no declaration
/// of the label of an object.
pub open spec fn plain(directive: DirectiveView) -> bool {
    &&& !(directive is Pointers)
    &&& !(directive is Equiv)
    &&& !(directive matches DirectiveView::Declare(name) && name is Object)
}

/// What an image holds after one more directive.
pub proof fn lemma_links_push(image: Seq<DirectiveView>, directive: DirectiveView)
    ensures
        forall|label: Label| #[trigger]
            mentions(image.push(directive), label) <==> mentions(image, label) || (directive
                is Pointers && directive->Pointers_0.contains(label)),
        forall|name: LabelName, place: Label| #[trigger]
            binds(image.push(directive), name, place) <==> binds(image, name, place) || directive
                == DirectiveView::Equiv(name, place),
        forall|name: LabelName| #[trigger]
            declared(image.push(directive), name) == declared(image, name) + if directive
                == DirectiveView::Declare(name) {
                1nat
            } else {
                0nat
            },
{
    let after = image.push(directive);
    assert(after.drop_last() =~= image);
    assert forall|label: Label| #[trigger]
        mentions(after, label) <==> mentions(image, label) || (directive is Pointers
            && directive->Pointers_0.contains(label)) by {
        if mentions(image, label) {
            let i = choose|i: int|
                0 <= i < image.len() && (#[trigger] image[i]) is Pointers
                    && image[i]->Pointers_0.contains(label);
            assert(after[i] == image[i]);
        }
        if directive is Pointers && directive->Pointers_0.contains(label) {
            assert(after[image.len() as int] == directive);
        }
        if mentions(after, label) {
            let i = choose|i: int|
                0 <= i < after.len() && (#[trigger] after[i]) is Pointers
                    && after[i]->Pointers_0.contains(label);
            if i < image.len() {
                assert(image[i] == after[i]);
            }
        }
    }
    assert forall|name: LabelName, place: Label| #[trigger]
        binds(after, name, place) <==> binds(image, name, place) || directive
            == DirectiveView::Equiv(name, place) by {
        if binds(image, name, place) {
            let i = choose|i: int|
                0 <= i < image.len() && #[trigger] image[i] == DirectiveView::Equiv(name, place);
            assert(after[i] == image[i]);
        }
        if directive == DirectiveView::Equiv(name, place) {
            assert(after[image.len() as int] == directive);
        }
        if binds(after, name, place) {
            let i = choose|i: int|
                0 <= i < after.len() && #[trigger] after[i] == DirectiveView::Equiv(name, place);
            if i < image.len() {
                assert(image[i] == after[i]);
            }
        }
    }
}

/// What an image holds after plain directives.
pub proof fn lemma_links_plain(image: Seq<DirectiveView>, tail: Seq<DirectiveView>)
    requires
        forall|i: int| 0 <= i < tail.len() ==> (#[trigger] plain(tail[i])),
    ensures
        forall|label: Label| #[trigger] mentions(image + tail, label) <==> mentions(image, label),
        forall|name: LabelName, place: Label| #[trigger]
            binds(image + tail, name, place) <==> binds(image, name, place),
        forall|start: Address| #[trigger]
            declared(image + tail, LabelName::Object(start)) == declared(
                image,
                LabelName::Object(start),
            ),
    decreases tail.len(),
{
    if tail.len() == 0 {
        assert(image + tail =~= image);
    } else {
        let front = tail.drop_last();
        assert forall|i: int| 0 <= i < front.len() implies (#[trigger] plain(front[i])) by {
            assert(plain(tail[i]));
        }
        lemma_links_plain(image, front);
        lemma_links_push(image + front, tail.last());
        assert(image + tail =~= (image + front).push(tail.last()));
        assert(plain(tail[tail.len() - 1]));
    }
}

/// What an image holds after more raw bytes.
pub proof fn lemma_links_bytes(image: Seq<DirectiveView>, bytes: Seq<u8>)
    ensures
        forall|label: Label| #[trigger]
            mentions(with_bytes(image, bytes), label) <==> mentions(image, label),
        forall|name: LabelName, place: Label| #[trigger]
            binds(with_bytes(image, bytes), name, place) <==> binds(image, name, place),
        forall|name: LabelName| #[trigger]
            declared(with_bytes(image, bytes), name) == declared(image, name),
{
    if bytes.len() == 0 {
    } else if image.len() > 0 && image.last() is Bytes {
        let front = image.drop_last();
        lemma_links_push(front, image.last());
        lemma_links_push(front, DirectiveView::Bytes(image.last()->Bytes_0 + bytes));
        assert(image =~= front.push(image.last()));
    } else {
        lemma_links_push(image, DirectiveView::Bytes(bytes));
    }
}

/// What an image holds after one more pointer.
pub proof fn lemma_links_pointer(image: Seq<DirectiveView>, label: Label)
    ensures
        forall|other: Label| #[trigger]
            mentions(with_pointer(image, label), other) <==> mentions(image, other) || other
                == label,
        forall|name: LabelName, place: Label| #[trigger]
            binds(with_pointer(image, label), name, place) <==> binds(image, name, place),
        forall|name: LabelName| #[trigger]
            declared(with_pointer(image, label), name) == declared(image, name),
{
    if image.len() > 0 && image.last() is Pointers {
        let front = image.drop_last();
        let labels = image.last()->Pointers_0;
        lemma_links_push(front, image.last());
        lemma_links_push(front, DirectiveView::Pointers(labels.push(label)));
        assert(image =~= front.push(image.last()));
        assert forall|other: Label| labels.push(label).contains(other) <==> labels.contains(other)
            || other == label by {
            if labels.contains(other) {
                let i = choose|i: int| 0 <= i < labels.len() && labels[i] == other;
                assert(labels.push(label)[i] == other);
            }
            if other == label {
                assert(labels.push(label)[labels.len() as int] == label);
            }
        }
    } else {
        lemma_links_push(image, DirectiveView::Pointers(seq![label]));
        assert forall|other: Label| seq![label].contains(other) <==> other == label by {
            if other == label {
                assert(seq![label][0] == label);
            }
        }
    }
}

/// What an image holds after the bindings of references to an object.
pub proof fn lemma_links_bindings(image: Seq<DirectiveView>, targets: Seq<Address>, start: Address)
    ensures
        forall|label: Label| #[trigger]
            mentions(image + bindings(targets, start), label) <==> mentions(image, label),
        forall|name: LabelName, place: Label| #[trigger]
            binds(image + bindings(targets, start), name, place) <==> binds(image, name, place)
                || exists|i: int|
                0 <= i < targets.len() && #[trigger] bindings(targets, start)[i]
                    == DirectiveView::Equiv(name, place),
        forall|other: Address| #[trigger]
            declared(image + bindings(targets, start), LabelName::Object(other)) == declared(
                image,
                LabelName::Object(other),
            ),
    decreases targets.len(),
{
    let all = bindings(targets, start);
    if targets.len() == 0 {
        assert(image + all =~= image);
    } else {
        let fewer = targets.drop_last();
        let front = bindings(fewer, start);
        lemma_links_bindings(image, fewer, start);
        lemma_links_push(image + front, all.last());
        assert(image + all =~= (image + front).push(all.last()));
        assert forall|name: LabelName, place: Label| #[trigger]
            binds(image + all, name, place) <==> binds(image, name, place) || exists|i: int|
                0 <= i < targets.len() && #[trigger] all[i] == DirectiveView::Equiv(name, place) by {
            if exists|i: int|
                0 <= i < fewer.len() && #[trigger] front[i] == DirectiveView::Equiv(name, place) {
                let i = choose|i: int|
                    0 <= i < fewer.len() && #[trigger] front[i] == DirectiveView::Equiv(
                        name,
                        place,
                    );
                assert(all[i] == front[i]);
            }
            if all.last() == DirectiveView::Equiv(name, place) {
                assert(all[targets.len() - 1] == DirectiveView::Equiv(name, place));
            }
            if exists|i: int|
                0 <= i < targets.len() && #[trigger] all[i] == DirectiveView::Equiv(name, place) {
                let i = choose|i: int|
                    0 <= i < targets.len() && #[trigger] all[i] == DirectiveView::Equiv(
                        name,
                        place,
                    );
                if i < fewer.len() {
                    assert(front[i] == all[i]);
                }
            }
        }
    }
}

/// What an image holds after the directives that stand before an object.
pub proof fn lemma_links_opening(
    image: Seq<DirectiveView>,
    object: ObjectInfo,
    name: Option<Seq<char>>,
)
    ensures
        forall|label: Label| #[trigger]
            mentions(image + opening(object, name), label) <==> mentions(image, label),
        forall|other: LabelName, place: Label| #[trigger]
            binds(image + opening(object, name), other, place) <==> binds(image, other, place),
        forall|start: Address| #[trigger]
            declared(image + opening(object, name), LabelName::Object(start)) == declared(
                image,
                LabelName::Object(start),
            ) + if start == object.start {
                1nat
            } else {
                0nat
            },
{
    let own = DirectiveView::Declare(LabelName::Object(object.start));
    let all = opening(object, name);
    let front = all.drop_last();
    assert(all.last() == own);
    assert forall|i: int| 0 <= i < front.len() implies (#[trigger] plain(front[i])) by {
        let head = header(object.size, object.alignment);
        assert(front[i] == all[i]);
        match name {
            Some(name) => {
                if 4 <= i < 4 + head.len() {
                    assert(all[i] == head[i - 4]);
                }
            },
            None => {
                if 1 <= i < 1 + head.len() {
                    assert(all[i] == head[i - 1]);
                }
            },
        }
    }
    lemma_links_plain(image, front);
    lemma_links_push(image + front, own);
    assert(image + all =~= (image + front).push(own));
}

/// A state stays linked when its image takes no new label, its objects stay
/// known and keep what is due to them, and its references stay.
pub proof fn lemma_linked_kept(before: DumpState, after: DumpState)
    requires
        before.linked(),
        forall|label: Label| #[trigger] mentions(after.image, label) <==> mentions(
            before.image,
            label,
        ),
        forall|name: LabelName, place: Label| #[trigger]
            binds(after.image, name, place) <==> binds(before.image, name, place),
        forall|start: Address| #[trigger]
            declared(after.image, LabelName::Object(start)) == declared(
                before.image,
                LabelName::Object(start),
            ),
        forall|start: Address| #[trigger]
            lookup(before.objects, start) is Some ==> lookup(after.objects, start) is Some,
        forall|start: Address| #[trigger] after.due(start) == before.due(start),
        forall|target: Address| #[trigger]
            before.references.contains(target) ==> after.references.contains(target),
    ensures
        after.linked(),
{
    reveal(DumpState::linked);
    assert forall|label: Label| #[trigger] mentions(after.image, label) implies after.grounded(
        label,
    ) by {
        assert(mentions(before.image, label));
        assert(before.grounded(label));
        match label.base {
            LabelName::Pointer(target) => {
                if before.bound(target) {
                    let place = choose|place: Label|
                        binds(before.image, LabelName::Pointer(target), place);
                    assert(binds(after.image, LabelName::Pointer(target), place));
                }
            },
            _ => {},
        }
    }
    assert forall|name: LabelName, place: Label| #[trigger]
        binds(after.image, name, place) implies after.binding(name, place) by {
        assert(binds(before.image, name, place));
        assert(before.binding(name, place));
    }
    assert forall|start: Address| #[trigger]
        declared(after.image, LabelName::Object(start)) == after.due(start) by {
        assert(declared(before.image, LabelName::Object(start)) == before.due(start));
    }
}

/// A state stays linked when its image takes plain directives, its objects stay
/// known and keep what is due to them, and its references stay.
pub proof fn lemma_linked_plain(before: DumpState, after: DumpState, tail: Seq<DirectiveView>)
    requires
        before.linked(),
        forall|i: int| 0 <= i < tail.len() ==> (#[trigger] plain(tail[i])),
        after.image == before.image + tail,
        forall|start: Address| #[trigger]
            lookup(before.objects, start) is Some ==> lookup(after.objects, start) is Some,
        forall|start: Address| #[trigger] after.due(start) == before.due(start),
        forall|target: Address| #[trigger]
            before.references.contains(target) ==> after.references.contains(target),
    ensures
        after.linked(),
{
    lemma_links_plain(before.image, tail);
    lemma_linked_kept(before, after);
}

/// A state stays linked when its image takes one plain directive.
pub proof fn lemma_linked_pushed(before: DumpState, directive: DirectiveView)
    requires
        before.linked(),
        plain(directive),
    ensures
        before.appended(directive).linked(),
{
    let after = before.appended(directive);
    assert(after.image =~= before.image + seq![directive]);
    lemma_linked_plain(before, after, seq![directive]);
}

/// A state stays linked when its image takes raw bytes.
pub proof fn lemma_linked_bytes(before: DumpState, bytes: Seq<u8>)
    requires
        before.linked(),
    ensures
        (DumpState { image: with_bytes(before.image, bytes), ..before }).linked(),
{
    lemma_links_bytes(before.image, bytes);
    lemma_linked_kept(before, DumpState { image: with_bytes(before.image, bytes), ..before });
}

/// A state stays linked when nothing but its cursor, its offset and its tags
/// changes.
pub proof fn lemma_linked_same(before: DumpState, after: DumpState)
    requires
        before.linked(),
        after.image == before.image,
        after.objects == before.objects,
        after.references == before.references,
    ensures
        after.linked(),
{
    lemma_linked_kept(before, after);
}

/// A state stays linked when a pointer to the start of a known object, or to a
/// place at an offset from it, is written.
pub proof fn lemma_linked_object_pointer(before: DumpState, label: Label)
    requires
        before.linked(),
        label.base matches LabelName::Object(start) && lookup(before.objects, start) is Some,
    ensures
        (DumpState { image: with_pointer(before.image, label), ..before }).linked(),
{
    reveal(DumpState::linked);
    let after = DumpState { image: with_pointer(before.image, label), ..before };
    lemma_links_pointer(before.image, label);
    assert forall|other: Label| #[trigger] mentions(after.image, other) implies after.grounded(
        other,
    ) by {
        if other != label {
            assert(mentions(before.image, other));
            assert(before.grounded(other));
            match other.base {
                LabelName::Pointer(target) => {
                    if before.bound(target) {
                        let place = choose|place: Label|
                            binds(before.image, LabelName::Pointer(target), place);
                        assert(binds(after.image, LabelName::Pointer(target), place));
                    }
                },
                _ => {},
            }
        }
    }
    assert forall|name: LabelName, place: Label| #[trigger]
        binds(after.image, name, place) implies after.binding(name, place) by {
        assert(binds(before.image, name, place));
        assert(before.binding(name, place));
    }
    assert forall|start: Address| #[trigger]
        declared(after.image, LabelName::Object(start)) == after.due(start) by {
        assert(declared(before.image, LabelName::Object(start)) == before.due(start));
    }
}

/// A state stays linked when a pointer is written.
pub proof fn lemma_linked_pointed(before: DumpState, target: Address)
    requires
        before.linked(),
        registry(before.objects),
        rising(before.references),
        is_rank(before.references, target.0 as int, rank_of(before.references, target.0 as int)),
    ensures
        before.pointed(target).linked(),
{
    let label = before.label_of(target);
    match owner(before.objects, target) {
        Some(object) => {
            let i = choose|i: int|
                0 <= i < before.objects.len() && (#[trigger] before.objects[i]).contains(target);
            lemma_lookup_is(before.objects, i);
            lemma_linked_object_pointer(before, label);
            lemma_linked_same(
                DumpState { image: with_pointer(before.image, label), ..before },
                before.pointed(target),
            );
        },
        None => {
            reveal(DumpState::linked);
            let after = before.pointed(target);
            lemma_links_pointer(before.image, label);
            lemma_with_reference(before.references, target);
            assert forall|other: Label| #[trigger]
                mentions(after.image, other) implies after.grounded(other) by {
                if other != label {
                    assert(mentions(before.image, other));
                    assert(before.grounded(other));
                    match other.base {
                        LabelName::Pointer(waiting) => {
                            if before.bound(waiting) {
                                let place = choose|place: Label|
                                    binds(before.image, LabelName::Pointer(waiting), place);
                                assert(binds(after.image, LabelName::Pointer(waiting), place));
                            }
                        },
                        _ => {},
                    }
                }
            }
            assert forall|name: LabelName, place: Label| #[trigger]
                binds(after.image, name, place) implies after.binding(name, place) by {
                assert(binds(before.image, name, place));
                assert(before.binding(name, place));
            }
            assert forall|start: Address| #[trigger]
                declared(after.image, LabelName::Object(start)) == after.due(start) by {
                assert(declared(before.image, LabelName::Object(start)) == before.due(start));
            }
        },
    }
}

/// A state stays linked when an object is discovered.
pub proof fn lemma_linked_discovered(before: DumpState, object: ObjectInfo)
    requires
        before.linked(),
        registry(before.objects),
        rising(before.references),
        is_rank(
            before.references,
            object.start.0 as int,
            rank_of(before.references, object.start.0 as int),
        ),
        is_rank(
            before.references,
            object.start.0 + object.size,
            rank_of(before.references, object.start.0 + object.size),
        ),
        object.fits(),
        object.state == ObjectState::Pending,
        !crowded(before.objects, object.start, object.size),
        lookup(before.objects, object.start) is None,
        forall|start: Address| #[trigger]
            lookup(inserted(before.objects, object), start) == if start == object.start {
                Some(object)
            } else {
                lookup(before.objects, start)
            },
    ensures
        before.discovered(object).linked(),
{
    reveal(DumpState::linked);
    let after = before.discovered(object);
    let taken = inside(before.references, object.start, object.size);
    let all = bindings(taken, object.start);
    lemma_links_bindings(before.image, taken, object.start);
    lemma_inside_outside(before.references, object.start, object.size);
    assert forall|label: Label| #[trigger] mentions(after.image, label) implies after.grounded(
        label,
    ) by {
        assert(mentions(before.image, label));
        assert(before.grounded(label));
        match label.base {
            LabelName::Object(start) => {
                assert(lookup(after.objects, start) is Some);
            },
            LabelName::Pointer(target) => {
                if before.bound(target) {
                    let place = choose|place: Label|
                        binds(before.image, LabelName::Pointer(target), place);
                    assert(binds(after.image, LabelName::Pointer(target), place));
                } else if target.within(object.start, object.size as int) {
                    assert(taken.contains(target));
                    let i = choose|i: int| 0 <= i < taken.len() && taken[i] == target;
                    let place = Label::object(object.start).moved(
                        wrap_signed(target.0 - object.start.0),
                    );
                    assert(all[i] == DirectiveView::Equiv(LabelName::Pointer(target), place));
                    assert(binds(after.image, LabelName::Pointer(target), place));
                } else {
                    assert(outside(before.references, object.start, object.size).contains(target));
                }
            },
            _ => {},
        }
    }
    assert forall|name: LabelName, place: Label| #[trigger]
        binds(after.image, name, place) implies after.binding(name, place) by {
        if binds(before.image, name, place) {
            assert(before.binding(name, place));
            let start = place.base->Object_0;
            assert(lookup(after.objects, start) is Some);
        } else {
            let i = choose|i: int|
                0 <= i < taken.len() && #[trigger] all[i] == DirectiveView::Equiv(name, place);
            assert(taken.contains(taken[i]));
            assert(taken[i].within(object.start, object.size as int));
            assert(lookup(after.objects, object.start) is Some);
        }
    }
    assert forall|start: Address| #[trigger]
        declared(after.image, LabelName::Object(start)) == after.due(start) by {
        assert(declared(before.image, LabelName::Object(start)) == before.due(start));
        assert(lookup(after.objects, start) == if start == object.start {
            Some(object)
        } else {
            lookup(before.objects, start)
        });
    }
}

/// A state stays linked when the header of a known object is written.
pub proof fn lemma_linked_begun(
    before: DumpState,
    object: ObjectInfo,
    name: Option<Seq<char>>,
    after: DumpState,
)
    requires
        before.linked(),
        lookup(before.objects, object.start) == Some(object),
        object.state == ObjectState::Pending,
        after.image == before.image + opening(object, name),
        after.references == before.references,
        forall|start: Address| #[trigger]
            lookup(after.objects, start) == if start == object.start {
                Some(object.in_state(ObjectState::Emitting))
            } else {
                lookup(before.objects, start)
            },
    ensures
        after.linked(),
{
    reveal(DumpState::linked);
    lemma_links_opening(before.image, object, name);
    assert forall|label: Label| #[trigger] mentions(after.image, label) implies after.grounded(
        label,
    ) by {
        assert(mentions(before.image, label));
        assert(before.grounded(label));
        match label.base {
            LabelName::Object(start) => {
                assert(lookup(after.objects, start) is Some);
            },
            LabelName::Pointer(target) => {
                if before.bound(target) {
                    let place = choose|place: Label|
                        binds(before.image, LabelName::Pointer(target), place);
                    assert(binds(after.image, LabelName::Pointer(target), place));
                }
            },
            _ => {},
        }
    }
    assert forall|other: LabelName, place: Label| #[trigger]
        binds(after.image, other, place) implies after.binding(other, place) by {
        assert(binds(before.image, other, place));
        assert(before.binding(other, place));
        let start = place.base->Object_0;
        assert(lookup(after.objects, start) is Some);
    }
    assert forall|start: Address| #[trigger]
        declared(after.image, LabelName::Object(start)) == after.due(start) by {
        assert(declared(before.image, LabelName::Object(start)) == before.due(start));
        assert(lookup(after.objects, start) == if start == object.start {
            Some(object.in_state(ObjectState::Emitting))
        } else {
            lookup(before.objects, start)
        });
    }
}

/// A state stays linked when the object that is being written ends.
pub proof fn lemma_linked_ended(before: DumpState, object: ObjectInfo, after: DumpState)
    requires
        before.linked(),
        lookup(before.objects, object.start) == Some(object),
        object.state == ObjectState::Emitting,
        after.image == before.image + closing(object, before.cursor),
        after.references == before.references,
        forall|start: Address| #[trigger]
            lookup(after.objects, start) == if start == object.start {
                Some(object.in_state(ObjectState::Emitted))
            } else {
                lookup(before.objects, start)
            },
    ensures
        after.linked(),
{
    let tail = closing(object, before.cursor);
    assert forall|i: int| 0 <= i < tail.len() implies (#[trigger] plain(tail[i])) by {}
    assert forall|start: Address| #[trigger]
        lookup(before.objects, start) is Some implies lookup(after.objects, start) is Some by {
        assert(lookup(after.objects, start) == if start == object.start {
            Some(object.in_state(ObjectState::Emitted))
        } else {
            lookup(before.objects, start)
        });
    }
    assert forall|start: Address| #[trigger] after.due(start) == before.due(start) by {
        assert(lookup(after.objects, start) == if start == object.start {
            Some(object.in_state(ObjectState::Emitted))
        } else {
            lookup(before.objects, start)
        });
    }
    lemma_linked_plain(before, after, tail);
}

/// A dump that has just begun is linked.
pub proof fn lemma_linked_initial()
    ensures
        DumpState::initial().linked(),
{
    reveal(DumpState::linked);
    let image = DumpState::initial().image;
    let name = LabelName::Global(crate::state::start_name());
    let empty = Seq::<DirectiveView>::empty();
    assert forall|i: int| 0 <= i < image.len() implies (#[trigger] plain(image[i])) by {}
    lemma_links_plain(empty, image);
    assert(empty + image =~= image);
    assert forall|label: Label| !(#[trigger] mentions(image, label)) by {
        assert(!mentions(empty, label));
    }
    assert forall|other: LabelName, place: Label| !(#[trigger] binds(image, other, place)) by {
        assert(!binds(empty, other, place));
    }
    assert forall|start: Address| #[trigger]
        declared(image, LabelName::Object(start)) == DumpState::initial().due(start) by {
        assert(declared(empty, LabelName::Object(start)) == 0);
        assert(!known(DumpState::initial().objects, start));
    }
}

} // verus!
