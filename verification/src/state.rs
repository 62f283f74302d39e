//! What a dump is, as a mathematical value: the image written so far, the write
//! cursor, the registry of complete objects, the references that wait for their
//! owner, and the tags. Every operation of a dumper is a function on this value.
use crate::address::{wrap_signed, Address};
use crate::assembly::assembled;
use crate::fault::Fault;
use crate::image::{
    binds, declared, mentions, with_bytes, with_pointer, word, written, DirectiveView,
};
use crate::label::{Label, LabelName};
use crate::layout::{header, header_alignment};
use crate::references::{inside, outside, rising, with_reference};
use crate::registry::{
    crowded, inserted, layout_fits, lookup, owner, registry, slot_of, DumpFunction, ObjectInfo,
    ObjectState,
};
use vstd::prelude::*;

verus! {

/// An address that was marked with a category during the dump.
#[derive(Clone, Copy, PartialEq, Eq, Structural, Debug)]
pub struct Tag {
    /// The category.
    pub tag: usize,
    /// The address that was marked.
    pub address: Address,
}

/// The state of a dump.
#[verifier::ext_equal]
pub struct DumpState {
    /// The directives written so far.
    pub image: Seq<DirectiveView>,
    /// The address, in the object that is being written, of the next byte.
    pub cursor: Address,
    /// What is added to the cursor to tell a traversal routine where it is.
    pub offset: isize,
    /// The complete objects that are known, in the order of their addresses.
    pub objects: Seq<ObjectInfo>,
    /// The object that is being written, if one is.
    pub emitting: Option<ObjectInfo>,
    /// The referenced addresses that no known object owns, in rising order.
    pub references: Seq<Address>,
    /// The tags, in the order in which they were given.
    pub tags: Seq<Tag>,
}

/// A state and, where the operation that led to it failed, the fault.
#[verifier::ext_equal]
pub struct Outcome {
    pub state: DumpState,
    pub fault: Option<Fault>,
}

impl Outcome {
    /// The outcome of an operation that went well.
    pub open spec fn done(state: DumpState) -> Outcome {
        Outcome { state, fault: None }
    }

    /// The outcome of an operation that failed and left the state as it was.
    pub open spec fn failed(state: DumpState, fault: Fault) -> Outcome {
        Outcome { state, fault: Some(fault) }
    }

    /// What the operation returns.
    pub open spec fn result(self) -> Result<(), Fault> {
        match self.fault {
            Some(fault) => Err(fault),
            None => Ok(()),
        }
    }

    /// The outcome of a second operation that runs only where the first went well.
    pub open spec fn and_then(self, next: spec_fn(DumpState) -> Outcome) -> Outcome {
        if self.fault is Some {
            self
        } else {
            next(self.state)
        }
    }
}

/// The directives that bind the temporary labels of `targets` to their places in
/// the object that starts at `start`.
pub open spec fn bindings(targets: Seq<Address>, start: Address) -> Seq<DirectiveView> {
    Seq::new(
        targets.len(),
        |i: int|
            DirectiveView::Equiv(
                LabelName::Pointer(targets[i]),
                Label::object(start).moved(wrap_signed(targets[i].0 - start.0)),
            ),
    )
}

/// The name of the root that holds the table of tags.
pub open spec fn tags_name() -> Seq<char> {
    "RODAL_TAGS"@
}

/// The routine that the table of tags is registered with. The table is written
/// by the dumper itself, so that no routine is ever asked for it.
pub open spec fn tags_function() -> DumpFunction {
    DumpFunction(0)
}

/// The number of bytes of a table of `count` tags.
pub open spec fn table_size(count: nat) -> int {
    word() * (1 + 2 * count)
}

/// Whether a table of `count` tags fits at `position`: its size fits a signed
/// offset, and it ends inside the address space.
pub open spec fn table_fits(count: nat, position: Address) -> bool {
    &&& table_size(count) <= isize::MAX
    &&& position.0 + table_size(count) <= usize::MAX
}

/// The name of the marker that begins the image.
pub open spec fn start_name() -> Seq<char> {
    "RODAL_START"@
}

/// The name of the marker that ends the image.
pub open spec fn end_name() -> Seq<char> {
    "RODAL_END"@
}

/// The directives that stand before the bytes of `object`: the header, and the
/// label of the object. An object that the caller has named is declared under
/// that name too, and the name is made visible to the linker.
pub open spec fn opening(object: ObjectInfo, name: Option<Seq<char>>) -> Seq<DirectiveView> {
    let own = LabelName::Object(object.start);
    match name {
        Some(name) => seq![
            DirectiveView::Global(LabelName::Global(name)),
            DirectiveView::TypeObject(LabelName::Global(name)),
            DirectiveView::Size(LabelName::Global(name), object.size),
            DirectiveView::TypeObject(own),
        ] + header(object.size, object.alignment) + seq![
            DirectiveView::Declare(LabelName::Global(name)),
            DirectiveView::Declare(own),
        ],
        None => seq![DirectiveView::TypeObject(own)] + header(object.size, object.alignment)
            + seq![DirectiveView::Declare(own)],
    }
}

/// The directives that stand behind the bytes of `object`, where `cursor` is
/// how far its bytes have come: the padding up to its end, and its size.
pub open spec fn closing(object: ObjectInfo, cursor: Address) -> Seq<DirectiveView> {
    let skip = if cursor.0 < object.end() {
        seq![DirectiveView::Skip((object.end() - cursor.0) as usize)]
    } else {
        Seq::<DirectiveView>::empty()
    };
    skip + seq![DirectiveView::Size(LabelName::Object(object.start), object.size)]
}

/// The registry with the object that starts at `start` in another state.
pub open spec fn marked(objects: Seq<ObjectInfo>, start: Address, state: ObjectState) -> Seq<
    ObjectInfo,
> {
    let at = slot_of(objects, start);
    objects.update(at, objects[at].in_state(state))
}

/// Whether `at` is the place of the first object that is still to be written.
pub open spec fn is_first_pending(objects: Seq<ObjectInfo>, at: int) -> bool {
    &&& 0 <= at < objects.len()
    &&& objects[at].state == ObjectState::Pending
    &&& forall|i: int| 0 <= i < at ==> (#[trigger] objects[i]).state != ObjectState::Pending
}

/// Whether no object is still to be written.
pub open spec fn none_pending(objects: Seq<ObjectInfo>) -> bool {
    forall|i: int| 0 <= i < objects.len() ==> (#[trigger] objects[i]).state != ObjectState::Pending
}

/// Whether every object is written in full.
pub open spec fn all_emitted(objects: Seq<ObjectInfo>) -> bool {
    forall|i: int| 0 <= i < objects.len() ==> (#[trigger] objects[i]).state == ObjectState::Emitted
}

/// The bytes that an object takes up in the image once it is written in full,
/// with its header.
pub open spec fn footprint(object: ObjectInfo) -> int {
    if object.state == ObjectState::Emitted {
        header_alignment(object.alignment) + object.size
    } else {
        0
    }
}

/// The bytes that the objects written in full take up in the image, each with
/// its header.
pub open spec fn emitted_bytes(objects: Seq<ObjectInfo>) -> int
    decreases objects.len(),
{
    if objects.len() == 0 {
        0
    } else {
        emitted_bytes(objects.drop_last()) + footprint(objects.last())
    }
}

impl DumpState {
    /// The state of a dump that has just begun.
    pub open spec fn initial() -> DumpState {
        DumpState {
            image: seq![
                DirectiveView::Start,
                DirectiveView::Data,
                DirectiveView::Global(LabelName::Global(start_name())),
                DirectiveView::Declare(LabelName::Global(start_name())),
            ],
            cursor: Address(0),
            offset: 0,
            objects: Seq::empty(),
            emitting: None,
            references: Seq::empty(),
            tags: Seq::empty(),
        }
    }

    /// Where a traversal routine is told that it is.
    pub open spec fn position(self) -> Address {
        self.cursor.shifted(self.offset as int)
    }

    /// Whether `size` more bytes fit into the object that is being written.
    pub open spec fn room(self, size: int) -> bool {
        self.emitting matches Some(object) && self.cursor.0 + size <= object.end()
    }

    /// The bytes of the object that is being written that are in the image so
    /// far, with its header.
    pub open spec fn partial_bytes(self) -> int {
        match self.emitting {
            Some(object) => header_alignment(object.alignment) + self.cursor.0 - object.start.0,
            None => 0,
        }
    }

    /// Whether the image binds the temporary label of `target` to a place.
    pub open spec fn bound(self, target: Address) -> bool {
        exists|place: Label| binds(self.image, LabelName::Pointer(target), place)
    }

    /// Whether a label that a pointer was written as will name a place of the
    /// image: it names a known object, or it is the temporary label of a
    /// reference that still waits for its owner or was bound when the owner was
    /// found.
    pub open spec fn grounded(self, label: Label) -> bool {
        match label.base {
            LabelName::Object(start) => lookup(self.objects, start) is Some,
            LabelName::Pointer(target) => label.offset == 0 && (self.references.contains(target)
                || self.bound(target)),
            LabelName::Global(_) => false,
        }
    }

    /// Whether a binding of the image gives the temporary label of a reference
    /// to a place in a known object that stands for the address of the reference.
    pub open spec fn binding(self, name: LabelName, place: Label) -> bool {
        &&& name matches LabelName::Pointer(target)
        &&& place.base matches LabelName::Object(start)
        &&& lookup(self.objects, start) is Some
        &&& place.stands_for() == target.0
    }

    /// How often the label of the object that starts at `start` is to be
    /// declared: once, from the time that the object begins to be written.
    pub open spec fn due(self, start: Address) -> nat {
        match lookup(self.objects, start) {
            Some(object) => if object.state == ObjectState::Pending {
                0
            } else {
                1
            },
            None => 0,
        }
    }

    /// Whether the labels of the image hang together: every pointer is written
    /// as a label that will name a place, every binding is one of a reference to
    /// its owner, and every object is declared as often as is due.
    #[verifier::opaque]
    pub open spec fn linked(self) -> bool {
        &&& forall|label: Label| #[trigger] mentions(self.image, label) ==> self.grounded(label)
        &&& forall|name: LabelName, place: Label| #[trigger]
            binds(self.image, name, place) ==> self.binding(name, place)
        &&& forall|start: Address| #[trigger]
            declared(self.image, LabelName::Object(start)) == self.due(start)
    }

    /// Whether the assembled image holds something at `address`: the address
    /// lies in an object that is written in full, or in the part that is written
    /// of the object that is being written.
    pub open spec fn holds(self, address: int) -> bool {
        &&& 0 <= address <= usize::MAX
        &&& owner(self.objects, Address(address as usize)) matches Some(object)
        &&& (object.state == ObjectState::Emitted || (object.state == ObjectState::Emitting
            && address < self.cursor.0))
    }

    /// Whether the image, once assembled, holds the bytes of the objects that are
    /// written, each at the address that it had in memory, and nothing else; and
    /// goes on at the cursor.
    #[verifier::opaque]
    pub open spec fn placed(self) -> bool {
        &&& assembled(self.image).at == (if self.emitting is Some {
            Some(self.cursor.0 as int)
        } else {
            None::<int>
        })
        &&& forall|address: int| #[trigger]
            assembled(self.image).cells.dom().contains(address) <==> self.holds(address)
    }

    /// Whether the state is one that a dump can be in.
    pub open spec fn wf(self) -> bool {
        &&& self.linked()
        &&& self.placed()
        &&& registry(self.objects)
        &&& rising(self.references)
        &&& forall|i: int|
            0 <= i < self.references.len() ==> owner(self.objects, #[trigger] self.references[i])
                is None
        &&& forall|i: int|
            0 <= i < self.objects.len() && (#[trigger] self.objects[i]).state
                == ObjectState::Emitting ==> self.emitting == Some(self.objects[i])
        &&& self.emitting matches Some(object) ==> {
            &&& object.state == ObjectState::Emitting
            &&& lookup(self.objects, object.start) == Some(object)
            &&& object.start.0 <= self.cursor.0 <= object.end()
        }
        &&& written(self.image) == emitted_bytes(self.objects) + self.partial_bytes()
    }

    /// Whether what the assembled image holds in this state it still holds in the
    /// state `after`, at the same addresses.
    #[verifier::opaque]
    pub open spec fn keeps(self, after: DumpState) -> bool {
        forall|address: int| #[trigger]
            assembled(self.image).cells.dom().contains(address) ==> assembled(
                after.image,
            ).cells.dom().contains(address) && assembled(after.image).cells[address] == assembled(
                self.image,
            ).cells[address]
    }

    /// Whether `after` can follow from this state in the course of a dump: every
    /// known object is still known, with the layout and the routine that it had,
    /// what was written in full still is, what the image held it still holds, and
    /// the tags of before come first.
    pub open spec fn grows(self, after: DumpState) -> bool {
        &&& self.keeps(after)
        &&& forall|start: Address|
            kept(#[trigger] lookup(self.objects, start), lookup(after.objects, start))
        &&& self.tags.len() <= after.tags.len()
        &&& after.tags.subrange(0, self.tags.len() as int) == self.tags
    }

    /// Whether `after` can follow from this state by operations of a traversal
    /// routine: the same object is being written, the image has grown by as many
    /// bytes as the cursor has moved, every known object is as it was, what is
    /// new is still to be written, what the image held it still holds, and the
    /// tags of before come first.
    pub open spec fn evolves(self, after: DumpState) -> bool {
        &&& self.keeps(after)
        &&& after.emitting == self.emitting
        &&& written(after.image) - written(self.image) == after.cursor.0 - self.cursor.0
        &&& forall|start: Address|
            (#[trigger] lookup(self.objects, start)) is Some ==> lookup(after.objects, start)
                == lookup(self.objects, start)
        &&& forall|start: Address|
            lookup(self.objects, start) is None ==> (match #[trigger] lookup(
                after.objects,
                start,
            ) {
                Some(object) => object.state == ObjectState::Pending,
                None => true,
            })
        &&& self.tags.len() <= after.tags.len()
        &&& after.tags.subrange(0, self.tags.len() as int) == self.tags
    }

    /// The state with the cursor `size` bytes on.
    pub open spec fn advanced(self, size: int) -> DumpState {
        DumpState { cursor: Address((self.cursor.0 + size) as usize), ..self }
    }

    /// The state with one more directive.
    pub open spec fn appended(self, directive: DirectiveView) -> DumpState {
        DumpState { image: self.image.push(directive), ..self }
    }

    /// The state that tells traversal routines that they are at `position`.
    pub open spec fn positioned(self, position: Address) -> DumpState {
        DumpState { offset: wrap_signed(position.0 - self.cursor.0), ..self }
    }

    /// The state with another offset from the cursor to the position.
    pub open spec fn with_offset(self, offset: isize) -> DumpState {
        DumpState { offset, ..self }
    }

    /// After `size` bytes of padding.
    pub open spec fn padded(self, size: usize) -> Outcome {
        if !self.room(size as int) {
            Outcome::failed(self, Fault::BackwardAdvance)
        } else if size == 0 {
            Outcome::done(self)
        } else {
            Outcome::done(self.appended(DirectiveView::Skip(size)).advanced(size as int))
        }
    }

    /// After the padding that brings the position up to `target`.
    pub open spec fn padded_to(self, target: Address) -> Outcome {
        if target.0 < self.position().0 {
            Outcome::failed(self, Fault::BackwardAdvance)
        } else {
            self.padded((target.0 - self.position().0) as usize)
        }
    }

    /// After the raw bytes `bytes`.
    pub open spec fn valued(self, bytes: Seq<u8>) -> Outcome {
        if !self.room(bytes.len() as int) {
            Outcome::failed(self, Fault::BackwardAdvance)
        } else {
            Outcome::done(
                DumpState { image: with_bytes(self.image, bytes), ..self }.advanced(
                    bytes.len() as int,
                ),
            )
        }
    }

    /// The label that a pointer to `target` is written as: a place in the object
    /// that contains it, or a temporary label where no known object does.
    pub open spec fn label_of(self, target: Address) -> Label {
        match owner(self.objects, target) {
            Some(object) => Label::object(object.start).moved(
                wrap_signed(target.0 - object.start.0),
            ),
            None => Label::pointer(target),
        }
    }

    /// The state with a pointer to `target` written, and the cursor a word on.
    pub open spec fn pointed(self, target: Address) -> DumpState {
        DumpState {
            image: with_pointer(self.image, self.label_of(target)),
            references: if owner(self.objects, target) is Some {
                self.references
            } else {
                with_reference(self.references, target)
            },
            ..self
        }.advanced(word() as int)
    }

    /// After a pointer to `target`.
    pub open spec fn referenced(self, target: Address) -> Outcome {
        if !self.room(word() as int) {
            Outcome::failed(self, Fault::BackwardAdvance)
        } else {
            Outcome::done(self.pointed(target))
        }
    }

    /// The state with a word that holds `value` written, and the cursor a word
    /// on.
    pub open spec fn worded(self, value: usize) -> DumpState {
        self.appended(DirectiveView::Word(value)).advanced(word() as int)
    }

    /// The state with the first `count` tags written, each as a word that holds
    /// the category and a pointer to the address.
    pub open spec fn tags_written(self, count: nat) -> DumpState
        decreases count,
    {
        if count == 0 {
            self
        } else {
            let before = self.tags_written((count - 1) as nat);
            before.worded(self.tags[count - 1].tag).pointed(self.tags[count - 1].address)
        }
    }

    /// After the table of tags, written at `position` as a root: a word that
    /// holds the number of tags, and then the tags in the order in which they
    /// were given. Fails with the fault of the root, where the table cannot be
    /// one, and with `DanglingReference`, after the table is written, where a
    /// tagged address lies in no known object.
    pub open spec fn tabled(self, position: Address) -> Outcome {
        let size = table_size(self.tags.len());
        match self.root_refusal(position, size as usize, word()) {
            Some(fault) => Outcome::failed(self, fault),
            None => {
                let begun = self.root_begun(
                    tags_name(),
                    position,
                    tags_function(),
                    size as usize,
                    word(),
                ).state;
                let ended = begun.worded(self.tags.len() as usize).tags_written(
                    self.tags.len(),
                ).ended();
                if ended.references.len() > 0 {
                    Outcome { state: ended, fault: Some(Fault::DanglingReference) }
                } else {
                    Outcome::done(ended)
                }
            },
        }
    }

    /// After the discovery of `object`: the references that it contains are bound
    /// to it and wait no longer, and the object is in the registry.
    pub open spec fn discovered(self, object: ObjectInfo) -> DumpState {
        DumpState {
            image: self.image + bindings(
                inside(self.references, object.start, object.size),
                object.start,
            ),
            references: outside(self.references, object.start, object.size),
            objects: inserted(self.objects, object),
            ..self
        }
    }

    /// The fault that keeps a region from being registered, if there is one.
    pub open spec fn refusal(self, start: Address, size: usize, alignment: usize) -> Option<Fault> {
        if size == 0 {
            Some(Fault::ZeroSizeRegistration)
        } else {
            match lookup(self.objects, start) {
                Some(object) => if object.size == size && object.alignment == alignment {
                    None
                } else {
                    Some(Fault::LayoutConflict)
                },
                None => if crowded(self.objects, start, size) {
                    Some(Fault::OverlapViolation)
                } else {
                    None
                },
            }
        }
    }

    /// After the registration of the region `[start, start + size)` as a complete
    /// object that the routine `dump` describes from `value`.
    pub open spec fn registered(
        self,
        value: Address,
        dump: DumpFunction,
        start: Address,
        size: usize,
        alignment: usize,
    ) -> Outcome {
        match self.refusal(start, size, alignment) {
            Some(fault) => Outcome::failed(self, fault),
            None => if lookup(self.objects, start) is Some {
                Outcome::done(self)
            } else {
                Outcome::done(
                    self.discovered(
                        ObjectInfo {
                            start,
                            size,
                            alignment,
                            value,
                            dump,
                            state: ObjectState::Pending,
                        },
                    ),
                )
            },
        }
    }

    /// After the registration of a region and a pointer to the place `offset`
    /// bytes from its start.
    pub open spec fn object_referenced(
        self,
        value: Address,
        dump: DumpFunction,
        start: Address,
        size: usize,
        alignment: usize,
        offset: isize,
    ) -> Outcome {
        if !self.room(word() as int) {
            Outcome::failed(self, Fault::BackwardAdvance)
        } else {
            let registered = self.registered(value, dump, start, size, alignment);
            if registered.fault is Some {
                registered
            } else {
                Outcome::done(
                    DumpState {
                        image: with_pointer(
                            registered.state.image,
                            Label::object(start).moved(offset),
                        ),
                        ..registered.state
                    }.advanced(word() as int),
                )
            }
        }
    }

    /// After the padding up to `position` and the raw bytes `bytes`.
    pub open spec fn valued_at(self, position: Address, bytes: Seq<u8>) -> Outcome {
        self.padded_to(position).and_then(|after: DumpState| after.valued(bytes))
    }

    /// After the padding up to `position` and a pointer to `target`.
    pub open spec fn referenced_at(self, position: Address, target: Address) -> Outcome {
        self.padded_to(position).and_then(|after: DumpState| after.referenced(target))
    }

    /// After the padding up to `position`, the registration of a region and a
    /// pointer to the place `offset` bytes from its start.
    pub open spec fn object_referenced_at(
        self,
        position: Address,
        value: Address,
        dump: DumpFunction,
        start: Address,
        size: usize,
        alignment: usize,
        offset: isize,
    ) -> Outcome {
        self.padded_to(position).and_then(
            |after: DumpState|
                after.object_referenced(value, dump, start, size, alignment, offset),
        )
    }

    /// After the first bytes of `bytes`, as many as lie between `start` and `end`.
    pub open spec fn prefixed(self, start: Address, end: Address, bytes: Seq<u8>) -> Outcome {
        if end.0 < start.0 || end.0 - start.0 > bytes.len() {
            Outcome::failed(self, Fault::BackwardAdvance)
        } else {
            self.valued(bytes.subrange(0, end.0 - start.0))
        }
    }

    /// After the last bytes of `bytes`, a value that starts at `start`: those from
    /// the position on.
    pub open spec fn suffixed(self, start: Address, bytes: Seq<u8>) -> Outcome {
        if self.position().0 < start.0 || self.position().0 - start.0 > bytes.len() {
            Outcome::failed(self, Fault::BackwardAdvance)
        } else {
            self.valued(bytes.subrange(self.position().0 - start.0, bytes.len() as int))
        }
    }

    /// Whether no object is being written.
    pub open spec fn idle(self) -> bool {
        self.emitting is None
    }

    /// After the header of the object that starts at `start`, which is from now
    /// on the object that is being written.
    pub open spec fn begun(self, start: Address, name: Option<Seq<char>>) -> DumpState {
        let object = lookup(self.objects, start)->0;
        DumpState {
            image: self.image + opening(object, name),
            objects: marked(self.objects, start, ObjectState::Emitting),
            emitting: Some(object.in_state(ObjectState::Emitting)),
            cursor: object.start,
            ..self
        }
    }

    /// After the end of the object that is being written: it is padded to its
    /// size and is from now on written in full.
    pub open spec fn ended(self) -> DumpState {
        let object = self.emitting->0;
        DumpState {
            image: self.image + closing(object, self.cursor),
            objects: marked(self.objects, object.start, ObjectState::Emitted),
            emitting: None,
            cursor: Address(object.end() as usize),
            ..self
        }
    }

    /// The fault that keeps a region from becoming a root, if there is one. A
    /// region that is known and still to be written becomes a root as it is
    /// known, where the layout agrees; one that is being written or written is
    /// not written again.
    pub open spec fn root_refusal(self, start: Address, size: usize, alignment: usize) -> Option<
        Fault,
    > {
        if size == 0 {
            Some(Fault::ZeroSizeRegistration)
        } else {
            match lookup(self.objects, start) {
                Some(object) => if object.size != size || object.alignment != alignment {
                    Some(Fault::LayoutConflict)
                } else if object.state != ObjectState::Pending {
                    Some(Fault::OverlapViolation)
                } else {
                    None
                },
                None => if crowded(self.objects, start, size) {
                    Some(Fault::OverlapViolation)
                } else {
                    None
                },
            }
        }
    }

    /// The entry of the registry that a root is written as: the one that is
    /// known at its address, and a new one where none is.
    pub open spec fn root_entry(
        self,
        value: Address,
        dump: DumpFunction,
        size: usize,
        alignment: usize,
    ) -> ObjectInfo {
        match lookup(self.objects, value) {
            Some(object) => object,
            None => ObjectInfo {
                start: value,
                size,
                alignment,
                value,
                dump,
                state: ObjectState::Pending,
            },
        }
    }

    /// After the header of a root: the `size` bytes at `value`, under the name
    /// `name`, which the routine `dump` describes.
    pub open spec fn root_begun(
        self,
        name: Seq<char>,
        value: Address,
        dump: DumpFunction,
        size: usize,
        alignment: usize,
    ) -> Outcome {
        match self.root_refusal(value, size, alignment) {
            Some(fault) => Outcome::failed(self, fault),
            None => if lookup(self.objects, value) is Some {
                Outcome::done(self.begun(value, Some(name)))
            } else {
                Outcome::done(
                    self.discovered(self.root_entry(value, dump, size, alignment)).begun(
                        value,
                        Some(name),
                    ),
                )
            },
        }
    }

    /// Whether the state `after` and the result `result` are what the dump of a
    /// root can come to: nothing but the fault, where the root is refused; and
    /// else the header of the root, then whatever the routine that describes the
    /// root does, then, where the routine went well, the end of the root.
    pub open spec fn root_dumped(
        self,
        name: Seq<char>,
        value: Address,
        dump: DumpFunction,
        size: usize,
        alignment: usize,
        after: DumpState,
        result: Result<(), Fault>,
    ) -> bool {
        let begun = self.root_begun(name, value, dump, size, alignment);
        match begun.fault {
            Some(fault) => after == self && result == Err::<(), Fault>(fault),
            None => exists|described: DumpState| #[trigger]
                begun.state.evolves(described) && described.offset == begun.state.offset
                    && after == match result {
                    Ok(_) => described.ended(),
                    Err(_) => described,
                },
        }
    }

    /// Whether `drained` is a state that the dump can be in when every object
    /// that was known, and every one that was found on the way, is written.
    pub open spec fn drains_to(self, drained: DumpState) -> bool {
        &&& drained.wf()
        &&& drained.idle()
        &&& all_emitted(drained.objects)
        &&& self.grows(drained)
    }

    /// Whether the state `after` and the result `result` are what the end of a
    /// dump can come to: either a routine has failed, and the object that it
    /// described is still the one being written; or every object is written, and
    /// the image is ended, unless a reference still waits for its owner.
    pub open spec fn finish_done(self, after: DumpState, result: Result<(), Fault>) -> bool {
        ||| after.emitting is Some && result is Err
        ||| exists|drained: DumpState| #[trigger]
            self.drains_to(drained) && after == drained.finished().state && result
                == drained.finished().result()
    }

    /// After the table of tags at `position`, where the table fits there; the
    /// fault `OverlapViolation`, and nothing else, where it does not.
    pub open spec fn tabled_where_fits(self, position: Address) -> Outcome {
        if table_fits(self.tags.len(), position) {
            self.tabled(position)
        } else {
            Outcome::failed(self, Fault::OverlapViolation)
        }
    }

    /// After the end of the image and, where that went well, the table of tags
    /// at `position`.
    pub open spec fn finished_and_tabled(self, position: Address) -> Outcome {
        self.finished().and_then(|ended: DumpState| ended.tabled_where_fits(position))
    }

    /// Whether the state `after` and the result `result` are what the end of a
    /// dump with the table of tags can come to: either a routine has failed, and
    /// the object that it described is still the one being written; or every
    /// object is written, the image is ended and the table of tags is written
    /// behind it.
    pub open spec fn tags_done(
        self,
        position: Address,
        after: DumpState,
        result: Result<(), Fault>,
    ) -> bool {
        ||| after.emitting is Some && result is Err
        ||| exists|drained: DumpState| #[trigger]
            self.drains_to(drained) && after == drained.finished_and_tabled(position).state
                && result == drained.finished_and_tabled(position).result()
    }

    /// After the end of the image: the marker that ends it, unless a reference
    /// still waits for its owner.
    pub open spec fn finished(self) -> Outcome {
        if self.references.len() > 0 {
            Outcome::failed(self, Fault::DanglingReference)
        } else {
            Outcome::done(
                DumpState {
                    image: self.image + seq![
                        DirectiveView::Global(LabelName::Global(end_name())),
                        DirectiveView::Declare(LabelName::Global(end_name())),
                        DirectiveView::End,
                    ],
                    ..self
                },
            )
        }
    }

    /// After `address` was marked with the category `tag`.
    pub open spec fn tagged(self, address: Address, tag: usize) -> DumpState {
        DumpState { tags: self.tags.push(Tag { tag, address }), ..self }
    }
}

/// Whether what was found at an address before is still found there: the same
/// object, in the state that it had or a later one, and written in full where
/// it was.
pub open spec fn kept(before: Option<ObjectInfo>, after: Option<ObjectInfo>) -> bool {
    before matches Some(object) ==> (after matches Some(found) && found.in_state(object.state)
        == object && (object.state == ObjectState::Emitted ==> found.state
        == ObjectState::Emitted))
}

/// Whether the object that starts at the address `start` is written in full.
pub open spec fn emitted_at(objects: Seq<ObjectInfo>, start: int) -> bool {
    &&& 0 <= start <= usize::MAX
    &&& lookup(objects, Address(start as usize)) matches Some(object)
    &&& object.state == ObjectState::Emitted
}

/// The addresses at which an object starts that is written in full.
pub open spec fn emitted_set(objects: Seq<ObjectInfo>) -> Set<int> {
    Set::new(|start: int| emitted_at(objects, start))
}

/// The number of addresses at which no object starts that is written in full.
pub open spec fn unemitted(objects: Seq<ObjectInfo>) -> int {
    crate::address::address_space() - emitted_set(objects).len()
}

/// Whether an operation that was handed the state `before` has done what
/// `outcome` says: it left the state of the outcome and returned its result, and
/// that state is well formed and can follow from the one before.
pub open spec fn follows(
    before: DumpState,
    outcome: Outcome,
    after: DumpState,
    result: Result<(), Fault>,
) -> bool {
    &&& after =~= outcome.state
    &&& result == outcome.result()
    &&& after.wf()
    &&& before.evolves(after)
}

/// Whether a region may be handed to a registration: its bounds, offsets and
/// alignment fit the integer types. A size of zero is not a matter of limits: the
/// registration answers it with a fault.
pub open spec fn layout_allowed(start: Address, size: usize, alignment: usize) -> bool {
    size == 0 || layout_fits(start, size, alignment)
}

/// Whether a region may be handed to a registration.
pub fn layout_check(start: Address, size: usize, alignment: usize) -> (allowed: bool)
    ensures
        allowed == layout_allowed(start, size, alignment),
{
    if size == 0 {
        return true;
    }
    let w = crate::image::word_size();
    let limit: usize = isize::MAX as usize;
    proof {
        let bound = usize::MAX / w;
        if alignment <= bound {
            assert(alignment * w <= usize::MAX) by (nonlinear_arith)
                requires
                    alignment <= bound,
                    bound * w <= usize::MAX,
                    w > 0,
                    alignment >= 0,
            ;
        } else {
            assert(alignment * w > usize::MAX) by (nonlinear_arith)
                requires
                    alignment >= bound + 1,
                    (bound + 1) * w > usize::MAX,
                    w > 0,
            ;
        }
    }
    size <= limit && size <= usize::MAX - start.0 && alignment > 0 && alignment <= usize::MAX / w
}

} // verus!
