//! The dumping engine: it keeps the registry, hands out labels, writes bytes and
//! pointers, and drives the traversal until every object that was found is
//! written.
use crate::address::Address;
use crate::dumper::{dump_object_function_here, Dump, Dumper};
use crate::fault::Fault;
use crate::image::{
    image_view, labels_view, lemma_with_bytes_push, with_bytes, with_pointer, word, word_size,
    written, AsmDirective, Directive, DirectiveView,
};
use crate::invariants::{
    lemma_begun, lemma_discovered, lemma_ended, lemma_finished, lemma_grows_reflexive,
    lemma_grows_transitive, lemma_initial, lemma_lookup_inserted, lemma_object_referenced,
    lemma_padded, lemma_positioned, lemma_referenced, lemma_registered, lemma_root_begun,
    lemma_slot_exists, lemma_tagged, lemma_tags_written, lemma_unemitted_begun,
    lemma_unemitted_bounds, lemma_unemitted_ended, lemma_unemitted_evolves, lemma_valued,
    lemma_tabled, lemma_tabled_idle, lemma_with_offset, lemma_worded,
};
use crate::label::{AsmLabel, Label, LabelBase, LabelName};
use crate::layout::{aligned, header, header_alignment};
use crate::references::{insert_reference, rising, take_range};
use crate::registry::{
    crowded, get_complete_object, get_overlap, known, layout_fits, lookup, owner, registry,
    DumpFunction, ObjectInfo, ObjectState,
};
use crate::state::{
    all_emitted, bindings, closing, end_name, is_first_pending, layout_allowed, none_pending, opening,
    table_fits, table_size, unemitted, DumpState, Tag,
};
use vstd::prelude::*;

verus! {

/// A dump in progress.
pub struct AsmDumper {
    /// The directives whose runs are closed.
    out: Vec<Directive>,
    /// The kind of the run that is open.
    current_directive: AsmDirective,
    /// The bytes of the open run, where it is one of bytes.
    bytes: Vec<u8>,
    /// The labels of the open run, where it is one of pointers.
    pointers: Vec<AsmLabel>,
    /// The address, in the object that is being written, of the next byte.
    current_pointer: Address,
    /// What is added to the cursor to tell a traversal routine where it is.
    position_offset: isize,
    /// The complete objects that are known, in the order of their addresses.
    objects: Vec<ObjectInfo>,
    /// The object that is being written, if one is.
    emitting: Option<ObjectInfo>,
    /// The referenced addresses that no known object owns, in rising order.
    pending_references: Vec<Address>,
    /// The tags, in the order in which they were given.
    tags: Vec<Tag>,
}

impl AsmDumper {
    /// The directives written so far, the open run last.
    pub closed spec fn image(&self) -> Seq<DirectiveView> {
        image_view(self.out@) + match self.current_directive {
            AsmDirective::Byte => seq![DirectiveView::Bytes(self.bytes@)],
            AsmDirective::Ptr => seq![DirectiveView::Pointers(labels_view(self.pointers@))],
            AsmDirective::Other => Seq::<DirectiveView>::empty(),
        }
    }

    /// Whether the open run is held as it should be: it is not empty, and the
    /// directive before it is no run that it could have joined.
    pub closed spec fn batched(&self) -> bool {
        match self.current_directive {
            AsmDirective::Byte => self.bytes@.len() > 0 && self.pointers@.len() == 0 && (
            self.out@.len() == 0 || !(self.out@.last() is Bytes)),
            AsmDirective::Ptr => self.pointers@.len() > 0 && self.bytes@.len() == 0 && (
            self.out@.len() == 0 || !(self.out@.last() is Pointers)),
            AsmDirective::Other => self.bytes@.len() == 0 && self.pointers@.len() == 0 && (
            self.out@.len() == 0 || !(self.out@.last() is Bytes || self.out@.last() is Pointers)),
        }
    }

    /// All of the state but the image.
    pub closed spec fn rest(&self) -> DumpState {
        DumpState {
            image: Seq::empty(),
            cursor: self.current_pointer,
            offset: self.position_offset,
            objects: self.objects@,
            emitting: self.emitting,
            references: self.pending_references@,
            tags: self.tags@,
        }
    }

    /// Closes the open run, if there is one.
    fn start_directive(&mut self)
        requires
            old(self).batched(),
        ensures
            final(self).image() == old(self).image(),
            final(self).rest() == old(self).rest(),
            final(self).current_directive == AsmDirective::Other,
            final(self).bytes@.len() == 0,
            final(self).pointers@.len() == 0,
            final(self).out@.len() >= old(self).out@.len(),
            old(self).current_directive == AsmDirective::Other ==> final(self).batched(),
    {
        match self.current_directive {
            AsmDirective::Byte => {
                let mut run: Vec<u8> = Vec::new();
                core::mem::swap(&mut self.bytes, &mut run);
                self.out.push(Directive::Bytes(run));
                assert(image_view(self.out@) =~= old(self).image());
            },
            AsmDirective::Ptr => {
                let mut run: Vec<AsmLabel> = Vec::new();
                core::mem::swap(&mut self.pointers, &mut run);
                self.out.push(Directive::Pointers(run));
                assert(image_view(self.out@) =~= old(self).image());
            },
            AsmDirective::Other => {},
        }
        self.current_directive = AsmDirective::Other;
        assert(self.image() =~= old(self).image());
    }

    /// Writes a directive that is no run.
    fn write_directive(&mut self, directive: Directive)
        requires
            old(self).batched(),
            !(directive is Bytes),
            !(directive is Pointers),
        ensures
            final(self).batched(),
            final(self).image() == old(self).image().push(directive@),
            final(self).rest() == old(self).rest(),
    {
        self.start_directive();
        self.out.push(directive);
        assert(self.image() =~= old(self).image().push(directive@));
    }

    /// Writes `size` bytes of padding.
    fn write_skip(&mut self, size: usize)
        requires
            old(self).batched(),
        ensures
            final(self).batched(),
            final(self).image() == old(self).image().push(DirectiveView::Skip(size)),
            final(self).rest() == old(self).rest(),
    {
        self.write_directive(Directive::Skip(size));
    }

    /// Writes one raw byte, into the open run where that is one of bytes.
    fn write_byte(&mut self, value: u8)
        requires
            old(self).batched(),
        ensures
            final(self).batched(),
            final(self).image() == with_bytes(old(self).image(), seq![value]),
            final(self).rest() == old(self).rest(),
    {
        match self.current_directive {
            AsmDirective::Byte => {},
            _ => {
                self.start_directive();
                self.current_directive = AsmDirective::Byte;
            },
        }
        self.bytes.push(value);
        proof {
            let before = old(self).image();
            if old(self).current_directive == AsmDirective::Byte {
                assert(before.drop_last() =~= image_view(self.out@));
                assert(old(self).bytes@ + seq![value] =~= self.bytes@);
            } else {
                assert(self.bytes@ =~= seq![value]);
                assert(image_view(self.out@) =~= before);
                if before.len() > 0 {
                    assert(before.last() == self.out@.last()@);
                }
            }
            assert(self.image() =~= with_bytes(before, seq![value]));
        }
    }

    /// Writes one pointer, into the open run where that is one of pointers.
    fn write_label_reference(&mut self, label: AsmLabel)
        requires
            old(self).batched(),
        ensures
            final(self).batched(),
            final(self).image() == with_pointer(old(self).image(), label@),
            final(self).rest() == old(self).rest(),
    {
        match self.current_directive {
            AsmDirective::Ptr => {},
            _ => {
                self.start_directive();
                self.current_directive = AsmDirective::Ptr;
            },
        }
        self.pointers.push(label);
        proof {
            let before = old(self).image();
            if old(self).current_directive == AsmDirective::Ptr {
                assert(before.drop_last() =~= image_view(self.out@));
                assert(labels_view(old(self).pointers@).push(label@) =~= labels_view(
                    self.pointers@,
                ));
            } else {
                assert(labels_view(self.pointers@) =~= seq![label@]);
                assert(image_view(self.out@) =~= before);
                if before.len() > 0 {
                    assert(before.last() == self.out@.last()@);
                }
            }
            assert(self.image() =~= with_pointer(before, label@));
        }
    }

    /// Binds the label `name` as another name for the place `target`.
    fn write_equiv(&mut self, name: LabelBase, target: AsmLabel)
        requires
            old(self).batched(),
        ensures
            final(self).batched(),
            final(self).image() == old(self).image().push(DirectiveView::Equiv(name@, target@)),
            final(self).rest() == old(self).rest(),
    {
        self.write_directive(Directive::Equiv(name, target));
    }

    /// Makes a label visible to the linker.
    fn write_global(&mut self, label: LabelBase)
        requires
            old(self).batched(),
        ensures
            final(self).batched(),
            final(self).image() == old(self).image().push(DirectiveView::Global(label@)),
            final(self).rest() == old(self).rest(),
    {
        self.write_directive(Directive::Global(label));
    }

    /// Marks a label as naming a data object.
    fn write_type_object(&mut self, label: LabelBase)
        requires
            old(self).batched(),
        ensures
            final(self).batched(),
            final(self).image() == old(self).image().push(DirectiveView::TypeObject(label@)),
            final(self).rest() == old(self).rest(),
    {
        self.write_directive(Directive::TypeObject(label));
    }

    /// Declares a label at the current place.
    fn write_label_declaration(&mut self, label: LabelBase)
        requires
            old(self).batched(),
        ensures
            final(self).batched(),
            final(self).image() == old(self).image().push(DirectiveView::Declare(label@)),
            final(self).rest() == old(self).rest(),
    {
        self.write_directive(Directive::Declare(label));
    }

    /// Records the number of bytes that the object under a label takes up.
    fn write_size(&mut self, label: LabelBase, size: usize)
        requires
            old(self).batched(),
        ensures
            final(self).batched(),
            final(self).image() == old(self).image().push(DirectiveView::Size(label@, size)),
            final(self).rest() == old(self).rest(),
    {
        self.write_directive(Directive::Size(label, size));
    }

    /// Writes the header of an object: the alignment, the padding that puts the
    /// size right before the object, and the size. The size is written so that a
    /// request to resize the object can be answered once the image is loaded.
    fn write_size_align(&mut self, size: usize, alignment: usize)
        requires
            old(self).batched(),
            alignment > 0,
            alignment * word() <= usize::MAX,
        ensures
            final(self).batched(),
            final(self).image() == old(self).image() + header(size, alignment),
            final(self).rest() == old(self).rest(),
    {
        let boundary = aligned(alignment);
        self.write_directive(Directive::Align(boundary));
        let padding = boundary - word_size();
        if padding > 0 {
            self.write_directive(Directive::Skip(padding));
        }
        self.write_directive(Directive::Word(size));
        assert(self.image() =~= old(self).image() + header(size, alignment));
    }
}

impl AsmDumper {
    /// Whether `size` more bytes fit into the object that is being written.
    fn room(&self, size: usize) -> (fits: bool)
        requires
            self.wf(),
        ensures
            fits == self.state().room(size as int),
    {
        match self.emitting {
            Some(object) => size <= object.size - (self.current_pointer.0 - object.start.0),
            None => false,
        }
    }

    /// The label of the object that starts at `start`, where one is known; the
    /// fault, where it is known with another size or alignment.
    fn get_object(&self, start: Address, size: usize, alignment: usize) -> (found: Result<
        Option<AsmLabel>,
        Fault,
    >)
        requires
            self.wf(),
        ensures
            match lookup(self.state().objects, start) {
                Some(object) => if object.size == size && object.alignment == alignment {
                    found matches Ok(Some(label)) && label@ == Label::object(start)
                } else {
                    found == Err::<Option<AsmLabel>, Fault>(Fault::LayoutConflict)
                },
                None => found matches Ok(None),
            },
    {
        match crate::registry::get_object(start, &self.objects) {
            Some(at) => {
                let object = self.objects[at];
                if object.size == size && object.alignment == alignment {
                    Ok(Some(object.label()))
                } else {
                    Err(Fault::LayoutConflict)
                }
            },
            None => Ok(None),
        }
    }

    /// Takes up a newly discovered object: binds the references that lie in it
    /// to their places in it, and puts it into the registry.
    fn new_object(
        &mut self,
        start: Address,
        size: usize,
        alignment: usize,
        value: Address,
        dump: DumpFunction,
    ) -> (label: AsmLabel)
        requires
            old(self).wf(),
            layout_fits(start, size, alignment),
            !crowded(old(self).state().objects, start, size),
        ensures
            final(self).batched(),
            final(self).state() =~= old(self).state().discovered(
                ObjectInfo { start, size, alignment, value, dump, state: ObjectState::Pending },
            ),
            label@ == Label::object(start),
    {
        let object = ObjectInfo::new(value, dump, start, size, alignment);
        let label = object.label();
        let taken = take_range(&mut self.pending_references, start, size);
        let mut i: usize = 0;
        while i < taken.len()
            invariant
                0 <= i <= taken.len(),
                self.batched(),
                label@ == Label::object(start),
                self.image() =~= old(self).image() + bindings(taken@.subrange(0, i as int), start),
                self.rest() == (DumpState {
                    references: crate::references::outside(
                        old(self).pending_references@,
                        start,
                        size,
                    ),
                    ..old(self).rest()
                }),
            decreases taken.len() - i,
        {
            let target = taken[i];
            self.write_equiv(LabelBase::Pointer(target), label.offset(target.distance(start)));
            proof {
                let before = bindings(taken@.subrange(0, i as int), start);
                let after = bindings(taken@.subrange(0, i + 1), start);
                assert(after =~= before.push(after.last()));
            }
            i += 1;
        }
        assert(taken@.subrange(0, i as int) =~= taken@);
        crate::registry::insert(&mut self.objects, object);
        proof {
            let after = old(self).state().discovered(object);
            assert(self.state().image =~= after.image);
            assert(self.state().references =~= after.references);
            assert(self.state().objects =~= after.objects);
            assert(self.state().tags =~= after.tags);
        }
        label
    }

    /// Registers a region as a complete object, and returns its label.
    fn register(
        &mut self,
        value: Address,
        dump: DumpFunction,
        start: Address,
        size: usize,
        alignment: usize,
    ) -> (result: Result<AsmLabel, Fault>)
        requires
            old(self).wf(),
            layout_allowed(start, size, alignment),
        ensures
            final(self).wf(),
            final(self).state() =~= old(self).state().registered(
                value,
                dump,
                start,
                size,
                alignment,
            ).state,
            match result {
                Ok(label) => old(self).state().registered(value, dump, start, size, alignment).fault
                    is None && label@ == Label::object(start),
                Err(fault) => old(self).state().registered(
                    value,
                    dump,
                    start,
                    size,
                    alignment,
                ).fault == Some(fault),
            },
    {
        proof {
            lemma_registered(self.state(), value, dump, start, size, alignment);
        }
        if size == 0 {
            return Err(Fault::ZeroSizeRegistration);
        }
        match self.get_object(start, size, alignment) {
            Err(fault) => Err(fault),
            Ok(Some(label)) => Ok(label),
            Ok(None) => {
                let (low, high) = get_overlap(start, size, &self.objects);
                if low < high {
                    Err(Fault::OverlapViolation)
                } else {
                    Ok(self.new_object(start, size, alignment, value, dump))
                }
            },
        }
    }
}

impl Dumper for AsmDumper {
    closed spec fn state(&self) -> DumpState {
        DumpState { image: self.image(), ..self.rest() }
    }

    closed spec fn wf(&self) -> bool {
        self.batched() && self.state().wf()
    }

    proof fn lemma_wf(&self) {
    }

    fn set_position(&mut self, new_position: Address) {
        proof {
            lemma_positioned(self.state(), new_position);
        }
        self.position_offset = new_position.distance(self.current_pointer);
    }

    fn current_position(&self) -> (position: Address) {
        self.current_pointer.plus_signed(self.position_offset)
    }

    fn position_offset(&self) -> (offset: isize) {
        self.position_offset
    }

    fn set_position_offset(&mut self, offset: isize) {
        proof {
            lemma_with_offset(self.state(), offset);
        }
        self.position_offset = offset;
    }

    fn dump_padding_sized(&mut self, size: usize) -> (result: Result<(), Fault>) {
        proof {
            lemma_padded(self.state(), size);
        }
        if !self.room(size) {
            return Err(Fault::BackwardAdvance);
        }
        if size != 0 {
            self.write_skip(size);
        }
        self.current_pointer = Address(self.current_pointer.0 + size);
        Ok(())
    }

    fn dump_value_sized_here(&mut self, bytes: &[u8]) -> (result: Result<(), Fault>) {
        proof {
            lemma_valued(self.state(), bytes@);
        }
        if !self.room(bytes.len()) {
            return Err(Fault::BackwardAdvance);
        }
        let mut i: usize = 0;
        while i < bytes.len()
            invariant
                0 <= i <= bytes.len(),
                self.batched(),
                self.rest() == old(self).rest(),
                self.image() == with_bytes(old(self).image(), bytes@.subrange(0, i as int)),
            decreases bytes.len() - i,
        {
            self.write_byte(bytes[i]);
            proof {
                lemma_with_bytes_push(
                    old(self).image(),
                    bytes@.subrange(0, i as int),
                    bytes@[i as int],
                );
                assert(bytes@.subrange(0, i as int).push(bytes@[i as int]) =~= bytes@.subrange(
                    0,
                    i + 1,
                ));
            }
            i += 1;
        }
        assert(bytes@.subrange(0, i as int) =~= bytes@);
        self.current_pointer = Address(self.current_pointer.0 + bytes.len());
        Ok(())
    }

    fn tag_reference(&mut self, value: Address, tag: usize) {
        proof {
            lemma_tagged(self.state(), value, tag);
        }
        self.tags.push(Tag { tag, address: value });
    }

    fn dump_reference_here(&mut self, target: Address) -> (result: Result<(), Fault>) {
        proof {
            lemma_referenced(self.state(), target);
        }
        if !self.room(word_size()) {
            return Err(Fault::BackwardAdvance);
        }
        let label = match get_complete_object(target, &self.objects) {
            Some(at) => {
                let object = self.objects[at];
                object.label().offset(target.distance(object.start))
            },
            None => {
                insert_reference(&mut self.pending_references, target);
                AsmLabel::new_internal(target)
            },
        };
        self.write_label_reference(label);
        self.current_pointer = Address(self.current_pointer.0 + word_size());
        Ok(())
    }

    fn reference_object_function_sized_position(
        &mut self,
        value: Address,
        dump: DumpFunction,
        position: Address,
        size: usize,
        alignment: usize,
    ) -> (result: Result<(), Fault>) {
        proof {
            lemma_registered(self.state(), value, dump, position, size, alignment);
        }
        match self.register(value, dump, position, size, alignment) {
            Ok(_) => Ok(()),
            Err(fault) => Err(fault),
        }
    }

    fn dump_reference_object_function_sized_position_offset_here(
        &mut self,
        value: Address,
        dump: DumpFunction,
        position: Address,
        size: usize,
        alignment: usize,
        offset: isize,
    ) -> (result: Result<(), Fault>) {
        proof {
            lemma_object_referenced(self.state(), value, dump, position, size, alignment, offset);
        }
        if !self.room(word_size()) {
            return Err(Fault::BackwardAdvance);
        }
        match self.register(value, dump, position, size, alignment) {
            Ok(label) => {
                self.write_label_reference(label.offset(offset));
                self.current_pointer = Address(self.current_pointer.0 + word_size());
                Ok(())
            },
            Err(fault) => Err(fault),
        }
    }
}

impl AsmDumper {
    /// A dump that has just begun.
    pub fn new() -> (dumper: AsmDumper)
        ensures
            dumper.wf(),
            dumper.state() == DumpState::initial(),
    {
        let mut out: Vec<Directive> = Vec::new();
        out.push(Directive::Start);
        out.push(Directive::Data);
        out.push(Directive::Global(LabelBase::Global("RODAL_START".to_owned())));
        out.push(Directive::Declare(LabelBase::Global("RODAL_START".to_owned())));
        let dumper = AsmDumper {
            out,
            current_directive: AsmDirective::Other,
            bytes: Vec::new(),
            pointers: Vec::new(),
            current_pointer: Address::null(),
            position_offset: 0,
            objects: Vec::new(),
            emitting: None,
            pending_references: Vec::new(),
            tags: Vec::new(),
        };
        proof {
            lemma_initial();
            assert(dumper.state().image =~= DumpState::initial().image);
            assert(dumper.state() =~= DumpState::initial());
        }
        dumper
    }

    /// Whether no object is being written.
    pub fn is_idle(&self) -> (idle: bool)
        ensures
            idle == self.state().idle(),
    {
        self.emitting.is_none()
    }

    /// Writes the directives that stand before the bytes of `object`.
    #[verifier::rlimit(50)]
    fn write_opening(&mut self, object: ObjectInfo, name: Option<&str>)
        requires
            old(self).batched(),
            object.fits(),
        ensures
            final(self).batched(),
            final(self).image() == old(self).image() + opening(
                object,
                match name {
                    Some(name) => Some(name@),
                    None => None,
                },
            ),
            final(self).rest() == old(self).rest(),
    {
        match name {
            Some(name) => {
                let ghost global = LabelName::Global(name@);
                let ghost own = LabelName::Object(object.start);
                self.write_global(LabelBase::Global(name.to_owned()));
                self.write_type_object(LabelBase::Global(name.to_owned()));
                self.write_size(LabelBase::Global(name.to_owned()), object.size);
                self.write_type_object(LabelBase::Object(object.start));
                let ghost first = self.image();
                assert(first =~= old(self).image() + seq![
                    DirectiveView::Global(global),
                    DirectiveView::TypeObject(global),
                    DirectiveView::Size(global, object.size),
                    DirectiveView::TypeObject(own),
                ]);
                self.write_size_align(object.size, object.alignment);
                let ghost second = self.image();
                self.write_label_declaration(LabelBase::Global(name.to_owned()));
                self.write_label_declaration(LabelBase::Object(object.start));
                assert(self.image() =~= second + seq![
                    DirectiveView::Declare(global),
                    DirectiveView::Declare(own),
                ]);
                assert(self.image() =~= old(self).image() + opening(object, Some(name@)));
            },
            None => {
                self.write_type_object(LabelBase::Object(object.start));
                self.write_size_align(object.size, object.alignment);
                self.write_label_declaration(LabelBase::Object(object.start));
                assert(self.image() =~= old(self).image() + opening(object, None));
            },
        }
    }

    /// Writes what stands before the bytes of the object at place `at` of the
    /// registry, which is from now on the object that is being written.
    fn begin(&mut self, at: usize, name: Option<&str>)
        requires
            old(self).wf(),
            old(self).state().idle(),
            at < old(self).state().objects.len(),
            old(self).state().objects[at as int].state == ObjectState::Pending,
        ensures
            final(self).wf(),
            final(self).state() =~= old(self).state().begun(
                old(self).state().objects[at as int].start,
                match name {
                    Some(name) => Some(name@),
                    None => None,
                },
            ),
            final(self).state().emitting == Some(
                old(self).state().objects[at as int].in_state(ObjectState::Emitting),
            ),
            old(self).state().grows(final(self).state()),
            unemitted(final(self).state().objects) == unemitted(old(self).state().objects),
    {
        let object = self.objects[at];
        let ghost spec_name: Option<Seq<char>> = match name {
            Some(name) => Some(name@),
            None => None,
        };
        let ghost before = self.state();
        proof {
            lemma_begun(before, at as int, spec_name);
            lemma_unemitted_begun(before, at as int, spec_name);
            crate::registry::lemma_lookup_is(before.objects, at as int);
            assert(object.fits());
        }
        self.write_opening(object, name);
        let entered = ObjectInfo {
            start: object.start,
            size: object.size,
            alignment: object.alignment,
            value: object.value,
            dump: object.dump,
            state: ObjectState::Emitting,
        };
        self.objects.set(at, entered);
        self.emitting = Some(entered);
        self.current_pointer = object.start;
        proof {
            let after = before.begun(object.start, spec_name);
            assert(entered == object.in_state(ObjectState::Emitting));
            assert(self.state().image =~= after.image);
            assert(self.state().objects =~= after.objects);
            assert(self.state() =~= after);
        }
    }

    /// Writes the header of a root: the `size` bytes at `value`, under the name
    /// `name`, which the routine `function` describes. The root is from now on
    /// the object that is being written. A root that was registered before, and
    /// is still to be written, is written as it was registered, where the size
    /// and the alignment agree, and fails with `LayoutConflict` where they do
    /// not; one that is written already fails with `OverlapViolation`.
    pub fn begin_root(
        &mut self,
        name: &str,
        value: Address,
        function: DumpFunction,
        size: usize,
        alignment: usize,
    ) -> (result: Result<(), Fault>)
        requires
            old(self).wf(),
            old(self).state().idle(),
            layout_allowed(value, size, alignment),
        ensures
            final(self).wf(),
            final(self).state() =~= old(self).state().root_begun(
                name@,
                value,
                function,
                size,
                alignment,
            ).state,
            result == old(self).state().root_begun(name@, value, function, size, alignment).result(),
            old(self).state().grows(final(self).state()),
            unemitted(final(self).state().objects) == unemitted(old(self).state().objects),
    {
        let ghost before = self.state();
        proof {
            lemma_root_begun(before, name@, value, function, size, alignment);
        }
        if size == 0 {
            return Err(Fault::ZeroSizeRegistration);
        }
        match crate::registry::get_object(value, &self.objects) {
            Some(at) => {
                let object = self.objects[at];
                if object.size != size || object.alignment != alignment {
                    return Err(Fault::LayoutConflict);
                }
                match object.state {
                    ObjectState::Pending => {
                        self.begin(at, Some(name));
                        Ok(())
                    },
                    _ => Err(Fault::OverlapViolation),
                }
            },
            None => {
                let (low, high) = get_overlap(value, size, &self.objects);
                if low < high {
                    return Err(Fault::OverlapViolation);
                }
                let ghost object = before.root_entry(value, function, size, alignment);
                proof {
                    lemma_discovered(before, object);
                    lemma_slot_exists(before.objects, value);
                }
                self.new_object(value, size, alignment, value, function);
                let at = crate::registry::slot(&self.objects, value);
                proof {
                    let middle = before.discovered(object);
                    lemma_lookup_inserted(before.objects, object, value);
                    crate::registry::lemma_slot_unique(
                        middle.objects,
                        value,
                        crate::registry::slot_of(before.objects, value),
                    );
                }
                self.begin(at, Some(name));
                Ok(())
            },
        }
    }

    /// Takes the first object that is still to be written, writes its header and
    /// returns it; it is from now on the object that is being written. Where no
    /// object is still to be written, nothing happens.
    pub fn begin_next(&mut self) -> (next: Option<ObjectInfo>)
        requires
            old(self).wf(),
            old(self).state().idle(),
        ensures
            final(self).wf(),
            old(self).state().grows(final(self).state()),
            unemitted(final(self).state().objects) == unemitted(old(self).state().objects),
            match next {
                Some(object) => {
                    &&& object.state == ObjectState::Pending
                    &&& exists|at: int|
                        is_first_pending(old(self).state().objects, at) && old(
                            self,
                        ).state().objects[at] == object
                    &&& final(self).state() =~= old(self).state().begun(object.start, None)
                    &&& final(self).state().emitting == Some(
                        object.in_state(ObjectState::Emitting),
                    )
                },
                None => {
                    &&& none_pending(old(self).state().objects)
                    &&& final(self).state() == old(self).state()
                },
            },
    {
        let mut at: usize = 0;
        while at < self.objects.len()
            invariant
                0 <= at <= self.objects.len(),
                *self == *old(self),
                self.wf(),
                self.state().idle(),
                forall|i: int|
                    0 <= i < at ==> (#[trigger] self.objects@[i]).state != ObjectState::Pending,
            decreases self.objects.len() - at,
        {
            match self.objects[at].state {
                ObjectState::Pending => {
                    let object = self.objects[at];
                    assert(is_first_pending(self.state().objects, at as int));
                    self.begin(at, None);
                    return Some(object);
                },
                _ => {},
            }
            at += 1;
        }
        proof {
            lemma_grows_reflexive(self.state());
        }
        None
    }

    /// Ends the object that is being written, where `described` says that its
    /// description went well: pads it to its size, records the size, and counts
    /// the object as written in full. Where the description failed, hands the
    /// fault on and leaves everything as it is.
    pub fn end_object(&mut self, described: Result<(), Fault>) -> (result: Result<(), Fault>)
        requires
            old(self).wf(),
            old(self).state().emitting is Some,
        ensures
            final(self).wf(),
            result == described,
            old(self).state().grows(final(self).state()),
            match described {
                Ok(_) => final(self).state() =~= old(self).state().ended() && unemitted(
                    final(self).state().objects,
                ) == unemitted(old(self).state().objects) - 1,
                Err(_) => final(self).state() == old(self).state(),
            },
    {
        proof {
            lemma_grows_reflexive(self.state());
        }
        match described {
            Err(_) => described,
            Ok(_) => {
                let object = self.emitting.unwrap();
                proof {
                    lemma_ended(self.state());
                    lemma_unemitted_ended(self.state());
                    assert(known(self.state().objects, object.start));
                }
                self.advance_position(object);
                self.write_size(LabelBase::Object(object.start), object.size);
                let found = crate::registry::get_object(object.start, &self.objects);
                let at = found.unwrap();
                proof {
                    crate::invariants::lemma_slot_is(self.objects@, at as int);
                }
                let done = ObjectInfo {
                    start: object.start,
                    size: object.size,
                    alignment: object.alignment,
                    value: object.value,
                    dump: object.dump,
                    state: ObjectState::Emitted,
                };
                self.objects.set(at, done);
                self.emitting = None;
                proof {
                    let after = old(self).state().ended();
                    assert(self.state().image =~= after.image);
                    assert(self.state().objects =~= after.objects);
                }
                described
            },
        }
    }

    /// Moves the cursor on to the end of `object`, the object that is being
    /// written, with as much padding as it takes.
    fn advance_position(&mut self, object: ObjectInfo)
        requires
            old(self).wf(),
            old(self).state().emitting == Some(object),
        ensures
            final(self).batched(),
            final(self).image() == old(self).image() + if old(self).current_pointer.0
                < object.end() {
                seq![DirectiveView::Skip((object.end() - old(self).current_pointer.0) as usize)]
            } else {
                Seq::<DirectiveView>::empty()
            },
            final(self).rest() == (DumpState {
                cursor: Address(object.end() as usize),
                ..old(self).rest()
            }),
    {
        proof {
            assert(known(self.state().objects, object.start));
            let i = choose|i: int|
                0 <= i < self.state().objects.len() && (#[trigger] self.state().objects[i]).start
                    == object.start;
            crate::registry::lemma_lookup_is(self.state().objects, i);
            assert(object.fits());
        }
        let end = object.end_address();
        let padding = end.0 - self.current_pointer.0;
        if padding != 0 {
            self.write_skip(padding);
        }
        self.current_pointer = end;
        assert(self.image() =~= old(self).image() + if old(self).current_pointer.0 < object.end() {
            seq![DirectiveView::Skip((object.end() - old(self).current_pointer.0) as usize)]
        } else {
            Seq::<DirectiveView>::empty()
        });
    }

    /// Ends the image with its closing marker. Fails, and writes nothing, where
    /// a reference still waits for its owner.
    pub fn end_image(&mut self) -> (result: Result<(), Fault>)
        requires
            old(self).wf(),
        ensures
            final(self).wf(),
            final(self).state() =~= old(self).state().finished().state,
            result == old(self).state().finished().result(),
            old(self).state().grows(final(self).state()),
    {
        proof {
            lemma_finished(self.state());
            lemma_grows_reflexive(self.state());
        }
        if self.pending_references.len() > 0 {
            return Err(Fault::DanglingReference);
        }
        self.write_global(LabelBase::Global("RODAL_END".to_owned()));
        self.write_label_declaration(LabelBase::Global("RODAL_END".to_owned()));
        self.write_directive(Directive::End);
        proof {
            assert(self.state().image =~= old(self).state().finished().state.image);
            assert(self.state().tags.subrange(0, old(self).state().tags.len() as int)
                =~= old(self).state().tags);
        }
        Ok(())
    }
}

impl AsmDumper {
    /// Dumps a root: the `size` bytes at `value`, under the name `name`, which
    /// the routine `function` of `graph` describes. The objects that the routine
    /// finds are registered, and wait for `finish`. Where the routine fails, its
    /// fault is handed on, and the root is still the object being written.
    pub fn dump_sized<G: Dump>(
        &mut self,
        graph: &G,
        name: &str,
        value: Address,
        function: DumpFunction,
        size: usize,
        alignment: usize,
    ) -> (result: Result<(), Fault>)
        requires
            old(self).wf(),
            old(self).state().idle(),
            layout_allowed(value, size, alignment),
        ensures
            final(self).wf(),
            old(self).state().grows(final(self).state()),
            old(self).state().root_dumped(
                name@,
                value,
                function,
                size,
                alignment,
                final(self).state(),
                result,
            ),
            old(self).state().root_refusal(value, size, alignment) is Some ==> final(self).state()
                == old(self).state() && result == old(self).state().root_begun(
                name@,
                value,
                function,
                size,
                alignment,
            ).result(),
            old(self).state().root_refusal(value, size, alignment) is None ==> match result {
                Ok(_) => {
                    &&& final(self).state().idle()
                    &&& final(self).state().cursor.0 == value.0 + size
                    &&& written(final(self).state().image) == written(old(self).state().image)
                        + header_alignment(alignment) + size
                    &&& lookup(final(self).state().objects, value) == Some(
                        old(self).state().root_entry(value, function, size, alignment).in_state(
                            ObjectState::Emitted,
                        ),
                    )
                },
                Err(_) => final(self).state().emitting == Some(
                    old(self).state().root_entry(value, function, size, alignment).in_state(
                        ObjectState::Emitting,
                    ),
                ),
            },
    {
        let ghost before = self.state();
        proof {
            lemma_root_begun(before, name@, value, function, size, alignment);
        }
        self.begin_root(name, value, function, size, alignment)?;
        let ghost begun = self.state();
        let described = dump_object_function_here(graph, self, value, function);
        let ghost walked = self.state();
        proof {
            lemma_unemitted_evolves(begun, walked);
            lemma_grows_transitive(before, begun, walked);
            lemma_ended(walked);
        }
        let result = self.end_object(described);
        proof {
            lemma_grows_transitive(before, walked, self.state());
            assert(begun.evolves(walked) && walked.offset == begun.offset && self.state() == match result {
                Ok(_) => walked.ended(),
                Err(_) => walked,
            });
        }
        result
    }

    /// Dumps a root as `dump_sized` does, with the size and the alignment of the
    /// type `T`: the type of the value that lies at `value`.
    pub fn dump<T, G: Dump>(
        &mut self,
        graph: &G,
        name: &str,
        value: Address,
        function: DumpFunction,
    ) -> (result: Result<(), Fault>)
        requires
            old(self).wf(),
            old(self).state().idle(),
            layout_allowed(value, core::mem::size_of::<T>(), core::mem::align_of::<T>()),
        ensures
            final(self).wf(),
            old(self).state().grows(final(self).state()),
            old(self).state().root_dumped(
                name@,
                value,
                function,
                core::mem::size_of::<T>(),
                core::mem::align_of::<T>(),
                final(self).state(),
                result,
            ),
    {
        self.dump_sized(
            graph,
            name,
            value,
            function,
            core::mem::size_of::<T>(),
            core::mem::align_of::<T>(),
        )
    }

    /// Writes every object that is still to be written, and those that are found
    /// on the way, each one once; then ends the image. Fails with
    /// `DanglingReference`, after all objects are written, where a reference has
    /// found no owner; and with the fault of a routine of `graph`, while the
    /// object that it described is still the one being written.
    pub fn finish<G: Dump>(&mut self, graph: &G) -> (result: Result<(), Fault>)
        requires
            old(self).wf(),
            old(self).state().idle(),
        ensures
            final(self).wf(),
            old(self).state().grows(final(self).state()),
            old(self).state().finish_done(final(self).state(), result),
            none_pending(old(self).state().objects) ==> final(self).state() == old(
                self,
            ).state().finished().state && result == old(self).state().finished().result(),
            match result {
                Ok(_) => {
                    &&& final(self).state().idle()
                    &&& all_emitted(final(self).state().objects)
                    &&& final(self).state().references.len() == 0
                    &&& final(self).state().image.len() >= 3
                    &&& final(self).state().image.subrange(
                        final(self).state().image.len() - 3,
                        final(self).state().image.len() as int,
                    ) == seq![
                        DirectiveView::Global(LabelName::Global(end_name())),
                        DirectiveView::Declare(LabelName::Global(end_name())),
                        DirectiveView::End,
                    ]
                },
                Err(fault) => {
                    ||| final(self).state().emitting is Some
                    ||| {
                        &&& fault == Fault::DanglingReference
                        &&& final(self).state().idle()
                        &&& all_emitted(final(self).state().objects)
                        &&& final(self).state().references.len() > 0
                    }
                },
            },
    {
        let ghost before = self.state();
        let mut next = self.begin_next();
        while next.is_some()
            invariant
                self.wf(),
                before == old(self).state(),
                before.grows(self.state()),
                none_pending(before.objects) ==> next is None && self.state() == before,
                match next {
                    Some(object) => self.state().emitting == Some(
                        object.in_state(ObjectState::Emitting),
                    ),
                    None => self.state().idle() && none_pending(self.state().objects),
                },
            decreases unemitted(self.state().objects),
        {
            let object = next.unwrap();
            let ghost begun = self.state();
            let described = dump_object_function_here(graph, self, object.value, object.dump);
            let ghost walked = self.state();
            proof {
                lemma_unemitted_evolves(begun, walked);
                lemma_unemitted_bounds(walked.objects);
                lemma_grows_transitive(before, begun, walked);
            }
            let ended = self.end_object(described);
            proof {
                lemma_grows_transitive(before, walked, self.state());
                lemma_unemitted_bounds(self.state().objects);
            }
            if ended.is_err() {
                return ended;
            }
            let ghost closed = self.state();
            proof {
                lemma_ended(walked);
            }
            next = self.begin_next();
            proof {
                lemma_grows_transitive(before, closed, self.state());
                lemma_unemitted_bounds(self.state().objects);
            }
        }
        let ghost drained = self.state();
        let result = self.end_image();
        proof {
            lemma_grows_transitive(before, drained, self.state());
            assert forall|i: int| 0 <= i < drained.objects.len() implies (
            #[trigger] drained.objects[i]).state == ObjectState::Emitted by {
                if drained.objects[i].state == ObjectState::Emitting {
                    assert(drained.emitting == Some(drained.objects[i]));
                }
            }
            assert(before.drains_to(drained) && self.state() == drained.finished().state && result
                == drained.finished().result());
            if result is Ok {
                let image = self.state().image;
                assert(image.subrange(image.len() - 3, image.len() as int) =~= seq![
                    DirectiveView::Global(LabelName::Global(end_name())),
                    DirectiveView::Declare(LabelName::Global(end_name())),
                    DirectiveView::End,
                ]);
            }
        }
        result
    }
}

impl AsmDumper {
    /// The complete objects that are known, in the order of their addresses.
    pub fn objects(&self) -> (objects: &Vec<ObjectInfo>)
        ensures
            objects@ == self.state().objects,
    {
        &self.objects
    }

    /// The object that is being written, if one is.
    pub fn emitting(&self) -> (object: Option<ObjectInfo>)
        ensures
            object == self.state().emitting,
    {
        self.emitting
    }

    /// The referenced addresses that no known object owns, in rising order.
    pub fn pending_references(&self) -> (references: &Vec<Address>)
        ensures
            references@ == self.state().references,
    {
        &self.pending_references
    }

    /// The tags, in the order in which they were given.
    pub fn tags(&self) -> (tags: &Vec<Tag>)
        ensures
            tags@ == self.state().tags,
    {
        &self.tags
    }

    /// The directives of the image, in the order in which they were written.
    pub fn into_directives(self) -> (directives: Vec<Directive>)
        requires
            self.wf(),
        ensures
            image_view(directives@) == self.state().image,
    {
        let mut dumper = self;
        dumper.start_directive();
        assert(dumper.image() =~= image_view(dumper.out@));
        dumper.out
    }
}

impl AsmDumper {
    /// Writes a word that holds `value`.
    fn write_word(&mut self, value: usize)
        requires
            old(self).wf(),
            old(self).state().room(word() as int),
        ensures
            final(self).wf(),
            final(self).state() =~= old(self).state().worded(value),
    {
        proof {
            lemma_worded(self.state(), value);
        }
        self.write_directive(Directive::Word(value));
        self.current_pointer = Address(self.current_pointer.0 + word_size());
    }

    /// Whether the table of the tags fits at `position`.
    pub fn tags_fit(&self, position: Address) -> (fits: bool)
        ensures
            fits == table_fits(self.state().tags.len(), position),
    {
        let w = word_size();
        let count = self.tags.len();
        let limit: usize = isize::MAX as usize;
        proof {
            assert(table_size(count as nat) == w * (1 + 2 * count));
            if count > limit / 2 {
                assert(w * (1 + 2 * count) > limit) by (nonlinear_arith)
                    requires
                        w >= 4,
                        2 * count + 1 > limit,
                ;
            }
        }
        if count > limit / 2 {
            return false;
        }
        let words = 1 + 2 * count;
        proof {
            if words > limit / w {
                assert(w * words > limit) by (nonlinear_arith)
                    requires
                        w > 0,
                        words > limit / w,
                        limit / w * w + limit % w == limit,
                        limit % w < w,
                ;
            } else {
                assert(w * words <= limit) by (nonlinear_arith)
                    requires
                        w > 0,
                        words <= limit / w,
                        limit / w * w + limit % w == limit,
                        limit % w >= 0,
                ;
            }
        }
        if words > limit / w {
            return false;
        }
        let size = w * words;
        size <= usize::MAX - position.0
    }

    /// Writes the table of the tags at `position`, as a root under the name
    /// `RODAL_TAGS`.
    pub fn write_tags(&mut self, position: Address) -> (result: Result<(), Fault>)
        requires
            old(self).wf(),
            old(self).state().idle(),
            table_fits(old(self).state().tags.len(), position),
        ensures
            final(self).wf(),
            final(self).state() =~= old(self).state().tabled(position).state,
            result == old(self).state().tabled(position).result(),
            old(self).state().grows(final(self).state()),
    {
        let ghost before = self.state();
        let w = word_size();
        let count = self.tags.len();
        proof {
            assert(table_size(count as nat) == w * (1 + 2 * count));
            assert(w * (1 + 2 * count) >= 1 + 2 * count && w * (1 + 2 * count) == w + 2 * count * w)
                by (nonlinear_arith)
                requires
                    w >= 1,
                    count >= 0,
            ;
            assert(w * w <= usize::MAX) by (nonlinear_arith)
                requires
                    w == 4 || w == 8,
                    usize::MAX >= 0xffff_ffff,
            ;
        }
        let size = w * (1 + 2 * count);
        let begun = self.begin_root("RODAL_TAGS", position, DumpFunction(0), size, w);
        if begun.is_err() {
            return begun;
        }
        let ghost root = self.state();
        proof {
            lemma_root_begun(before, "RODAL_TAGS"@, position, DumpFunction(0), size, w);
            assert(root.tags == before.tags);
            assert(root.cursor == position);
        }
        self.write_word(count);
        let ghost base = self.state();
        proof {
            lemma_worded(root, count);
            assert(2 * count * word() == 2 * count * w);
            lemma_tags_written(base, count as nat);
        }
        let mut i: usize = 0;
        while i < count
            invariant
                0 <= i <= count,
                count == base.tags.len(),
                w == word(),
                self.wf(),
                base.wf(),
                base.room(2 * count * word()),
                self.tags@ == base.tags,
                self.state() =~= base.tags_written(i as nat),
            decreases count - i,
        {
            let tag = self.tags[i];
            proof {
                assert(2 * i * word() + 2 * w == 2 * (i + 1) * word() && 2 * (i + 1) * word() <= 2
                    * count * word() && 2 * i * word() >= 0) by (nonlinear_arith)
                    requires
                        0 <= i < count,
                        w == word(),
                        w >= 0,
                ;
                lemma_tags_written(base, i as nat);
                lemma_tags_written(base, (i + 1) as nat);
            }
            self.write_word(tag.tag);
            let pointed = self.dump_reference_here(tag.address);
            assert(pointed is Ok);
            i += 1;
        }
        let ghost filled = self.state();
        proof {
            lemma_unemitted_evolves(root, base);
            lemma_unemitted_evolves(base, filled);
            lemma_grows_transitive(before, root, base);
            lemma_grows_transitive(before, base, filled);
        }
        let ended = self.end_object(Ok(()));
        proof {
            lemma_grows_transitive(before, filled, self.state());
        }
        if self.pending_references.len() > 0 {
            Err(Fault::DanglingReference)
        } else {
            Ok(())
        }
    }

    /// Writes the table of the tags at `position`, where it fits there; fails with
    /// `OverlapViolation`, and writes nothing, where it does not.
    pub fn write_tags_where_fit(&mut self, position: Address) -> (result: Result<(), Fault>)
        requires
            old(self).wf(),
            old(self).state().idle(),
        ensures
            final(self).wf(),
            final(self).state() == old(self).state().tabled_where_fits(position).state,
            result == old(self).state().tabled_where_fits(position).result(),
            old(self).state().grows(final(self).state()),
            final(self).state().idle(),
    {
        proof {
            lemma_grows_reflexive(self.state());
        }
        if !self.tags_fit(position) {
            return Err(Fault::OverlapViolation);
        }
        proof {
            lemma_tabled_idle(self.state(), position);
        }
        self.write_tags(position)
    }

    /// Finishes the dump, and then writes the table of the tags at `position`,
    /// as one more root under the name `RODAL_TAGS`: a word that holds the number
    /// of the tags, and then, in the order in which the tags were given, for each
    /// tag a word that holds its category and a pointer to the address that it
    /// marks. Fails as `finish` does; with `OverlapViolation` where the table
    /// shares a byte with a known object, or does not fit at `position`; and
    /// with `DanglingReference` where a tagged address lies in no known object.
    pub fn dump_tags<G: Dump>(&mut self, graph: &G, position: Address) -> (result: Result<
        (),
        Fault,
    >)
        requires
            old(self).wf(),
            old(self).state().idle(),
        ensures
            final(self).wf(),
            old(self).state().grows(final(self).state()),
            old(self).state().tags_done(position, final(self).state(), result),
            none_pending(old(self).state().objects) ==> final(self).state() == old(
                self,
            ).state().finished_and_tabled(position).state && result == old(
                self,
            ).state().finished_and_tabled(position).result(),
            result is Ok ==> {
                &&& final(self).state().idle()
                &&& all_emitted(final(self).state().objects)
                &&& final(self).state().references.len() == 0
                &&& lookup(final(self).state().objects, position) matches Some(table)
                &&& table.size == table_size(final(self).state().tags.len())
            },
    {
        let ghost before = self.state();
        let finished = self.finish(graph);
        if finished.is_err() {
            return finished;
        }
        let ghost ended = self.state();
        let result = self.write_tags_where_fit(position);
        proof {
            lemma_grows_transitive(before, ended, self.state());
            if result is Ok {
                lemma_tabled(ended, position);
            }
            if !(self.state().emitting is Some) {
                let drained = choose|drained: DumpState| #[trigger]
                    before.drains_to(drained) && ended == drained.finished().state
                        && finished == drained.finished().result();
                assert(before.drains_to(drained) && self.state() == drained.finished_and_tabled(
                    position,
                ).state && result == drained.finished_and_tabled(position).result());
            }
        }
        result
    }
}

} // verus!
