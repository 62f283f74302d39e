//! The traversal protocol: what a value that describes itself can ask of a
//! dumper, and what a dumper can ask of the values.
use crate::address::Address;
use crate::fault::Fault;
use crate::invariants::{lemma_evolves_reflexive, lemma_evolves_transitive};
use crate::registry::DumpFunction;
use crate::state::{follows, layout_allowed, DumpState};
use vstd::prelude::*;
use vstd::slice::slice_subrange;

verus! {

/// A type that has a name.
pub trait Named {
    /// The name of the type.
    fn name() -> String;
}

/// Whether `name` is what the type `T` can give as its name.
pub open spec fn names<T: Named>(name: String) -> bool {
    call_ensures(T::name, (), name)
}

/// The name of the type `T`, as the type itself gives it.
pub fn name_of<T: Named>() -> (name: String)
    ensures
        names::<T>(name),
{
    T::name()
}

impl Named for bool {
    fn name() -> (name: String)
        ensures
            name@ == "bool"@,
    {
        "bool".to_owned()
    }
}

impl Named for char {
    fn name() -> (name: String)
        ensures
            name@ == "char"@,
    {
        "char".to_owned()
    }
}

impl Named for u8 {
    fn name() -> (name: String)
        ensures
            name@ == "u8"@,
    {
        "u8".to_owned()
    }
}

impl Named for u16 {
    fn name() -> (name: String)
        ensures
            name@ == "u16"@,
    {
        "u16".to_owned()
    }
}

impl Named for u32 {
    fn name() -> (name: String)
        ensures
            name@ == "u32"@,
    {
        "u32".to_owned()
    }
}

impl Named for u64 {
    fn name() -> (name: String)
        ensures
            name@ == "u64"@,
    {
        "u64".to_owned()
    }
}

impl Named for usize {
    fn name() -> (name: String)
        ensures
            name@ == "usize"@,
    {
        "usize".to_owned()
    }
}

impl Named for i8 {
    fn name() -> (name: String)
        ensures
            name@ == "i8"@,
    {
        "i8".to_owned()
    }
}

impl Named for i16 {
    fn name() -> (name: String)
        ensures
            name@ == "i16"@,
    {
        "i16".to_owned()
    }
}

impl Named for i32 {
    fn name() -> (name: String)
        ensures
            name@ == "i32"@,
    {
        "i32".to_owned()
    }
}

impl Named for i64 {
    fn name() -> (name: String)
        ensures
            name@ == "i64"@,
    {
        "i64".to_owned()
    }
}

impl Named for isize {
    fn name() -> (name: String)
        ensures
            name@ == "isize"@,
    {
        "isize".to_owned()
    }
}

/// What a value uses to describe itself. Each operation writes at the current
/// place of the object that is being written. Where that object has no room for
/// what is to be written, or no object is being written at all, the operation
/// fails with `BackwardAdvance` and leaves everything as it was.
pub trait Dumper: Sized {
    /// The state of the dump.
    spec fn state(&self) -> DumpState;

    /// Whether the dumper holds its state as it should.
    spec fn wf(&self) -> bool;

    /// A dumper that holds its state as it should is in a state that a dump can
    /// be in.
    proof fn lemma_wf(&self)
        requires
            self.wf(),
        ensures
            self.state().wf(),
    ;

    /// Tells the traversal routines that the next byte lies at `new_position`.
    fn set_position(&mut self, new_position: Address)
        requires
            old(self).wf(),
        ensures
            final(self).state() =~= old(self).state().positioned(new_position),
            final(self).state().position() == new_position,
            final(self).wf(),
            final(self).state().wf(),
            old(self).state().evolves(final(self).state()),
    ;

    /// Where the next byte lies, as the traversal routines see it.
    fn current_position(&self) -> (position: Address)
        ensures
            position == self.state().position(),
    ;

    /// What is added to the write cursor to give the position.
    fn position_offset(&self) -> (offset: isize)
        ensures
            offset == self.state().offset,
    ;

    /// Sets what is added to the write cursor to give the position.
    fn set_position_offset(&mut self, offset: isize)
        requires
            old(self).wf(),
        ensures
            final(self).state() =~= old(self).state().with_offset(offset),
            final(self).wf(),
            final(self).state().wf(),
            old(self).state().evolves(final(self).state()),
    ;

    /// Writes `size` bytes of padding.
    fn dump_padding_sized(&mut self, size: usize) -> (result: Result<(), Fault>)
        requires
            old(self).wf(),
        ensures
            final(self).wf(),
            follows(
                old(self).state(),
                old(self).state().padded(size),
                final(self).state(),
                result,
            ),
    ;

    /// Writes the raw bytes `bytes`.
    fn dump_value_sized_here(&mut self, bytes: &[u8]) -> (result: Result<(), Fault>)
        requires
            old(self).wf(),
        ensures
            final(self).wf(),
            follows(
                old(self).state(),
                old(self).state().valued(bytes@),
                final(self).state(),
                result,
            ),
    ;

    /// Marks the address `value` with the category `tag`.
    fn tag_reference(&mut self, value: Address, tag: usize)
        requires
            old(self).wf(),
        ensures
            final(self).state() =~= old(self).state().tagged(value, tag),
            final(self).wf(),
            final(self).state().wf(),
            old(self).state().evolves(final(self).state()),
    ;

    /// Writes a pointer to `target`, to be resolved to wherever `target` ends up
    /// in the image.
    fn dump_reference_here(&mut self, target: Address) -> (result: Result<(), Fault>)
        requires
            old(self).wf(),
        ensures
            final(self).wf(),
            follows(
                old(self).state(),
                old(self).state().referenced(target),
                final(self).state(),
                result,
            ),
    ;

    /// Registers the `size` bytes at `position` as a complete object, which the
    /// routine `dump` describes from `value`.
    fn reference_object_function_sized_position(
        &mut self,
        value: Address,
        dump: DumpFunction,
        position: Address,
        size: usize,
        alignment: usize,
    ) -> (result: Result<(), Fault>)
        requires
            old(self).wf(),
            layout_allowed(position, size, alignment),
        ensures
            final(self).wf(),
            follows(
                old(self).state(),
                old(self).state().registered(value, dump, position, size, alignment),
                final(self).state(),
                result,
            ),
    ;

    /// Registers the `size` bytes at `position` as a complete object, and writes
    /// a pointer to the place `offset` bytes from its start.
    fn dump_reference_object_function_sized_position_offset_here(
        &mut self,
        value: Address,
        dump: DumpFunction,
        position: Address,
        size: usize,
        alignment: usize,
        offset: isize,
    ) -> (result: Result<(), Fault>)
        requires
            old(self).wf(),
            layout_allowed(position, size, alignment),
        ensures
            final(self).wf(),
            follows(
                old(self).state(),
                old(self).state().object_referenced(value, dump, position, size, alignment, offset),
                final(self).state(),
                result,
            ),
    ;

    /// Writes the padding that brings the position up to `target`.
    fn dump_padding(&mut self, target: Address) -> (result: Result<(), Fault>)
        requires
            old(self).wf(),
        ensures
            final(self).wf(),
            follows(
                old(self).state(),
                old(self).state().padded_to(target),
                final(self).state(),
                result,
            ),
    {
        let current = self.current_position();
        if target.0 < current.0 {
            proof {
                self.lemma_wf();
                lemma_evolves_reflexive(self.state());
            }
            return Err(Fault::BackwardAdvance);
        }
        self.dump_padding_sized(target.0 - current.0)
    }

    /// Writes the raw bytes `bytes`, which lie at `position`.
    fn dump_value(&mut self, position: Address, bytes: &[u8]) -> (result: Result<(), Fault>)
        requires
            old(self).wf(),
        ensures
            final(self).wf(),
            follows(
                old(self).state(),
                old(self).state().valued_at(position, bytes@),
                final(self).state(),
                result,
            ),
    {
        let ghost before = self.state();
        self.dump_padding(position)?;
        let ghost padded = self.state();
        let result = self.dump_value_sized_here(bytes);
        proof {
            lemma_evolves_transitive(before, padded, self.state());
        }
        result
    }

    /// Marks the current position with the category `tag`.
    fn tag(&mut self, tag: usize)
        requires
            old(self).wf(),
        ensures
            final(self).state() =~= old(self).state().tagged(old(self).state().position(), tag),
            final(self).wf(),
            final(self).state().wf(),
            old(self).state().evolves(final(self).state()),
    {
        let value = self.current_position();
        self.tag_reference(value, tag);
    }

    /// Writes a pointer to `target`; the pointer lies at `position`.
    fn dump_reference(&mut self, position: Address, target: Address) -> (result: Result<
        (),
        Fault,
    >)
        requires
            old(self).wf(),
        ensures
            final(self).wf(),
            follows(
                old(self).state(),
                old(self).state().referenced_at(position, target),
                final(self).state(),
                result,
            ),
    {
        let ghost before = self.state();
        self.dump_padding(position)?;
        let ghost padded = self.state();
        let result = self.dump_reference_here(target);
        proof {
            lemma_evolves_transitive(before, padded, self.state());
        }
        result
    }

    /// Registers the `size` bytes at `value` as a complete object, which the
    /// routine `dump` describes.
    fn reference_object_sized(
        &mut self,
        value: Address,
        dump: DumpFunction,
        size: usize,
        alignment: usize,
    ) -> (result: Result<(), Fault>)
        requires
            old(self).wf(),
            layout_allowed(value, size, alignment),
        ensures
            final(self).wf(),
            follows(
                old(self).state(),
                old(self).state().registered(value, dump, value, size, alignment),
                final(self).state(),
                result,
            ),
    {
        self.reference_object_function_sized_position(value, dump, value, size, alignment)
    }

    /// Registers the `size` bytes at `position` as a complete object, and writes
    /// a pointer to its start.
    fn dump_reference_object_function_sized_position_here(
        &mut self,
        value: Address,
        dump: DumpFunction,
        position: Address,
        size: usize,
        alignment: usize,
    ) -> (result: Result<(), Fault>)
        requires
            old(self).wf(),
            layout_allowed(position, size, alignment),
        ensures
            final(self).wf(),
            follows(
                old(self).state(),
                old(self).state().object_referenced(value, dump, position, size, alignment, 0),
                final(self).state(),
                result,
            ),
    {
        self.dump_reference_object_function_sized_position_offset_here(
            value,
            dump,
            position,
            size,
            alignment,
            0,
        )
    }

    /// Registers the `size` bytes at `target` as a complete object, which the
    /// routine `dump` describes, and writes a pointer to its start.
    fn dump_reference_object_sized_here(
        &mut self,
        target: Address,
        dump: DumpFunction,
        size: usize,
        alignment: usize,
    ) -> (result: Result<(), Fault>)
        requires
            old(self).wf(),
            layout_allowed(target, size, alignment),
        ensures
            final(self).wf(),
            follows(
                old(self).state(),
                old(self).state().object_referenced(target, dump, target, size, alignment, 0),
                final(self).state(),
                result,
            ),
    {
        self.dump_reference_object_function_sized_position_offset_here(
            target,
            dump,
            target,
            size,
            alignment,
            0,
        )
    }

    /// Registers the `size` bytes at `position` as a complete object, and writes
    /// a pointer to the place `offset` bytes from its start; the pointer lies at
    /// `field`.
    fn dump_reference_object_function_sized_position_offset(
        &mut self,
        field: Address,
        value: Address,
        dump: DumpFunction,
        position: Address,
        size: usize,
        alignment: usize,
        offset: isize,
    ) -> (result: Result<(), Fault>)
        requires
            old(self).wf(),
            layout_allowed(position, size, alignment),
        ensures
            final(self).wf(),
            follows(
                old(self).state(),
                old(self).state().object_referenced_at(
                    field,
                    value,
                    dump,
                    position,
                    size,
                    alignment,
                    offset,
                ),
                final(self).state(),
                result,
            ),
    {
        let ghost before = self.state();
        self.dump_padding(field)?;
        let ghost padded = self.state();
        let result = self.dump_reference_object_function_sized_position_offset_here(
            value,
            dump,
            position,
            size,
            alignment,
            offset,
        );
        proof {
            lemma_evolves_transitive(before, padded, self.state());
        }
        result
    }

    /// Registers the `size` bytes at `position` as a complete object, and writes
    /// a pointer to its start; the pointer lies at `field`.
    fn dump_reference_object_function_sized_position(
        &mut self,
        field: Address,
        value: Address,
        dump: DumpFunction,
        position: Address,
        size: usize,
        alignment: usize,
    ) -> (result: Result<(), Fault>)
        requires
            old(self).wf(),
            layout_allowed(position, size, alignment),
        ensures
            final(self).wf(),
            follows(
                old(self).state(),
                old(self).state().object_referenced_at(
                    field,
                    value,
                    dump,
                    position,
                    size,
                    alignment,
                    0,
                ),
                final(self).state(),
                result,
            ),
    {
        self.dump_reference_object_function_sized_position_offset(
            field,
            value,
            dump,
            position,
            size,
            alignment,
            0,
        )
    }

    /// Registers the `size` bytes at `target` as a complete object, which the
    /// routine `dump` describes, and writes a pointer to its start; the pointer
    /// lies at `field`.
    fn dump_reference_object_sized(
        &mut self,
        field: Address,
        target: Address,
        dump: DumpFunction,
        size: usize,
        alignment: usize,
    ) -> (result: Result<(), Fault>)
        requires
            old(self).wf(),
            layout_allowed(target, size, alignment),
        ensures
            final(self).wf(),
            follows(
                old(self).state(),
                old(self).state().object_referenced_at(
                    field,
                    target,
                    dump,
                    target,
                    size,
                    alignment,
                    0,
                ),
                final(self).state(),
                result,
            ),
    {
        self.dump_reference_object_function_sized_position_offset(
            field,
            target,
            dump,
            target,
            size,
            alignment,
            0,
        )
    }

    /// Writes the first bytes of `bytes`, a value that starts at `start`: those
    /// that lie before `end`. This is for the part of a tagged union that stands
    /// before the fields of the variant.
    fn dump_prefix_value_here(&mut self, start: Address, end: Address, bytes: &[u8]) -> (result:
        Result<(), Fault>)
        requires
            old(self).wf(),
        ensures
            final(self).wf(),
            follows(
                old(self).state(),
                old(self).state().prefixed(start, end, bytes@),
                final(self).state(),
                result,
            ),
    {
        if end.0 < start.0 || end.0 - start.0 > bytes.len() {
            proof {
                self.lemma_wf();
                lemma_evolves_reflexive(self.state());
            }
            return Err(Fault::BackwardAdvance);
        }
        self.dump_value_sized_here(slice_subrange(bytes, 0, end.0 - start.0))
    }

    /// Writes the first bytes of `bytes`, which lie at the current position:
    /// those that lie before `end`.
    fn dump_prefix_value(&mut self, end: Address, bytes: &[u8]) -> (result: Result<(), Fault>)
        requires
            old(self).wf(),
        ensures
            final(self).wf(),
            follows(
                old(self).state(),
                old(self).state().prefixed(old(self).state().position(), end, bytes@),
                final(self).state(),
                result,
            ),
    {
        let start = self.current_position();
        self.dump_prefix_value_here(start, end, bytes)
    }

    /// Writes the last bytes of `bytes`, a value that starts at `start`: those
    /// from the current position on. This is for the part of a tagged union that
    /// stands behind the fields of the variant.
    fn dump_suffix_value_sized(&mut self, start: Address, bytes: &[u8]) -> (result: Result<
        (),
        Fault,
    >)
        requires
            old(self).wf(),
        ensures
            final(self).wf(),
            follows(
                old(self).state(),
                old(self).state().suffixed(start, bytes@),
                final(self).state(),
                result,
            ),
    {
        let current = self.current_position();
        if current.0 < start.0 || current.0 - start.0 > bytes.len() {
            proof {
                self.lemma_wf();
                lemma_evolves_reflexive(self.state());
            }
            return Err(Fault::BackwardAdvance);
        }
        self.dump_value_sized_here(slice_subrange(bytes, current.0 - start.0, bytes.len()))
    }
}

/// What describes the values of an object graph. A dumper hands a routine the
/// address of a value and the name of the routine that the value was registered
/// with; the routine writes the value, in the order of its bytes, with the
/// operations of the dumper.
pub trait Dump {
    /// Describes the value at `value` to the dumper.
    fn dump<D: Dumper>(&self, value: Address, function: DumpFunction, dumper: &mut D) -> (result:
        Result<(), Fault>)
        requires
            old(dumper).wf(),
            old(dumper).state().position() == value,
        ensures
            final(dumper).wf(),
            final(dumper).state().wf(),
            old(dumper).state().evolves(final(dumper).state()),
    ;
}

/// Has the routine `function` describe the value at `value` at the current place,
/// and then goes on from where the routine has come to.
pub fn dump_object_function_here<G: Dump, D: Dumper>(
    graph: &G,
    dumper: &mut D,
    value: Address,
    function: DumpFunction,
) -> (result: Result<(), Fault>)
    requires
        old(dumper).wf(),
    ensures
        final(dumper).wf(),
        final(dumper).state().wf(),
        old(dumper).state().evolves(final(dumper).state()),
        final(dumper).state().offset == old(dumper).state().offset,
{
    let ghost before = dumper.state();
    let old_offset = dumper.position_offset();
    dumper.set_position(value);
    let ghost positioned = dumper.state();
    let result = graph.dump(value, function, dumper);
    let ghost described = dumper.state();
    dumper.set_position_offset(old_offset);
    proof {
        lemma_evolves_transitive(before, positioned, described);
        lemma_evolves_transitive(before, described, dumper.state());
    }
    result
}

/// Writes the padding up to `value`, and has the routine `function` describe the
/// value there.
pub fn dump_object_function<G: Dump, D: Dumper>(
    graph: &G,
    dumper: &mut D,
    value: Address,
    function: DumpFunction,
) -> (result: Result<(), Fault>)
    requires
        old(dumper).wf(),
    ensures
        final(dumper).wf(),
        final(dumper).state().wf(),
        old(dumper).state().evolves(final(dumper).state()),
        old(dumper).state().padded_to(value).fault matches Some(fault) ==> result == Err::<
            (),
            Fault,
        >(fault) && final(dumper).state() == old(dumper).state(),
        old(dumper).state().padded_to(value).fault is None ==> old(dumper).state().padded_to(
            value,
        ).state.evolves(final(dumper).state()) && final(dumper).state().offset == old(
            dumper,
        ).state().offset,
{
    let ghost before = dumper.state();
    dumper.dump_padding(value)?;
    let ghost padded = dumper.state();
    let result = dump_object_function_here(graph, dumper, value, function);
    proof {
        lemma_evolves_transitive(before, padded, dumper.state());
    }
    result
}

} // verus!
