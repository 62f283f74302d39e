//! Symbolic names for positions in the image.
use crate::address::Address;
use vstd::prelude::*;

verus! {

/// What a label is named after.
#[derive(Debug, PartialEq, Eq)]
pub enum LabelBase {
    /// A name chosen by the caller: a root object or a marker of the image.
    Global(String),
    /// The complete object that starts at the address.
    Object(Address),
    /// A referenced address whose owning object was not known when it was written.
    Pointer(Address),
}

/// The mathematical value of a `LabelBase`.
pub enum LabelName {
    Global(Seq<char>),
    Object(Address),
    Pointer(Address),
}

impl View for LabelBase {
    type V = LabelName;

    open spec fn view(&self) -> LabelName {
        match self {
            LabelBase::Global(name) => LabelName::Global(name@),
            LabelBase::Object(start) => LabelName::Object(*start),
            LabelBase::Pointer(target) => LabelName::Pointer(*target),
        }
    }
}

impl Clone for LabelBase {
    fn clone(&self) -> (copy: LabelBase)
        ensures
            copy@ == self@,
    {
        match self {
            LabelBase::Global(name) => LabelBase::Global(name.clone()),
            LabelBase::Object(start) => LabelBase::Object(*start),
            LabelBase::Pointer(target) => LabelBase::Pointer(*target),
        }
    }
}

/// A position in the image: a named place and a byte offset from it.
#[derive(Debug, PartialEq, Eq)]
pub struct AsmLabel {
    pub base: LabelBase,
    pub offset: isize,
}

/// The mathematical value of an `AsmLabel`.
pub struct Label {
    pub base: LabelName,
    pub offset: isize,
}

impl Label {
    /// The label of the complete object that starts at `start`.
    pub open spec fn object(start: Address) -> Label {
        Label { base: LabelName::Object(start), offset: 0 }
    }

    /// The temporary label of the referenced address `target`.
    pub open spec fn pointer(target: Address) -> Label {
        Label { base: LabelName::Pointer(target), offset: 0 }
    }

    /// The label with the caller's `name`.
    pub open spec fn global(name: Seq<char>) -> Label {
        Label { base: LabelName::Global(name), offset: 0 }
    }

    /// The address that the label stands for, when every object lies in the
    /// image as it lay in memory: the address that the label is named after,
    /// moved by the offset of the label.
    pub open spec fn stands_for(self) -> int {
        match self.base {
            LabelName::Object(start) => start.0 + self.offset,
            LabelName::Pointer(target) => target.0 + self.offset,
            LabelName::Global(_) => self.offset as int,
        }
    }

    /// The label moved by `offset` bytes, wrapping like a pointer.
    pub open spec fn moved(self, offset: isize) -> Label {
        Label { base: self.base, offset: self.offset.wrapping_add(offset) }
    }
}

impl View for AsmLabel {
    type V = Label;

    open spec fn view(&self) -> Label {
        Label { base: self.base@, offset: self.offset }
    }
}

impl Clone for AsmLabel {
    fn clone(&self) -> (copy: AsmLabel)
        ensures
            copy@ == self@,
    {
        AsmLabel { base: self.base.clone(), offset: self.offset }
    }
}

impl AsmLabel {
    /// The label with the caller's `name`, at offset zero.
    pub fn new_global(name: String) -> (label: AsmLabel)
        ensures
            label@ == Label::global(name@),
    {
        AsmLabel { base: LabelBase::Global(name), offset: 0 }
    }

    /// The label of the complete object that starts at `start`.
    pub fn new_complete(start: Address) -> (label: AsmLabel)
        ensures
            label@ == Label::object(start),
    {
        AsmLabel { base: LabelBase::Object(start), offset: 0 }
    }

    /// The temporary label of the referenced address `target`.
    pub fn new_internal(target: Address) -> (label: AsmLabel)
        ensures
            label@ == Label::pointer(target),
    {
        AsmLabel { base: LabelBase::Pointer(target), offset: 0 }
    }

    /// The label moved by `offset` bytes, wrapping like a pointer.
    pub fn offset(&self, offset: isize) -> (label: AsmLabel)
        ensures
            label@ == self@.moved(offset),
    {
        AsmLabel { base: self.base.clone(), offset: self.offset.wrapping_add(offset) }
    }
}

} // verus!
