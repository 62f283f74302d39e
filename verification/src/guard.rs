//! The allocator guard: what to do with a request to free or resize memory,
//! given where the image lies.
use crate::address::Address;
use crate::image::{word, word_size};
use crate::loader::ImageBounds;
use vstd::prelude::*;

verus! {

/// What to do with a request to free memory.
#[derive(Clone, Copy, PartialEq, Eq, Structural, Debug)]
pub enum FreeAction {
    /// The memory lies in the image: nothing is freed.
    Ignore,
    /// The memory is the allocator's own: the request is handed on to it.
    Forward,
}

/// What to do with a request to resize memory.
#[derive(Clone, Copy, PartialEq, Eq, Structural, Debug)]
pub enum ReallocAction {
    /// The memory is the allocator's own: the request is handed on to it.
    Forward,
    /// The memory lies in the image: the size that was recorded for it stands
    /// in the word at `header`, and decides what is done.
    Inspect { header: Address },
}

/// What to do with a request to resize memory that lies in the image.
#[derive(Clone, Copy, PartialEq, Eq, Structural, Debug)]
pub enum Resize {
    /// The memory is large enough: the pointer is handed back as it is.
    Keep,
    /// `allocate` bytes are taken from the allocator, and the first `copy` bytes
    /// of the memory are copied there.
    Move { allocate: usize, copy: usize },
}

/// Whether `pointer` lies in the image. Before the bounds of the image are
/// known, nothing does.
pub open spec fn in_dump(bounds: Option<ImageBounds>, pointer: Address) -> bool {
    bounds matches Some(bounds) && bounds.contains(pointer)
}

/// Whether `pointer` lies in the image.
pub fn is_rodal_dump(bounds: Option<ImageBounds>, pointer: Address) -> (inside: bool)
    ensures
        inside == in_dump(bounds, pointer),
{
    match bounds {
        Some(bounds) => bounds.in_image(pointer),
        None => false,
    }
}

/// What is done with a request to free the memory at `pointer`.
pub open spec fn free_action(bounds: Option<ImageBounds>, pointer: Address) -> FreeAction {
    if in_dump(bounds, pointer) {
        FreeAction::Ignore
    } else {
        FreeAction::Forward
    }
}

/// What is done with a request to resize the memory at `pointer`.
pub open spec fn realloc_action(bounds: Option<ImageBounds>, pointer: Address) -> ReallocAction {
    if in_dump(bounds, pointer) {
        ReallocAction::Inspect { header: pointer.shifted(-(word() as int)) }
    } else {
        ReallocAction::Forward
    }
}

/// What is done with a request to resize memory in the image to `new_size`
/// bytes, where `recorded_size` bytes were recorded for it.
pub open spec fn resize_action(recorded_size: usize, new_size: usize) -> Resize {
    if new_size <= recorded_size {
        Resize::Keep
    } else {
        Resize::Move {
            allocate: new_size,
            copy: vstd::math::min(recorded_size as int, new_size as int) as usize,
        }
    }
}

/// What to do with a request to free the memory at `pointer`.
pub fn free(bounds: Option<ImageBounds>, pointer: Address) -> (action: FreeAction)
    ensures
        action == free_action(bounds, pointer),
{
    if is_rodal_dump(bounds, pointer) {
        FreeAction::Ignore
    } else {
        FreeAction::Forward
    }
}

/// What to do with a request to resize the memory at `pointer`.
pub fn realloc(bounds: Option<ImageBounds>, pointer: Address) -> (action: ReallocAction)
    ensures
        action == realloc_action(bounds, pointer),
{
    if is_rodal_dump(bounds, pointer) {
        ReallocAction::Inspect { header: pointer.minus(word_size()) }
    } else {
        ReallocAction::Forward
    }
}

/// What to do with a request to resize memory in the image to `new_size` bytes,
/// where `recorded_size` bytes were recorded for it.
pub fn resize(recorded_size: usize, new_size: usize) -> (action: Resize)
    ensures
        action == resize_action(recorded_size, new_size),
{
    if recorded_size >= new_size {
        Resize::Keep
    } else {
        let copy = if recorded_size < new_size {
            recorded_size
        } else {
            new_size
        };
        Resize::Move { allocate: new_size, copy }
    }
}

/// Memory in the image is never handed to the allocator to be freed; a request
/// to resize it to no more than its recorded size keeps it where it is; and a
/// request for more moves all that was recorded to new memory of the size
/// asked for.
pub proof fn lemma_guard(
    bounds: Option<ImageBounds>,
    pointer: Address,
    recorded_size: usize,
    new_size: usize,
)
    requires
        in_dump(bounds, pointer),
    ensures
        free_action(bounds, pointer) == FreeAction::Ignore,
        realloc_action(bounds, pointer) is Inspect,
        new_size <= recorded_size ==> resize_action(recorded_size, new_size) == Resize::Keep,
        new_size > recorded_size ==> resize_action(recorded_size, new_size) == (Resize::Move {
            allocate: new_size,
            copy: recorded_size,
        }),
{
}

} // verus!
