//! The registry of complete objects, kept in the order of their addresses.
use crate::address::Address;
use crate::image::word;
use crate::label::AsmLabel;
use vstd::prelude::*;

verus! {

/// Names the traversal routine that describes a registered value.
#[derive(Clone, Copy, PartialEq, Eq, Structural, Debug, Hash)]
pub struct DumpFunction(pub usize);

/// How far a complete object has come on its way into the image.
#[derive(Clone, Copy, PartialEq, Eq, Structural, Debug)]
pub enum ObjectState {
    /// Known, and not yet written.
    Pending,
    /// Being walked right now.
    Emitting,
    /// Written in full.
    Emitted,
}

/// One complete object: an independently addressable region, written once.
#[derive(Clone, Copy, PartialEq, Eq, Structural, Debug)]
pub struct ObjectInfo {
    /// Where the region starts.
    pub start: Address,
    /// The number of bytes in the region.
    pub size: usize,
    /// The alignment that the region asks for.
    pub alignment: usize,
    /// The value that the traversal routine is handed.
    pub value: Address,
    /// The traversal routine that describes the region.
    pub dump: DumpFunction,
    /// Whether the region is still to be written, being written, or written.
    pub state: ObjectState,
}

/// Whether a region of `size` bytes at `start`, aligned to `alignment`, can be an
/// object at all: it is not empty, it ends inside the address space, offsets into
/// it fit a signed offset, and its alignment together with the size header fits
/// an unsigned one.
pub open spec fn layout_fits(start: Address, size: usize, alignment: usize) -> bool {
    &&& 0 < size <= isize::MAX
    &&& start.0 + size <= usize::MAX
    &&& 0 < alignment
    &&& alignment * word() <= usize::MAX
}

impl ObjectInfo {
    /// The first address after the region.
    pub open spec fn end(self) -> int {
        self.start.0 + self.size
    }

    /// Whether `address` lies inside the region.
    pub open spec fn contains(self, address: Address) -> bool {
        self.start.0 <= address.0 < self.end()
    }

    /// Whether the region shares a byte with `[start, start + size)`.
    pub open spec fn overlaps(self, start: Address, size: usize) -> bool {
        self.start.0 < start.0 + size && start.0 < self.end()
    }

    /// Whether the region can be an object at all.
    pub open spec fn fits(self) -> bool {
        layout_fits(self.start, self.size, self.alignment)
    }

    /// The same object in another state.
    pub open spec fn in_state(self, state: ObjectState) -> ObjectInfo {
        ObjectInfo { state, ..self }
    }

    /// A newly discovered object, still to be written.
    pub fn new(
        value: Address,
        dump: DumpFunction,
        start: Address,
        size: usize,
        alignment: usize,
    ) -> (object: ObjectInfo)
        ensures
            object == (ObjectInfo {
                start,
                size,
                alignment,
                value,
                dump,
                state: ObjectState::Pending,
            }),
    {
        ObjectInfo { start, size, alignment, value, dump, state: ObjectState::Pending }
    }

    /// The label that the object is declared under.
    pub fn label(&self) -> (label: AsmLabel)
        ensures
            label@ == crate::label::Label::object(self.start),
    {
        AsmLabel::new_complete(self.start)
    }

    /// The first address after the region.
    pub fn end_address(&self) -> (end: Address)
        requires
            self.fits(),
        ensures
            end.0 == self.end(),
    {
        Address(self.start.0 + self.size)
    }
}

/// Whether the objects stand in the order of their addresses and no two of them
/// share a byte.
pub open spec fn disjoint(objects: Seq<ObjectInfo>) -> bool {
    forall|i: int, j: int|
        0 <= i < j < objects.len() ==> (#[trigger] objects[i]).end() <= (#[trigger] objects[j]).start.0
}

/// Whether the sequence is a registry: every object can be one, and they are
/// ordered and disjoint.
pub open spec fn registry(objects: Seq<ObjectInfo>) -> bool {
    &&& forall|i: int| 0 <= i < objects.len() ==> (#[trigger] objects[i]).fits()
    &&& disjoint(objects)
}

/// Whether `slot` is the number of objects that start below `start`.
pub open spec fn is_slot(objects: Seq<ObjectInfo>, start: Address, slot: int) -> bool {
    &&& 0 <= slot <= objects.len()
    &&& forall|i: int| 0 <= i < slot ==> (#[trigger] objects[i]).start.0 < start.0
    &&& forall|i: int| slot <= i < objects.len() ==> (#[trigger] objects[i]).start.0 >= start.0
}

/// The number of objects that start below `start`.
pub open spec fn slot_of(objects: Seq<ObjectInfo>, start: Address) -> int {
    choose|slot: int| is_slot(objects, start, slot)
}

/// Whether some object starts at `start`.
pub open spec fn known(objects: Seq<ObjectInfo>, start: Address) -> bool {
    exists|i: int| 0 <= i < objects.len() && (#[trigger] objects[i]).start == start
}

/// The object that starts at `start`, where there is one.
pub open spec fn lookup(objects: Seq<ObjectInfo>, start: Address) -> Option<ObjectInfo> {
    if known(objects, start) {
        Some(objects[choose|i: int| 0 <= i < objects.len() && (#[trigger] objects[i]).start == start])
    } else {
        None
    }
}

/// Whether some object contains `address`.
pub open spec fn covered(objects: Seq<ObjectInfo>, address: Address) -> bool {
    exists|i: int| 0 <= i < objects.len() && (#[trigger] objects[i]).contains(address)
}

/// The object that contains `address`, where there is one.
pub open spec fn owner(objects: Seq<ObjectInfo>, address: Address) -> Option<ObjectInfo> {
    if covered(objects, address) {
        Some(objects[choose|i: int| 0 <= i < objects.len() && (#[trigger] objects[i]).contains(address)])
    } else {
        None
    }
}

/// Whether some object shares a byte with `[start, start + size)`.
pub open spec fn crowded(objects: Seq<ObjectInfo>, start: Address, size: usize) -> bool {
    exists|i: int| 0 <= i < objects.len() && (#[trigger] objects[i]).overlaps(start, size)
}

/// The registry with `object` put in at its place in the order.
pub open spec fn inserted(objects: Seq<ObjectInfo>, object: ObjectInfo) -> Seq<ObjectInfo> {
    objects.insert(slot_of(objects, object.start), object)
}

/// In a registry, the number of objects that start below an address is one
/// number only.
pub proof fn lemma_slot_unique(objects: Seq<ObjectInfo>, start: Address, slot: int)
    requires
        is_slot(objects, start, slot),
    ensures
        slot_of(objects, start) == slot,
{
    let other = slot_of(objects, start);
    assert(is_slot(objects, start, other));
    if other < slot {
        assert(objects[other].start.0 < start.0);
    } else if slot < other {
        assert(objects[slot].start.0 < start.0);
    }
}

/// In a registry, at most one object starts at an address, and `lookup` finds it.
pub proof fn lemma_lookup_is(objects: Seq<ObjectInfo>, i: int)
    requires
        registry(objects),
        0 <= i < objects.len(),
    ensures
        lookup(objects, objects[i].start) == Some(objects[i]),
{
    let start = objects[i].start;
    let j = choose|j: int| 0 <= j < objects.len() && (#[trigger] objects[j]).start == start;
    if i < j {
        assert(objects[i].end() <= objects[j].start.0);
        assert(objects[i].fits());
    } else if j < i {
        assert(objects[j].end() <= objects[i].start.0);
        assert(objects[j].fits());
    }
}

/// In a registry, at most one object contains an address, and `owner` finds it.
pub proof fn lemma_owner_is(objects: Seq<ObjectInfo>, i: int, address: Address)
    requires
        registry(objects),
        0 <= i < objects.len(),
        objects[i].contains(address),
    ensures
        owner(objects, address) == Some(objects[i]),
{
    let j = choose|j: int| 0 <= j < objects.len() && (#[trigger] objects[j]).contains(address);
    if i < j {
        assert(objects[i].end() <= objects[j].start.0);
    } else if j < i {
        assert(objects[j].end() <= objects[i].start.0);
    }
}

/// The number of objects that start below `start`.
pub fn slot(objects: &Vec<ObjectInfo>, start: Address) -> (slot: usize)
    requires
        registry(objects@),
    ensures
        is_slot(objects@, start, slot as int),
        slot as int == slot_of(objects@, start),
{
    let mut low: usize = 0;
    let mut high: usize = objects.len();
    while low < high
        invariant
            registry(objects@),
            low <= high <= objects.len(),
            forall|i: int| 0 <= i < low ==> (#[trigger] objects@[i]).start.0 < start.0,
            forall|i: int| high <= i < objects.len() ==> (#[trigger] objects@[i]).start.0 >= start.0,
        decreases high - low,
    {
        let middle: usize = low + (high - low) / 2;
        if objects[middle].start.0 < start.0 {
            proof {
                assert forall|i: int| 0 <= i < middle + 1 implies (#[trigger] objects@[i]).start.0
                    < start.0 by {
                    if i < middle {
                        assert(objects@[i].end() <= objects@[middle as int].start.0);
                        assert(objects@[i].fits());
                    }
                }
            }
            low = middle + 1;
        } else {
            proof {
                assert forall|i: int| middle <= i < objects.len() implies (
                #[trigger] objects@[i]).start.0 >= start.0 by {
                    if middle < i {
                        assert(objects@[middle as int].end() <= objects@[i].start.0);
                        assert(objects@[middle as int].fits());
                    }
                }
            }
            high = middle;
        }
    }
    proof {
        lemma_slot_unique(objects@, start, low as int);
    }
    low
}

/// The index of the object that starts at `start`, where there is one.
pub fn get_object(start: Address, objects: &Vec<ObjectInfo>) -> (found: Option<usize>)
    requires
        registry(objects@),
    ensures
        match found {
            Some(i) => i < objects.len() && objects@[i as int].start == start,
            None => !known(objects@, start),
        },
        found is Some <==> known(objects@, start),
        found matches Some(i) ==> lookup(objects@, start) == Some(objects@[i as int]),
{
    let at = slot(objects, start);
    if at < objects.len() && objects[at].start.0 == start.0 {
        proof {
            lemma_lookup_is(objects@, at as int);
        }
        Some(at)
    } else {
        None
    }
}

/// The index of the complete object that contains `address`, where there is one.
pub fn get_complete_object(address: Address, objects: &Vec<ObjectInfo>) -> (found: Option<usize>)
    requires
        registry(objects@),
    ensures
        match found {
            Some(i) => i < objects.len() && objects@[i as int].contains(address),
            None => !covered(objects@, address),
        },
        found is Some <==> covered(objects@, address),
        found matches Some(i) ==> owner(objects@, address) == Some(objects@[i as int]),
{
    let at = slot(objects, address);
    if at < objects.len() && objects[at].start.0 == address.0 {
        proof {
            assert(objects@[at as int].fits());
            lemma_owner_is(objects@, at as int, address);
        }
        Some(at)
    } else if at > 0 && address.0 - objects[at - 1].start.0 < objects[at - 1].size {
        proof {
            lemma_owner_is(objects@, at as int - 1, address);
        }
        Some(at - 1)
    } else {
        proof {
            assert forall|i: int| 0 <= i < objects.len() implies !(#[trigger] objects@[i]).contains(
                address,
            ) by {
                if i < at - 1 {
                    assert(objects@[i].end() <= objects@[at as int - 1].start.0);
                }
            }
        }
        None
    }
}

/// The indices `[low, high)` of the objects that share a byte with
/// `[start, start + size)`.
pub fn get_overlap(start: Address, size: usize, objects: &Vec<ObjectInfo>) -> (range: (
    usize,
    usize,
))
    requires
        registry(objects@),
        0 < size,
        start.0 + size <= usize::MAX,
    ensures
        range.0 <= range.1 <= objects.len(),
        forall|i: int|
            0 <= i < objects.len() ==> (range.0 <= i < range.1 <==> (#[trigger] objects@[i]).overlaps(
                start,
                size,
            )),
        range.0 < range.1 <==> crowded(objects@, start, size),
{
    let at = slot(objects, start);
    let high = slot(objects, Address(start.0 + size));
    let low = if at > 0 && start.0 - objects[at - 1].start.0 < objects[at - 1].size {
        at - 1
    } else {
        at
    };
    proof {
        if high < at {
            assert(objects@[high as int].start.0 >= start.0 + size);
            assert(objects@[high as int].start.0 < start.0);
        }
        assert forall|i: int| 0 <= i < objects.len() implies (low <= i < high <==> (
        #[trigger] objects@[i]).overlaps(start, size)) by {
            assert(objects@[i].fits());
            if i < at - 1 {
                assert(objects@[i].end() <= objects@[at as int - 1].start.0);
            }
        }
        if low < high {
            assert(objects@[low as int].overlaps(start, size));
        }
    }
    (low, high)
}

/// The end of the last object that shares a byte with `[start, start + size)`,
/// where there is one.
pub fn get_overlap_end(start: Address, size: usize, objects: &Vec<ObjectInfo>) -> (end: Option<
    Address,
>)
    requires
        registry(objects@),
        0 < size,
        start.0 + size <= usize::MAX,
    ensures
        end is Some <==> crowded(objects@, start, size),
        end matches Some(address) ==> exists|i: int|
            0 <= i < objects.len() && (#[trigger] objects@[i]).overlaps(start, size)
                && address.0 == objects@[i].end(),
        end matches Some(address) ==> forall|i: int|
            0 <= i < objects.len() && (#[trigger] objects@[i]).overlaps(start, size)
                ==> objects@[i].end() <= address.0,
{
    let (low, high) = get_overlap(start, size, objects);
    if low < high {
        proof {
            assert(objects@[high as int - 1].fits());
            assert forall|i: int|
                0 <= i < objects.len() && (#[trigger] objects@[i]).overlaps(
                    start,
                    size,
                ) implies objects@[i].end() <= objects@[high as int - 1].end() by {
                assert(objects@[i].fits());
                if i < high - 1 {
                    assert(objects@[i].end() <= objects@[high as int - 1].start.0);
                }
            }
        }
        Some(objects[high - 1].end_address())
    } else {
        None
    }
}

/// The index of the first object that shares a byte with `[start, start + size)`.
pub fn get_first_overlap(start: Address, size: usize, objects: &Vec<ObjectInfo>) -> (first: usize)
    requires
        registry(objects@),
        0 < size,
        start.0 + size <= usize::MAX,
        crowded(objects@, start, size),
    ensures
        first < objects.len(),
        objects@[first as int].overlaps(start, size),
        forall|i: int| 0 <= i < first ==> !(#[trigger] objects@[i]).overlaps(start, size),
{
    let (low, high) = get_overlap(start, size, objects);
    low
}

/// Puts `object` into the registry at its place in the order.
pub fn insert(objects: &mut Vec<ObjectInfo>, object: ObjectInfo)
    requires
        registry(old(objects)@),
        object.fits(),
        !crowded(old(objects)@, object.start, object.size),
    ensures
        final(objects)@ == inserted(old(objects)@, object),
        registry(final(objects)@),
{
    let at = slot(objects, object.start);
    proof {
        lemma_inserted_registry(objects@, object);
    }
    objects.insert(at, object);
}

/// A registry stays one when an object that shares no byte with the others is
/// put in at its place.
pub proof fn lemma_inserted_registry(objects: Seq<ObjectInfo>, object: ObjectInfo)
    requires
        registry(objects),
        object.fits(),
        !crowded(objects, object.start, object.size),
        exists|slot: int| is_slot(objects, object.start, slot),
    ensures
        registry(inserted(objects, object)),
{
    let at = slot_of(objects, object.start);
    assert(is_slot(objects, object.start, at));
    let after = inserted(objects, object);
    assert forall|i: int, j: int| 0 <= i < j < after.len() implies (#[trigger] after[i]).end() <= (
    #[trigger] after[j]).start.0 by {
        if i == at {
            let other = objects[j - 1];
            assert(other.start.0 >= object.start.0);
            assert(!other.overlaps(object.start, object.size));
            assert(other.fits());
        } else if j == at {
            let other = objects[i];
            assert(other.start.0 < object.start.0);
            assert(!other.overlaps(object.start, object.size));
        } else {
            let a = if i < at { i } else { i - 1 };
            let b = if j < at { j } else { j - 1 };
            assert(objects[a].end() <= objects[b].start.0);
        }
    }
    assert forall|i: int| 0 <= i < after.len() implies (#[trigger] after[i]).fits() by {
        if i < at {
            assert(objects[i].fits());
        } else if i > at {
            assert(objects[i - 1].fits());
        }
    }
}

} // verus!
