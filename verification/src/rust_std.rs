//! The headers of the hash tables of the standard library, as far as a
//! traversal routine decides on them: how much memory a table owns, and how its
//! pointer to that memory is written.
use crate::address::Address;
use crate::dumper::Dumper;
use crate::fault::Fault;
use crate::image::{word, word_size};
use crate::registry::DumpFunction;
use crate::state::{follows, layout_allowed, DumpState, Outcome};
use vstd::prelude::*;

verus! {

/// The keys of the default hasher of a hash table.
#[derive(Clone, Copy, PartialEq, Eq, Structural, Debug)]
pub struct RandomState {
    pub k0: u64,
    pub k1: u64,
}

/// The rule by which a hash table grows. It holds nothing.
#[derive(Clone, Copy, PartialEq, Eq, Structural, Debug)]
pub struct DefaultResizePolicy;

/// The pointer of a hash table to its memory. Its lowest bit is a tag, and no
/// part of the address.
#[derive(Clone, Copy, PartialEq, Eq, Structural, Debug)]
pub struct TaggedHashUintPtr(pub usize);

impl TaggedHashUintPtr {
    /// Whether the tag is set.
    pub open spec fn tagged(self) -> bool {
        self.0 % 2 == 1
    }

    /// The address without the tag.
    pub open spec fn address(self) -> Address {
        Address((self.0 - self.0 % 2) as usize)
    }

    /// Whether the tag is set.
    pub fn tag(&self) -> (set: bool)
        ensures
            set == self.tagged(),
    {
        self.0 % 2 == 1
    }

    /// The address without the tag.
    pub fn ptr(&self) -> (address: Address)
        ensures
            address == self.address(),
    {
        Address(self.0 - self.0 % 2)
    }
}

/// The least multiple of `alignment` that is no less than `size`.
pub open spec fn rounded_up(size: int, alignment: int) -> int {
    (size + alignment - 1) / alignment * alignment
}

/// Rounding up gives the least multiple of the alignment that is no less than
/// the size.
pub proof fn lemma_rounded_up(size: int, alignment: int)
    requires
        size >= 0,
        alignment > 0,
    ensures
        rounded_up(size, alignment) % alignment == 0,
        size <= rounded_up(size, alignment) < size + alignment,
{
    let padded = size + alignment - 1;
    let quotient = padded / alignment;
    vstd::arithmetic::div_mod::lemma_fundamental_div_mod(padded, alignment);
    vstd::arithmetic::div_mod::lemma_mod_multiples_basic(quotient, alignment);
    assert(quotient * alignment == alignment * quotient) by (nonlinear_arith);
}

/// The size and the alignment of the memory of a table of `capacity` buckets,
/// each with a hash of one word and a pair of `pair_size` bytes aligned to
/// `pair_align`: the hashes first, then, at the next multiple of their
/// alignment, the pairs. `None` where a number of these does not fit a word.
pub open spec fn table_layout(capacity: usize, pair_size: usize, pair_align: usize) -> Option<
    (usize, usize),
> {
    let hashes_size = capacity * word();
    let pairs_size = capacity * pair_size;
    let pairs_offset = rounded_up(hashes_size, pair_align as int);
    if pair_align == 0 || hashes_size + pair_align - 1 > usize::MAX || pairs_size > usize::MAX
        || pairs_offset + pairs_size > usize::MAX {
        None
    } else {
        Some(
            (
                (pairs_offset + pairs_size) as usize,
                if pair_align > word() {
                    pair_align
                } else {
                    word()
                },
            ),
        )
    }
}

/// The header of the memory of a hash table.
#[derive(Clone, Copy, PartialEq, Eq, Structural, Debug)]
pub struct RawTable {
    /// One less than the number of buckets.
    pub capacity_mask: usize,
    /// The number of buckets in use.
    pub size: usize,
    /// Where the memory lies.
    pub hashes: TaggedHashUintPtr,
}

impl RawTable {
    /// The number of buckets: one more than the mask, and none where the mask is
    /// the highest number.
    pub open spec fn buckets(self) -> usize {
        if self.capacity_mask == usize::MAX {
            0
        } else {
            (self.capacity_mask + 1) as usize
        }
    }

    /// The number of buckets.
    pub fn capacity(&self) -> (buckets: usize)
        ensures
            buckets == self.buckets(),
    {
        self.capacity_mask.wrapping_add(1)
    }

    /// The size and the alignment of the memory of the table, for pairs of
    /// `pair_size` bytes aligned to `pair_align`.
    pub fn allocation(&self, pair_size: usize, pair_align: usize) -> (layout: Option<
        (usize, usize),
    >)
        ensures
            layout == table_layout(self.buckets(), pair_size, pair_align),
    {
        let capacity = self.capacity();
        let w = word_size();
        if pair_align == 0 {
            return None;
        }
        let hashes_size = match capacity.checked_mul(w) {
            Some(size) => size,
            None => {
                return None;
            },
        };
        let pairs_size = match capacity.checked_mul(pair_size) {
            Some(size) => size,
            None => {
                proof {
                    assert(capacity * pair_size > usize::MAX);
                }
                return None;
            },
        };
        let padded = match hashes_size.checked_add(pair_align - 1) {
            Some(size) => size,
            None => {
                return None;
            },
        };
        let quotient = padded / pair_align;
        proof {
            assert(quotient * pair_align <= padded) by (nonlinear_arith)
                requires
                    quotient == padded / pair_align,
                    pair_align > 0,
                    padded >= 0,
            ;
        }
        let pairs_offset = quotient * pair_align;
        match pairs_offset.checked_add(pairs_size) {
            Some(size) => Some(
                (
                    size,
                    if pair_align > w {
                        pair_align
                    } else {
                        w
                    },
                ),
            ),
            None => None,
        }
    }
}

/// The header of a hash table.
#[derive(Clone, Copy, PartialEq, Eq, Structural, Debug)]
pub struct HashMap {
    /// The keys of the hasher.
    pub hash_builder: RandomState,
    /// The header of the memory.
    pub table: RawTable,
    /// The rule by which the table grows.
    pub resize_policy: DefaultResizePolicy,
}

impl HashMap {
    /// After the pointer of the table to its memory: raw bytes where the table
    /// owns no memory, and else a pointer into the memory, registered as a
    /// complete object, that keeps the tag as its offset.
    pub open spec fn hashes_dumped(
        self,
        state: DumpState,
        field: Address,
        raw: Seq<u8>,
        value: Address,
        contents: DumpFunction,
        pair_size: usize,
        pair_align: usize,
    ) -> Outcome {
        if self.table.buckets() == 0 {
            state.valued_at(field, raw)
        } else {
            let layout = table_layout(self.table.buckets(), pair_size, pair_align)->0;
            state.object_referenced_at(
                field,
                value,
                contents,
                self.table.hashes.address(),
                layout.0,
                layout.1,
                if self.table.hashes.tagged() {
                    1
                } else {
                    0
                },
            )
        }
    }

    /// Writes the pointer of the table to its memory. The pointer lies at
    /// `field`, and `raw` holds its bytes; the memory is described by the
    /// routine `contents` from `value`.
    pub fn dump_hashes<D: Dumper>(
        &self,
        field: Address,
        raw: &[u8],
        value: Address,
        contents: DumpFunction,
        pair_size: usize,
        pair_align: usize,
        dumper: &mut D,
    ) -> (result: Result<(), Fault>)
        requires
            old(dumper).wf(),
            self.table.buckets() != 0 ==> (table_layout(
                self.table.buckets(),
                pair_size,
                pair_align,
            ) matches Some(layout) && layout_allowed(
                self.table.hashes.address(),
                layout.0,
                layout.1,
            )),
        ensures
            final(dumper).wf(),
            follows(
                old(dumper).state(),
                self.hashes_dumped(
                    old(dumper).state(),
                    field,
                    raw@,
                    value,
                    contents,
                    pair_size,
                    pair_align,
                ),
                final(dumper).state(),
                result,
            ),
    {
        if self.table.capacity() == 0 {
            dumper.dump_value(field, raw)
        } else {
            let layout = self.table.allocation(pair_size, pair_align).unwrap();
            let offset: isize = if self.table.hashes.tag() {
                1
            } else {
                0
            };
            dumper.dump_reference_object_function_sized_position_offset(
                field,
                value,
                contents,
                self.table.hashes.ptr(),
                layout.0,
                layout.1,
                offset,
            )
        }
    }
}

} // verus!
