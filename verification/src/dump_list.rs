//! Parts of a value that are described in the order of their addresses,
//! whatever the order in which they were named.
use crate::address::Address;
use crate::dumper::{dump_object_function_here, Dump, Dumper};
use crate::fault::Fault;
use crate::invariants::{lemma_evolves_reflexive, lemma_evolves_transitive};
use crate::registry::DumpFunction;
use crate::state::DumpState;
use vstd::prelude::*;

verus! {

/// One part of a value: where it is written, and the routine that describes it
/// from which value.
#[derive(Clone, Copy, PartialEq, Eq, Structural, Debug)]
pub struct DumpEntry {
    /// Where the part lies.
    pub position: Address,
    /// The value that the routine is handed.
    pub value: Address,
    /// The routine that describes the part.
    pub function: DumpFunction,
}

/// Whether the parts stand in the rising order of their positions, no position
/// twice.
pub open spec fn ordered(entries: Seq<DumpEntry>) -> bool {
    forall|i: int, j: int|
        0 <= i < j < entries.len() ==> (#[trigger] entries[i]).position.0 < (
        #[trigger] entries[j]).position.0
}

/// Whether `place` is the number of parts that lie below `position`.
pub open spec fn is_place(entries: Seq<DumpEntry>, position: Address, place: int) -> bool {
    &&& 0 <= place <= entries.len()
    &&& forall|i: int| 0 <= i < place ==> (#[trigger] entries[i]).position.0 < position.0
    &&& forall|i: int| place <= i < entries.len() ==> (#[trigger] entries[i]).position.0 >= position.0
}

/// The number of parts that lie below `position`.
pub open spec fn place_of(entries: Seq<DumpEntry>, position: Address) -> int {
    choose|place: int| is_place(entries, position, place)
}

/// The parts with `entry` among them: in place of the part at the same
/// position, where there is one, and at its place in the order otherwise.
pub open spec fn placed(entries: Seq<DumpEntry>, entry: DumpEntry) -> Seq<DumpEntry> {
    let place = place_of(entries, entry.position);
    if place < entries.len() && entries[place].position == entry.position {
        entries.update(place, entry)
    } else {
        entries.insert(place, entry)
    }
}

/// The number of parts that lie below a position is one number only.
pub proof fn lemma_place_unique(entries: Seq<DumpEntry>, position: Address, place: int)
    requires
        is_place(entries, position, place),
    ensures
        place_of(entries, position) == place,
{
    let other = place_of(entries, position);
    assert(is_place(entries, position, other));
    if other < place {
        assert(entries[other].position.0 < position.0);
    } else if place < other {
        assert(entries[place].position.0 < position.0);
    }
}

/// The fault of a result, where it has one.
pub open spec fn fault_of(result: Result<(), Fault>) -> Option<Fault> {
    match result {
        Ok(_) => None,
        Err(fault) => Some(fault),
    }
}

/// Whether the state `after` and the fault `fault` are what one part can come
/// to from the state `before`: the fault of the padding up to its position, and
/// nothing else; or the padding, and then whatever the routine does that
/// describes the part, with the position given back as it was after the padding.
pub open spec fn part_dumped(
    entry: DumpEntry,
    before: DumpState,
    after: DumpState,
    fault: Option<Fault>,
) -> bool {
    let padded = before.padded_to(entry.position);
    if padded.fault is Some {
        after == before && fault == padded.fault
    } else {
        padded.state.evolves(after) && after.offset == padded.state.offset
    }
}

/// Whether the state `after` and the fault `fault` are what the first `count`
/// parts can come to from the state `before`, one after the other in the order
/// of the list, all but the last of them without a fault.
pub open spec fn parts_dumped(
    entries: Seq<DumpEntry>,
    count: nat,
    before: DumpState,
    after: DumpState,
    fault: Option<Fault>,
) -> bool
    decreases count,
{
    if count == 0 {
        after == before && fault is None
    } else {
        exists|reached: DumpState|
            parts_dumped(entries, (count - 1) as nat, before, reached, None) && #[trigger] part_dumped(
                entries[count - 1],
                reached,
                after,
                fault,
            )
    }
}

/// One more part after the first `count` makes the first `count + 1`.
pub proof fn lemma_part_more(
    entries: Seq<DumpEntry>,
    count: nat,
    before: DumpState,
    reached: DumpState,
    after: DumpState,
    fault: Option<Fault>,
)
    requires
        count < entries.len(),
        parts_dumped(entries, count, before, reached, None),
        part_dumped(entries[count as int], reached, after, fault),
    ensures
        parts_dumped(entries, count + 1, before, after, fault),
{
    let more: nat = count + 1;
    assert((more - 1) as nat == count);
    assert(parts_dumped(entries, (more - 1) as nat, before, reached, None) && part_dumped(
        entries[more - 1],
        reached,
        after,
        fault,
    ));
    assert(parts_dumped(entries, more, before, after, fault));
}

/// Whether the state `after` and the fault `fault` are what the parts of a list
/// can come to: some of them are written, from the first on in the order of
/// their positions, and all of them where no fault has come up.
pub open spec fn list_dumped(
    entries: Seq<DumpEntry>,
    before: DumpState,
    after: DumpState,
    fault: Option<Fault>,
) -> bool {
    exists|count: nat| #[trigger]
        parts_dumped(entries, count, before, after, fault) && count <= entries.len() && (fault
            is None ==> count == entries.len())
}

/// A list of parts, ordered by where they lie.
pub struct DumpList {
    entries: Vec<DumpEntry>,
}

impl View for DumpList {
    type V = Seq<DumpEntry>;

    closed spec fn view(&self) -> Seq<DumpEntry> {
        self.entries@
    }
}

impl DumpList {
    /// Whether the list holds its parts in order.
    pub open spec fn wf(&self) -> bool {
        ordered(self@)
    }

    /// A list without parts.
    pub fn new() -> (list: DumpList)
        ensures
            list@ == Seq::<DumpEntry>::empty(),
            list.wf(),
    {
        DumpList { entries: Vec::new() }
    }

    /// Puts the part of `size` bytes at `position` on the list, which the
    /// routine `function` describes from `value`. A part that is already listed
    /// at the position gives way to it. A part without bytes is left out.
    pub fn add_position(
        &mut self,
        position: Address,
        value: Address,
        function: DumpFunction,
        size: usize,
    )
        requires
            old(self).wf(),
        ensures
            final(self).wf(),
            final(self)@ == if size == 0 {
                old(self)@
            } else {
                placed(old(self)@, DumpEntry { position, value, function })
            },
    {
        if size == 0 {
            return ;
        }
        let entry = DumpEntry { position, value, function };
        let mut place: usize = 0;
        while place < self.entries.len() && self.entries[place].position.0 < position.0
            invariant
                0 <= place <= self.entries.len(),
                *self == *old(self),
                ordered(self.entries@),
                forall|i: int| 0 <= i < place ==> (#[trigger] self.entries@[i]).position.0 < position.0,
            decreases self.entries.len() - place,
        {
            place += 1;
        }
        proof {
            assert forall|i: int| place <= i < self.entries.len() implies (
            #[trigger] self.entries@[i]).position.0 >= position.0 by {
                if place < i {
                    assert(self.entries@[place as int].position.0 < self.entries@[i].position.0);
                }
            }
            lemma_place_unique(self.entries@, position, place as int);
        }
        let ghost before = self.entries@;
        if place < self.entries.len() && self.entries[place].position.0 == position.0 {
            self.entries.set(place, entry);
            proof {
                let after = self.entries@;
                assert forall|i: int, j: int| 0 <= i < j < after.len() implies (
                #[trigger] after[i]).position.0 < (#[trigger] after[j]).position.0 by {
                    assert(before[i].position.0 < before[j].position.0);
                }
            }
        } else {
            self.entries.insert(place, entry);
            proof {
                let after = self.entries@;
                assert forall|i: int, j: int| 0 <= i < j < after.len() implies (
                #[trigger] after[i]).position.0 < (#[trigger] after[j]).position.0 by {
                    let a = if i < place { i } else { i - 1 };
                    let b = if j < place { j } else { j - 1 };
                    if i != place && j != place {
                        assert(before[a].position.0 < before[b].position.0);
                    } else if i == place {
                        assert(before[b].position.0 >= position.0);
                    } else {
                        assert(before[a].position.0 < position.0);
                    }
                }
            }
        }
    }

    /// Puts the part of `size` bytes at `value` on the list, which the routine
    /// `function` describes.
    pub fn add(&mut self, value: Address, function: DumpFunction, size: usize)
        requires
            old(self).wf(),
        ensures
            final(self).wf(),
            final(self)@ == if size == 0 {
                old(self)@
            } else {
                placed(old(self)@, DumpEntry { position: value, value, function })
            },
    {
        self.add_position(value, value, function, size);
    }

    /// Has every part described, in the order of the positions, each after the
    /// padding that leads up to it; then the list is empty. Stops at the first
    /// fault, and leaves the list as it is.
    pub fn dump<G: Dump, D: Dumper>(&mut self, graph: &G, dumper: &mut D) -> (result: Result<
        (),
        Fault,
    >)
        requires
            old(self).wf(),
            old(dumper).wf(),
        ensures
            final(dumper).wf(),
            final(dumper).state().wf(),
            old(dumper).state().evolves(final(dumper).state()),
            list_dumped(
                old(self)@,
                old(dumper).state(),
                final(dumper).state(),
                fault_of(result),
            ),
            final(self).wf(),
            final(self)@ == if result is Ok {
                Seq::<DumpEntry>::empty()
            } else {
                old(self)@
            },
    {
        let ghost before = dumper.state();
        let ghost entries = self@;
        proof {
            dumper.lemma_wf();
            lemma_evolves_reflexive(before);
        }
        let mut i: usize = 0;
        while i < self.entries.len()
            invariant
                0 <= i <= self.entries.len(),
                *self == *old(self),
                entries == self@,
                self.wf(),
                dumper.wf(),
                dumper.state().wf(),
                before == old(dumper).state(),
                before.evolves(dumper.state()),
                parts_dumped(entries, i as nat, before, dumper.state(), None),
            decreases self.entries.len() - i,
        {
            let entry = self.entries[i];
            let ghost reached = dumper.state();
            let padded = dumper.dump_padding(entry.position);
            proof {
                lemma_evolves_transitive(before, reached, dumper.state());
            }
            if padded.is_err() {
                proof {
                    assert(dumper.state() == reached);
                    assert(part_dumped(
                        entries[i as int],
                        reached,
                        dumper.state(),
                        fault_of(padded),
                    ));
                    lemma_part_more(
                        entries,
                        i as nat,
                        before,
                        reached,
                        dumper.state(),
                        fault_of(padded),
                    );
                }
                return padded;
            }
            let ghost ready = dumper.state();
            let described = dump_object_function_here(graph, dumper, entry.value, entry.function);
            proof {
                lemma_evolves_transitive(before, ready, dumper.state());
                assert(ready == reached.padded_to(entry.position).state);
                assert(part_dumped(
                    entries[i as int],
                    reached,
                    dumper.state(),
                    fault_of(described),
                ));
                lemma_part_more(
                    entries,
                    i as nat,
                    before,
                    reached,
                    dumper.state(),
                    fault_of(described),
                );
            }
            if described.is_err() {
                return described;
            }
            i += 1;
        }
        self.entries.clear();
        Ok(())
    }

    /// The position of the first part.
    pub fn first(&self) -> (position: Address)
        requires
            self@.len() > 0,
        ensures
            position == self@[0].position,
    {
        self.entries[0].position
    }

    /// The number of parts on the list.
    pub fn len(&self) -> (len: usize)
        ensures
            len == self@.len(),
    {
        self.entries.len()
    }
}

} // verus!
