//! Object graphs that are described by data: for each value the parts that it
//! is made of, in the order of their addresses.
use crate::address::Address;
use crate::dumper::{Dump, Dumper};
use crate::fault::Fault;
use crate::invariants::{lemma_evolves_reflexive, lemma_evolves_transitive};
use crate::registry::DumpFunction;
use crate::state::{follows, layout_allowed, layout_check, DumpState, Outcome};
use vstd::prelude::*;

verus! {

/// One part of a value.
#[derive(Debug)]
pub enum Part {
    /// Raw bytes, which lie at `position`.
    Value { position: Address, bytes: Vec<u8> },
    /// A pointer at `position` to `target`, which some object contains or will
    /// contain.
    Pointer { position: Address, target: Address },
    /// A pointer at `position` to the complete object of `size` bytes at
    /// `target`, which the routine `function` describes from `value`.
    Object {
        position: Address,
        target: Address,
        value: Address,
        function: DumpFunction,
        size: usize,
        alignment: usize,
    },
    /// Tells the dumper that the next part lies at `position`. This is how the
    /// description of an object begins that is described from a value that lies
    /// elsewhere.
    Position { position: Address },
    /// A mark of the category `tag` on the current position.
    Tag { tag: usize },
}

impl Part {
    /// Whether the part can be handed to a dumper: a complete object that it
    /// names fits the integer types.
    pub open spec fn fits(self) -> bool {
        match self {
            Part::Object { target, size, alignment, .. } => layout_allowed(target, size, alignment),
            _ => true,
        }
    }

    /// Whether the part can be handed to a dumper.
    pub fn check(&self) -> (fits: bool)
        ensures
            fits == self.fits(),
    {
        match self {
            Part::Object { target, size, alignment, .. } => layout_check(*target, *size, *alignment),
            _ => true,
        }
    }

    /// After the part was written.
    pub open spec fn written(self, state: DumpState) -> Outcome {
        match self {
            Part::Value { position, bytes } => state.valued_at(position, bytes@),
            Part::Pointer { position, target } => state.referenced_at(position, target),
            Part::Object { position, target, value, function, size, alignment } => {
                state.object_referenced_at(position, value, function, target, size, alignment, 0)
            },
            Part::Position { position } => Outcome::done(state.positioned(position)),
            Part::Tag { tag } => Outcome::done(state.tagged(state.position(), tag)),
        }
    }
}

/// The parts of one value, which the routine `function` writes when it is
/// handed `value`.
#[derive(Debug)]
pub struct Description {
    pub value: Address,
    pub function: DumpFunction,
    pub parts: Vec<Part>,
}

impl Description {
    /// Whether every part can be handed to a dumper.
    pub open spec fn fits(self) -> bool {
        forall|i: int| 0 <= i < self.parts@.len() ==> (#[trigger] self.parts@[i]).fits()
    }

    /// Whether every part can be handed to a dumper.
    pub fn check(&self) -> (fits: bool)
        ensures
            fits == self.fits(),
    {
        let mut i: usize = 0;
        while i < self.parts.len()
            invariant
                0 <= i <= self.parts.len(),
                forall|k: int| 0 <= k < i ==> (#[trigger] self.parts@[k]).fits(),
            decreases self.parts.len() - i,
        {
            if !self.parts[i].check() {
                return false;
            }
            i += 1;
        }
        true
    }
}

/// An object graph as a list of descriptions.
pub struct Graph {
    descriptions: Vec<Description>,
}

impl View for Graph {
    type V = Seq<Description>;

    closed spec fn view(&self) -> Seq<Description> {
        self.descriptions@
    }
}

impl Graph {
    #[verifier::type_invariant]
    spec fn described(self) -> bool {
        forall|i: int| 0 <= i < self.descriptions@.len() ==> (#[trigger] self.descriptions@[i]).fits()
    }

    /// The graph of the values that are described. A description with a part
    /// that cannot be handed to a dumper makes no graph.
    pub fn new(descriptions: Vec<Description>) -> (graph: Option<Graph>)
        ensures
            match graph {
                Some(graph) => graph@ == descriptions@ && forall|i: int|
                    0 <= i < descriptions@.len() ==> (#[trigger] descriptions@[i]).fits(),
                None => exists|i: int|
                    0 <= i < descriptions@.len() && !(#[trigger] descriptions@[i]).fits(),
            },
    {
        let mut i: usize = 0;
        while i < descriptions.len()
            invariant
                0 <= i <= descriptions.len(),
                forall|k: int| 0 <= k < i ==> (#[trigger] descriptions@[k]).fits(),
            decreases descriptions.len() - i,
        {
            if !descriptions[i].check() {
                return None;
            }
            i += 1;
        }
        Some(Graph { descriptions })
    }

    /// Whether the description at place `at` is the first that is listed for the
    /// routine `function` and the value `value`.
    pub open spec fn is_first(&self, value: Address, function: DumpFunction, at: int) -> bool {
        &&& 0 <= at < self@.len()
        &&& self@[at].value == value
        &&& self@[at].function == function
        &&& forall|i: int|
            0 <= i < at ==> !((#[trigger] self@[i]).value == value && self@[i].function == function)
    }

    /// The place of the description that the routine `function` writes from
    /// `value`: the first one that is listed for the two, where one is.
    pub open spec fn described_at(&self, value: Address, function: DumpFunction) -> Option<int> {
        if exists|at: int| self.is_first(value, function, at) {
            Some(choose|at: int| self.is_first(value, function, at))
        } else {
            None
        }
    }

    /// After the value at `value` was written by the routine `function`: the
    /// parts of its description one after the other, up to the first that fails.
    /// A value without a description fails with `DanglingReference`.
    pub open spec fn dumped(
        &self,
        state: DumpState,
        value: Address,
        function: DumpFunction,
    ) -> Outcome {
        match self.described_at(value, function) {
            Some(at) => parts_written(self@[at].parts@, state, self@[at].parts@.len()),
            None => Outcome::failed(state, Fault::DanglingReference),
        }
    }

    /// The place of the description that the routine `function` writes from
    /// `value`: the first one that is listed for the two.
    pub fn find(&self, value: Address, function: DumpFunction) -> (found: Option<usize>)
        ensures
            match found {
                Some(at) => self.described_at(value, function) == Some(at as int),
                None => self.described_at(value, function) is None,
            },
    {
        let mut i: usize = 0;
        while i < self.descriptions.len()
            invariant
                0 <= i <= self.descriptions.len(),
                forall|k: int|
                    0 <= k < i ==> !((#[trigger] self.descriptions@[k]).value == value
                        && self.descriptions@[k].function == function),
            decreases self.descriptions.len() - i,
        {
            if self.descriptions[i].value.0 == value.0 && self.descriptions[i].function.0
                == function.0 {
                proof {
                    assert(self.is_first(value, function, i as int));
                    let other = choose|at: int| self.is_first(value, function, at);
                    assert(self.is_first(value, function, other));
                    if other < i {
                        assert(self@[other].value == value);
                    } else if i < other {
                        assert(self@[i as int].value == value);
                    }
                }
                return Some(i);
            }
            i += 1;
        }
        proof {
            if exists|at: int| self.is_first(value, function, at) {
                let at = choose|at: int| self.is_first(value, function, at);
                assert(self.descriptions@[at].value == value);
            }
        }
        None
    }
}

/// After the first `count` of `parts` were written one after the other, up to
/// the first that fails.
pub open spec fn parts_written(parts: Seq<Part>, state: DumpState, count: nat) -> Outcome
    decreases count,
{
    if count == 0 {
        Outcome::done(state)
    } else {
        parts_written(parts, state, (count - 1) as nat).and_then(
            |reached: DumpState| parts[count - 1].written(reached),
        )
    }
}

/// Once a part has failed, no later part is written.
pub proof fn lemma_parts_failed(parts: Seq<Part>, state: DumpState, failed: nat, count: nat)
    requires
        failed <= count,
        parts_written(parts, state, failed).fault is Some,
    ensures
        parts_written(parts, state, count) == parts_written(parts, state, failed),
    decreases count,
{
    if failed < count {
        lemma_parts_failed(parts, state, failed, (count - 1) as nat);
    }
}

/// Writes one part of a value.
pub fn dump_part<D: Dumper>(part: &Part, dumper: &mut D) -> (result: Result<(), Fault>)
    requires
        old(dumper).wf(),
        part.fits(),
    ensures
        final(dumper).wf(),
        follows(
            old(dumper).state(),
            part.written(old(dumper).state()),
            final(dumper).state(),
            result,
        ),
{
    match part {
        Part::Value { position, bytes } => dumper.dump_value(*position, bytes.as_slice()),
        Part::Pointer { position, target } => dumper.dump_reference(*position, *target),
        Part::Object { position, target, value, function, size, alignment } => {
            dumper.dump_reference_object_function_sized_position(
                *position,
                *value,
                *function,
                *target,
                *size,
                *alignment,
            )
        },
        Part::Position { position } => {
            dumper.set_position(*position);
            Ok(())
        },
        Part::Tag { tag } => {
            dumper.tag(*tag);
            Ok(())
        },
    }
}

impl Dump for Graph {
    /// Writes the parts of the value in the order in which they are listed, up
    /// to the first that fails. A value without a description fails with
    /// `DanglingReference`.
    fn dump<D: Dumper>(&self, value: Address, function: DumpFunction, dumper: &mut D) -> (result:
        Result<(), Fault>)
        ensures
            follows(
                old(dumper).state(),
                self.dumped(old(dumper).state(), value, function),
                final(dumper).state(),
                result,
            ),
    {
        let ghost before = dumper.state();
        proof {
            use_type_invariant(self);
            dumper.lemma_wf();
            lemma_evolves_reflexive(before);
        }
        match self.find(value, function) {
            None => Err(Fault::DanglingReference),
            Some(at) => {
                let description = &self.descriptions[at];
                let ghost parts = description.parts@;
                let mut i: usize = 0;
                while i < description.parts.len()
                    invariant
                        0 <= i <= description.parts.len(),
                        parts == description.parts@,
                        self.described_at(value, function) == Some(at as int),
                        self@[at as int].parts@ == parts,
                        description.fits(),
                        dumper.wf(),
                        dumper.state().wf(),
                        before == old(dumper).state(),
                        before.evolves(dumper.state()),
                        parts_written(parts, before, i as nat) == Outcome::done(dumper.state()),
                    decreases description.parts.len() - i,
                {
                    let ghost reached = dumper.state();
                    let written = dump_part(&description.parts[i], dumper);
                    proof {
                        lemma_evolves_transitive(before, reached, dumper.state());
                        assert(parts_written(parts, before, (i + 1) as nat) == parts[i as int].written(
                            reached,
                        ));
                        assert(parts_written(parts, before, (i + 1) as nat).state
                            =~= dumper.state());
                    }
                    if written.is_err() {
                        proof {
                            lemma_parts_failed(parts, before, (i + 1) as nat, parts.len());
                        }
                        return written;
                    }
                    i += 1;
                }
                Ok(())
            },
        }
    }
}

} // verus!
