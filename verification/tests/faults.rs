use rodal::address::Address;
use rodal::asm_dumper::AsmDumper;
use rodal::dumper::{dump_object_function, dump_object_function_here, Dump, Dumper};
use rodal::fault::Fault;
use rodal::image::Directive;
use rodal::label::LabelBase;
use rodal::registry::{DumpFunction, ObjectState};

const ROOT: DumpFunction = DumpFunction(1);
const LEAF: DumpFunction = DumpFunction(2);

/// A graph whose root runs the operations of one test, and whose other values
/// are four bytes each.
struct Script<F: Fn(&mut dyn FnMut(Op) -> Result<(), Fault>) -> Result<(), Fault>> {
    root: F,
}

/// One operation of a traversal routine.
enum Op {
    Pad(usize),
    PadTo(usize),
    Value(Vec<u8>),
    Reference(usize),
    Register(usize, usize, usize),
    ObjectReference(usize, usize, usize, isize),
    Prefix(usize, Vec<u8>),
    Suffix(usize, Vec<u8>),
    SetPosition(usize),
    Tag(usize),
}

fn run<D: Dumper>(dumper: &mut D, op: Op) -> Result<(), Fault> {
    match op {
        Op::Pad(size) => dumper.dump_padding_sized(size),
        Op::PadTo(target) => dumper.dump_padding(Address(target)),
        Op::Value(bytes) => dumper.dump_value_sized_here(&bytes),
        Op::Reference(target) => dumper.dump_reference_here(Address(target)),
        Op::Register(start, size, alignment) => {
            dumper.reference_object_sized(Address(start), LEAF, size, alignment)
        }
        Op::ObjectReference(start, size, alignment, offset) => dumper
            .dump_reference_object_function_sized_position_offset_here(
                Address(start),
                LEAF,
                Address(start),
                size,
                alignment,
                offset,
            ),
        Op::Prefix(end, bytes) => dumper.dump_prefix_value(Address(end), &bytes),
        Op::Suffix(start, bytes) => dumper.dump_suffix_value_sized(Address(start), &bytes),
        Op::SetPosition(position) => {
            dumper.set_position(Address(position));
            Ok(())
        }
        Op::Tag(tag) => {
            dumper.tag(tag);
            Ok(())
        }
    }
}

impl<F: Fn(&mut dyn FnMut(Op) -> Result<(), Fault>) -> Result<(), Fault>> Dump for Script<F> {
    fn dump<D: Dumper>(
        &self,
        _value: Address,
        function: DumpFunction,
        dumper: &mut D,
    ) -> Result<(), Fault> {
        if function == ROOT {
            (self.root)(&mut |op| run(dumper, op))
        } else {
            dumper.dump_value_sized_here(&[7, 7, 7, 7])
        }
    }
}

/// Runs `root` as the description of a root of 32 bytes at 0x1000, and returns
/// what the dump of the root came to, and the dumper.
fn dump_root(
    root: impl Fn(&mut dyn FnMut(Op) -> Result<(), Fault>) -> Result<(), Fault>,
) -> (Result<(), Fault>, AsmDumper) {
    let graph = Script { root };
    let mut dumper = AsmDumper::new();
    let result = dumper.dump_sized(&graph, "ROOT", Address(0x1000), ROOT, 32, 8);
    (result, dumper)
}

#[test]
fn registering_one_start_with_another_size_is_a_layout_conflict() {
    let (result, dumper) = dump_root(|step| {
        step(Op::Register(0x2000, 4, 4))?;
        step(Op::Register(0x2000, 8, 4))
    });
    assert_eq!(result, Err(Fault::LayoutConflict));
    assert_eq!(dumper.objects().len(), 2);
}

#[test]
fn registering_one_start_with_another_alignment_is_a_layout_conflict() {
    let (result, _) = dump_root(|step| {
        step(Op::Register(0x2000, 4, 4))?;
        step(Op::Register(0x2000, 4, 2))
    });
    assert_eq!(result, Err(Fault::LayoutConflict));
}

#[test]
fn registering_the_same_object_again_changes_nothing() {
    let (result, dumper) = dump_root(|step| {
        step(Op::Register(0x2000, 4, 4))?;
        step(Op::Register(0x2000, 4, 4))
    });
    assert_eq!(result, Ok(()));
    assert_eq!(dumper.objects().len(), 2);
}

#[test]
fn registering_an_object_across_another_is_an_overlap_violation() {
    let (result, _) = dump_root(|step| {
        step(Op::Register(0x2000, 16, 4))?;
        step(Op::Register(0x200f, 4, 1))
    });
    assert_eq!(result, Err(Fault::OverlapViolation));
    let (result, _) = dump_root(|step| {
        step(Op::Register(0x2000, 16, 4))?;
        step(Op::Register(0x1ffd, 4, 1))
    });
    assert_eq!(result, Err(Fault::OverlapViolation));
    // Up to the first byte of the other object, and from its end on, is fine.
    let (result, dumper) = dump_root(|step| {
        step(Op::Register(0x2000, 16, 4))?;
        step(Op::Register(0x1ffc, 4, 1))?;
        step(Op::Register(0x2010, 4, 1))
    });
    assert_eq!(result, Ok(()));
    assert_eq!(dumper.objects().len(), 4);
}

#[test]
fn registering_inside_the_root_is_an_overlap_violation() {
    let (result, _) = dump_root(|step| step(Op::Register(0x1008, 4, 4)));
    assert_eq!(result, Err(Fault::OverlapViolation));
}

#[test]
fn registering_nothing_is_a_zero_size_registration() {
    let (result, dumper) = dump_root(|step| step(Op::Register(0x2000, 0, 4)));
    assert_eq!(result, Err(Fault::ZeroSizeRegistration));
    assert_eq!(dumper.objects().len(), 1);
    let (result, _) = dump_root(|step| step(Op::ObjectReference(0x2000, 0, 4, 0)));
    assert_eq!(result, Err(Fault::ZeroSizeRegistration));
}

#[test]
fn root_of_no_bytes_is_a_zero_size_registration() {
    let graph = Script { root: |_: &mut dyn FnMut(Op) -> Result<(), Fault>| Ok(()) };
    let mut dumper = AsmDumper::new();
    assert_eq!(
        dumper.dump_sized(&graph, "ROOT", Address(0x1000), ROOT, 0, 8),
        Err(Fault::ZeroSizeRegistration)
    );
    assert!(dumper.objects().is_empty());
    assert!(dumper.is_idle());
}

#[test]
fn second_root_across_the_first_is_an_overlap_violation() {
    let graph = Script { root: |_: &mut dyn FnMut(Op) -> Result<(), Fault>| Ok(()) };
    let mut dumper = AsmDumper::new();
    assert_eq!(dumper.dump_sized(&graph, "ONE", Address(0x1000), ROOT, 32, 8), Ok(()));
    assert_eq!(
        dumper.dump_sized(&graph, "TWO", Address(0x1010), ROOT, 32, 8),
        Err(Fault::OverlapViolation)
    );
    assert_eq!(
        dumper.dump_sized(&graph, "TWO", Address(0x1000), ROOT, 32, 8),
        Err(Fault::OverlapViolation)
    );
    assert_eq!(dumper.dump_sized(&graph, "TWO", Address(0x1020), ROOT, 32, 8), Ok(()));
    assert_eq!(dumper.objects().len(), 2);
}

#[test]
fn padding_back_is_a_backward_advance() {
    let (result, _) = dump_root(|step| {
        step(Op::Value(vec![1, 2, 3, 4]))?;
        step(Op::PadTo(0x1002))
    });
    assert_eq!(result, Err(Fault::BackwardAdvance));
    let (result, _) = dump_root(|step| {
        step(Op::Value(vec![1, 2, 3, 4]))?;
        step(Op::PadTo(0x1004))?;
        step(Op::PadTo(0x1008))
    });
    assert_eq!(result, Ok(()));
}

#[test]
fn writing_past_the_end_of_the_object_is_a_backward_advance() {
    let (result, _) = dump_root(|step| step(Op::Value(vec![0; 33])));
    assert_eq!(result, Err(Fault::BackwardAdvance));
    let (result, _) = dump_root(|step| step(Op::Value(vec![0; 32])));
    assert_eq!(result, Ok(()));
    let (result, _) = dump_root(|step| step(Op::Pad(33)));
    assert_eq!(result, Err(Fault::BackwardAdvance));
    let (result, _) = dump_root(|step| {
        step(Op::Pad(25))?;
        step(Op::Reference(0x1000))
    });
    assert_eq!(result, Err(Fault::BackwardAdvance));
    let (result, _) = dump_root(|step| {
        step(Op::Pad(24))?;
        step(Op::Reference(0x1000))
    });
    assert_eq!(result, Ok(()));
    let (result, dumper) = dump_root(|step| {
        step(Op::Pad(25))?;
        step(Op::ObjectReference(0x2000, 4, 4, 0))
    });
    assert_eq!(result, Err(Fault::BackwardAdvance));
    // The object was not registered: the fault left everything as it was.
    assert_eq!(dumper.objects().len(), 1);
}

#[test]
fn failed_description_leaves_its_object_the_one_being_written() {
    let (result, dumper) = dump_root(|step| step(Op::Value(vec![0; 33])));
    assert_eq!(result, Err(Fault::BackwardAdvance));
    assert!(!dumper.is_idle());
    let emitting = dumper.emitting().unwrap();
    assert_eq!(emitting.start, Address(0x1000));
    assert_eq!(emitting.state, ObjectState::Emitting);
    assert_eq!(dumper.objects()[0].state, ObjectState::Emitting);
}

#[test]
fn operations_outside_a_description_fail_and_change_nothing() {
    let mut dumper = AsmDumper::new();
    assert_eq!(dumper.dump_padding_sized(0), Err(Fault::BackwardAdvance));
    assert_eq!(dumper.dump_value_sized_here(&[1]), Err(Fault::BackwardAdvance));
    assert_eq!(dumper.dump_reference_here(Address(0x10)), Err(Fault::BackwardAdvance));
    assert!(dumper.pending_references().is_empty());
    assert_eq!(dumper.into_directives().len(), 4);
}

#[test]
fn object_that_is_shorter_than_its_size_is_padded_to_it() {
    let (result, dumper) = dump_root(|step| step(Op::Value(vec![9, 9])));
    assert_eq!(result, Ok(()));
    let directives = dumper.into_directives();
    let tail = &directives[directives.len() - 3..];
    assert_eq!(
        tail,
        &[
            Directive::Bytes(vec![9, 9]),
            Directive::Skip(30),
            Directive::Size(LabelBase::Object(Address(0x1000)), 32),
        ]
    );
}

#[test]
fn prefix_and_suffix_write_the_bytes_around_the_fields() {
    // A value of eight bytes at 0x1000 whose field lies in its bytes 2 to 5.
    let bytes = vec![10, 11, 12, 13, 14, 15, 16, 17];
    let whole = bytes.clone();
    let (result, dumper) = dump_root(move |step| {
        step(Op::Prefix(0x1002, whole.clone()))?;
        step(Op::Value(vec![1, 2, 3, 4]))?;
        step(Op::Suffix(0x1000, whole.clone()))
    });
    assert_eq!(result, Ok(()));
    let directives = dumper.into_directives();
    assert!(directives.contains(&Directive::Bytes(vec![10, 11, 1, 2, 3, 4, 16, 17])));
    // A prefix that would end before it starts, and one longer than the bytes.
    let whole = bytes.clone();
    let (result, _) = dump_root(move |step| {
        step(Op::Value(vec![0; 4]))?;
        step(Op::Prefix(0x1002, whole.clone()))
    });
    assert_eq!(result, Err(Fault::BackwardAdvance));
    let whole = bytes.clone();
    let (result, _) = dump_root(move |step| step(Op::Prefix(0x1009, whole.clone())));
    assert_eq!(result, Err(Fault::BackwardAdvance));
    // A suffix of a value that starts behind the position, and one that has ended.
    let whole = bytes.clone();
    let (result, _) = dump_root(move |step| step(Op::Suffix(0x1001, whole.clone())));
    assert_eq!(result, Err(Fault::BackwardAdvance));
    let whole = bytes.clone();
    let (result, _) = dump_root(move |step| {
        step(Op::Value(vec![0; 9]))?;
        step(Op::Suffix(0x1000, whole.clone()))
    });
    assert_eq!(result, Err(Fault::BackwardAdvance));
}

#[test]
fn position_is_what_was_set_and_moves_with_the_cursor() {
    let (result, dumper) = dump_root(|step| {
        step(Op::SetPosition(0x7000))?;
        step(Op::Value(vec![1, 2, 3]))?;
        step(Op::Tag(5))?;
        step(Op::PadTo(0x7008))?;
        step(Op::Tag(6))
    });
    assert_eq!(result, Ok(()));
    let tags: Vec<(usize, usize)> =
        dumper.tags().iter().map(|tag| (tag.tag, tag.address.0)).collect();
    assert_eq!(tags, vec![(5, 0x7003), (6, 0x7008)]);
    let directives = dumper.into_directives();
    assert!(directives.contains(&Directive::Skip(5)));
}

/// A graph whose root nests the description of a value inside its own.
struct Nested;

impl Dump for Nested {
    fn dump<D: Dumper>(
        &self,
        value: Address,
        function: DumpFunction,
        dumper: &mut D,
    ) -> Result<(), Fault> {
        if function == ROOT {
            dumper.dump_value(value, &[1, 1])?;
            dump_object_function(self, dumper, Address(value.0 + 4), LEAF)?;
            let offset = dumper.position_offset();
            dump_object_function_here(self, dumper, Address(0x9000), LEAF)?;
            assert_eq!(dumper.position_offset(), offset);
            dumper.dump_padding(Address(value.0 + 16))
        } else {
            assert_eq!(dumper.current_position(), value);
            dumper.dump_value_sized_here(&[7, 7, 7, 7])
        }
    }
}

#[test]
fn nested_values_are_written_in_place() {
    let mut dumper = AsmDumper::new();
    assert_eq!(dumper.dump_sized(&Nested, "ROOT", Address(0x1000), ROOT, 16, 8), Ok(()));
    assert_eq!(dumper.objects().len(), 1);
    let directives = dumper.into_directives();
    let tail = &directives[directives.len() - 5..];
    assert_eq!(
        tail,
        &[
            Directive::Bytes(vec![1, 1]),
            Directive::Skip(2),
            Directive::Bytes(vec![7, 7, 7, 7, 7, 7, 7, 7]),
            Directive::Skip(4),
            Directive::Size(LabelBase::Object(Address(0x1000)), 16),
        ]
    );
}
