use rodal::address::Address;
use rodal::asm_dumper::AsmDumper;
use rodal::dump_list::DumpList;
use rodal::dumper::{name_of, Dump, Dumper, Named};
use rodal::fault::Fault;
use rodal::graph::{Description, Graph, Part};
use rodal::image::{word_size, Directive};
use rodal::label::{AsmLabel, LabelBase};
use rodal::layout::aligned;
use rodal::loader::{load_asm_tags, tagged};
use rodal::registry::{DumpFunction, ObjectState};
use rodal::state::{layout_check, Tag};

const ROOT: DumpFunction = DumpFunction(1);
const LEAF: DumpFunction = DumpFunction(2);

fn bytes_at(position: usize, bytes: &[u8]) -> Part {
    Part::Value { position: Address(position), bytes: bytes.to_vec() }
}

fn leaf(start: usize, size: usize) -> Description {
    Description {
        value: Address(start),
        function: LEAF,
        parts: vec![bytes_at(start, &vec![0xab; size])],
    }
}

fn object_at(position: usize, target: usize, size: usize, alignment: usize) -> Part {
    Part::Object {
        position: Address(position),
        target: Address(target),
        value: Address(target),
        function: LEAF,
        size,
        alignment,
    }
}

/// The bytes that the directives put into the image.
fn written(directives: &[Directive]) -> usize {
    directives
        .iter()
        .map(|directive| match directive {
            Directive::Skip(size) => *size,
            Directive::Word(_) => 8,
            Directive::Bytes(bytes) => bytes.len(),
            Directive::Pointers(labels) => 8 * labels.len(),
            _ => 0,
        })
        .sum()
}

fn header_of(directives: &[Directive], start: usize) -> Vec<Directive> {
    let own = LabelBase::Object(Address(start));
    let from = directives
        .iter()
        .position(|directive| *directive == Directive::TypeObject(LabelBase::Object(Address(start))))
        .unwrap();
    let to = directives.iter().position(|directive| *directive == Directive::Declare(
        LabelBase::Object(Address(start)),
    ));
    let _ = own;
    let mut header = Vec::new();
    for directive in &directives[from + 1..to.unwrap()] {
        match directive {
            Directive::Align(n) => header.push(Directive::Align(*n)),
            Directive::Skip(n) => header.push(Directive::Skip(*n)),
            Directive::Word(n) => header.push(Directive::Word(*n)),
            _ => {}
        }
    }
    header
}

#[test]
fn word_is_eight_bytes_here() {
    assert_eq!(word_size(), std::mem::size_of::<usize>());
}

#[test]
fn header_alignment_is_the_least_common_multiple_with_a_word() {
    assert_eq!(aligned(1), 8);
    assert_eq!(aligned(2), 8);
    assert_eq!(aligned(3), 24);
    assert_eq!(aligned(4), 8);
    assert_eq!(aligned(8), 8);
    assert_eq!(aligned(12), 24);
    assert_eq!(aligned(16), 16);
    assert_eq!(aligned(64), 64);
}

#[test]
fn header_puts_the_size_right_before_the_object() {
    let graph = Graph::new(vec![
        Description {
            value: Address(0x1000),
            function: ROOT,
            parts: vec![
                object_at(0x1000, 0x2000, 6, 3),
                object_at(0x1008, 0x3000, 32, 16),
                object_at(0x1010, 0x4000, 1, 1),
            ],
        },
        leaf(0x2000, 6),
        leaf(0x3000, 32),
        leaf(0x4000, 1),
    ])
    .unwrap();
    let mut dumper = AsmDumper::new();
    assert_eq!(dumper.dump_sized(&graph, "ROOT", Address(0x1000), ROOT, 24, 8), Ok(()));
    assert_eq!(dumper.finish(&graph), Ok(()));
    let directives = dumper.into_directives();
    assert_eq!(header_of(&directives, 0x1000), vec![Directive::Align(8), Directive::Word(24)]);
    assert_eq!(
        header_of(&directives, 0x2000),
        vec![Directive::Align(24), Directive::Skip(16), Directive::Word(6)]
    );
    assert_eq!(
        header_of(&directives, 0x3000),
        vec![Directive::Align(16), Directive::Skip(8), Directive::Word(32)]
    );
    assert_eq!(header_of(&directives, 0x4000), vec![Directive::Align(8), Directive::Word(1)]);
    // Every byte is accounted for: each object with its header, and no more.
    assert_eq!(written(&directives), (8 + 24) + (24 + 6) + (16 + 32) + (8 + 1));
}

#[test]
fn image_length_is_the_sum_of_objects_and_headers_at_every_idle_point() {
    let graph = Graph::new(vec![
        Description {
            value: Address(0x1000),
            function: ROOT,
            parts: vec![bytes_at(0x1000, &[1, 2, 3]), object_at(0x1008, 0x2000, 10, 4)],
        },
        leaf(0x2000, 10),
    ])
    .unwrap();
    let mut dumper = AsmDumper::new();
    assert_eq!(written(&AsmDumper::new().into_directives()), 0);
    assert_eq!(dumper.dump_sized(&graph, "ROOT", Address(0x1000), ROOT, 40, 8), Ok(()));
    assert_eq!(dumper.finish(&graph), Ok(()));
    let sizes: usize = dumper.objects().iter().map(|object| aligned(object.alignment) + object.size).sum();
    assert_eq!(sizes, (8 + 40) + (8 + 10));
    let directives = dumper.into_directives();
    assert_eq!(written(&directives), sizes);
    assert!(directives.contains(&Directive::Skip(5)));
    assert!(directives.contains(&Directive::Skip(24)));
}

#[test]
fn objects_of_a_dump_share_no_byte() {
    let graph = Graph::new(vec![
        Description {
            value: Address(0x1000),
            function: ROOT,
            parts: vec![
                object_at(0x1000, 0x3000, 16, 8),
                object_at(0x1008, 0x2ff0, 16, 8),
                object_at(0x1010, 0x3010, 16, 8),
            ],
        },
        leaf(0x2ff0, 16),
        leaf(0x3000, 16),
        leaf(0x3010, 16),
    ])
    .unwrap();
    let mut dumper = AsmDumper::new();
    assert_eq!(dumper.dump_sized(&graph, "ROOT", Address(0x1000), ROOT, 24, 8), Ok(()));
    assert_eq!(dumper.finish(&graph), Ok(()));
    let objects = dumper.objects();
    assert_eq!(objects.len(), 4);
    for (i, first) in objects.iter().enumerate() {
        for second in &objects[i + 1..] {
            assert!(first.start.0 + first.size <= second.start.0);
        }
    }
}

#[test]
fn runs_of_bytes_and_pointers_are_kept_together() {
    let graph = Graph::new(vec![Description {
        value: Address(0x1000),
        function: ROOT,
        parts: vec![
            bytes_at(0x1000, &[1, 2]),
            bytes_at(0x1002, &[3]),
            bytes_at(0x1003, &[]),
            bytes_at(0x1003, &[4]),
            Part::Pointer { position: Address(0x1004), target: Address(0x1000) },
            Part::Pointer { position: Address(0x100c), target: Address(0x1001) },
            bytes_at(0x1014, &[5]),
            bytes_at(0x1016, &[6]),
        ],
    }])
    .unwrap();
    let mut dumper = AsmDumper::new();
    assert_eq!(dumper.dump_sized(&graph, "ROOT", Address(0x1000), ROOT, 23, 1), Ok(()));
    let directives = dumper.into_directives();
    let own = LabelBase::Object(Address(0x1000));
    let from = directives.iter().position(|d| *d == Directive::Declare(LabelBase::Object(Address(0x1000)))).unwrap();
    assert_eq!(
        &directives[from + 1..],
        &[
            Directive::Bytes(vec![1, 2, 3, 4]),
            Directive::Pointers(vec![
                AsmLabel { base: LabelBase::Object(Address(0x1000)), offset: 0 },
                AsmLabel { base: LabelBase::Object(Address(0x1000)), offset: 1 },
            ]),
            Directive::Bytes(vec![5]),
            Directive::Skip(1),
            Directive::Bytes(vec![6]),
            Directive::Size(own, 23),
        ]
    );
}

#[test]
fn dump_takes_the_size_and_the_alignment_of_the_type() {
    fn layout_of<T>() -> (usize, usize) {
        let graph = Graph::new(vec![leaf(0x1000, std::mem::size_of::<T>())]).unwrap();
        let mut dumper = AsmDumper::new();
        assert_eq!(dumper.dump::<T, Graph>(&graph, "ROOT", Address(0x1000), LEAF), Ok(()));
        let object = dumper.objects()[0];
        assert_eq!(object.state, ObjectState::Emitted);
        assert_eq!((object.start, object.value, object.dump), (Address(0x1000), Address(0x1000), LEAF));
        assert_eq!(
            header_of(&dumper.into_directives(), 0x1000)[0],
            Directive::Align(aligned(std::mem::align_of::<T>()))
        );
        (object.size, object.alignment)
    }
    assert_eq!(layout_of::<u32>(), (4, 4));
    assert_eq!(layout_of::<[u8; 3]>(), (3, 1));
    assert_eq!(layout_of::<u64>(), (8, 8));
    assert_eq!(layout_of::<u128>(), (16, std::mem::align_of::<u128>()));
    assert_eq!(layout_of::<(u8, u16)>(), (4, 2));
    // A type without bytes gives no root.
    let graph = Graph::new(vec![]).unwrap();
    let mut dumper = AsmDumper::new();
    assert_eq!(
        dumper.dump::<(), Graph>(&graph, "ROOT", Address(0x1000), LEAF),
        Err(Fault::ZeroSizeRegistration)
    );
}

#[test]
fn root_that_was_referenced_before_is_written_under_its_name() {
    // The first root holds a pointer to the second, which is dumped after it.
    let graph = Graph::new(vec![
        Description {
            value: Address(0x1000),
            function: ROOT,
            parts: vec![object_at(0x1000, 0x2000, 6, 2)],
        },
        leaf(0x2000, 6),
    ])
    .unwrap();
    let mut dumper = AsmDumper::new();
    assert_eq!(dumper.dump_sized(&graph, "FIRST", Address(0x1000), ROOT, 8, 8), Ok(()));
    assert_eq!(dumper.objects()[1].state, ObjectState::Pending);
    // With another layout than it was referenced with, the root is refused.
    assert_eq!(
        dumper.dump_sized(&graph, "SECOND", Address(0x2000), LEAF, 8, 2),
        Err(Fault::LayoutConflict)
    );
    assert_eq!(
        dumper.dump_sized(&graph, "SECOND", Address(0x2000), LEAF, 6, 4),
        Err(Fault::LayoutConflict)
    );
    assert_eq!(dumper.objects().len(), 2);
    assert_eq!(dumper.dump_sized(&graph, "SECOND", Address(0x2000), LEAF, 6, 2), Ok(()));
    assert_eq!(dumper.objects().len(), 2);
    assert_eq!(dumper.objects()[1].state, ObjectState::Emitted);
    // Once written, it is not written again.
    assert_eq!(
        dumper.dump_sized(&graph, "THIRD", Address(0x2000), LEAF, 6, 2),
        Err(Fault::OverlapViolation)
    );
    assert_eq!(dumper.finish(&graph), Ok(()));
    let directives = dumper.into_directives();
    let own = LabelBase::Object(Address(0x2000));
    let second = Directive::Declare(LabelBase::Global("SECOND".to_string()));
    let count = |wanted: &Directive| directives.iter().filter(|d| *d == wanted).count();
    assert_eq!(count(&Directive::Declare(LabelBase::Object(Address(0x2000)))), 1);
    assert_eq!(count(&Directive::Declare(LabelBase::Global("SECOND".to_string()))), 1);
    assert_eq!(count(&Directive::Global(LabelBase::Global("SECOND".to_string()))), 1);
    assert_eq!(count(&Directive::Bytes(vec![0xab; 6])), 1);
    let at = directives.iter().position(|d| *d == second).unwrap();
    assert_eq!(directives[at + 1], Directive::Declare(own));
    assert_eq!(written(&directives), (8 + 8) + (8 + 6));
}

#[test]
fn steps_of_a_dump_can_be_taken_one_by_one() {
    let mut dumper = AsmDumper::new();
    assert_eq!(dumper.begin_next(), None);
    assert_eq!(dumper.begin_root("ROOT", Address(0x1000), ROOT, 16, 8), Ok(()));
    assert!(!dumper.is_idle());
    assert_eq!(dumper.current_position(), Address(0x1000));
    assert_eq!(dumper.reference_object_sized(Address(0x3000), LEAF, 4, 4), Ok(()));
    assert_eq!(dumper.reference_object_sized(Address(0x2000), LEAF, 4, 4), Ok(()));
    assert_eq!(dumper.end_object(Err(Fault::LayoutConflict)), Err(Fault::LayoutConflict));
    assert!(!dumper.is_idle());
    assert_eq!(dumper.end_object(Ok(())), Ok(()));
    assert!(dumper.is_idle());
    // The object at the lowest address comes first.
    let next = dumper.begin_next().unwrap();
    assert_eq!((next.start, next.state), (Address(0x2000), ObjectState::Pending));
    assert_eq!(dumper.emitting().unwrap().state, ObjectState::Emitting);
    assert_eq!(dumper.dump_value_sized_here(&[1, 2, 3, 4]), Ok(()));
    assert_eq!(dumper.end_object(Ok(())), Ok(()));
    let next = dumper.begin_next().unwrap();
    assert_eq!(next.start, Address(0x3000));
    assert_eq!(dumper.end_object(Ok(())), Ok(()));
    assert_eq!(dumper.begin_next(), None);
    assert_eq!(dumper.end_image(), Ok(()));
    let states: Vec<ObjectState> = dumper.objects().iter().map(|object| object.state).collect();
    assert_eq!(states, vec![ObjectState::Emitted; 3]);
}

#[test]
fn tags_are_kept_in_order_and_written_as_a_table() {
    let graph = Graph::new(vec![Description {
        value: Address(0x1000),
        function: ROOT,
        parts: vec![
            Part::Tag { tag: 7 },
            bytes_at(0x1000, &[1, 2, 3, 4]),
            Part::Tag { tag: 9 },
            bytes_at(0x1004, &[5, 6, 7, 8]),
            Part::Tag { tag: 7 },
        ],
    }])
    .unwrap();
    let mut dumper = AsmDumper::new();
    assert_eq!(dumper.dump_sized(&graph, "ROOT", Address(0x1000), ROOT, 16, 8), Ok(()));
    let expected = vec![
        Tag { tag: 7, address: Address(0x1000) },
        Tag { tag: 9, address: Address(0x1004) },
        Tag { tag: 7, address: Address(0x1008) },
    ];
    assert_eq!(dumper.tags(), &expected);
    assert_eq!(tagged(dumper.tags(), 7), vec![Address(0x1000), Address(0x1008)]);
    assert_eq!(tagged(dumper.tags(), 9), vec![Address(0x1004)]);
    assert_eq!(tagged(dumper.tags(), 1), vec![]);
    assert!(dumper.tags_fit(Address(0x8000)));
    assert!(!dumper.tags_fit(Address(usize::MAX - 55)));
    assert!(dumper.tags_fit(Address(usize::MAX - 56)));
    assert_eq!(dumper.dump_tags(&graph, Address(0x8000)), Ok(()));
    let table = dumper.objects().iter().find(|object| object.start == Address(0x8000)).unwrap();
    assert_eq!((table.size, table.alignment, table.state), (56, 8, ObjectState::Emitted));
    let directives = dumper.into_directives();
    let from = directives
        .iter()
        .position(|d| *d == Directive::Declare(LabelBase::Object(Address(0x8000))))
        .unwrap();
    let root = |offset: isize| AsmLabel { base: LabelBase::Object(Address(0x1000)), offset };
    assert_eq!(
        &directives[from - 1..],
        &[
            Directive::Declare(LabelBase::Global("RODAL_TAGS".to_string())),
            Directive::Declare(LabelBase::Object(Address(0x8000))),
            Directive::Word(3),
            Directive::Word(7),
            Directive::Pointers(vec![root(0)]),
            Directive::Word(9),
            Directive::Pointers(vec![root(4)]),
            Directive::Word(7),
            Directive::Pointers(vec![root(8)]),
            Directive::Size(LabelBase::Object(Address(0x8000)), 56),
        ]
    );
}

#[test]
fn table_of_tags_across_an_object_is_an_overlap_violation() {
    let graph = Graph::new(vec![leaf(0x1000, 16)]).unwrap();
    let mut dumper = AsmDumper::new();
    assert_eq!(dumper.dump_sized(&graph, "ROOT", Address(0x1000), LEAF, 16, 8), Ok(()));
    assert_eq!(dumper.dump_tags(&graph, Address(0x100f)), Err(Fault::OverlapViolation));
    let mut dumper = AsmDumper::new();
    assert_eq!(dumper.dump_tags(&graph, Address(usize::MAX - 4)), Err(Fault::OverlapViolation));
}

#[test]
fn tag_on_an_address_in_no_object_fails_the_table() {
    let mut dumper = AsmDumper::new();
    dumper.tag_reference(Address(0x5000), 1);
    assert_eq!(dumper.write_tags(Address(0x8000)), Err(Fault::DanglingReference));
    assert_eq!(dumper.pending_references(), &vec![Address(0x5000)]);
    let graph = Graph::new(vec![]).unwrap();
    let mut dumper = AsmDumper::new();
    dumper.tag_reference(Address(0x5000), 1);
    assert_eq!(dumper.dump_tags(&graph, Address(0x8000)), Err(Fault::DanglingReference));
    assert!(dumper.is_idle());
    assert_eq!(dumper.objects().len(), 1);
}

#[test]
fn table_that_does_not_fit_is_not_written() {
    let mut dumper = AsmDumper::new();
    assert_eq!(
        dumper.write_tags_where_fit(Address(usize::MAX - 7)),
        Err(Fault::OverlapViolation)
    );
    assert!(dumper.objects().is_empty());
    assert_eq!(dumper.write_tags_where_fit(Address(usize::MAX - 8)), Ok(()));
    assert_eq!(dumper.objects().len(), 1);
    assert_eq!(dumper.objects()[0].size, 8);
}

#[test]
fn dump_of_the_tags_with_nothing_pending_ends_the_image_and_writes_the_table() {
    let graph = Graph::new(vec![]).unwrap();
    let mut dumper = AsmDumper::new();
    assert_eq!(dumper.dump_tags(&graph, Address(0x8000)), Ok(()));
    let directives = dumper.into_directives();
    let end = directives.iter().position(|d| *d == Directive::End).unwrap();
    assert_eq!(
        &directives[end - 2..end],
        &[
            Directive::Global(LabelBase::Global("RODAL_END".to_string())),
            Directive::Declare(LabelBase::Global("RODAL_END".to_string())),
        ]
    );
    assert_eq!(
        &directives[end + 1..],
        &[
            Directive::Global(LabelBase::Global("RODAL_TAGS".to_string())),
            Directive::TypeObject(LabelBase::Global("RODAL_TAGS".to_string())),
            Directive::Size(LabelBase::Global("RODAL_TAGS".to_string()), 8),
            Directive::TypeObject(LabelBase::Object(Address(0x8000))),
            Directive::Align(8),
            Directive::Word(8),
            Directive::Declare(LabelBase::Global("RODAL_TAGS".to_string())),
            Directive::Declare(LabelBase::Object(Address(0x8000))),
            Directive::Word(0),
            Directive::Size(LabelBase::Object(Address(0x8000)), 8),
        ]
    );
}

#[test]
fn table_of_tags_is_read_back_as_it_was_written() {
    let tags = vec![
        Tag { tag: 7, address: Address(0x1000) },
        Tag { tag: 9, address: Address(0x1004) },
        Tag { tag: 7, address: Address(0x1008) },
    ];
    let words = vec![3, 7, 0x1000, 9, 0x1004, 7, 0x1008];
    assert_eq!(load_asm_tags(&words), Some(tags));
    assert_eq!(load_asm_tags(&[0]), Some(vec![]));
    assert_eq!(load_asm_tags(&[]), None);
    assert_eq!(load_asm_tags(&[1, 7]), None);
    assert_eq!(load_asm_tags(&[1, 7, 0x1000, 9]), None);
    assert_eq!(load_asm_tags(&[2, 7, 0x1000]), None);
    assert_eq!(load_asm_tags(&[usize::MAX, 7, 0x1000]), None);
}

#[test]
fn layouts_are_checked_against_the_limits_of_the_machine() {
    assert!(layout_check(Address(0x1000), 16, 8));
    assert!(layout_check(Address(0x1000), 0, 0));
    assert!(!layout_check(Address(0x1000), 16, 0));
    assert!(layout_check(Address(usize::MAX - 16), 16, 1));
    assert!(!layout_check(Address(usize::MAX - 15), 16, 1));
    assert!(layout_check(Address(0), isize::MAX as usize, 1));
    assert!(!layout_check(Address(0), isize::MAX as usize + 1, 1));
    assert!(layout_check(Address(0), 1, usize::MAX / 8));
    assert!(!layout_check(Address(0), 1, usize::MAX / 8 + 1));
}

#[test]
fn graph_refuses_a_part_that_does_not_fit() {
    let refused = Graph::new(vec![Description {
        value: Address(0x1000),
        function: ROOT,
        parts: vec![object_at(0x1000, usize::MAX - 3, 8, 8)],
    }]);
    assert!(refused.is_none());
    let part = object_at(0x1000, 0x2000, 8, 0);
    assert!(!part.check());
    assert!(object_at(0x1000, 0x2000, 0, 0).check());
}

#[test]
fn value_without_a_description_is_a_dangling_reference() {
    let graph = Graph::new(vec![Description {
        value: Address(0x1000),
        function: ROOT,
        parts: vec![object_at(0x1000, 0x2000, 8, 8)],
    }])
    .unwrap();
    assert_eq!(graph.find(Address(0x1000), ROOT), Some(0));
    assert_eq!(graph.find(Address(0x1000), LEAF), None);
    assert_eq!(graph.find(Address(0x2000), LEAF), None);
    let mut dumper = AsmDumper::new();
    assert_eq!(dumper.dump_sized(&graph, "ROOT", Address(0x1000), ROOT, 8, 8), Ok(()));
    assert_eq!(dumper.finish(&graph), Err(Fault::DanglingReference));
    assert!(!dumper.is_idle());
}

struct Parts;

impl Dump for Parts {
    fn dump<D: Dumper>(
        &self,
        value: Address,
        function: DumpFunction,
        dumper: &mut D,
    ) -> Result<(), Fault> {
        if function == ROOT {
            let mut list = DumpList::new();
            list.add(Address(value.0 + 8), DumpFunction(12), 1);
            list.add_position(Address(value.0 + 4), Address(0x9000), DumpFunction(11), 1);
            list.add(Address(value.0), DumpFunction(10), 1);
            list.add(Address(value.0 + 2), DumpFunction(99), 0);
            list.add(Address(value.0 + 8), DumpFunction(13), 1);
            assert_eq!(list.len(), 3);
            assert_eq!(list.first(), value);
            let result = list.dump(self, dumper);
            assert_eq!(list.len(), 0);
            result
        } else {
            dumper.dump_value_sized_here(&[function.0 as u8])
        }
    }
}

#[test]
fn listed_parts_are_written_in_the_order_of_their_positions() {
    let mut dumper = AsmDumper::new();
    assert_eq!(dumper.dump_sized(&Parts, "ROOT", Address(0x1000), ROOT, 9, 1), Ok(()));
    let directives = dumper.into_directives();
    let from = directives
        .iter()
        .position(|d| *d == Directive::Declare(LabelBase::Object(Address(0x1000))))
        .unwrap();
    assert_eq!(
        &directives[from + 1..],
        &[
            Directive::Bytes(vec![10]),
            Directive::Skip(3),
            Directive::Bytes(vec![11]),
            Directive::Skip(3),
            Directive::Bytes(vec![13]),
            Directive::Size(LabelBase::Object(Address(0x1000)), 9),
        ]
    );
}

struct Thing;

impl Named for Thing {
    fn name() -> String {
        "Thing".to_string()
    }
}

#[test]
fn named_types_give_their_names() {
    assert_eq!(name_of::<Thing>(), "Thing");
    assert_eq!(name_of::<u8>(), "u8");
    assert_eq!(name_of::<usize>(), "usize");
    assert_eq!(name_of::<isize>(), "isize");
    assert_eq!(name_of::<bool>(), "bool");
    assert_eq!(<char as Named>::name(), "char");
}
