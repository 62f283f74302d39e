use rodal::address::Address;
use rodal::asm_dumper::AsmDumper;
use rodal::dumper::{Dump, Dumper};
use rodal::fault::Fault;
use rodal::graph::{Description, Graph, Part};
use rodal::image::Directive;
use rodal::label::{AsmLabel, LabelBase};
use rodal::registry::{DumpFunction, ObjectState};

const NODE: DumpFunction = DumpFunction(1);
const TEXT: DumpFunction = DumpFunction(2);
const PAIR: DumpFunction = DumpFunction(3);

/// A singly linked list laid out at chosen addresses: each node holds a value
/// of eight bytes and the address of the next node, or zero.
struct Nodes {
    nodes: Vec<(usize, u64, usize)>,
}

impl Dump for Nodes {
    fn dump<D: Dumper>(
        &self,
        value: Address,
        _function: DumpFunction,
        dumper: &mut D,
    ) -> Result<(), Fault> {
        let node = self.nodes.iter().find(|node| node.0 == value.0).unwrap();
        dumper.dump_value(value, &node.1.to_le_bytes())?;
        let field = Address(value.0 + 8);
        if node.2 == 0 {
            dumper.dump_value(field, &0usize.to_le_bytes())
        } else {
            dumper.dump_reference_object_sized(field, Address(node.2), NODE, 16, 8)
        }
    }
}

fn global(name: &str) -> LabelBase {
    LabelBase::Global(name.to_string())
}

fn object(start: usize) -> LabelBase {
    LabelBase::Object(Address(start))
}

fn place(start: usize, offset: isize) -> AsmLabel {
    AsmLabel { base: object(start), offset }
}

fn declared(directives: &[Directive], start: usize) -> usize {
    directives.iter().filter(|directive| **directive == Directive::Declare(object(start))).count()
}

fn pointers(directives: &[Directive]) -> Vec<AsmLabel> {
    let mut found = Vec::new();
    for directive in directives {
        if let Directive::Pointers(labels) = directive {
            for label in labels {
                found.push(label.clone());
            }
        }
    }
    found
}

fn opening() -> Vec<Directive> {
    vec![
        Directive::Start,
        Directive::Data,
        Directive::Global(global("RODAL_START")),
        Directive::Declare(global("RODAL_START")),
    ]
}

fn closing() -> Vec<Directive> {
    vec![
        Directive::Global(global("RODAL_END")),
        Directive::Declare(global("RODAL_END")),
        Directive::End,
    ]
}

fn node(start: usize, value: u8, next: Option<usize>) -> Vec<Directive> {
    let mut bytes = vec![value, 0, 0, 0, 0, 0, 0, 0];
    let mut directives = vec![
        Directive::TypeObject(object(start)),
        Directive::Align(8),
        Directive::Word(16),
        Directive::Declare(object(start)),
    ];
    match next {
        Some(next) => {
            directives.push(Directive::Bytes(bytes));
            directives.push(Directive::Pointers(vec![place(next, 0)]));
        }
        None => {
            bytes.extend_from_slice(&[0; 8]);
            directives.push(Directive::Bytes(bytes));
        }
    }
    directives.push(Directive::Size(object(start), 16));
    directives
}

#[test]
fn list_of_three_nodes_is_written_node_by_node() {
    let graph = Nodes { nodes: vec![(0x1000, 1, 0x2000), (0x2000, 2, 0x3000), (0x3000, 3, 0)] };
    let mut dumper = AsmDumper::new();
    assert_eq!(dumper.dump_sized(&graph, "LIST", Address(0x1000), NODE, 16, 8), Ok(()));
    assert_eq!(dumper.finish(&graph), Ok(()));
    assert_eq!(dumper.objects().len(), 3);
    let starts: Vec<usize> = dumper.objects().iter().map(|object| object.start.0).collect();
    assert_eq!(starts, vec![0x1000, 0x2000, 0x3000]);
    assert!(dumper.objects().iter().all(|object| object.state == ObjectState::Emitted));
    assert!(dumper.pending_references().is_empty());
    assert!(dumper.is_idle());
    let directives = dumper.into_directives();
    for start in [0x1000, 0x2000, 0x3000] {
        assert_eq!(declared(&directives, start), 1);
    }
    assert_eq!(pointers(&directives), vec![place(0x2000, 0), place(0x3000, 0)]);

    let mut expected = opening();
    expected.extend(vec![
        Directive::Global(global("LIST")),
        Directive::TypeObject(global("LIST")),
        Directive::Size(global("LIST"), 16),
        Directive::TypeObject(object(0x1000)),
        Directive::Align(8),
        Directive::Word(16),
        Directive::Declare(global("LIST")),
        Directive::Declare(object(0x1000)),
        Directive::Bytes(vec![1, 0, 0, 0, 0, 0, 0, 0]),
        Directive::Pointers(vec![place(0x2000, 0)]),
        Directive::Size(object(0x1000), 16),
    ]);
    expected.extend(node(0x2000, 2, Some(0x3000)));
    expected.extend(node(0x3000, 3, None));
    expected.extend(closing());
    assert_eq!(directives, expected);
}

#[test]
fn shared_string_is_written_once() {
    // A pair of two pointers at 0x100, both to the five bytes at 0x900.
    let graph = Graph::new(vec![
        Description {
            value: Address(0x100),
            function: PAIR,
            parts: vec![
                Part::Object {
                    position: Address(0x100),
                    target: Address(0x900),
                    value: Address(0x900),
                    function: TEXT,
                    size: 5,
                    alignment: 1,
                },
                Part::Object {
                    position: Address(0x108),
                    target: Address(0x900),
                    value: Address(0x900),
                    function: TEXT,
                    size: 5,
                    alignment: 1,
                },
            ],
        },
        Description {
            value: Address(0x900),
            function: TEXT,
            parts: vec![Part::Value { position: Address(0x900), bytes: b"hello".to_vec() }],
        },
    ])
    .unwrap();
    let mut dumper = AsmDumper::new();
    assert_eq!(dumper.dump_sized(&graph, "PAIR", Address(0x100), PAIR, 16, 8), Ok(()));
    assert_eq!(dumper.finish(&graph), Ok(()));
    let strings: Vec<_> =
        dumper.objects().iter().filter(|object| object.start == Address(0x900)).collect();
    assert_eq!(strings.len(), 1);
    assert_eq!(strings[0].size, 5);
    assert_eq!(dumper.objects().len(), 2);
    let directives = dumper.into_directives();
    assert_eq!(declared(&directives, 0x900), 1);
    assert_eq!(pointers(&directives), vec![place(0x900, 0), place(0x900, 0)]);
    let texts = directives
        .iter()
        .filter(|directive| **directive == Directive::Bytes(b"hello".to_vec()))
        .count();
    assert_eq!(texts, 1);
}

#[test]
fn cycle_of_two_nodes_ends_and_keeps_its_pointers() {
    let graph = Nodes { nodes: vec![(0x1000, 10, 0x2000), (0x2000, 20, 0x1000)] };
    let mut dumper = AsmDumper::new();
    assert_eq!(dumper.dump_sized(&graph, "A", Address(0x1000), NODE, 16, 8), Ok(()));
    assert_eq!(dumper.finish(&graph), Ok(()));
    assert_eq!(dumper.objects().len(), 2);
    assert!(dumper.objects().iter().all(|object| object.state == ObjectState::Emitted));
    let directives = dumper.into_directives();
    assert_eq!(declared(&directives, 0x1000), 1);
    assert_eq!(declared(&directives, 0x2000), 1);
    // A.next names B, and B.next names A.
    assert_eq!(pointers(&directives), vec![place(0x2000, 0), place(0x1000, 0)]);
}

#[test]
fn pointer_into_the_middle_of_an_object_keeps_its_offset() {
    // A root of two pointers: one to the object at 0x900, one to its fourth byte.
    let graph = Graph::new(vec![
        Description {
            value: Address(0x100),
            function: PAIR,
            parts: vec![
                Part::Object {
                    position: Address(0x100),
                    target: Address(0x900),
                    value: Address(0x900),
                    function: TEXT,
                    size: 5,
                    alignment: 1,
                },
                Part::Pointer { position: Address(0x108), target: Address(0x903) },
            ],
        },
        Description {
            value: Address(0x900),
            function: TEXT,
            parts: vec![Part::Value { position: Address(0x900), bytes: b"hello".to_vec() }],
        },
    ])
    .unwrap();
    let mut dumper = AsmDumper::new();
    assert_eq!(dumper.dump_sized(&graph, "PAIR", Address(0x100), PAIR, 16, 8), Ok(()));
    assert_eq!(dumper.finish(&graph), Ok(()));
    let directives = dumper.into_directives();
    assert_eq!(pointers(&directives), vec![place(0x900, 0), place(0x900, 3)]);
}

#[test]
fn reference_that_comes_before_its_owner_is_bound_later() {
    // The pointer to 0x903 is written first; the object at 0x900 is found after it.
    let graph = Graph::new(vec![
        Description {
            value: Address(0x100),
            function: PAIR,
            parts: vec![
                Part::Pointer { position: Address(0x100), target: Address(0x903) },
                Part::Object {
                    position: Address(0x108),
                    target: Address(0x900),
                    value: Address(0x900),
                    function: TEXT,
                    size: 5,
                    alignment: 1,
                },
            ],
        },
        Description {
            value: Address(0x900),
            function: TEXT,
            parts: vec![Part::Value { position: Address(0x900), bytes: b"hello".to_vec() }],
        },
    ])
    .unwrap();
    let mut dumper = AsmDumper::new();
    assert_eq!(dumper.dump_sized(&graph, "PAIR", Address(0x100), PAIR, 16, 8), Ok(()));
    assert!(dumper.pending_references().is_empty());
    assert_eq!(dumper.finish(&graph), Ok(()));
    let directives = dumper.into_directives();
    let temporary = AsmLabel { base: LabelBase::Pointer(Address(0x903)), offset: 0 };
    assert_eq!(pointers(&directives), vec![temporary, place(0x900, 0)]);
    let bound: Vec<_> = directives
        .iter()
        .filter(|directive| matches!(directive, Directive::Equiv(..)))
        .collect();
    assert_eq!(bound, vec![&Directive::Equiv(LabelBase::Pointer(Address(0x903)), place(0x900, 3))]);
}

#[test]
fn reference_without_an_owner_fails_the_finish() {
    let graph = Graph::new(vec![Description {
        value: Address(0x100),
        function: PAIR,
        parts: vec![Part::Pointer { position: Address(0x100), target: Address(0x5000) }],
    }])
    .unwrap();
    let mut dumper = AsmDumper::new();
    assert_eq!(dumper.dump_sized(&graph, "ROOT", Address(0x100), PAIR, 8, 8), Ok(()));
    assert_eq!(dumper.pending_references(), &vec![Address(0x5000)]);
    assert_eq!(dumper.finish(&graph), Err(Fault::DanglingReference));
    assert!(dumper.is_idle());
    let directives = dumper.into_directives();
    assert!(!directives.contains(&Directive::End));
}
