use rodal::address::Address;
use rodal::asm_dumper::AsmDumper;
use rodal::graph::{Description, Graph, Part};
use rodal::image::Directive;
use rodal::label::{AsmLabel, LabelBase};
use rodal::registry::DumpFunction;
use std::collections::BTreeMap;

const NODE: DumpFunction = DumpFunction(1);
const TEXT: DumpFunction = DumpFunction(2);

/// The address that a label comes to when every object is placed where it
/// lay in memory.
fn resolve(label: &AsmLabel, directives: &[Directive]) -> usize {
    match &label.base {
        LabelBase::Object(start) => start.0.wrapping_add(label.offset as usize),
        LabelBase::Pointer(_) => {
            let bound: Vec<&AsmLabel> = directives
                .iter()
                .filter_map(|directive| match directive {
                    Directive::Equiv(name, place) if *name == label.base => Some(place),
                    _ => None,
                })
                .collect();
            assert_eq!(bound.len(), 1);
            resolve(bound[0], directives).wrapping_add(label.offset as usize)
        }
        LabelBase::Global(name) => panic!("a pointer to the name {}", name),
    }
}

/// The memory that the image comes to when every object is placed where it
/// lay: for each address the byte that lies there.
fn load(directives: &[Directive]) -> BTreeMap<usize, u8> {
    let mut memory = BTreeMap::new();
    let mut at: Option<usize> = None;
    let mut put = |at: &mut Option<usize>, bytes: &[u8]| {
        if let Some(address) = at {
            for (i, byte) in bytes.iter().enumerate() {
                let before = memory.insert(*address + i, *byte);
                assert_eq!(before, None);
            }
            *address += bytes.len();
        }
    };
    for directive in directives {
        match directive {
            Directive::Declare(LabelBase::Object(start)) => at = Some(start.0),
            Directive::Align(_) | Directive::Size(..) => at = None,
            Directive::Bytes(bytes) => put(&mut at, bytes),
            Directive::Skip(size) => put(&mut at, &vec![0; *size]),
            Directive::Word(value) => put(&mut at, &value.to_le_bytes()),
            Directive::Pointers(labels) => {
                for label in labels {
                    put(&mut at, &resolve(label, directives).to_le_bytes());
                }
            }
            _ => {}
        }
    }
    memory
}

/// The memory of nodes of a value and a pointer to the next node.
fn memory_of(nodes: &[(usize, u64, usize)]) -> BTreeMap<usize, u8> {
    let mut memory = BTreeMap::new();
    for (start, value, next) in nodes {
        for (i, byte) in value.to_le_bytes().iter().chain(next.to_le_bytes().iter()).enumerate() {
            memory.insert(start + i, *byte);
        }
    }
    memory
}

fn graph_of(nodes: &[(usize, u64, usize)]) -> Graph {
    let descriptions = nodes
        .iter()
        .map(|(start, value, next)| Description {
            value: Address(*start),
            function: NODE,
            parts: vec![
                Part::Value { position: Address(*start), bytes: value.to_le_bytes().to_vec() },
                if *next == 0 {
                    Part::Value { position: Address(start + 8), bytes: vec![0; 8] }
                } else {
                    Part::Object {
                        position: Address(start + 8),
                        target: Address(*next),
                        value: Address(*next),
                        function: NODE,
                        size: 16,
                        alignment: 8,
                    }
                },
            ],
        })
        .collect();
    Graph::new(descriptions).unwrap()
}

fn round_trip(nodes: &[(usize, u64, usize)]) {
    let graph = graph_of(nodes);
    let mut dumper = AsmDumper::new();
    assert_eq!(dumper.dump_sized(&graph, "ROOT", Address(nodes[0].0), NODE, 16, 8), Ok(()));
    assert_eq!(dumper.finish(&graph), Ok(()));
    assert_eq!(dumper.objects().len(), nodes.len());
    assert_eq!(load(&dumper.into_directives()), memory_of(nodes));
}

#[test]
fn list_comes_back_as_it_was() {
    round_trip(&[(0x1000, 1, 0x2000), (0x2000, 2, 0x3000), (0x3000, 3, 0)]);
    round_trip(&[(0x3000, 1, 0x1000), (0x1000, 2, 0x2000), (0x2000, 3, 0)]);
    round_trip(&[(0x1000, 7, 0)]);
}

#[test]
fn cycles_come_back_as_they_were() {
    round_trip(&[(0x1000, 10, 0x2000), (0x2000, 20, 0x1000)]);
    round_trip(&[(0x1000, 10, 0x1000)]);
    round_trip(&[(0x5000, 1, 0x4000), (0x4000, 2, 0x3000), (0x3000, 3, 0x5000)]);
}

#[test]
fn shared_and_forward_pointers_come_back_as_they_were() {
    // Two pointers into one string, the first before the string is known and
    // into its middle; between them lie three bytes and their padding.
    let graph = Graph::new(vec![
        Description {
            value: Address(0x100),
            function: NODE,
            parts: vec![
                Part::Pointer { position: Address(0x100), target: Address(0x903) },
                Part::Value { position: Address(0x108), bytes: vec![1, 2, 3] },
                Part::Object {
                    position: Address(0x110),
                    target: Address(0x900),
                    value: Address(0x900),
                    function: TEXT,
                    size: 5,
                    alignment: 1,
                },
                Part::Pointer { position: Address(0x118), target: Address(0x904) },
            ],
        },
        Description {
            value: Address(0x900),
            function: TEXT,
            parts: vec![Part::Value { position: Address(0x900), bytes: b"hello".to_vec() }],
        },
    ])
    .unwrap();
    let mut dumper = AsmDumper::new();
    assert_eq!(dumper.dump_sized(&graph, "ROOT", Address(0x100), NODE, 0x28, 8), Ok(()));
    assert_eq!(dumper.finish(&graph), Ok(()));
    let memory = load(&dumper.into_directives());
    let mut expected = BTreeMap::new();
    let mut put = |start: usize, bytes: &[u8]| {
        for (i, byte) in bytes.iter().enumerate() {
            expected.insert(start + i, *byte);
        }
    };
    put(0x100, &0x903usize.to_le_bytes());
    put(0x108, &[1, 2, 3, 0, 0, 0, 0, 0]);
    put(0x110, &0x900usize.to_le_bytes());
    put(0x118, &0x904usize.to_le_bytes());
    put(0x120, &[0; 8]);
    put(0x900, b"hello");
    assert_eq!(memory, expected);
}

#[test]
fn buffer_described_from_its_header_comes_back_as_it_was() {
    const HEADER: DumpFunction = DumpFunction(3);
    const CONTENTS: DumpFunction = DumpFunction(4);
    // A header of a pointer, a capacity and a length at 0x100, and its four
    // bytes at 0x900, which are described from the header.
    let graph = Graph::new(vec![
        Description {
            value: Address(0x100),
            function: HEADER,
            parts: vec![
                Part::Object {
                    position: Address(0x100),
                    target: Address(0x900),
                    value: Address(0x100),
                    function: CONTENTS,
                    size: 4,
                    alignment: 1,
                },
                Part::Value { position: Address(0x108), bytes: 4usize.to_le_bytes().to_vec() },
                Part::Value { position: Address(0x110), bytes: 3usize.to_le_bytes().to_vec() },
            ],
        },
        Description {
            value: Address(0x100),
            function: CONTENTS,
            parts: vec![
                Part::Position { position: Address(0x900) },
                Part::Value { position: Address(0x900), bytes: vec![9, 8, 7] },
            ],
        },
    ])
    .unwrap();
    let mut dumper = AsmDumper::new();
    assert_eq!(dumper.dump_sized(&graph, "VECTOR", Address(0x100), HEADER, 24, 8), Ok(()));
    assert_eq!(dumper.objects()[1].value, Address(0x100));
    assert_eq!(dumper.objects()[1].start, Address(0x900));
    assert_eq!(dumper.finish(&graph), Ok(()));
    let memory = load(&dumper.into_directives());
    let mut expected = BTreeMap::new();
    let mut put = |start: usize, bytes: &[u8]| {
        for (i, byte) in bytes.iter().enumerate() {
            expected.insert(start + i, *byte);
        }
    };
    put(0x100, &0x900usize.to_le_bytes());
    put(0x108, &4usize.to_le_bytes());
    put(0x110, &3usize.to_le_bytes());
    put(0x900, &[9, 8, 7, 0]);
    assert_eq!(memory, expected);
}

#[test]
fn description_that_does_not_say_where_it_is_moves_back() {
    const HEADER: DumpFunction = DumpFunction(3);
    const CONTENTS: DumpFunction = DumpFunction(4);
    // The contents are described from the header at 0x1000, which lies behind
    // them: without a position of their own, the padding would have to go back.
    let graph = Graph::new(vec![
        Description {
            value: Address(0x1000),
            function: HEADER,
            parts: vec![Part::Object {
                position: Address(0x1000),
                target: Address(0x900),
                value: Address(0x1000),
                function: CONTENTS,
                size: 4,
                alignment: 1,
            }],
        },
        Description {
            value: Address(0x1000),
            function: CONTENTS,
            parts: vec![Part::Value { position: Address(0x900), bytes: vec![9, 8, 7] }],
        },
    ])
    .unwrap();
    let mut dumper = AsmDumper::new();
    assert_eq!(dumper.dump_sized(&graph, "VECTOR", Address(0x1000), HEADER, 8, 8), Ok(()));
    assert_eq!(dumper.finish(&graph), Err(rodal::fault::Fault::BackwardAdvance));
}
