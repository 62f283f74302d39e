use rodal::address::Address;
use rodal::asm_dumper::AsmDumper;
use rodal::dumper::{Dump, Dumper};
use rodal::fault::Fault;
use rodal::image::Directive;
use rodal::label::{AsmLabel, LabelBase};
use rodal::registry::DumpFunction;
use rodal::rust_std::{DefaultResizePolicy, HashMap, RandomState, RawTable, TaggedHashUintPtr};

const TABLE: DumpFunction = DumpFunction(1);
const CONTENTS: DumpFunction = DumpFunction(2);

fn table(capacity_mask: usize, hashes: usize) -> HashMap {
    HashMap {
        hash_builder: RandomState { k0: 1, k1: 2 },
        table: RawTable { capacity_mask, size: 0, hashes: TaggedHashUintPtr(hashes) },
        resize_policy: DefaultResizePolicy,
    }
}

#[test]
fn capacity_is_one_more_than_the_mask() {
    assert_eq!(table(0, 0).table.capacity(), 1);
    assert_eq!(table(7, 0).table.capacity(), 8);
    assert_eq!(table(usize::MAX, 0).table.capacity(), 0);
}

#[test]
fn tag_is_the_lowest_bit_of_the_pointer() {
    assert!(TaggedHashUintPtr(0x1001).tag());
    assert!(!TaggedHashUintPtr(0x1000).tag());
    assert_eq!(TaggedHashUintPtr(0x1001).ptr(), Address(0x1000));
    assert_eq!(TaggedHashUintPtr(0x1000).ptr(), Address(0x1000));
    assert_eq!(TaggedHashUintPtr(usize::MAX).ptr(), Address(usize::MAX - 1));
    assert_eq!(TaggedHashUintPtr(1).ptr(), Address(0));
}

#[test]
fn memory_of_a_table_is_its_hashes_and_then_its_pairs() {
    // Eight buckets: 64 bytes of hashes, and pairs of 24 bytes aligned to 8.
    assert_eq!(table(7, 0).table.allocation(24, 8), Some((64 + 192, 8)));
    // Pairs aligned to 16 after 8 bytes of hashes start at 16.
    assert_eq!(table(0, 0).table.allocation(16, 16), Some((16 + 16, 16)));
    assert_eq!(table(2, 0).table.allocation(5, 1), Some((24 + 15, 8)));
    assert_eq!(table(2, 0).table.allocation(0, 32), Some((32, 32)));
    assert_eq!(table(usize::MAX, 0).table.allocation(24, 8), Some((0, 8)));
    assert_eq!(table(7, 0).table.allocation(24, 0), None);
    assert_eq!(table(usize::MAX - 1, 0).table.allocation(1, 1), None);
    assert_eq!(table(7, 0).table.allocation(usize::MAX, 1), None);
    assert_eq!(table(7, 0).table.allocation(1, usize::MAX), None);
}

struct Tables {
    table: HashMap,
}

impl Dump for Tables {
    fn dump<D: Dumper>(
        &self,
        value: Address,
        function: DumpFunction,
        dumper: &mut D,
    ) -> Result<(), Fault> {
        if function == TABLE {
            self.table.dump_hashes(
                value,
                &self.table.table.hashes.0.to_le_bytes(),
                value,
                CONTENTS,
                24,
                8,
                dumper,
            )
        } else {
            dumper.dump_value_sized_here(&[0; 256])
        }
    }
}

fn dump_pointer(table: HashMap) -> (Vec<Directive>, usize) {
    let graph = Tables { table };
    let mut dumper = AsmDumper::new();
    assert_eq!(dumper.dump_sized(&graph, "TABLE", Address(0x1000), TABLE, 8, 8), Ok(()));
    assert_eq!(dumper.finish(&graph), Ok(()));
    let objects = dumper.objects().len();
    (dumper.into_directives(), objects)
}

#[test]
fn pointer_of_a_table_with_memory_names_the_memory_and_keeps_the_tag() {
    let (directives, objects) = dump_pointer(table(7, 0x8001));
    assert_eq!(objects, 2);
    let label = AsmLabel { base: LabelBase::Object(Address(0x8000)), offset: 1 };
    assert!(directives.contains(&Directive::Pointers(vec![label])));
    assert!(directives.contains(&Directive::Word(256)));
    let (directives, _) = dump_pointer(table(7, 0x8000));
    let label = AsmLabel { base: LabelBase::Object(Address(0x8000)), offset: 0 };
    assert!(directives.contains(&Directive::Pointers(vec![label])));
}

#[test]
fn pointer_of_a_table_without_memory_is_written_as_it_is() {
    let (directives, objects) = dump_pointer(table(usize::MAX, 1));
    assert_eq!(objects, 1);
    assert!(directives.contains(&Directive::Bytes(vec![1, 0, 0, 0, 0, 0, 0, 0])));
    assert!(!directives.iter().any(|directive| matches!(directive, Directive::Pointers(_))));
}
