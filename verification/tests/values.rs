use rodal::address::Address;
use rodal::guard::{free, is_rodal_dump, realloc, resize, FreeAction, ReallocAction, Resize};
use rodal::label::{AsmLabel, LabelBase};
use rodal::loader::{
    load_asm_bounds, resolve_bounds, resolve_root, root_from_symbol, ImageBounds, SymbolResolver,
};
use rodal::fault::Fault;
use rodal::references::{insert_reference, rank, take_range};
use rodal::registry::{
    get_complete_object, get_first_overlap, get_object, get_overlap, get_overlap_end, insert, slot,
    DumpFunction, ObjectInfo, ObjectState,
};

#[test]
fn address_constants_and_values() {
    assert_eq!(Address::null().value(), 0);
    assert_eq!(Address::max().value(), usize::MAX);
    assert_eq!(Address::new(0x1234).value(), 0x1234);
    assert_eq!(Address::default(), Address(0));
    assert!(Address(1) < Address(2));
    assert!(Address(usize::MAX) > Address(2));
}

#[test]
fn address_arithmetic_wraps_like_a_pointer() {
    assert_eq!(Address(0x1000) + 0x10usize, Address(0x1010));
    assert_eq!(Address(usize::MAX) + 1usize, Address(0));
    assert_eq!(Address(usize::MAX) + 5usize, Address(4));
    assert_eq!(Address(0x1000) + 0x10isize, Address(0x1010));
    assert_eq!(Address(0x1000) + (-0x10isize), Address(0xff0));
    assert_eq!(Address(0) + (-1isize), Address(usize::MAX));
    assert_eq!(Address(5) + isize::MIN, Address(5 + (1usize << 63)));
    assert_eq!(Address(0x1000) - 0x10usize, Address(0xff0));
    assert_eq!(Address(0) - 1usize, Address(usize::MAX));
    assert_eq!(Address(0x1000) - 0x10isize, Address(0xff0));
    assert_eq!(Address(0x1000) - (-0x10isize), Address(0x1010));
    assert_eq!(Address(usize::MAX) - (-1isize), Address(0));
    assert_eq!(Address(5) - isize::MIN, Address(5 + (1usize << 63)));
    assert_eq!(Address(5) - isize::MAX, Address(5usize.wrapping_sub(isize::MAX as usize)));
}

#[test]
fn named_arithmetic_agrees_with_the_operators() {
    assert_eq!(Address(usize::MAX).plus(2), Address(1));
    assert_eq!(Address(1).plus_signed(-2), Address(usize::MAX));
    assert_eq!(Address(1).minus(2), Address(usize::MAX));
    assert_eq!(Address(usize::MAX).minus_signed(-2), Address(1));
    let mut address = Address(10);
    address.add_assign(5);
    assert_eq!(address, Address(15));
    address.add_assign_signed(-20);
    assert_eq!(address, Address(usize::MAX - 4));
    address.sub_assign_signed(-5);
    assert_eq!(address, Address(0));
    address.sub_assign(1);
    assert_eq!(address, Address(usize::MAX));
}

#[test]
fn difference_of_addresses_is_signed() {
    assert_eq!(Address(0x1010) - Address(0x1000), 0x10);
    assert_eq!(Address(0x1000) - Address(0x1010), -0x10);
    assert_eq!(Address(7) - Address(7), 0);
    assert_eq!(Address(isize::MAX as usize) - Address(0), isize::MAX);
    assert_eq!(Address(0) - Address(isize::MAX as usize), -isize::MAX);
    assert_eq!(Address(0) - Address(1usize << 63), isize::MIN);
    // Farther apart than a signed number holds: the difference wraps.
    assert_eq!(Address(1usize << 63) - Address(0), isize::MIN);
    assert_eq!(Address(usize::MAX) - Address(0), -1);
    assert_eq!(Address(0) - Address(usize::MAX), 1);
    assert_eq!(Address(0).distance(Address((1usize << 63) + 1)), isize::MAX);
    for (a, b) in [(0usize, 5usize), (5, 0), (usize::MAX, 3), (3, usize::MAX), (1 << 63, 1)] {
        assert_eq!(Address(a).distance(Address(b)), a.wrapping_sub(b) as isize);
        assert_eq!(Address(b) + Address(a).distance(Address(b)), Address(a));
    }
}

#[test]
fn labels_move_by_their_offsets() {
    let label = AsmLabel::new_complete(Address(0x1000));
    assert_eq!(label, AsmLabel { base: LabelBase::Object(Address(0x1000)), offset: 0 });
    assert_eq!(label.offset(5).offset(-7).offset, -2);
    assert_eq!(label.offset(isize::MAX).offset(1).offset, isize::MIN);
    assert_eq!(label.offset(3).base, LabelBase::Object(Address(0x1000)));
    assert_eq!(AsmLabel::new_internal(Address(9)).base, LabelBase::Pointer(Address(9)));
    assert_eq!(AsmLabel::new_global("x".to_string()).base, LabelBase::Global("x".to_string()));
    assert_eq!(label.clone(), label);
}

fn entry(start: usize, size: usize) -> ObjectInfo {
    ObjectInfo::new(Address(start), DumpFunction(0), Address(start), size, 1)
}

fn entries() -> Vec<ObjectInfo> {
    let mut objects = Vec::new();
    for (start, size) in [(0x300, 0x10), (0x100, 0x10), (0x200, 0x100), (0x110, 0x8)] {
        insert(&mut objects, entry(start, size));
    }
    objects
}

#[test]
fn registry_is_kept_in_the_order_of_the_addresses() {
    let objects = entries();
    let starts: Vec<usize> = objects.iter().map(|object| object.start.0).collect();
    assert_eq!(starts, vec![0x100, 0x110, 0x200, 0x300]);
    assert!(objects.iter().all(|object| object.state == ObjectState::Pending));
    assert_eq!(objects[0].end_address(), Address(0x110));
    assert_eq!(objects[0].label().base, LabelBase::Object(Address(0x100)));
    assert_eq!(slot(&objects, Address(0)), 0);
    assert_eq!(slot(&objects, Address(0x100)), 0);
    assert_eq!(slot(&objects, Address(0x101)), 1);
    assert_eq!(slot(&objects, Address(0x300)), 3);
    assert_eq!(slot(&objects, Address(0x301)), 4);
}

#[test]
fn objects_are_found_by_start_and_by_any_of_their_addresses() {
    let objects = entries();
    assert_eq!(get_object(Address(0x200), &objects), Some(2));
    assert_eq!(get_object(Address(0x201), &objects), None);
    assert_eq!(get_object(Address(0x50), &objects), None);
    assert_eq!(get_complete_object(Address(0x100), &objects), Some(0));
    assert_eq!(get_complete_object(Address(0x10f), &objects), Some(0));
    assert_eq!(get_complete_object(Address(0x110), &objects), Some(1));
    assert_eq!(get_complete_object(Address(0x117), &objects), Some(1));
    assert_eq!(get_complete_object(Address(0x118), &objects), None);
    assert_eq!(get_complete_object(Address(0x2ff), &objects), Some(2));
    assert_eq!(get_complete_object(Address(0x30f), &objects), Some(3));
    assert_eq!(get_complete_object(Address(0x310), &objects), None);
    assert_eq!(get_complete_object(Address(0xff), &objects), None);
    assert_eq!(get_complete_object(Address(0x100), &Vec::new()), None);
}

#[test]
fn overlaps_are_the_objects_that_share_a_byte_with_the_range() {
    let objects = entries();
    assert_eq!(get_overlap(Address(0x10f), 2, &objects), (0, 2));
    assert_eq!(get_overlap(Address(0x118), 0xe8, &objects), (2, 2));
    assert_eq!(get_overlap(Address(0x118), 0xe9, &objects), (2, 3));
    assert_eq!(get_overlap(Address(0), 0x1000, &objects), (0, 4));
    assert_eq!(get_overlap(Address(0x250), 1, &objects), (2, 3));
    assert_eq!(get_overlap(Address(0x310), 0x10, &objects), (4, 4));
    assert_eq!(get_overlap(Address(0), 0x100, &objects), (0, 0));
    assert_eq!(get_overlap_end(Address(0x10f), 2, &objects), Some(Address(0x118)));
    assert_eq!(get_overlap_end(Address(0), 0x1000, &objects), Some(Address(0x310)));
    assert_eq!(get_overlap_end(Address(0x118), 0xe8, &objects), None);
    assert_eq!(get_first_overlap(Address(0x10f), 0x200, &objects), 0);
    assert_eq!(get_first_overlap(Address(0x2ff), 0x20, &objects), 2);
}

#[test]
fn references_are_kept_once_and_in_rising_order() {
    let mut references = Vec::new();
    for target in [0x30, 0x10, 0x20, 0x10, 0x30, 0x18] {
        insert_reference(&mut references, Address(target));
    }
    assert_eq!(references, vec![Address(0x10), Address(0x18), Address(0x20), Address(0x30)]);
    assert_eq!(rank(&references, 0x10), 0);
    assert_eq!(rank(&references, 0x11), 1);
    assert_eq!(rank(&references, 0x31), 4);
    let taken = take_range(&mut references, Address(0x18), 8);
    assert_eq!(taken, vec![Address(0x18)]);
    assert_eq!(references, vec![Address(0x10), Address(0x20), Address(0x30)]);
    let taken = take_range(&mut references, Address(0x10), 0x21);
    assert_eq!(taken, vec![Address(0x10), Address(0x20), Address(0x30)]);
    assert!(references.is_empty());
    assert!(take_range(&mut references, Address(0), 0x100).is_empty());
}

struct Symbols(Vec<(&'static str, usize)>);

impl SymbolResolver for Symbols {
    fn resolve_symbol(&self, name: &str) -> Option<Address> {
        self.0.iter().find(|symbol| symbol.0 == name).map(|symbol| Address(symbol.1))
    }
}

#[test]
fn bounds_come_from_the_two_markers() {
    let symbols = Symbols(vec![("RODAL_END", 0x9000), ("RODAL_START", 0x4000), ("ROOT", 0x4010)]);
    let bounds = resolve_bounds(&symbols).unwrap();
    assert_eq!(bounds, ImageBounds { start: Address(0x4000), end: Address(0x9000) });
    assert_eq!(bounds, load_asm_bounds(Address(0x4000), Address(0x9000)));
    assert_eq!(resolve_root(&symbols, "ROOT"), Ok(Address(0x4010)));
    assert_eq!(resolve_root(&symbols, "OTHER"), Err(Fault::UnresolvedSymbol));
    assert_eq!(root_from_symbol(None), Err(Fault::UnresolvedSymbol));
    assert_eq!(root_from_symbol(Some(Address(3))), Ok(Address(3)));
    let symbols = Symbols(vec![("RODAL_END", 0x9000)]);
    assert_eq!(resolve_bounds(&symbols), Err(Fault::UnresolvedSymbol));
    let symbols = Symbols(vec![("RODAL_START", 0x9000)]);
    assert_eq!(resolve_bounds(&symbols), Err(Fault::UnresolvedSymbol));
    assert_eq!(ImageBounds::from_symbols(None, None), Err(Fault::UnresolvedSymbol));
}

#[test]
fn image_holds_its_start_and_not_its_end() {
    let bounds = load_asm_bounds(Address(0x4000), Address(0x9000));
    assert!(bounds.in_image(Address(0x4000)));
    assert!(bounds.in_image(Address(0x8fff)));
    assert!(!bounds.in_image(Address(0x9000)));
    assert!(!bounds.in_image(Address(0x3fff)));
    assert!(!load_asm_bounds(Address(0x9000), Address(0x4000)).in_image(Address(0x5000)));
}

#[test]
fn guard_keeps_the_allocator_away_from_the_image() {
    let bounds = Some(load_asm_bounds(Address(0x4000), Address(0x9000)));
    assert!(is_rodal_dump(bounds, Address(0x4000)));
    assert!(!is_rodal_dump(bounds, Address(0x9000)));
    assert!(!is_rodal_dump(None, Address(0x4000)));
    assert_eq!(free(bounds, Address(0x5000)), FreeAction::Ignore);
    assert_eq!(free(bounds, Address(0x9000)), FreeAction::Forward);
    assert_eq!(free(None, Address(0x5000)), FreeAction::Forward);
    assert_eq!(realloc(bounds, Address(0x5000)), ReallocAction::Inspect { header: Address(0x4ff8) });
    assert_eq!(realloc(bounds, Address(0x3000)), ReallocAction::Forward);
    assert_eq!(realloc(None, Address(0x5000)), ReallocAction::Forward);
}

#[test]
fn resizing_in_the_image_keeps_or_moves() {
    assert_eq!(resize(16, 16), Resize::Keep);
    assert_eq!(resize(16, 0), Resize::Keep);
    assert_eq!(resize(16, 15), Resize::Keep);
    assert_eq!(resize(16, 17), Resize::Move { allocate: 17, copy: 16 });
    assert_eq!(resize(0, 1), Resize::Move { allocate: 1, copy: 0 });
    assert_eq!(resize(16, usize::MAX), Resize::Move { allocate: usize::MAX, copy: 16 });
}
