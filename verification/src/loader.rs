//! The loader: where the image lies in the running process, and what it holds
//! under a name.
use crate::address::Address;
use crate::fault::Fault;
use crate::state::Tag;
use vstd::prelude::*;

verus! {

/// The byte range `[start, end)` that the loaded image takes up.
#[derive(Clone, Copy, PartialEq, Eq, Structural, Debug)]
pub struct ImageBounds {
    /// The first address of the image.
    pub start: Address,
    /// The first address after the image.
    pub end: Address,
}

/// What finds the address of a symbol of the running process.
pub trait SymbolResolver {
    /// The address of the symbol `name`, where the process has one.
    fn resolve_symbol(&self, name: &str) -> Option<Address>;
}

impl ImageBounds {
    /// Whether `address` lies inside the image.
    pub open spec fn contains(self, address: Address) -> bool {
        self.start.0 <= address.0 < self.end.0
    }

    /// Whether `address` lies inside the image.
    pub fn in_image(&self, address: Address) -> (inside: bool)
        ensures
            inside == self.contains(address),
    {
        self.start.0 <= address.0 && address.0 < self.end.0
    }

    /// The bounds that the two markers of the image give, where both were found.
    pub open spec fn of(start: Option<Address>, end: Option<Address>) -> Result<
        ImageBounds,
        Fault,
    > {
        match (start, end) {
            (Some(start), Some(end)) => Ok(ImageBounds { start, end }),
            _ => Err(Fault::UnresolvedSymbol),
        }
    }

    /// The bounds that the two markers of the image give. Fails with
    /// `UnresolvedSymbol` where one of them was not found.
    pub fn from_symbols(start: Option<Address>, end: Option<Address>) -> (bounds: Result<
        ImageBounds,
        Fault,
    >)
        ensures
            bounds == ImageBounds::of(start, end),
    {
        match (start, end) {
            (Some(start), Some(end)) => Ok(ImageBounds { start, end }),
            _ => Err(Fault::UnresolvedSymbol),
        }
    }
}

/// The bounds of the image that lies between `start` and `end`.
pub fn load_asm_bounds(start: Address, end: Address) -> (bounds: ImageBounds)
    ensures
        bounds == (ImageBounds { start, end }),
{
    ImageBounds { start, end }
}

/// Whether `found` is what the resolver can answer when it is asked for the
/// symbol `name`.
pub open spec fn answers<R: SymbolResolver>(
    resolver: &R,
    name: &str,
    found: Option<Address>,
) -> bool {
    call_ensures(R::resolve_symbol, (resolver, name), found)
}

/// Asks the resolver for the two markers of the image, `RODAL_START` and
/// `RODAL_END`, and returns the bounds that its two answers give. Fails with
/// `UnresolvedSymbol`, and only then, where the resolver does not find one of
/// them.
pub fn resolve_bounds<R: SymbolResolver>(resolver: &R) -> (bounds: Result<ImageBounds, Fault>)
    ensures
        exists|start: Option<Address>, end: Option<Address>|
            #![trigger answers(resolver, "RODAL_START", start), answers(resolver, "RODAL_END", end)]
            answers(resolver, "RODAL_START", start) && answers(resolver, "RODAL_END", end)
                && bounds == ImageBounds::of(start, end),
        bounds matches Err(fault) ==> fault == Fault::UnresolvedSymbol,
{
    let start = resolver.resolve_symbol("RODAL_START");
    let end = resolver.resolve_symbol("RODAL_END");
    assert(answers(resolver, "RODAL_START", start) && answers(resolver, "RODAL_END", end));
    ImageBounds::from_symbols(start, end)
}

/// The address that a lookup of a root has come to. Fails with
/// `UnresolvedSymbol` where the root was not found.
pub fn root_from_symbol(found: Option<Address>) -> (root: Result<Address, Fault>)
    ensures
        root == match found {
            Some(address) => Ok::<Address, Fault>(address),
            None => Err::<Address, Fault>(Fault::UnresolvedSymbol),
        },
{
    match found {
        Some(address) => Ok(address),
        None => Err(Fault::UnresolvedSymbol),
    }
}

/// The address that an answer of the resolver gives for a root: the address
/// that was found, and the fault `UnresolvedSymbol` where none was.
pub open spec fn root_of(found: Option<Address>) -> Result<Address, Fault> {
    match found {
        Some(address) => Ok(address),
        None => Err(Fault::UnresolvedSymbol),
    }
}

/// Asks the resolver for the root that was dumped under `name`, and returns
/// the address that its answer gives. Fails with `UnresolvedSymbol`, and only
/// then, where the resolver does not find the root.
pub fn resolve_root<R: SymbolResolver>(resolver: &R, name: &str) -> (root: Result<Address, Fault>)
    ensures
        exists|found: Option<Address>| #[trigger]
            answers(resolver, name, found) && root == root_of(found),
        root matches Err(fault) ==> fault == Fault::UnresolvedSymbol,
{
    let found = resolver.resolve_symbol(name);
    assert(answers(resolver, name, found));
    root_from_symbol(found)
}

/// The words of a table of tags, once the image is loaded: the number of tags,
/// and then for each tag its category and the address that it marks.
pub open spec fn table_words(tags: Seq<Tag>) -> Seq<usize> {
    Seq::new(
        1 + 2 * tags.len(),
        |i: int|
            if i == 0 {
                tags.len() as usize
            } else if i % 2 == 1 {
                tags[(i - 1) / 2].tag
            } else {
                tags[(i - 1) / 2].address.0
            },
    )
}

/// The tags that the words of a table stand for, where the words are a table:
/// the first holds the number of pairs that follow it.
pub open spec fn table_tags(table: Seq<usize>) -> Option<Seq<Tag>> {
    if table.len() > 0 && table.len() == 1 + 2 * table[0] {
        Some(
            Seq::new(
                table[0] as nat,
                |i: int| Tag { tag: table[1 + 2 * i], address: Address(table[2 + 2 * i]) },
            ),
        )
    } else {
        None
    }
}

/// Reads the table of tags that was dumped under the name `RODAL_TAGS`, from
/// the words that the table holds once the image is loaded.
pub fn load_asm_tags(table: &[usize]) -> (tags: Option<Vec<Tag>>)
    ensures
        match tags {
            Some(tags) => table_tags(table@) == Some(tags@),
            None => table_tags(table@) is None,
        },
{
    if table.len() == 0 {
        return None;
    }
    let count = table[0];
    if (table.len() - 1) % 2 != 0 || (table.len() - 1) / 2 != count {
        return None;
    }
    let length = table.len();
    let mut tags: Vec<Tag> = Vec::new();
    let mut i: usize = 0;
    while i < count
        invariant
            0 <= i <= count,
            length == table@.len(),
            table@.len() == 1 + 2 * count,
            count == table@[0],
            tags@.len() == i,
            forall|k: int|
                0 <= k < i ==> #[trigger] tags@[k] == (Tag {
                    tag: table@[1 + 2 * k],
                    address: Address(table@[2 + 2 * k]),
                }),
        decreases count - i,
    {
        tags.push(Tag { tag: table[1 + 2 * i], address: Address(table[2 + 2 * i]) });
        i += 1;
    }
    assert(tags@ =~= table_tags(table@)->0);
    Some(tags)
}

/// The addresses that were marked with the category `tag`, in the order in
/// which they were marked.
pub open spec fn tagged_with(tags: Seq<Tag>, tag: usize) -> Seq<Address>
    decreases tags.len(),
{
    if tags.len() == 0 {
        Seq::empty()
    } else if tags.last().tag == tag {
        tagged_with(tags.drop_last(), tag).push(tags.last().address)
    } else {
        tagged_with(tags.drop_last(), tag)
    }
}

/// The addresses that were marked with the category `tag`, in the order in
/// which they were marked.
pub fn tagged(tags: &Vec<Tag>, tag: usize) -> (addresses: Vec<Address>)
    ensures
        addresses@ == tagged_with(tags@, tag),
{
    let mut addresses: Vec<Address> = Vec::new();
    let mut i: usize = 0;
    while i < tags.len()
        invariant
            0 <= i <= tags.len(),
            addresses@ == tagged_with(tags@.subrange(0, i as int), tag),
        decreases tags.len() - i,
    {
        proof {
            assert(tags@.subrange(0, i + 1).drop_last() =~= tags@.subrange(0, i as int));
        }
        if tags[i].tag == tag {
            addresses.push(tags[i].address);
        }
        i += 1;
    }
    assert(tags@.subrange(0, i as int) =~= tags@);
    addresses
}

/// A table of tags that is written and read again gives the tags that were
/// written, for every list of tags whose number fits a word.
pub proof fn lemma_tags_round_trip(tags: Seq<Tag>)
    requires
        1 + 2 * tags.len() <= usize::MAX,
    ensures
        table_tags(table_words(tags)) == Some(tags),
{
    let table = table_words(tags);
    assert(table[0] == tags.len());
    let read = table_tags(table)->0;
    assert forall|i: int| 0 <= i < tags.len() implies read[i] == tags[i] by {
        assert(table[1 + 2 * i] == tags[i].tag);
        assert(table[2 + 2 * i] == tags[i].address.0);
    }
    assert(read =~= tags);
}

} // verus!
