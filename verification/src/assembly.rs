//! What the image comes to when it is assembled with every object at the
//! address that it had in memory: for each address, what lies there.
use crate::image::{with_bytes, with_pointer, word, DirectiveView};
use crate::label::{Label, LabelName};
use vstd::prelude::*;

verus! {

/// What lies at one address of the assembled image.
pub enum Cell {
    /// A raw byte.
    Byte(u8),
    /// The first byte of a pointer that is written as the label.
    Pointer(Label),
    /// The first byte of a word that holds the number.
    Word(usize),
    /// A later byte of a pointer or of a word.
    Inner,
    /// A byte of padding.
    Padding,
}

/// The assembled image so far: the address that the next byte goes to, where a
/// label of an object has said so, and what lies at each address.
pub struct Memory {
    pub at: Option<int>,
    pub cells: Map<int, Cell>,
}

/// The cells of one word that begins with `first`.
pub open spec fn wide(first: Cell) -> Seq<Cell> {
    seq![first] + Seq::new((word() - 1) as nat, |i: int| Cell::Inner)
}

/// The cells of a run of pointers.
pub open spec fn pointer_cells(labels: Seq<Label>) -> Seq<Cell>
    decreases labels.len(),
{
    if labels.len() == 0 {
        Seq::empty()
    } else {
        pointer_cells(labels.drop_last()) + wide(Cell::Pointer(labels.last()))
    }
}

/// The cells of a run of raw bytes.
pub open spec fn byte_cells(bytes: Seq<u8>) -> Seq<Cell> {
    Seq::new(bytes.len(), |i: int| Cell::Byte(bytes[i]))
}

/// The cells of padding.
pub open spec fn padding_cells(size: int) -> Seq<Cell> {
    Seq::new(
        if size > 0 {
            size as nat
        } else {
            0
        },
        |i: int| Cell::Padding,
    )
}

/// The cells that a directive puts at the current address.
pub open spec fn content(directive: DirectiveView) -> Seq<Cell> {
    match directive {
        DirectiveView::Bytes(bytes) => byte_cells(bytes),
        DirectiveView::Pointers(labels) => pointer_cells(labels),
        DirectiveView::Skip(size) => padding_cells(size as int),
        DirectiveView::Word(value) => wide(Cell::Word(value)),
        _ => Seq::empty(),
    }
}

/// The cells with `content` put at the addresses from `at` on.
pub open spec fn filled(cells: Map<int, Cell>, at: int, content: Seq<Cell>) -> Map<int, Cell> {
    Map::new(
        |address: int| cells.dom().contains(address) || at <= address < at + content.len(),
        |address: int|
            if at <= address < at + content.len() {
                content[address - at]
            } else {
                cells[address]
            },
    )
}

/// Whether the directive moves the current address: the label of an object
/// sets it to the start of the object, and an alignment or a size of an object
/// ends what lay before.
pub open spec fn moves(directive: DirectiveView) -> bool {
    ||| directive matches DirectiveView::Declare(name) && name is Object
    ||| directive is Align
    ||| directive is Size
}

/// The assembled image after one more directive. What stands between an
/// alignment and the label of an object is the header of the object, and lies
/// before the object, at no address of its own.
pub open spec fn step(memory: Memory, directive: DirectiveView) -> Memory {
    match directive {
        DirectiveView::Declare(LabelName::Object(start)) => Memory {
            at: Some(start.0 as int),
            cells: memory.cells,
        },
        DirectiveView::Align(_) => Memory { at: None, cells: memory.cells },
        DirectiveView::Size(_, _) => Memory { at: None, cells: memory.cells },
        _ => match memory.at {
            Some(at) => Memory {
                at: Some(at + content(directive).len()),
                cells: filled(memory.cells, at, content(directive)),
            },
            None => memory,
        },
    }
}

/// The assembled image.
pub open spec fn assembled(image: Seq<DirectiveView>) -> Memory
    decreases image.len(),
{
    if image.len() == 0 {
        Memory { at: None, cells: Map::empty() }
    } else {
        step(assembled(image.drop_last()), image.last())
    }
}

/// One more directive is one more step.
pub proof fn lemma_assembled_push(image: Seq<DirectiveView>, directive: DirectiveView)
    ensures
        assembled(image.push(directive)) == step(assembled(image), directive),
{
    assert(image.push(directive).drop_last() =~= image);
}

/// Cells that are put one run after the other are put as one run.
pub proof fn lemma_filled_twice(cells: Map<int, Cell>, at: int, first: Seq<Cell>, second: Seq<Cell>)
    ensures
        filled(filled(cells, at, first), at + first.len(), second) == filled(
            cells,
            at,
            first + second,
        ),
{
    assert(filled(filled(cells, at, first), at + first.len(), second) =~= filled(
        cells,
        at,
        first + second,
    ));
}

/// No cells leave the cells as they are.
pub proof fn lemma_filled_nothing(cells: Map<int, Cell>, at: int)
    ensures
        filled(cells, at, Seq::<Cell>::empty()) == cells,
{
    assert(filled(cells, at, Seq::<Cell>::empty()) =~= cells);
}

/// A directive that puts no cells and moves nothing leaves the assembled image
/// as it is.
pub proof fn lemma_step_inert(memory: Memory, directive: DirectiveView)
    requires
        content(directive).len() == 0,
        !moves(directive),
    ensures
        step(memory, directive) == memory,
{
    match memory.at {
        Some(at) => {
            assert(content(directive) =~= Seq::<Cell>::empty());
            lemma_filled_nothing(memory.cells, at);
        },
        None => {},
    }
}

/// Directives that put no cells and move nothing leave the assembled image as
/// it is.
pub proof fn lemma_assembled_inert(image: Seq<DirectiveView>, tail: Seq<DirectiveView>)
    requires
        forall|i: int|
            0 <= i < tail.len() ==> content(#[trigger] tail[i]).len() == 0 && !moves(tail[i]),
    ensures
        assembled(image + tail) == assembled(image),
    decreases tail.len(),
{
    if tail.len() == 0 {
        assert(image + tail =~= image);
    } else {
        let front = tail.drop_last();
        assert forall|i: int| 0 <= i < front.len() implies content(#[trigger] front[i]).len() == 0
            && !moves(front[i]) by {
            assert(front[i] == tail[i]);
        }
        lemma_assembled_inert(image, front);
        assert(image + tail =~= (image + front).push(tail.last()));
        lemma_assembled_push(image + front, tail.last());
        assert(tail.last() == tail[tail.len() - 1]);
        lemma_step_inert(assembled(image), tail.last());
    }
}

/// Raw bytes that join a run are put as if they were a run of their own.
pub proof fn lemma_assembled_bytes(image: Seq<DirectiveView>, bytes: Seq<u8>)
    ensures
        assembled(with_bytes(image, bytes)) == step(assembled(image), DirectiveView::Bytes(bytes)),
{
    let memory = assembled(image);
    if bytes.len() == 0 {
        lemma_step_inert(memory, DirectiveView::Bytes(bytes));
    } else if image.len() > 0 && image.last() is Bytes {
        let front = image.drop_last();
        let run = image.last()->Bytes_0;
        lemma_assembled_push(front, DirectiveView::Bytes(run + bytes));
        assert(byte_cells(run + bytes) =~= byte_cells(run) + byte_cells(bytes));
        match assembled(front).at {
            Some(at) => {
                lemma_filled_twice(assembled(front).cells, at, byte_cells(run), byte_cells(bytes));
            },
            None => {},
        }
    } else {
        lemma_assembled_push(image, DirectiveView::Bytes(bytes));
    }
}

/// A pointer that joins a run is put as if it were a run of its own.
pub proof fn lemma_assembled_pointer(image: Seq<DirectiveView>, label: Label)
    ensures
        assembled(with_pointer(image, label)) == step(
            assembled(image),
            DirectiveView::Pointers(seq![label]),
        ),
        content(DirectiveView::Pointers(seq![label])) == wide(Cell::Pointer(label)),
{
    assert(seq![label].drop_last() =~= Seq::<Label>::empty());
    assert(pointer_cells(Seq::<Label>::empty()) =~= Seq::<Cell>::empty());
    assert(seq![label].last() == label);
    assert(pointer_cells(seq![label]) =~= wide(Cell::Pointer(label)));
    if image.len() > 0 && image.last() is Pointers {
        let front = image.drop_last();
        let run = image.last()->Pointers_0;
        lemma_assembled_push(front, DirectiveView::Pointers(run.push(label)));
        assert(run.push(label).drop_last() =~= run);
        match assembled(front).at {
            Some(at) => {
                lemma_filled_twice(
                    assembled(front).cells,
                    at,
                    pointer_cells(run),
                    wide(Cell::Pointer(label)),
                );
            },
            None => {},
        }
    } else {
        lemma_assembled_push(image, DirectiveView::Pointers(seq![label]));
    }
}

} // verus!
