//! The image as a sequence of directives.
use crate::label::{AsmLabel, Label, LabelBase, LabelName};
use vstd::prelude::*;

verus! {

/// The size in bytes of a pointer, and of the size header of an object.
pub open spec fn word() -> usize {
    (usize::BITS / 8) as usize
}

/// The size in bytes of a pointer.
pub fn word_size() -> (w: usize)
    ensures
        w == word(),
        w == 4 || w == 8,
{
    (usize::BITS / 8) as usize
}

/// The kind of run that is open at the end of the image.
#[derive(Clone, Copy, PartialEq, Eq, Structural, Debug)]
pub enum AsmDirective {
    /// A run of raw bytes.
    Byte,
    /// A run of relocatable pointers.
    Ptr,
    /// Anything else: the next byte or pointer starts a new run.
    Other,
}

/// One directive of the image.
#[derive(Debug, PartialEq, Eq)]
pub enum Directive {
    /// The opening marker of the image.
    Start,
    /// The switch to the data section.
    Data,
    /// The closing marker of the image.
    End,
    /// Makes a label visible to the linker.
    Global(LabelBase),
    /// Marks a label as naming a data object.
    TypeObject(LabelBase),
    /// Pads to a multiple of the number of bytes.
    Align(usize),
    /// The number of bytes of padding.
    Skip(usize),
    /// One word that holds the number.
    Word(usize),
    /// Declares a label at the current place.
    Declare(LabelBase),
    /// A run of raw bytes.
    Bytes(Vec<u8>),
    /// A run of pointers, each one word wide and resolved when the image is linked.
    Pointers(Vec<AsmLabel>),
    /// Binds the first label as another name for the second.
    Equiv(LabelBase, AsmLabel),
    /// Records the number of bytes that the object under a label takes up.
    Size(LabelBase, usize),
}

/// The mathematical value of a `Directive`.
pub enum DirectiveView {
    Start,
    Data,
    End,
    Global(LabelName),
    TypeObject(LabelName),
    Align(usize),
    Skip(usize),
    Word(usize),
    Declare(LabelName),
    Bytes(Seq<u8>),
    Pointers(Seq<Label>),
    Equiv(LabelName, Label),
    Size(LabelName, usize),
}

/// The values of a run of labels.
pub open spec fn labels_view(labels: Seq<AsmLabel>) -> Seq<Label> {
    labels.map_values(|label: AsmLabel| label@)
}

impl View for Directive {
    type V = DirectiveView;

    open spec fn view(&self) -> DirectiveView {
        match self {
            Directive::Start => DirectiveView::Start,
            Directive::Data => DirectiveView::Data,
            Directive::End => DirectiveView::End,
            Directive::Global(label) => DirectiveView::Global(label@),
            Directive::TypeObject(label) => DirectiveView::TypeObject(label@),
            Directive::Align(alignment) => DirectiveView::Align(*alignment),
            Directive::Skip(size) => DirectiveView::Skip(*size),
            Directive::Word(value) => DirectiveView::Word(*value),
            Directive::Declare(label) => DirectiveView::Declare(label@),
            Directive::Bytes(bytes) => DirectiveView::Bytes(bytes@),
            Directive::Pointers(labels) => DirectiveView::Pointers(labels_view(labels@)),
            Directive::Equiv(name, target) => DirectiveView::Equiv(name@, target@),
            Directive::Size(label, size) => DirectiveView::Size(label@, *size),
        }
    }
}

/// The values of a sequence of directives.
pub open spec fn image_view(directives: Seq<Directive>) -> Seq<DirectiveView> {
    directives.map_values(|directive: Directive| directive@)
}

impl DirectiveView {
    /// The number of bytes that the directive itself puts into the image. What an
    /// `Align` adds depends on where the image is placed, and is not counted.
    pub open spec fn length(self) -> nat {
        match self {
            DirectiveView::Skip(size) => size as nat,
            DirectiveView::Word(_) => word() as nat,
            DirectiveView::Bytes(bytes) => bytes.len(),
            DirectiveView::Pointers(labels) => labels.len() * (word() as nat),
            _ => 0,
        }
    }
}

/// The number of bytes that the directives put into the image.
pub open spec fn written(image: Seq<DirectiveView>) -> nat
    decreases image.len(),
{
    if image.len() == 0 {
        0
    } else {
        written(image.drop_last()) + image.last().length()
    }
}

/// Whether some run of pointers of the image holds `label`.
pub open spec fn mentions(image: Seq<DirectiveView>, label: Label) -> bool {
    exists|i: int|
        0 <= i < image.len() && (#[trigger] image[i]) is Pointers && image[i]->Pointers_0.contains(
            label,
        )
}

/// Whether the image binds the label `name` as another name for `place`.
pub open spec fn binds(image: Seq<DirectiveView>, name: LabelName, place: Label) -> bool {
    exists|i: int| 0 <= i < image.len() && #[trigger] image[i] == DirectiveView::Equiv(name, place)
}

/// How often the image declares the label `name`.
pub open spec fn declared(image: Seq<DirectiveView>, name: LabelName) -> nat
    decreases image.len(),
{
    if image.len() == 0 {
        0
    } else {
        declared(image.drop_last(), name) + if image.last() == DirectiveView::Declare(name) {
            1nat
        } else {
            0nat
        }
    }
}

/// The image after the raw bytes `bytes`. They join the last directive where that
/// is an open run of bytes, and start a run of their own otherwise.
pub open spec fn with_bytes(image: Seq<DirectiveView>, bytes: Seq<u8>) -> Seq<DirectiveView> {
    if bytes.len() == 0 {
        image
    } else if image.len() > 0 && image.last() is Bytes {
        image.drop_last().push(DirectiveView::Bytes(image.last()->Bytes_0 + bytes))
    } else {
        image.push(DirectiveView::Bytes(bytes))
    }
}

/// The image after one more pointer. The pointer joins the last directive where
/// that is an open run of pointers, and starts a run of its own otherwise.
pub open spec fn with_pointer(image: Seq<DirectiveView>, label: Label) -> Seq<DirectiveView> {
    if image.len() > 0 && image.last() is Pointers {
        image.drop_last().push(DirectiveView::Pointers(image.last()->Pointers_0.push(label)))
    } else {
        image.push(DirectiveView::Pointers(seq![label]))
    }
}

/// One more directive adds its own length to the image.
pub proof fn lemma_written_push(image: Seq<DirectiveView>, directive: DirectiveView)
    ensures
        written(image.push(directive)) == written(image) + directive.length(),
{
    assert(image.push(directive).drop_last() =~= image);
}

/// A run of bytes adds its length to the length of the image.
pub proof fn lemma_written_bytes(image: Seq<DirectiveView>, bytes: Seq<u8>)
    ensures
        written(with_bytes(image, bytes)) == written(image) + bytes.len(),
{
    if bytes.len() == 0 {
    } else if image.len() > 0 && image.last() is Bytes {
        lemma_written_push(
            image.drop_last(),
            DirectiveView::Bytes(image.last()->Bytes_0 + bytes),
        );
    } else {
        lemma_written_push(image, DirectiveView::Bytes(bytes));
    }
}

/// One more pointer adds one word to the length of the image.
pub proof fn lemma_written_pointer(image: Seq<DirectiveView>, label: Label)
    ensures
        written(with_pointer(image, label)) == written(image) + word(),
{
    if image.len() > 0 && image.last() is Pointers {
        let labels = image.last()->Pointers_0;
        lemma_written_push(image.drop_last(), DirectiveView::Pointers(labels.push(label)));
        assert((labels.len() + 1) * (word() as nat) == labels.len() * (word() as nat) + word())
            by (nonlinear_arith);
    } else {
        lemma_written_push(image, DirectiveView::Pointers(seq![label]));
        assert(1 * (word() as nat) == word()) by (nonlinear_arith);
    }
}

/// Bytes written one after the other make the run that they make together.
pub proof fn lemma_with_bytes_push(image: Seq<DirectiveView>, bytes: Seq<u8>, value: u8)
    ensures
        with_bytes(with_bytes(image, bytes), seq![value]) == with_bytes(image, bytes.push(value)),
{
    let once = with_bytes(image, bytes);
    let twice = with_bytes(once, seq![value]);
    if bytes.len() == 0 {
        assert(bytes.push(value) =~= seq![value]);
    } else if image.len() > 0 && image.last() is Bytes {
        assert(once.drop_last() =~= image.drop_last());
        assert(image.last()->Bytes_0 + bytes + seq![value] =~= image.last()->Bytes_0 + bytes.push(
            value,
        ));
    } else {
        assert(once.drop_last() =~= image);
        assert(bytes + seq![value] =~= bytes.push(value));
    }
}

} // verus!
