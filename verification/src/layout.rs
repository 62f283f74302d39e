//! The header that stands before every object of the image.
use crate::image::{word, word_size, written, DirectiveView, lemma_written_push};
use vstd::prelude::*;

verus! {

/// Whether `m` is the least common multiple of the positive numbers `a` and `b`.
pub open spec fn is_lcm(m: int, a: int, b: int) -> bool {
    &&& m > 0
    &&& m % a == 0
    &&& m % b == 0
    &&& forall|c: int| c > 0 && #[trigger] (c % a) == 0 && c % b == 0 ==> m <= c
}

/// The least common multiple of the positive numbers `a` and `b`.
pub open spec fn least_common_multiple(a: int, b: int) -> int {
    choose|m: int| is_lcm(m, a, b)
}

/// The alignment of an object in the image: a multiple of the alignment that the
/// object asks for and of a word, so that a size header fits right before it.
pub open spec fn header_alignment(alignment: usize) -> int {
    least_common_multiple(word() as int, alignment as int)
}

/// Two positive numbers have one least common multiple only.
pub proof fn lemma_lcm_unique(m: int, a: int, b: int)
    requires
        is_lcm(m, a, b),
    ensures
        least_common_multiple(a, b) == m,
{
    let other = least_common_multiple(a, b);
    assert(is_lcm(other, a, b));
    assert(other % a == 0);
    assert(m % a == 0);
}

/// The least common multiple of `a` and `b`, computed by `num::integer::lcm`. For
/// positive numbers whose product fits the type, that function returns
/// `a * (b / gcd(a, b))` without overflow, which is the least positive number
/// that both divide.
#[verifier::external_body]
fn lcm(a: usize, b: usize) -> (m: usize)
    requires
        a > 0,
        b > 0,
        a * b <= usize::MAX,
    ensures
        is_lcm(m as int, a as int, b as int),
{
    num::integer::lcm(a, b)
}

/// The alignment of an object in the image.
pub fn aligned(alignment: usize) -> (m: usize)
    requires
        alignment > 0,
        alignment * word() <= usize::MAX,
    ensures
        m as int == header_alignment(alignment),
        m >= word(),
        m % word() == 0,
        m % alignment == 0,
{
    let w = word_size();
    assert(w * alignment == alignment * w) by (nonlinear_arith);
    let m = lcm(w, alignment);
    proof {
        lemma_lcm_unique(m as int, w as int, alignment as int);
        if m < w {
            vstd::arithmetic::div_mod::lemma_small_mod(m as nat, w as nat);
        }
    }
    m
}

/// The directives that stand before an object of `size` bytes: the alignment,
/// the padding that puts the size header right before the object, and the header.
pub open spec fn header(size: usize, alignment: usize) -> Seq<DirectiveView> {
    let m = header_alignment(alignment);
    let align = seq![DirectiveView::Align(m as usize)];
    let skip = if m > word() {
        seq![DirectiveView::Skip((m - word()) as usize)]
    } else {
        Seq::<DirectiveView>::empty()
    };
    align + skip + seq![DirectiveView::Word(size)]
}

/// A header puts as many bytes into the image as its alignment says.
pub proof fn lemma_header_written(image: Seq<DirectiveView>, size: usize, alignment: usize)
    requires
        word() <= header_alignment(alignment) <= usize::MAX,
    ensures
        written(image + header(size, alignment)) == written(image) + header_alignment(alignment),
{
    let m = header_alignment(alignment);
    let a = image.push(DirectiveView::Align(m as usize));
    lemma_written_push(image, DirectiveView::Align(m as usize));
    if m > word() {
        let b = a.push(DirectiveView::Skip((m - word()) as usize));
        lemma_written_push(a, DirectiveView::Skip((m - word()) as usize));
        lemma_written_push(b, DirectiveView::Word(size));
        assert(image + header(size, alignment) =~= b.push(DirectiveView::Word(size)));
    } else {
        lemma_written_push(a, DirectiveView::Word(size));
        assert(image + header(size, alignment) =~= a.push(DirectiveView::Word(size)));
    }
}

} // verus!
