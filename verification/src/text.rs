//! The image as the text of an assembler source.
use crate::address::Address;
use crate::image::{image_view, labels_view, Directive, DirectiveView};
use crate::label::{AsmLabel, Label, LabelBase, LabelName};
use vstd::prelude::*;
use vstd::utf8::encode_utf8;

verus! {

/// The system that the image is assembled for.
#[derive(Clone, Copy, PartialEq, Eq, Structural, Debug)]
pub enum Os {
    /// Object files carry the type and the size of a symbol.
    Linux,
    /// The names of global symbols begin with an underscore.
    MacOs,
    /// Neither of the two.
    Other,
}

/// The processor that the image is assembled for.
#[derive(Clone, Copy, PartialEq, Eq, Structural, Debug)]
pub enum Arch {
    X86_64,
    Aarch64,
}

/// What the text of the image depends on.
#[derive(Clone, Copy, PartialEq, Eq, Structural, Debug)]
pub struct Target {
    pub os: Os,
    pub arch: Arch,
}

/// The character of one digit, in lower case from ten on.
pub open spec fn digit(value: nat) -> u8 {
    if value < 10 {
        (48 + value) as u8
    } else {
        (87 + value) as u8
    }
}

/// The digits of `value` to the base ten.
pub open spec fn decimal(value: nat) -> Seq<u8>
    decreases value,
{
    if value < 10 {
        seq![digit(value)]
    } else {
        decimal(value / 10).push(digit(value % 10))
    }
}

/// The digits of `value` to the base sixteen.
pub open spec fn hexadecimal(value: nat) -> Seq<u8>
    decreases value,
{
    if value < 16 {
        seq![digit(value)]
    } else {
        hexadecimal(value / 16).push(digit(value % 16))
    }
}

/// The digits of `value`, to the base sixteen or ten.
pub open spec fn digits(value: nat, hex: bool) -> Seq<u8> {
    if hex {
        hexadecimal(value)
    } else {
        decimal(value)
    }
}

/// `count` times the digit zero.
pub open spec fn zeros(count: int) -> Seq<u8> {
    Seq::new(
        if count > 0 {
            count as nat
        } else {
            0
        },
        |i: int| 48u8,
    )
}

/// The text of a number of bytes or of an alignment.
pub open spec fn number_text(value: usize) -> Seq<u8> {
    decimal(value as nat)
}

/// The text of one byte: its digits to the base sixteen, after `0x`.
pub open spec fn byte_text(value: u8) -> Seq<u8> {
    encode_utf8("0x"@) + hexadecimal(value as nat)
}

/// The text of an address: sixteen digits to the base sixteen, after `0x`.
pub open spec fn address_text(address: Address) -> Seq<u8> {
    encode_utf8("0x"@) + zeros(16 - hexadecimal(address.0 as nat).len()) + hexadecimal(
        address.0 as nat,
    )
}

/// The text of an offset: its sign, and then its digits to the base ten.
pub open spec fn offset_text(offset: isize) -> Seq<u8> {
    if offset >= 0 {
        encode_utf8("+"@) + decimal(offset as nat)
    } else {
        encode_utf8("-"@) + decimal((-offset) as nat)
    }
}

/// The text of the name of a label.
pub open spec fn name_text(name: LabelName, target: Target) -> Seq<u8> {
    (if target.os == Os::MacOs {
        encode_utf8("_"@)
    } else {
        Seq::<u8>::empty()
    }) + match name {
        LabelName::Global(name) => encode_utf8(name),
        LabelName::Object(start) => encode_utf8("object_"@) + address_text(start),
        LabelName::Pointer(pointer) => encode_utf8(".Lptr_"@) + address_text(pointer),
    }
}

/// The text of a label: its name and its offset.
pub open spec fn label_text(label: Label, target: Target) -> Seq<u8> {
    name_text(label.base, target) + offset_text(label.offset)
}

/// The directive that holds one word.
pub open spec fn word_directive(target: Target) -> Seq<u8> {
    match target.arch {
        Arch::X86_64 => encode_utf8("\t.quad "@),
        Arch::Aarch64 => encode_utf8("\t.xword "@),
    }
}

/// The texts of `bytes`, with a comma and a blank between every two.
pub open spec fn bytes_text(bytes: Seq<u8>) -> Seq<u8>
    decreases bytes.len(),
{
    if bytes.len() == 0 {
        Seq::empty()
    } else if bytes.len() == 1 {
        byte_text(bytes[0])
    } else {
        bytes_text(bytes.drop_last()) + encode_utf8(", "@) + byte_text(bytes.last())
    }
}

/// The texts of `labels`, with a comma and a blank between every two.
pub open spec fn labels_text(labels: Seq<Label>, target: Target) -> Seq<u8>
    decreases labels.len(),
{
    if labels.len() == 0 {
        Seq::empty()
    } else if labels.len() == 1 {
        label_text(labels[0], target)
    } else {
        labels_text(labels.drop_last(), target) + encode_utf8(", "@) + label_text(
            labels.last(),
            target,
        )
    }
}

/// The end of a line.
pub open spec fn line_end() -> Seq<u8> {
    encode_utf8("\n"@)
}

/// The text of one directive: a line of its own, or nothing where the system
/// has no such directive.
pub open spec fn directive_text(directive: DirectiveView, target: Target) -> Seq<u8> {
    match directive {
        DirectiveView::Start => encode_utf8("#START RODAL DUMP\n"@),
        DirectiveView::Data => encode_utf8("\t.data\n"@),
        DirectiveView::End => encode_utf8("#END RODAL DUMP\n"@),
        DirectiveView::Global(name) => encode_utf8("\t.globl "@) + name_text(name, target)
            + line_end(),
        DirectiveView::TypeObject(name) => if target.os == Os::Linux {
            encode_utf8("\t.type "@) + name_text(name, target) + encode_utf8(", %object\n"@)
        } else {
            Seq::empty()
        },
        DirectiveView::Align(alignment) => encode_utf8("\t.balign "@) + number_text(alignment)
            + line_end(),
        DirectiveView::Skip(size) => encode_utf8("\t.skip "@) + number_text(size) + line_end(),
        DirectiveView::Word(value) => word_directive(target) + number_text(value) + line_end(),
        DirectiveView::Declare(name) => name_text(name, target) + encode_utf8(":\n"@),
        DirectiveView::Bytes(bytes) => encode_utf8("\t.byte "@) + bytes_text(bytes) + line_end(),
        DirectiveView::Pointers(labels) => word_directive(target) + labels_text(labels, target)
            + line_end(),
        DirectiveView::Equiv(name, place) => encode_utf8("\t.equiv "@) + name_text(name, target)
            + encode_utf8(", "@) + label_text(place, target) + line_end(),
        DirectiveView::Size(name, size) => if target.os == Os::Linux {
            encode_utf8("\t.size "@) + name_text(name, target) + encode_utf8(", "@) + number_text(
                size,
            ) + line_end()
        } else {
            Seq::empty()
        },
    }
}

/// The text of an image: the texts of its directives, one after the other.
pub open spec fn rendered(image: Seq<DirectiveView>, target: Target) -> Seq<u8>
    decreases image.len(),
{
    if image.len() == 0 {
        Seq::empty()
    } else {
        rendered(image.drop_last(), target) + directive_text(image.last(), target)
    }
}

/// Puts `bytes` at the end of `out`.
fn write(out: &mut Vec<u8>, bytes: &[u8])
    ensures
        final(out)@ == old(out)@ + bytes@,
{
    let mut i: usize = 0;
    while i < bytes.len()
        invariant
            0 <= i <= bytes.len(),
            out@ == old(out)@ + bytes@.subrange(0, i as int),
        decreases bytes.len() - i,
    {
        out.push(bytes[i]);
        assert(out@ =~= old(out)@ + bytes@.subrange(0, i + 1));
        i += 1;
    }
    assert(bytes@.subrange(0, i as int) =~= bytes@);
}

/// Puts the text `text` at the end of `out`.
fn write_text(out: &mut Vec<u8>, text: &str)
    ensures
        final(out)@ == old(out)@ + encode_utf8(text@),
{
    write(out, text.as_bytes());
}

/// The character of one digit.
fn digit_of(value: usize) -> (character: u8)
    requires
        value < 16,
    ensures
        character == digit(value as nat),
{
    if value < 10 {
        (48 + value) as u8
    } else {
        (87 + value) as u8
    }
}

/// Puts the digits of `value` at the end of `out`, to the base sixteen or ten,
/// after as many zeros as bring them to `width` digits.
fn write_digits(out: &mut Vec<u8>, value: usize, hex: bool, width: usize)
    ensures
        final(out)@ == old(out)@ + zeros(width - digits(value as nat, hex).len()) + digits(
            value as nat,
            hex,
        ),
{
    // The digits from the last to the first.
    let mut reversed: Vec<u8> = Vec::new();
    let mut rest = value;
    let ghost mut tail = Seq::<u8>::empty();
    loop
        invariant_except_break
            tail.len() == reversed@.len(),
            forall|i: int| 0 <= i < tail.len() ==> tail[i] == reversed@[tail.len() - 1 - i],
            digits(value as nat, hex) == digits(rest as nat, hex) + tail,
        ensures
            tail.len() == reversed@.len(),
            tail.len() > 0,
            forall|i: int| 0 <= i < tail.len() ==> tail[i] == reversed@[tail.len() - 1 - i],
            digits(value as nat, hex) == tail,
        decreases rest,
    {
        let last = if hex {
            rest % 16
        } else {
            rest % 10
        };
        let fewer = if hex {
            rest / 16
        } else {
            rest / 10
        };
        reversed.push(digit_of(last));
        proof {
            let grown = seq![digit(last as nat)] + tail;
            assert forall|i: int| 0 <= i < grown.len() implies grown[i] == reversed@[grown.len() - 1
                - i] by {
                if i > 0 {
                    assert(grown[i] == tail[i - 1]);
                }
            }
            if fewer == 0 {
                assert(digits(rest as nat, hex) =~= seq![digit(last as nat)]);
                assert(digits(value as nat, hex) =~= grown);
            } else {
                assert(digits(rest as nat, hex) =~= digits(fewer as nat, hex).push(
                    digit(last as nat),
                ));
                assert(digits(value as nat, hex) =~= digits(fewer as nat, hex) + grown);
            }
            tail = grown;
        }
        if fewer == 0 {
            break ;
        }
        rest = fewer;
    }
    let count = reversed.len();
    let missing: usize = if width > count {
        width - count
    } else {
        0
    };
    let mut padding: usize = 0;
    while padding < missing
        invariant
            padding <= missing,
            out@ == old(out)@ + zeros(padding as int),
        decreases missing - padding,
    {
        out.push(48);
        assert(out@ =~= old(out)@ + zeros(padding + 1));
        padding += 1;
    }
    assert(zeros(padding as int) =~= zeros(width - count));
    let ghost padded = out@;
    let mut i: usize = count;
    while i > 0
        invariant
            0 <= i <= count,
            count == reversed@.len(),
            tail.len() == count,
            forall|k: int| 0 <= k < tail.len() ==> tail[k] == reversed@[tail.len() - 1 - k],
            out@ == padded + tail.subrange(0, count - i),
        decreases i,
    {
        i -= 1;
        out.push(reversed[i]);
        assert(out@ =~= padded + tail.subrange(0, count - i));
    }
    assert(tail.subrange(0, count as int) =~= tail);
}

/// Puts the text of a number of bytes or of an alignment at the end of `out`.
pub fn write_number(out: &mut Vec<u8>, value: usize)
    ensures
        final(out)@ == old(out)@ + number_text(value),
{
    write_digits(out, value, false, 0);
    assert(zeros(0 - decimal(value as nat).len()) =~= Seq::<u8>::empty());
    assert(out@ =~= old(out)@ + number_text(value));
}

/// Puts the text of one byte at the end of `out`.
pub fn write_byte_text(out: &mut Vec<u8>, value: u8)
    ensures
        final(out)@ == old(out)@ + byte_text(value),
{
    write_text(out, "0x");
    write_digits(out, value as usize, true, 0);
    assert(zeros(0 - hexadecimal(value as nat).len()) =~= Seq::<u8>::empty());
    assert(out@ =~= old(out)@ + byte_text(value));
}

/// Puts the text of an address at the end of `out`.
pub fn write_address(out: &mut Vec<u8>, address: Address)
    ensures
        final(out)@ == old(out)@ + address_text(address),
{
    write_text(out, "0x");
    write_digits(out, address.0, true, 16);
    assert(out@ =~= old(out)@ + address_text(address));
}

/// Puts the text of an offset at the end of `out`.
pub fn write_offset(out: &mut Vec<u8>, offset: isize)
    ensures
        final(out)@ == old(out)@ + offset_text(offset),
{
    if offset >= 0 {
        write_text(out, "+");
        write_digits(out, offset as usize, false, 0);
        assert(zeros(0 - decimal(offset as nat).len()) =~= Seq::<u8>::empty());
        assert(out@ =~= old(out)@ + offset_text(offset));
    } else {
        write_text(out, "-");
        let magnitude: usize = ((-(offset + 1)) as usize) + 1;
        write_digits(out, magnitude, false, 0);
        assert(zeros(0 - decimal(magnitude as nat).len()) =~= Seq::<u8>::empty());
        assert(out@ =~= old(out)@ + offset_text(offset));
    }
}

/// Puts the text of the name of a label at the end of `out`.
pub fn write_name(out: &mut Vec<u8>, name: &LabelBase, target: Target)
    ensures
        final(out)@ == old(out)@ + name_text(name@, target),
{
    match target.os {
        Os::MacOs => {
            write_text(out, "_");
        },
        _ => {},
    }
    match name {
        LabelBase::Global(name) => {
            write_text(out, name.as_str());
        },
        LabelBase::Object(start) => {
            write_text(out, "object_");
            write_address(out, *start);
        },
        LabelBase::Pointer(pointer) => {
            write_text(out, ".Lptr_");
            write_address(out, *pointer);
        },
    }
    assert(out@ =~= old(out)@ + name_text(name@, target));
}

/// Puts the text of a label at the end of `out`.
pub fn write_label(out: &mut Vec<u8>, label: &AsmLabel, target: Target)
    ensures
        final(out)@ == old(out)@ + label_text(label@, target),
{
    write_name(out, &label.base, target);
    write_offset(out, label.offset);
    assert(out@ =~= old(out)@ + label_text(label@, target));
}

/// Puts the directive that holds one word at the end of `out`.
fn write_word_directive(out: &mut Vec<u8>, target: Target)
    ensures
        final(out)@ == old(out)@ + word_directive(target),
{
    match target.arch {
        Arch::X86_64 => write_text(out, "\t.quad "),
        Arch::Aarch64 => write_text(out, "\t.xword "),
    }
}

/// Puts the texts of `bytes` at the end of `out`.
fn write_bytes_text(out: &mut Vec<u8>, bytes: &Vec<u8>)
    ensures
        final(out)@ == old(out)@ + bytes_text(bytes@),
{
    let mut i: usize = 0;
    while i < bytes.len()
        invariant
            0 <= i <= bytes.len(),
            out@ == old(out)@ + bytes_text(bytes@.subrange(0, i as int)),
        decreases bytes.len() - i,
    {
        let ghost before = bytes_text(bytes@.subrange(0, i as int));
        if i > 0 {
            write_text(out, ", ");
        }
        write_byte_text(out, bytes[i]);
        proof {
            let now = bytes@.subrange(0, i + 1);
            assert(now.drop_last() =~= bytes@.subrange(0, i as int));
            assert(now.last() == bytes@[i as int]);
            if i == 0 {
                assert(before =~= Seq::<u8>::empty());
                assert(now[0] == bytes@[0]);
            }
            assert(out@ =~= old(out)@ + bytes_text(now));
        }
        i += 1;
    }
    assert(bytes@.subrange(0, i as int) =~= bytes@);
}

/// Puts the texts of `labels` at the end of `out`.
fn write_labels_text(out: &mut Vec<u8>, labels: &Vec<AsmLabel>, target: Target)
    ensures
        final(out)@ == old(out)@ + labels_text(labels_view(labels@), target),
{
    let ghost all = labels_view(labels@);
    let mut i: usize = 0;
    while i < labels.len()
        invariant
            0 <= i <= labels.len(),
            all == labels_view(labels@),
            out@ == old(out)@ + labels_text(all.subrange(0, i as int), target),
        decreases labels.len() - i,
    {
        let ghost before = labels_text(all.subrange(0, i as int), target);
        if i > 0 {
            write_text(out, ", ");
        }
        write_label(out, &labels[i], target);
        proof {
            let now = all.subrange(0, i + 1);
            assert(now.drop_last() =~= all.subrange(0, i as int));
            assert(now.last() == labels@[i as int]@);
            if i == 0 {
                assert(before =~= Seq::<u8>::empty());
                assert(now[0] == labels@[0]@);
            }
            assert(out@ =~= old(out)@ + labels_text(now, target));
        }
        i += 1;
    }
    assert(all.subrange(0, i as int) =~= all);
}

/// Puts a line at the end of `out`: the text `head`, the name of a label, and
/// the text `tail`.
fn write_named_line(out: &mut Vec<u8>, head: &str, name: &LabelBase, tail: &str, target: Target)
    ensures
        final(out)@ == old(out)@ + (encode_utf8(head@) + name_text(name@, target) + encode_utf8(
            tail@,
        )),
{
    write_text(out, head);
    write_name(out, name, target);
    write_text(out, tail);
    assert(out@ =~= old(out)@ + (encode_utf8(head@) + name_text(name@, target) + encode_utf8(
        tail@,
    )));
}

/// Puts a line at the end of `out`: the text `head`, and a number.
fn write_number_line(out: &mut Vec<u8>, head: &str, value: usize)
    ensures
        final(out)@ == old(out)@ + (encode_utf8(head@) + number_text(value) + line_end()),
{
    write_text(out, head);
    write_number(out, value);
    write_text(out, "\n");
    assert(out@ =~= old(out)@ + (encode_utf8(head@) + number_text(value) + line_end()));
}

/// Puts the line of a run of bytes at the end of `out`.
fn write_bytes_line(out: &mut Vec<u8>, bytes: &Vec<u8>)
    ensures
        final(out)@ == old(out)@ + directive_text(
            DirectiveView::Bytes(bytes@),
            Target { os: Os::Linux, arch: Arch::X86_64 },
        ),
{
    write_text(out, "\t.byte ");
    write_bytes_text(out, bytes);
    write_text(out, "\n");
    assert(out@ =~= old(out)@ + (encode_utf8("\t.byte "@) + bytes_text(bytes@) + line_end()));
}

/// Puts the line of a run of pointers at the end of `out`.
fn write_pointers_line(out: &mut Vec<u8>, labels: &Vec<AsmLabel>, target: Target)
    ensures
        final(out)@ == old(out)@ + directive_text(
            DirectiveView::Pointers(labels_view(labels@)),
            target,
        ),
{
    write_word_directive(out, target);
    write_labels_text(out, labels, target);
    write_text(out, "\n");
    assert(out@ =~= old(out)@ + (word_directive(target) + labels_text(
        labels_view(labels@),
        target,
    ) + line_end()));
}

/// Puts the line of a word at the end of `out`.
fn write_word_line(out: &mut Vec<u8>, value: usize, target: Target)
    ensures
        final(out)@ == old(out)@ + directive_text(DirectiveView::Word(value), target),
{
    write_word_directive(out, target);
    write_number(out, value);
    write_text(out, "\n");
    assert(out@ =~= old(out)@ + (word_directive(target) + number_text(value) + line_end()));
}

/// Puts the line of a binding at the end of `out`.
fn write_equiv_line(out: &mut Vec<u8>, name: &LabelBase, place: &AsmLabel, target: Target)
    ensures
        final(out)@ == old(out)@ + directive_text(DirectiveView::Equiv(name@, place@), target),
{
    write_named_line(out, "\t.equiv ", name, ", ", target);
    write_label(out, place, target);
    write_text(out, "\n");
    assert(out@ =~= old(out)@ + (encode_utf8("\t.equiv "@) + name_text(name@, target)
        + encode_utf8(", "@) + label_text(place@, target) + line_end()));
}

/// Puts the line of the size of an object at the end of `out`.
fn write_size_line(out: &mut Vec<u8>, name: &LabelBase, size: usize, target: Target)
    ensures
        final(out)@ == old(out)@ + directive_text(DirectiveView::Size(name@, size), target),
{
    match target.os {
        Os::Linux => {
            write_named_line(out, "\t.size ", name, ", ", target);
            write_number(out, size);
            write_text(out, "\n");
            assert(out@ =~= old(out)@ + (encode_utf8("\t.size "@) + name_text(name@, target)
                + encode_utf8(", "@) + number_text(size) + line_end()));
        },
        _ => {
            assert(out@ =~= old(out)@ + Seq::<u8>::empty());
        },
    }
}

/// Puts the text of one directive at the end of `out`.
pub fn write_directive_text(out: &mut Vec<u8>, directive: &Directive, target: Target)
    ensures
        final(out)@ == old(out)@ + directive_text(directive@, target),
{
    match directive {
        Directive::Start => {
            write_text(out, "#START RODAL DUMP\n");
        },
        Directive::Data => {
            write_text(out, "\t.data\n");
        },
        Directive::End => {
            write_text(out, "#END RODAL DUMP\n");
        },
        Directive::Global(name) => {
            write_named_line(out, "\t.globl ", name, "\n", target);
        },
        Directive::TypeObject(name) => {
            match target.os {
                Os::Linux => {
                    write_named_line(out, "\t.type ", name, ", %object\n", target);
                },
                _ => {
                    assert(out@ =~= old(out)@ + Seq::<u8>::empty());
                },
            }
        },
        Directive::Align(alignment) => {
            write_number_line(out, "\t.balign ", *alignment);
        },
        Directive::Skip(size) => {
            write_number_line(out, "\t.skip ", *size);
        },
        Directive::Word(value) => {
            write_word_line(out, *value, target);
        },
        Directive::Declare(name) => {
            write_name(out, name, target);
            write_text(out, ":\n");
            assert(out@ =~= old(out)@ + (name_text(name@, target) + encode_utf8(":\n"@)));
        },
        Directive::Bytes(bytes) => {
            write_bytes_line(out, bytes);
        },
        Directive::Pointers(labels) => {
            write_pointers_line(out, labels, target);
        },
        Directive::Equiv(name, place) => {
            write_equiv_line(out, name, place, target);
        },
        Directive::Size(name, size) => {
            write_size_line(out, name, *size, target);
        },
    }
}

/// The text of the image: an assembler source for `target`.
pub fn render(directives: &Vec<Directive>, target: Target) -> (text: Vec<u8>)
    ensures
        text@ == rendered(image_view(directives@), target),
{
    let ghost image = image_view(directives@);
    let mut text: Vec<u8> = Vec::new();
    let mut i: usize = 0;
    while i < directives.len()
        invariant
            0 <= i <= directives.len(),
            image == image_view(directives@),
            text@ == rendered(image.subrange(0, i as int), target),
        decreases directives.len() - i,
    {
        write_directive_text(&mut text, &directives[i], target);
        proof {
            let now = image.subrange(0, i + 1);
            assert(now.drop_last() =~= image.subrange(0, i as int));
            assert(now.last() == directives@[i as int]@);
        }
        i += 1;
    }
    assert(image.subrange(0, i as int) =~= image);
    text
}

} // verus!
