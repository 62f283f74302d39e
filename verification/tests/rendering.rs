use rodal::address::Address;
use rodal::image::Directive;
use rodal::label::{AsmLabel, LabelBase};
use rodal::text::{
    render, write_address, write_byte_text, write_label, write_number, write_offset, Arch, Os,
    Target,
};

const LINUX: Target = Target { os: Os::Linux, arch: Arch::X86_64 };
const MAC: Target = Target { os: Os::MacOs, arch: Arch::Aarch64 };
const BARE: Target = Target { os: Os::Other, arch: Arch::X86_64 };

fn text_of(write: impl Fn(&mut Vec<u8>)) -> String {
    let mut out = b">".to_vec();
    write(&mut out);
    String::from_utf8(out).unwrap()
}

fn rendered(directives: Vec<Directive>, target: Target) -> String {
    String::from_utf8(render(&directives, target)).unwrap()
}

#[test]
fn numbers_are_written_to_the_base_ten() {
    assert_eq!(text_of(|out| write_number(out, 0)), ">0");
    assert_eq!(text_of(|out| write_number(out, 7)), ">7");
    assert_eq!(text_of(|out| write_number(out, 10)), ">10");
    assert_eq!(text_of(|out| write_number(out, 1234567890)), ">1234567890");
    assert_eq!(text_of(|out| write_number(out, usize::MAX)), format!(">{}", usize::MAX));
}

#[test]
fn bytes_are_written_to_the_base_sixteen() {
    assert_eq!(text_of(|out| write_byte_text(out, 0)), ">0x0");
    assert_eq!(text_of(|out| write_byte_text(out, 9)), ">0x9");
    assert_eq!(text_of(|out| write_byte_text(out, 10)), ">0xa");
    assert_eq!(text_of(|out| write_byte_text(out, 0x1f)), ">0x1f");
    assert_eq!(text_of(|out| write_byte_text(out, 255)), ">0xff");
    for value in 0..=255u8 {
        assert_eq!(text_of(|out| write_byte_text(out, value)), format!(">{:#02x}", value));
    }
}

#[test]
fn addresses_are_written_with_sixteen_digits() {
    assert_eq!(text_of(|out| write_address(out, Address(0))), ">0x0000000000000000");
    assert_eq!(text_of(|out| write_address(out, Address(0x1000))), ">0x0000000000001000");
    assert_eq!(
        text_of(|out| write_address(out, Address(0xdead_beef_0123_4567))),
        ">0xdeadbeef01234567"
    );
    assert_eq!(text_of(|out| write_address(out, Address(usize::MAX))), ">0xffffffffffffffff");
}

#[test]
fn offsets_are_written_with_their_sign() {
    assert_eq!(text_of(|out| write_offset(out, 0)), ">+0");
    assert_eq!(text_of(|out| write_offset(out, 12)), ">+12");
    assert_eq!(text_of(|out| write_offset(out, -1)), ">-1");
    assert_eq!(text_of(|out| write_offset(out, -120)), ">-120");
    assert_eq!(text_of(|out| write_offset(out, isize::MAX)), format!(">{:+}", isize::MAX));
    assert_eq!(text_of(|out| write_offset(out, isize::MIN)), format!(">{:+}", isize::MIN));
}

#[test]
fn labels_are_written_as_name_and_offset() {
    let label = AsmLabel { base: LabelBase::Object(Address(0x1000)), offset: 3 };
    assert_eq!(text_of(|out| write_label(out, &label, LINUX)), ">object_0x0000000000001000+3");
    assert_eq!(text_of(|out| write_label(out, &label, MAC)), ">_object_0x0000000000001000+3");
    let label = AsmLabel { base: LabelBase::Pointer(Address(0x20)), offset: -1 };
    assert_eq!(text_of(|out| write_label(out, &label, LINUX)), ">.Lptr_0x0000000000000020-1");
    let label = AsmLabel { base: LabelBase::Global("ROOT".to_string()), offset: 0 };
    assert_eq!(text_of(|out| write_label(out, &label, LINUX)), ">ROOT+0");
    assert_eq!(text_of(|out| write_label(out, &label, MAC)), ">_ROOT+0");
}

fn sample() -> Vec<Directive> {
    let root = || LabelBase::Global("ROOT".to_string());
    let own = || LabelBase::Object(Address(0x1000));
    vec![
        Directive::Start,
        Directive::Data,
        Directive::Global(root()),
        Directive::TypeObject(root()),
        Directive::Size(root(), 24),
        Directive::TypeObject(own()),
        Directive::Align(16),
        Directive::Skip(8),
        Directive::Word(24),
        Directive::Declare(root()),
        Directive::Declare(own()),
        Directive::Bytes(vec![1, 0xab]),
        Directive::Bytes(vec![]),
        Directive::Bytes(vec![7]),
        Directive::Pointers(vec![
            AsmLabel { base: own(), offset: 8 },
            AsmLabel { base: LabelBase::Pointer(Address(0x2004)), offset: 0 },
        ]),
        Directive::Pointers(vec![AsmLabel { base: own(), offset: 0 }]),
        Directive::Equiv(
            LabelBase::Pointer(Address(0x2004)),
            AsmLabel { base: LabelBase::Object(Address(0x2000)), offset: 4 },
        ),
        Directive::Size(own(), 24),
        Directive::End,
    ]
}

#[test]
fn image_is_written_line_by_line() {
    let expected = "#START RODAL DUMP\n\
        \t.data\n\
        \t.globl ROOT\n\
        \t.type ROOT, %object\n\
        \t.size ROOT, 24\n\
        \t.type object_0x0000000000001000, %object\n\
        \t.balign 16\n\
        \t.skip 8\n\
        \t.quad 24\n\
        ROOT:\n\
        object_0x0000000000001000:\n\
        \t.byte 0x1, 0xab\n\
        \t.byte \n\
        \t.byte 0x7\n\
        \t.quad object_0x0000000000001000+8, .Lptr_0x0000000000002004+0\n\
        \t.quad object_0x0000000000001000+0\n\
        \t.equiv .Lptr_0x0000000000002004, object_0x0000000000002000+4\n\
        \t.size object_0x0000000000001000, 24\n\
        #END RODAL DUMP\n";
    assert_eq!(rendered(sample(), LINUX), expected);
    assert_eq!(rendered(vec![], LINUX), "");
}

#[test]
fn other_systems_have_no_types_and_sizes() {
    let text = rendered(sample(), BARE);
    assert!(!text.contains(".type"));
    assert!(!text.contains(".size"));
    assert!(text.contains("\t.globl ROOT\n"));
    assert!(text.contains("\t.quad 24\n"));
}

#[test]
fn names_begin_with_an_underscore_on_mac_os() {
    let expected = "#START RODAL DUMP\n\
        \t.data\n\
        \t.globl _ROOT\n\
        \t.balign 16\n\
        \t.skip 8\n\
        \t.xword 24\n\
        _ROOT:\n\
        _object_0x0000000000001000:\n\
        \t.byte 0x1, 0xab\n\
        \t.byte \n\
        \t.byte 0x7\n\
        \t.xword _object_0x0000000000001000+8, _.Lptr_0x0000000000002004+0\n\
        \t.xword _object_0x0000000000001000+0\n\
        \t.equiv _.Lptr_0x0000000000002004, _object_0x0000000000002000+4\n\
        #END RODAL DUMP\n";
    assert_eq!(rendered(sample(), MAC), expected);
}
