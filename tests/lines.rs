use asm_diff::{demangle, demangle_no_hash, AsmLine, Instruction, Label, Line};

#[test]
fn do_not_panic() {
    let lines = [
        "  465f00:\tlea    rax,[rip+0x211581]        # 677488 <__dso_handle>",
        "  465f07:\ttest   rax,rax",
        "  465f0a:\tje     465f20 <atexit+0x20>",
        "  465f0c:\tmov    rdx,QWORD PTR [rax]",
        "  465f0f:\txor    esi,esi",
        "  465f11:\tjmp    40d510 <__cxa_atexit@plt>",
        "  465f16:\tnop    WORD PTR cs:[rax+rax*1+0x0]",
        "  465f20:\txor    edx,edx",
        "  465f22:\txor    esi,esi",
        "  465f24:\tjmp    40d510 <__cxa_atexit@plt>",
        "  465f29:\tnop    DWORD PTR [rax+0x0]",
        "  6ec4:\tjne    6ece <_ZN5alloc7raw_vec19RawVec$LT$T$C$A$GT$7reserve21do_reserve_and_handle17h95367aef4ab8a60eE+0xae>",
    ];

    for line in lines {
        let i = Instruction::new(line);
        let _ = i.op();
    }
}

#[test]
fn demangled() {
    let line = "00000000000462c0 <_ZN4core7unicode12unicode_data2cc6lookup17h4f90392d718973aaE>:";
    assert_eq!(
        Label::new(line).demangled_name(),
        "core::unicode::unicode_data::cc::lookup::h4f90392d718973aa"
    );
}

#[test]
fn demangled_without_hash() {
    let line = "00000000000462c0 <_ZN4core7unicode12unicode_data2cc6lookup17h4f90392d718973aaE>:";
    assert_eq!(Label::new(line).clean_name(), "core::unicode::unicode_data::cc::lookup");
}

#[test]
fn label_keeps_raw_name_and_text_around_symbol() {
    let line = "0000000000001000 <x_ZN4core3fmt5write17h0123456789abcdefE@plt>:";
    let l = Label::new(line);
    assert_eq!(l.name(), "x_ZN4core3fmt5write17h0123456789abcdefE@plt");
    assert_eq!(l.demangled_name(), "xcore::fmt::write::h0123456789abcdef@plt");
    assert_eq!(l.clean_name(), "xcore::fmt::write@plt");
}

#[test]
fn instruction_fields_and_content() {
    let i = Instruction::new("  465f0c:\tmov    rdx,QWORD PTR [rax]");
    assert_eq!(i.op(), "mov");
    assert_eq!(i.content(), "mov rdx, QWORD PTR [rax]");
    assert_eq!(i.content_demangled(), "mov rdx, QWORD PTR [rax]");
    let j = Instruction::new("  20:\tret    ");
    assert_eq!(j.op(), "ret");
    assert_eq!(j.content(), "ret ");
    let k = Instruction::new("  30:\timul   eax,ebx,0x10");
    assert_eq!(k.content(), "imul eax, ebx, 0x10");
}

#[test]
fn instruction_operand_symbol_is_demangled() {
    let i = Instruction::new(
        "  6ec4:\tcall   6ece <_ZN4core3fmt5write17h0123456789abcdefE>",
    );
    assert_eq!(i.content(), "call 6ece <_ZN4core3fmt5write17h0123456789abcdefE>");
    assert_eq!(i.content_demangled(), "call core::fmt::write::h0123456789abcdef");
    assert_eq!(i.content_clean(), "call core::fmt::write");
}

#[test]
fn classify_each_kind() {
    let h = Line::from_str("Disassembly of section .text:");
    match h.inner() {
        AsmLine::SectionHeader(s) => assert_eq!(s.name(), ".text"),
        _ => panic!("expected a section header"),
    }
    let l = Line::from_str("0000000000001000 <main>:");
    match l.inner() {
        AsmLine::Label(x) => {
            assert_eq!(x.name(), "main");
            assert_eq!(x.demangled_name(), "main");
        }
        _ => panic!("expected a label"),
    }
    let i = Line::from_str("    1000:\tpush   rbp");
    match i.inner() {
        AsmLine::Instruction(x) => assert_eq!(x.op(), "push"),
        _ => panic!("expected an instruction"),
    }
    assert!(matches!(Line::from_str("").inner(), AsmLine::Blank));
    assert!(matches!(Line::from_str(" \t ").inner(), AsmLine::Blank));
    assert!(matches!(
        Line::from_str("a.out:     file format elf64-x86-64").inner(),
        AsmLine::Other
    ));
    assert!(matches!(Line::from_str("   ...").inner(), AsmLine::Other));
    assert_eq!(i.as_str(), "    1000:\tpush   rbp");
}

#[test]
fn header_takes_name_up_to_last_colon() {
    let h = Line::from_str("Disassembly of section .text:a:");
    match h.into_inner() {
        AsmLine::SectionHeader(s) => assert_eq!(s.name(), ".text:a"),
        _ => panic!("expected a section header"),
    }
}

#[test]
fn classification_is_repeatable() {
    let text = "0000000000001000 <_ZN4core3fmt5write17h0123456789abcdefE>:";
    let a = Line::from_str(text);
    let b = Line::from_str(text);
    assert!(a.inner().same_as(b.inner()));
    assert_eq!(a.label_text(), "core::fmt::write::h0123456789abcdef");
}

#[test]
fn demangling_is_deterministic() {
    let sym = "_ZN4core7unicode12unicode_data2cc6lookup17h4f90392d718973aaE";
    assert_eq!(demangle(sym), demangle(sym));
    assert_eq!(demangle_no_hash(sym), "core::unicode::unicode_data::cc::lookup");
    let once = demangle_no_hash(sym);
    assert_eq!(demangle_no_hash(&once), once);
}

#[test]
fn default_line_is_blank() {
    let l = Line::default();
    assert_eq!(l.as_str(), "");
    assert!(matches!(l.inner(), AsmLine::Blank));
}

#[test]
fn comparisons_between_lines() {
    let a = Line::from_str("  10:\tmov    rax,1");
    let b = Line::from_str("  20:\tmov    rax,2");
    let c = Line::from_str("  30:\tmov    rax,1");
    assert!(a.same_op(&b));
    assert!(!a.same_content(&b));
    assert!(a.same_content(&c));
    let x = Line::from_str("0000000000001000 <f_ZN1a1b17h0123456789abcdefE>:");
    let y = Line::from_str("0000000000002000 <f_ZN1a1b17hfedcba9876543210E>:");
    assert!(!x.same_label(&y, false));
    assert!(x.same_label(&y, true));
    let s = Line::from_str("Disassembly of section .data:");
    let t = Line::from_str("Disassembly of section .data:");
    assert!(s.same_section(&t));
    assert_eq!(s.section_text(), ".data");
}

#[test]
fn open_stretches_stop_at_line_break() {
    assert!(matches!(Line::from_str("Disassembly of section a\nb:").inner(), AsmLine::Other));
    let h = Line::from_str("Disassembly of section a:b\nc:");
    match h.inner() {
        AsmLine::SectionHeader(s) => assert_eq!(s.name(), "a"),
        _ => panic!("expected a section header"),
    }
}
