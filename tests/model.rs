use asm_diff::{block_diff, line_diff, row_kind, section_diff, AsmFile, DisplayFilter, Line, Row};

const TEXT: &str = "\na.out:     file format elf64-x86-64\n\n\nDisassembly of section .text:\n\n0000000000001000 <_start>:\n    1000:\tpush   rbp\n    1001:\tmov    rax,1\n\n0000000000001010 <main>:\n    1010:\tret    \n\nDisassembly of section .data:\n\n0000000000002000 <value>:\n    2000:\tadd    BYTE PTR [rax],al\n";

fn texts(v: &[Line]) -> Vec<String> {
    v.iter().map(|l| l.as_str().to_string()).collect()
}

#[test]
fn sections_in_order() {
    let m = AsmFile::read_asm(TEXT);
    let names: Vec<String> = m.sections().iter().map(|l| l.section_text().to_string()).collect();
    assert_eq!(names, vec![".text", ".data"]);
    assert_eq!(m.len(), 18);
}

#[test]
fn blocks_and_block_lines() {
    let m = AsmFile::read_asm(TEXT);
    let blocks = m.get_section_blocks(".text").unwrap();
    let labels: Vec<String> = blocks.iter().map(|l| l.label_text().to_string()).collect();
    assert_eq!(labels, vec!["_start", "main"]);
    let lines = m.get_block_lines(".text", 0).unwrap();
    assert_eq!(texts(&lines), vec!["    1000:\tpush   rbp", "    1001:\tmov    rax,1"]);
    assert_eq!(texts(&m.get_block_lines(".text", 1).unwrap()), vec!["    1010:\tret    "]);
    assert_eq!(texts(&m.get_block_lines(".data", 0).unwrap()), vec!["    2000:\tadd    BYTE PTR [rax],al"]);
}

#[test]
fn missing_section_or_block_is_none() {
    let m = AsmFile::read_asm(TEXT);
    assert!(m.get_section_blocks(".bss").is_none());
    assert!(m.get_block_lines(".bss", 0).is_none());
    assert!(m.get_block_lines(".text", 2).is_none());
}

#[test]
fn statistics() {
    let m = AsmFile::read_asm(TEXT);
    let s = m.get_stats();
    assert_eq!((s.sections, s.labels, s.instructions, s.blanks, s.others), (2, 3, 4, 8, 1));
    let per: Vec<(usize, usize, usize, usize, usize)> = m
        .section_stats()
        .iter()
        .map(|s| (s.sections, s.labels, s.instructions, s.blanks, s.others))
        .collect();
    assert_eq!(per, vec![(1, 2, 3, 3, 0), (1, 1, 1, 2, 0)]);
}

#[test]
fn model_round_trip() {
    let m = AsmFile::read_asm(TEXT);
    let mut rebuilt: Vec<String> = Vec::new();
    for header in m.sections() {
        let name = header.section_text().to_string();
        rebuilt.push(header.as_str().to_string());
        let blocks = m.get_section_blocks(&name).unwrap();
        for (k, label) in blocks.iter().enumerate() {
            rebuilt.push(label.as_str().to_string());
            rebuilt.extend(texts(&m.get_block_lines(&name, k).unwrap()));
        }
    }
    let expected: Vec<String> = TEXT
        .split('\n')
        .filter(|l| !l.trim().is_empty() && !l.starts_with("a.out"))
        .map(|l| l.to_string())
        .collect();
    assert_eq!(rebuilt, expected);
}

#[test]
fn push_builds_the_tree() {
    let mut m = AsmFile::new();
    m.push(Line::from_str("    1000:\tnop"));
    m.push(Line::from_str("0000000000001000 <f>:"));
    m.push(Line::from_str("    1001:\tret    "));
    assert!(m.sections().is_empty());
    assert_eq!(m.len(), 3);
    m.push(Line::from_str("Disassembly of section .text:"));
    assert_eq!(m.sections().len(), 1);
    assert_eq!(m.get_section_blocks(".text").unwrap().len(), 0);
}

#[test]
fn block_lines_scenario_partial_match() {
    let left = AsmFile::read_asm("Disassembly of section .text:\n0000000000001000 <f>:\n  1000:\tpush   rbp\n  1001:\tmov    rax,1\n  1005:\tpop    rbp\n");
    let right = AsmFile::read_asm("Disassembly of section .text:\n0000000000001000 <f>:\n  1000:\tpush   rbp\n  1001:\tmov    rax,2\n  1005:\tpop    rbp\n");
    let c = line_diff(&left, &right, ".text", 0, 0).unwrap();
    assert_eq!(c.pairs, vec![(Some(0), Some(0)), (Some(1), Some(1)), (Some(2), Some(2))]);
    let rows: Vec<Row> = c
        .pairs
        .iter()
        .map(|p| {
            let total = c.left[p.0.unwrap()].same_content(&c.right[p.1.unwrap()]);
            row_kind(*p, total)
        })
        .collect();
    assert!(rows == vec![Row::Match, Row::Partial, Row::Match]);
    assert!(line_diff(&left, &right, ".text", 1, 0).is_none());
}

#[test]
fn sections_reordered_still_match() {
    let left = AsmFile::read_asm("Disassembly of section text:\nDisassembly of section data:\n");
    let right = AsmFile::read_asm("Disassembly of section data:\nDisassembly of section text:\n");
    let c = section_diff(&left, &right);
    assert_eq!(c.pairs, vec![(Some(0), Some(1)), (Some(1), Some(0))]);
}

#[test]
fn blocks_aligned_by_name() {
    let left = AsmFile::read_asm("Disassembly of section .text:\n0000000000001000 <a>:\n0000000000001010 <b>:\n0000000000001020 <c>:\n");
    let right = AsmFile::read_asm("Disassembly of section .text:\n0000000000004000 <c>:\n0000000000004010 <a>:\n0000000000004020 <d>:\n");
    let c = block_diff(&left, &right, ".text", false).unwrap();
    assert_eq!(c.pairs, vec![(Some(0), Some(1)), (Some(2), Some(0)), (Some(1), None), (None, Some(2))]);
    assert!(block_diff(&left, &right, ".data", true).is_none());
}

#[test]
fn filter_rows() {
    let all = DisplayFilter { only_diff: false, only_adds: false, only_dels: false, only_dels_and_adds: false };
    assert!(all.shows(Row::Match) && all.shows(Row::Partial) && all.shows(Row::Deletion) && all.shows(Row::Insertion));
    let diff_only = DisplayFilter { only_diff: true, ..all };
    assert!(!diff_only.shows(Row::Match) && diff_only.shows(Row::Partial));
    let adds = DisplayFilter { only_adds: true, ..all };
    assert!(adds.shows(Row::Insertion) && !adds.shows(Row::Deletion) && !adds.shows(Row::Partial) && !adds.shows(Row::Match));
    let dels = DisplayFilter { only_dels: true, ..all };
    assert!(!dels.shows(Row::Insertion) && dels.shows(Row::Deletion));
    let both = DisplayFilter { only_dels_and_adds: true, ..all };
    assert!(both.shows(Row::Insertion) && both.shows(Row::Deletion) && !both.shows(Row::Partial));
    assert!(both.shows(Row::Gap));
    assert!(row_kind((None, None), false) == Row::Gap);
    assert!(row_kind((Some(1), None), false) == Row::Deletion);
    assert!(row_kind((None, Some(1)), true) == Row::Insertion);
}
