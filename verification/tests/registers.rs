//! Registers, labels, conditions and liveness.

use ccc::peephole::helpers::{
    collect_jump_targets, collect_non_nop_indices, extract_jump_target, get_dest_reg, invert_cc,
    is_callee_saved_reg, parse_dotl_number, parse_label_number, parse_setcc, push_dotl,
    replace_reg_family,
};
use ccc::peephole::liveness::{
    are_flags_dead_after, find_label_pos, is_known_31bit_value, is_known_32bit_value,
    is_reg_dead_after, is_reg_dead_after_ext, is_reg_unused_after_ext,
};
use ccc::peephole::types::{
    classify_all, classify_line, reg_name, register_family_fast, LineInfo, LineKind, LineStore,
    MoveSize, REG_NONE,
};

fn code(lines: &[&str]) -> (LineStore, Vec<LineInfo>) {
    let store = LineStore::new(lines.iter().map(|l| l.to_string()).collect());
    let infos = classify_all(&store);
    (store, infos)
}

#[test]
fn registers_have_names_at_four_sizes() {
    for fam in 0..16 {
        for size in 0..4 {
            assert_eq!(register_family_fast(reg_name(size, fam)), fam);
        }
    }
    assert_eq!(reg_name(3, 7), "%dil");
    assert_eq!(register_family_fast("rax"), REG_NONE);
    assert_eq!(register_family_fast("%xmm0"), REG_NONE);
}

#[test]
fn lines_are_classified() {
    let cases = [
        ("", LineKind::Empty),
        (".LBB1:", LineKind::Label),
        ("    jmp .LBB1", LineKind::Jmp),
        ("    jmp *%rax", LineKind::JmpIndirect),
        ("    jne .LBB1", LineKind::CondJmp),
        ("    call f", LineKind::Call),
        ("    ret", LineKind::Ret),
        ("    cmpq %rax, %rbx", LineKind::Cmp),
        ("    testl %eax, %eax", LineKind::Cmp),
        ("    sete %al", LineKind::SetCC { reg: 0 }),
        ("    pushq %rbx", LineKind::Push { reg: 3 }),
        ("    popq %rbx", LineKind::Pop { reg: 3 }),
        ("    movq %rax, %rax", LineKind::SelfMove),
        ("    movq %rax, %rbx", LineKind::Other { dest_reg: 3 }),
        ("    movq %rcx, -8(%rbp)", LineKind::StoreRbp { reg: 1, offset: -8, size: MoveSize::Q }),
        ("    movl -24(%rbp), %edx", LineKind::LoadRbp { reg: 2, offset: -24, size: MoveSize::L }),
    ];
    for (line, kind) in cases {
        assert_eq!(classify_line(line).kind, kind, "{}", line);
    }
    let info = classify_line("    addq %rax, 8(%r15)");
    assert!(info.references(0) && info.references(15) && !info.references(1));
    assert_eq!(get_dest_reg(&classify_line("    movq %rax, %rbx")), 3);
    assert_eq!(get_dest_reg(&classify_line("    ret")), REG_NONE);
}

#[test]
fn registers_are_renamed_at_their_size() {
    assert_eq!(replace_reg_family("movzbl %al, %eax", 0, 9), "movzbl %r9b, %r9d");
    assert_eq!(replace_reg_family("movq (%rax,%rax,2), %r10", 0, 1), "movq (%rcx,%rcx,2), %r10");
    assert_eq!(replace_reg_family("movq %r10, %r1", 1, 2), "movq %r10, %r1");
    assert_eq!(replace_reg_family("", 1, 2), "");
}

#[test]
fn inverted_conditions_are_opposites() {
    let holds = |cc: &str, z: bool, s: bool, o: bool, c: bool, p: bool| match cc {
        "e" | "z" => z,
        "ne" | "nz" => !z,
        "l" => s != o,
        "ge" => s == o,
        "g" => !z && s == o,
        "le" => z || s != o,
        "b" => c,
        "ae" => !c,
        "a" => !c && !z,
        "be" => c || z,
        "s" => s,
        "ns" => !s,
        "o" => o,
        "no" => !o,
        "p" => p,
        "np" => !p,
        _ => panic!("{}", cc),
    };
    let all = [
        "e", "ne", "l", "ge", "g", "le", "b", "ae", "a", "be", "s", "ns", "o", "no", "p", "np",
        "z", "nz",
    ];
    for cc in all {
        assert_eq!(invert_cc(invert_cc(cc)), cc);
        for flags in 0..32 {
            let (z, s, o) = (flags & 1 != 0, flags & 2 != 0, flags & 4 != 0);
            let (c, p) = (flags & 8 != 0, flags & 16 != 0);
            assert_ne!(holds(cc, z, s, o, c, p), holds(invert_cc(cc), z, s, o, c, p));
        }
    }
    assert_eq!(invert_cc("mp"), "mp");
}

#[test]
fn labels_have_numbers() {
    for n in [0, 7, 10, 45, 999, 4_000_000_000, u32::MAX - 1] {
        let mut name = String::new();
        push_dotl(&mut name, n);
        assert_eq!(name, format!(".LBB{}", n));
        assert_eq!(parse_dotl_number(&name), Some(n));
        assert_eq!(parse_label_number(&format!("{}:", name)), Some(n));
        let jump = format!("jmp {}", name);
        assert_eq!(extract_jump_target(&jump), Some(name.as_str()));
    }
    assert_eq!(parse_dotl_number(".LBB"), None);
    assert_eq!(parse_dotl_number(".LBB1x"), None);
    assert_eq!(parse_label_number(".LBB1"), None);
    assert_eq!(parse_label_number("main:"), None);
    assert_eq!(extract_jump_target("jmp *%rax"), None);
    assert_eq!(parse_setcc("setge %al"), Some("ge"));
    assert_eq!(parse_setcc("movq %rax, %rbx"), None);
}

#[test]
fn removed_lines_are_passed_over() {
    let (store, mut infos) = code(&["a", "b", "c", "d", "e"]);
    ccc::peephole::types::mark_nop(&mut infos[2]);
    assert_eq!(collect_non_nop_indices(&store, &infos, 1, 2), vec![1, 3]);
    assert_eq!(collect_non_nop_indices(&store, &infos, 4, 7), vec![4]);
}

// ── Liveness ────────────────────────────────────────────────────────────────

#[test]
fn overwritten_register_is_dead() {
    let (store, infos) = code(&["    movq %rbx, %rcx", "    movq %rdx, %rbx", "    ret"]);
    // %rbx is read, then overwritten.
    assert!(!is_reg_dead_after(&infos, &store, 0, 3));
    assert!(is_reg_dead_after(&infos, &store, 1, 3));
    // The local scan gives up at the return.
    assert!(!is_reg_dead_after(&infos, &store, 2, 0));
    assert!(!is_reg_dead_after(&infos, &store, 2, 6));
    // For the other scan, %rax is returned, %rsi is not.
    let targets = collect_jump_targets(&store, &infos);
    assert!(!is_reg_dead_after_ext(&infos, &store, 2, 0, &targets));
    assert!(is_reg_dead_after_ext(&infos, &store, 2, 6, &targets));
    // Nothing is known behind the end.
    assert!(!is_reg_dead_after(&infos, &store, 3, 6));
    assert!(!is_reg_dead_after(&infos, &store, 40, 6));
    assert!(!is_reg_dead_after_ext(&infos, &store, 40, 6, &targets));
    assert!(!is_reg_unused_after_ext(&infos, &store, 40, 6, &targets));
    assert!(!are_flags_dead_after(&infos, &store, 40));
}

#[test]
fn partial_use_keeps_a_register_alive() {
    let (store, infos) = code(&["    addq $1, %rbx", "    ret"]);
    assert!(!is_reg_dead_after(&infos, &store, 0, 3));
    let (store, infos) = code(&["    leaq 8(%rbx), %rbx", "    ret"]);
    assert!(!is_reg_dead_after(&infos, &store, 0, 3));
    let (store, infos) = code(&["    leaq 8(%rcx), %rbx", "    ret"]);
    assert!(is_reg_dead_after(&infos, &store, 0, 3));
}

#[test]
fn move_that_reads_its_destination_is_a_use() {
    let (store, infos) = code(&["    movq (%rax), %rax", "    ret"]);
    assert!(!is_reg_dead_after(&infos, &store, 0, 0));
    let (store, infos) = code(&["    movzbl %ah, %eax", "    ret"]);
    assert!(!is_reg_dead_after(&infos, &store, 0, 0));
    let (store, infos) = code(&["    movb $1, %al", "    ret"]);
    assert!(!is_reg_dead_after(&infos, &store, 0, 0));
    let (store, infos) = code(&["    movq (%rcx), %rax", "    ret"]);
    assert!(is_reg_dead_after(&infos, &store, 0, 0));
    let (store, infos) = code(&["    xorl %eax, %eax", "    ret"]);
    assert!(is_reg_dead_after(&infos, &store, 0, 0));
}

#[test]
fn local_scan_gives_up_at_control_flow() {
    for line in ["    ret", "    call f", "    jmp .LBB1", "    jne .LBB1", ".LBB1:", "    jmp *%rax"] {
        let (store, infos) = code(&[line, "    movq $0, %rcx", "    ret"]);
        assert!(!is_reg_dead_after(&infos, &store, 0, 1));
    }
}

#[test]
fn registers_that_are_not_named_are_used() {
    // %rax and %rdx.
    for line in ["    idivl %ecx", "    mulq %rcx", "    imulq %rcx", "    cltd", "    cqto"] {
        let (store, infos) = code(&[line, "    movq $0, %rax", "    movq $0, %rdx", "    ret"]);
        assert!(!is_reg_dead_after(&infos, &store, 0, 0));
        assert!(!is_reg_dead_after(&infos, &store, 0, 2));
    }
    // %rcx, %rsi and %rdi.
    let (store, infos) = code(&[
        "    rep movsb",
        "    movq $0, %rcx",
        "    movq $0, %rsi",
        "    movq $0, %rdi",
        "    movq $0, %rbx",
        "    ret",
    ]);
    for reg in [1, 6, 7] {
        assert!(!is_reg_dead_after(&infos, &store, 0, reg));
        assert!(is_reg_dead_after(&infos, &store, 1, reg));
    }
    assert!(is_reg_dead_after(&infos, &store, 0, 3));
}

#[test]
fn exchange_uses_what_it_names() {
    let lines = ["    movq $0, %rax", "    movq $0, %rbx", "    movq $0, %rcx", "    movq $0, %rdx"];
    let after = |line: &str, reg: u8| {
        let mut all = vec![line];
        all.extend(lines);
        let (store, infos) = code(&all);
        is_reg_dead_after(&infos, &store, 0, reg)
    };
    for line in ["    xchgq %rbx, %rcx", "    lock; xaddq %rbx, (%rcx)"] {
        assert!(!after(line, 3) && !after(line, 1));
        assert!(after(line, 0) && after(line, 2));
    }
    assert!(!after("    lock cmpxchgq %rbx, (%rcx)", 0));
    assert!(after("    lock cmpxchgq %rbx, (%rcx)", 2));
    assert!(!after("    cmpxchg16b (%rdi)", 2) && !after("    cpuid", 3));
    assert!(!after("    syscall", 1) && after("    syscall", 3));
    assert!(after("    leave", 3));
}

#[test]
fn call_kills_what_it_need_not_keep() {
    let (store, infos) = code(&["    call f", "    ret"]);
    let targets = collect_jump_targets(&store, &infos);
    // %rcx, %rbx, %rsp and %rbp.
    assert!(is_reg_dead_after_ext(&infos, &store, 0, 1, &targets));
    assert!(!is_reg_dead_after_ext(&infos, &store, 0, 3, &targets));
    assert!(!is_reg_dead_after_ext(&infos, &store, 0, 4, &targets));
    assert!(!is_reg_dead_after_ext(&infos, &store, 0, 5, &targets));
    // An argument may be read.
    assert!(!is_reg_unused_after_ext(&infos, &store, 0, 1, &targets));
    assert!(is_callee_saved_reg(3) && !is_callee_saved_reg(1));
}

#[test]
fn both_ways_of_a_branch_count() {
    let lines = [
        "    jne .LBB1",
        "    movq $1, %rcx",
        "    ret",
        ".LBB1:",
        "    movq %rcx, %rax",
        "    ret",
    ];
    let (store, infos) = code(&lines);
    let targets = collect_jump_targets(&store, &infos);
    assert!(!is_reg_dead_after_ext(&infos, &store, 0, 1, &targets));
    assert!(is_reg_dead_after_ext(&infos, &store, 1, 1, &targets));
    assert!(is_reg_dead_after_ext(&infos, &store, 0, 2, &targets));
    // The local scan does not pass the branch.
    assert!(!is_reg_dead_after(&infos, &store, 0, 2));
    assert_eq!(find_label_pos(&infos, &store, ".LBB1"), Some(4));
    assert_eq!(find_label_pos(&infos, &store, ".LBB2"), None);
}

#[test]
fn scan_gives_up_after_some_instructions() {
    let mut lines = vec!["    movq %rsi, %rdi"; 16];
    lines.push("    movq $0, %rcx");
    let (store, infos) = code(&lines);
    assert!(!is_reg_dead_after(&infos, &store, 0, 1));
    assert!(is_reg_dead_after(&infos, &store, 1, 1));
}

#[test]
fn flags_are_dead_until_they_are_read() {
    let (store, infos) = code(&["    movq %rax, %rbx", "    cmpq $0, %rax", "    jne .LBB1"]);
    assert!(are_flags_dead_after(&infos, &store, 0));
    assert!(!are_flags_dead_after(&infos, &store, 2));
    let (store, infos) = code(&["    leaq 1(%rax), %rax", "    sete %al"]);
    assert!(!are_flags_dead_after(&infos, &store, 0));
    let (store, infos) = code(&["    adcq $0, %rax"]);
    assert!(!are_flags_dead_after(&infos, &store, 0));
    for line in [
        "    addq $1, %rax",
        "    xorl %eax, %eax",
        "    negq %rcx",
        "    andb $1, %al",
        "    shlq $3, %rcx",
        "    sarl $31, %ecx",
    ] {
        let (store, infos) = code(&[line, "    je .LBB1"]);
        assert!(are_flags_dead_after(&infos, &store, 0));
    }
    // These leave all the flags, or some of them.
    for line in [
        "    notq %rax",
        "    incq %rax",
        "    shlq %cl, %rax",
        "    shrq $0, %rax",
        "    shrl $32, %eax",
        "    addsd %xmm1, %xmm0",
        "    nop",
    ] {
        let (store, infos) = code(&[line, "    je .LBB1"]);
        assert!(!are_flags_dead_after(&infos, &store, 0));
    }
}

#[test]
fn narrow_values_are_known() {
    let (store, infos) = code(&["    movl %ecx, %eax", "    movq %rdx, %rbx", "    movslq %esi, %rdi"]);
    assert!(is_known_32bit_value(&infos, &store, 3, 0));
    assert!(!is_known_32bit_value(&infos, &store, 3, 3));
    assert!(!is_known_32bit_value(&infos, &store, 3, 7));
    assert!(!is_known_32bit_value(&infos, &store, 0, 0));
    let (store, infos) = code(&["    movl %ecx, %eax", "    imull %ecx", "    mulq %rdi"]);
    // Neither the factor of a product nor the product is known.
    assert!(is_known_32bit_value(&infos, &store, 1, 0));
    assert!(!is_known_32bit_value(&infos, &store, 2, 1));
    assert!(!is_known_32bit_value(&infos, &store, 3, 0));
    let (store, infos) = code(&["    andl $7, %eax", "    movzbl %cl, %ecx", "    movl %esi, %edx"]);
    assert!(is_known_31bit_value(&infos, &store, 3, 0));
    assert!(is_known_31bit_value(&infos, &store, 3, 1));
    assert!(!is_known_31bit_value(&infos, &store, 3, 2));
    assert!(is_known_32bit_value(&infos, &store, 3, 2));
    for line in ["    movl $5, %edi", "    xorl %edi, %edi", "    shrl $1, %edi"] {
        let (store, infos) = code(&[line]);
        assert!(is_known_31bit_value(&infos, &store, 1, 7));
    }
    for line in ["    movl $-1, %edi", "    xorl %esi, %edi", "    shrl $0, %edi", "    shrl %cl, %edi"] {
        let (store, infos) = code(&[line]);
        assert!(!is_known_31bit_value(&infos, &store, 1, 7));
        assert!(is_known_32bit_value(&infos, &store, 1, 7));
    }
}
