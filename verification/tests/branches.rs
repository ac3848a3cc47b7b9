//! Compares, branches, loops and join blocks.

use ccc::peephole::compare_branch::{
    fuse_and_test_branch, fuse_compare_and_branch, parse_and_imm, parse_any_reg_mov,
    parse_test_self,
};
use ccc::peephole::join_blocks::inline_join_blocks;
use ccc::peephole::loop_trampoline::{
    eliminate_loop_trampolines, is_movq_reg_reg, register_family_no_prefix,
    rewrite_instruction_register,
};
use ccc::peephole::types::{
    classify_all, register_family_fast, LineInfo, LineStore, REG_NONE,
};

type Pass = fn(&mut LineStore, &mut [LineInfo]) -> bool;

/// The lines after a pass, without those removed, and whether it changed any.
fn run(pass: Pass, lines: &[&str]) -> (Vec<String>, bool) {
    let mut store = LineStore::new(lines.iter().map(|l| l.to_string()).collect());
    let mut infos = classify_all(&store);
    let changed = pass(&mut store, &mut infos);
    let mut out = Vec::new();
    for i in 0..store.len() {
        if !infos[i].is_nop() {
            out.push(store.get(i).trim().to_string());
        }
    }
    (out, changed)
}

fn becomes(pass: Pass, before: &[&str], after: &[&str]) {
    let (out, changed) = run(pass, before);
    assert_eq!(out, after);
    assert!(changed);
}

fn stays(pass: Pass, lines: &[&str]) {
    let (out, changed) = run(pass, lines);
    let same: Vec<String> = lines.iter().map(|l| l.trim().to_string()).collect();
    assert_eq!(out, same);
    assert!(!changed);
}

// ── Compares ────────────────────────────────────────────────────────────────

#[test]
fn compare_and_branch_fuse() {
    becomes(
        fuse_compare_and_branch,
        &[
            "    cmpq %rbx, %rax",
            "    setl %al",
            "    movzbq %al, %rax",
            "    testq %rax, %rax",
            "    jne .LBB2",
        ],
        &["cmpq %rbx, %rax", "jl .LBB2"],
    );
    becomes(
        fuse_compare_and_branch,
        &[
            "    cmpq %rbx, %rax",
            "    setl %al",
            "    movzbq %al, %rax",
            "    testq %rax, %rax",
            "    je .LBB2",
        ],
        &["cmpq %rbx, %rax", "jge .LBB2"],
    );
}

#[test]
fn compare_with_a_stored_result_needs_the_load() {
    becomes(
        fuse_compare_and_branch,
        &[
            "    cmpq %rbx, %rax",
            "    sete %al",
            "    movzbq %al, %rax",
            "    movq %rax, -8(%rbp)",
            "    movq -8(%rbp), %rax",
            "    testq %rax, %rax",
            "    jne .LBB2",
        ],
        &["cmpq %rbx, %rax", "je .LBB2"],
    );
    stays(
        fuse_compare_and_branch,
        &[
            "    cmpq %rbx, %rax",
            "    sete %al",
            "    movzbq %al, %rax",
            "    movq %rax, -8(%rbp)",
            "    testq %rax, %rax",
            "    jne .LBB2",
        ],
    );
}

#[test]
fn compare_without_the_whole_sequence_stays() {
    stays(
        fuse_compare_and_branch,
        &["    cmpq %rbx, %rax", "    setl %al", "    movzbq %al, %rax", "    ret"],
    );
    stays(
        fuse_compare_and_branch,
        &[
            "    cmpq %rbx, %rax",
            "    setl %al",
            "    testq %rax, %rax",
            "    jl .LBB2",
        ],
    );
}

#[test]
fn test_behind_a_mask_goes() {
    // The masked value is returned.
    becomes(
        fuse_and_test_branch,
        &["    andl $8, %eax", "    testl %eax, %eax", "    jne .LBB1", "    ret"],
        &["andl $8, %eax", "jne .LBB1", "ret"],
    );
}

#[test]
fn mask_that_is_only_tested_becomes_a_test() {
    becomes(
        fuse_and_test_branch,
        &[
            "    movq %rbx, %rax",
            "    andl $8, %eax",
            "    testl %eax, %eax",
            "    jne .LBB1",
            ".LBB1:",
            "    movq %rcx, %rax",
            "    ret",
        ],
        &["testl $8, %ebx", "jne .LBB1", ".LBB1:", "movq %rcx, %rax", "ret"],
    );
    becomes(
        fuse_and_test_branch,
        &[
            "    andq $8, %rdi",
            "    movq %rdi, %rsi",
            "    testq %rsi, %rsi",
            "    jne .LBB1",
            "    ret",
            ".LBB1:",
            "    ret",
        ],
        &["testq $8, %rdi", "jne .LBB1", "ret", ".LBB1:", "ret"],
    );
}

#[test]
fn mask_that_is_used_stays() {
    // Where the jump goes.
    becomes(
        fuse_and_test_branch,
        &[
            "    andl $8, %ecx",
            "    testl %ecx, %ecx",
            "    je .LBB1",
            "    ret",
            ".LBB1:",
            "    movq %rcx, %rax",
            "    ret",
        ],
        &["andl $8, %ecx", "je .LBB1", "ret", ".LBB1:", "movq %rcx, %rax", "ret"],
    );
    // Before the jump.
    becomes(
        fuse_and_test_branch,
        &[
            "    andl $8, %ecx",
            "    movl %ecx, -4(%rbp)",
            "    testl %ecx, %ecx",
            "    je .LBB1",
            ".LBB1:",
            "    ret",
        ],
        &["andl $8, %ecx", "movl %ecx, -4(%rbp)", "je .LBB1", ".LBB1:", "ret"],
    );
    // Where the target is not known.
    becomes(
        fuse_and_test_branch,
        &["    andl $8, %ecx", "    testl %ecx, %ecx", "    je .LBB1", "    ret"],
        &["andl $8, %ecx", "je .LBB1", "ret"],
    );
}

#[test]
fn test_of_another_value_stays() {
    stays(
        fuse_and_test_branch,
        &[
            "    andl $8, %eax",
            "    movq %rcx, %rax",
            "    testl %eax, %eax",
            "    je .LBB1",
            "    ret",
            ".LBB1:",
            "    ret",
        ],
    );
    // The upper half counts for the mask, not for the test.
    stays(
        fuse_and_test_branch,
        &["    andq $-8, %rax", "    testl %eax, %eax", "    je .LBB1", "    ret"],
    );
    stays(
        fuse_and_test_branch,
        &["    andl $-8, %eax", "    testq %rax, %rax", "    js .LBB1", "    ret"],
    );
    // A copy keeps the result where the first register is overwritten.
    becomes(
        fuse_and_test_branch,
        &[
            "    andl $8, %eax",
            "    movl %eax, %edx",
            "    movq %rcx, %rax",
            "    testl %edx, %edx",
            "    je .LBB1",
            "    ret",
        ],
        &["andl $8, %eax", "movl %eax, %edx", "movq %rcx, %rax", "je .LBB1", "ret"],
    );
}

#[test]
fn wide_test_of_a_narrow_mask_goes_where_zero_decides() {
    becomes(
        fuse_and_test_branch,
        &["    andl $-16, %ecx", "    testq %rcx, %rcx", "    je .LBB1", "    ret"],
        &["andl $-16, %ecx", "je .LBB1", "ret"],
    );
    // The sign is asked for next.
    stays(
        fuse_and_test_branch,
        &["    andl $-16, %ecx", "    testq %rcx, %rcx", "    je .LBB1", "    js .LBB2", "    ret"],
    );
}

#[test]
fn test_without_a_branch_stays() {
    stays(
        fuse_and_test_branch,
        &["    andl $8, %eax", "    testl %eax, %eax", "    sete %al", "    ret"],
    );
    stays(
        fuse_and_test_branch,
        &["    andl $8, %eax", "    testl %ecx, %ecx", "    jne .LBB1", "    ret"],
    );
}

#[test]
fn operands_are_read() {
    assert_eq!(parse_and_imm("andl $15, %ecx"), Some(("15", 1, false)));
    assert_eq!(parse_and_imm("andq $-8, %rsp"), Some(("-8", 4, true)));
    assert_eq!(parse_and_imm("andl %eax, %ecx"), None);
    assert_eq!(parse_test_self("testq %rax, %rax"), Some(0));
    assert_eq!(parse_test_self("testl %eax, %ecx"), None);
    assert_eq!(parse_any_reg_mov("movl %eax, %r9d"), Some((0, 9)));
    assert_eq!(parse_any_reg_mov("movq (%rax), %r9"), None);
}

// ── Loops ───────────────────────────────────────────────────────────────────

const LOOP: [&str; 10] = [
    ".LBB1:",
    "    movq %r9, %r14",
    "    addq $320, %r14",
    "    cmpq %rdi, %rsi",
    "    jne .LBB2",
    "    jmp .LBB3",
    ".LBB2:",
    "    movq %r14, %r9",
    "    jmp .LBB1",
    ".LBB3:",
];

#[test]
fn trampoline_goes() {
    becomes(
        eliminate_loop_trampolines,
        &LOOP,
        &[
            ".LBB1:",
            "addq $320, %r9",
            "cmpq %rdi, %rsi",
            "jne .LBB1",
            "jmp .LBB3",
            ".LBB3:",
        ],
    );
}

#[test]
fn trampoline_with_two_branches_stays() {
    let mut lines = LOOP.to_vec();
    lines.push("    je .LBB2");
    stays(eliminate_loop_trampolines, &lines);
}

#[test]
fn trampoline_behind_a_loop_that_ends_with_the_value_stays() {
    let mut lines = LOOP.to_vec();
    lines.push("    movq %r14, %rax");
    lines.push("    ret");
    stays(eliminate_loop_trampolines, &lines);
}

#[test]
fn trampoline_of_an_operation_on_both_registers_stays() {
    let mut lines = LOOP.to_vec();
    lines.insert(3, "    addq %r9, %r14");
    stays(eliminate_loop_trampolines, &lines);
    // The product is in other registers than those that are named.
    let mut lines = LOOP.map(|l| l.replace("%r14", "%rdx"));
    lines[2] = "    mulq %rcx".to_string();
    let lines: Vec<&str> = lines.iter().map(|l| l.as_str()).collect();
    stays(eliminate_loop_trampolines, &lines);
}

#[test]
fn trampoline_that_extends_stays() {
    let mut lines = LOOP.to_vec();
    lines[7] = "    movslq %r14d, %r9";
    stays(eliminate_loop_trampolines, &lines);
}

#[test]
fn trampoline_before_a_return_of_the_variable_stays() {
    let lines = LOOP.map(|l| l.replace("%r9", "%rax"));
    let mut lines: Vec<&str> = lines.iter().map(|l| l.as_str()).collect();
    lines.push("    ret");
    stays(eliminate_loop_trampolines, &lines);
    let mut lines = LOOP.to_vec();
    lines.push("    ret");
    assert!(run(eliminate_loop_trampolines, &lines).1);
}

#[test]
fn trampoline_is_shortened_where_a_copy_remains() {
    becomes(
        eliminate_loop_trampolines,
        &[
            ".LBB1:",
            "    movq %r9, %r14",
            "    addq $320, %r14",
            "    jne .LBB2",
            "    jmp .LBB3",
            ".LBB2:",
            "    movq %r14, %r9",
            "    movq %r15, %r10",
            "    jmp .LBB1",
            ".LBB3:",
            "    ret",
        ],
        &[
            ".LBB1:",
            "addq $320, %r9",
            "jne .LBB2",
            "jmp .LBB3",
            ".LBB2:",
            "movq %r15, %r10",
            "jmp .LBB1",
            ".LBB3:",
            "ret",
        ],
    );
}

#[test]
fn names_without_prefix_are_known() {
    let names = [
        "rax", "rcx", "rdx", "rbx", "rsp", "rbp", "rsi", "rdi", "r8", "r9", "r10", "r11", "r12",
        "r13", "r14", "r15",
    ];
    for (i, name) in names.iter().enumerate() {
        assert_eq!(register_family_no_prefix(name) as usize, i);
        assert_eq!(register_family_fast(&format!("%{}", name)) as usize, i);
    }
    assert_eq!(register_family_no_prefix("eax"), 0);
    assert_eq!(register_family_no_prefix("r10d"), 10);
    assert_eq!(register_family_no_prefix("cl"), 1);
    assert_eq!(register_family_no_prefix("dil"), 7);
    for name in ["", "r", "xmm0", "e8", "zz", "r16"] {
        assert_eq!(register_family_no_prefix(name), REG_NONE);
        assert_eq!(register_family_fast(&format!("%{}", name)), REG_NONE);
    }
}

#[test]
fn moves_are_compared_exactly() {
    assert!(is_movq_reg_reg("movq %rax, %r9", "%rax", "%r9"));
    assert!(!is_movq_reg_reg("movq %rax, %r9", "%r9", "%rax"));
    assert!(!is_movq_reg_reg("movq %rax, %r9d", "%rax", "%r9"));
    assert!(!is_movq_reg_reg("movslq %eax, %r9", "%eax", "%r9"));
}

#[test]
fn register_is_renamed_at_every_size() {
    assert_eq!(
        rewrite_instruction_register("movl %eax, 4(%rax,%rcx)", 0, 3),
        Some("movl %ebx, 4(%rbx,%rcx)".to_string()),
    );
    assert_eq!(rewrite_instruction_register("movl %ecx, %edx", 0, 3), None);
}

// ── Join blocks ─────────────────────────────────────────────────────────────

#[test]
fn moves_of_join_blocks_cancel_out() {
    becomes(
        inline_join_blocks,
        &[
            ".LBB45:",
            "    movq %rbx, %r11",
            "    movq %r12, %r10",
            "    jmp .LBB9",
            ".LBB9:",
            "    movq %r11, %r8",
            "    movq %r10, %r9",
            ".LBB6:",
            "    addq $1, %r15",
            "    movq %r8, %rbx",
            "    movq %r9, %r12",
            "    jmp .LBB1",
            ".LBB1:",
            "    ret",
        ],
        &[
            ".LBB45:",
            "addq $1, %r15",
            "jmp .LBB1",
            ".LBB9:",
            "movq %r11, %r8",
            "movq %r10, %r9",
            ".LBB6:",
            "addq $1, %r15",
            "movq %r8, %rbx",
            "movq %r9, %r12",
            "jmp .LBB1",
            ".LBB1:",
            "ret",
        ],
    );
}

#[test]
fn moves_of_join_blocks_are_composed() {
    becomes(
        inline_join_blocks,
        &[
            ".LBB4:",
            "    movq %rbx, %r11",
            "    xorl %ecx, %ecx",
            "    movq $7, %rdx",
            "    jmp .LBB9",
            ".LBB9:",
            "    movq %r11, %r8",
            "    movq %rcx, %r9",
            "    movq %rdx, %r10",
            "    jmp .LBB1",
            ".LBB1:",
            "    ret",
        ],
        &[
            ".LBB4:",
            "movq %rbx, %r8",
            "xorl %r9d, %r9d",
            "movq $7, %r10",
            "jmp .LBB1",
            ".LBB9:",
            "movq %r11, %r8",
            "movq %rcx, %r9",
            "movq %rdx, %r10",
            "jmp .LBB1",
            ".LBB1:",
            "ret",
        ],
    );
}

#[test]
fn moves_of_halves_are_composed() {
    becomes(
        inline_join_blocks,
        &[
            ".LBB1:",
            "    ret",
            ".LBB2:",
            "    movl %ebx, %r11d",
            "    movl $7, %r10d",
            "    jmp .LBB3",
            ".LBB3:",
            "    movq %r11, %r12",
            "    movl %r10d, %r13d",
            "    jmp .LBB1",
        ],
        &[
            ".LBB1:",
            "ret",
            ".LBB2:",
            "movl %ebx, %r12d",
            "movq $7, %r13",
            "jmp .LBB1",
            ".LBB3:",
            "movq %r11, %r12",
            "movl %r10d, %r13d",
            "jmp .LBB1",
        ],
    );
}

#[test]
fn sum_of_a_chain_is_copied() {
    becomes(
        inline_join_blocks,
        &[
            ".LBB1:",
            "    ret",
            ".LBB2:",
            "    movq %rcx, %r8",
            "    movq %rdx, %r9",
            "    jmp .LBB3",
            ".LBB3:",
            "    addq $1, %r15",
            "    movq %r15, %rbx",
            "    jmp .LBB1",
        ],
        &[
            ".LBB1:",
            "ret",
            ".LBB2:",
            "addq $1, %r15",
            "movq %r15, %rbx",
            "jmp .LBB1",
            ".LBB3:",
            "addq $1, %r15",
            "movq %r15, %rbx",
            "jmp .LBB1",
        ],
    );
}

#[test]
fn lines_that_cannot_be_composed_stay() {
    // An addition leads up to the jump.
    stays(
        inline_join_blocks,
        &[
            ".LBB1:",
            "    ret",
            ".LBB2:",
            "    addq $8, %rbx",
            "    jmp .LBB3",
            ".LBB3:",
            "    movq %rbx, %r12",
            "    jmp .LBB1",
        ],
    );
    // Half of an immediate is moved on.
    stays(
        inline_join_blocks,
        &[
            ".LBB1:",
            "    ret",
            ".LBB2:",
            "    movq $-1, %r11",
            "    jmp .LBB3",
            ".LBB3:",
            "    movl %r11d, %r12d",
            "    jmp .LBB1",
        ],
    );
    // A register is added to after it was copied.
    stays(
        inline_join_blocks,
        &[
            ".LBB1:",
            "    ret",
            ".LBB2:",
            "    movq %r15, %rbx",
            "    movq %rcx, %rdx",
            "    jmp .LBB3",
            ".LBB3:",
            "    addq $1, %r15",
            "    movq %rdx, %rcx",
            "    jmp .LBB1",
        ],
    );
    // Two registers are swapped.
    stays(
        inline_join_blocks,
        &[
            ".LBB1:",
            "    ret",
            ".LBB2:",
            "    movq %rbx, %r8",
            "    movq %r12, %r9",
            "    jmp .LBB3",
            ".LBB3:",
            "    movq %r9, %rbx",
            "    movq %r8, %r12",
            "    jmp .LBB1",
        ],
    );
    // A register is added to after it was moved.
    stays(
        inline_join_blocks,
        &[
            ".LBB1:",
            "    ret",
            ".LBB2:",
            "    movq %rbx, %r8",
            "    jmp .LBB3",
            ".LBB3:",
            "    addq $1, %r8",
            "    jmp .LBB1",
        ],
    );
}

#[test]
fn chain_that_takes_more_lines_is_not_inlined() {
    stays(
        inline_join_blocks,
        &[
            ".LBB4:",
            "    movq %rbx, %r11",
            "    jmp .LBB9",
            ".LBB9:",
            "    movq %r11, %r8",
            "    movq %rcx, %r9",
            "    jmp .LBB1",
            ".LBB1:",
            "    ret",
        ],
    );
}

#[test]
fn chain_that_leads_back_is_not_inlined() {
    stays(
        inline_join_blocks,
        &[
            ".LBB4:",
            "    movq %rbx, %r11",
            "    jmp .LBB9",
            ".LBB9:",
            "    movq %r11, %r8",
            "    jmp .LBB9",
        ],
    );
}

#[test]
fn block_with_a_call_is_no_join_block() {
    stays(
        inline_join_blocks,
        &[
            ".LBB4:",
            "    movq %rbx, %r11",
            "    jmp .LBB9",
            ".LBB9:",
            "    movq %r11, %r8",
            "    call f",
            "    jmp .LBB1",
            ".LBB1:",
            "    ret",
        ],
    );
}

/// The registers after moves between registers, of immediates and of zero, and
/// additions.
fn simulate(lines: &[String], regs: &mut [u64; 16]) {
    for line in lines {
        let (op, rest) = match line.split_once(' ') {
            Some(parts) => parts,
            None => continue,
        };
        let (src, dst) = match rest.split_once(", %") {
            Some(parts) => parts,
            None => continue,
        };
        let dst = register_family_no_prefix(dst) as usize;
        let worth = match src.strip_prefix('$') {
            Some(imm) => imm.parse::<u64>().unwrap(),
            None => regs[register_family_no_prefix(&src[1..]) as usize],
        };
        match op {
            "movq" => regs[dst] = worth,
            "addq" => regs[dst] = regs[dst].wrapping_add(worth),
            "xorl" => regs[dst] = 0,
            _ => panic!("{}", line),
        }
    }
}

#[test]
fn composed_moves_leave_the_same_values() {
    let lines = [
        ".LBB4:",
        "    movq %rbx, %r11",
        "    movq %r12, %r10",
        "    xorl %ecx, %ecx",
        "    jmp .LBB9",
        ".LBB9:",
        "    movq %r11, %r8",
        "    movq %r10, %r9",
        ".LBB6:",
        "    addq $1, %r15",
        "    movq %r8, %rdx",
        "    movq %rcx, %rsi",
        "    jmp .LBB1",
        ".LBB1:",
        "    ret",
    ];
    let (out, changed) = run(inline_join_blocks, &lines);
    assert!(changed);
    let before: Vec<String> = lines.iter().map(|l| l.trim().to_string()).collect();
    let mut start = [0u64; 16];
    for (i, r) in start.iter_mut().enumerate() {
        *r = 100 + i as u64;
    }
    let mut there = start;
    simulate(&before[1..12], &mut there);
    let mut here = start;
    let end = out.iter().position(|l| l == ".LBB9:").unwrap();
    simulate(&out[1..end], &mut here);
    // %rdx, %rsi and %r15 are what the last block writes.
    for reg in [2, 6, 15] {
        assert_eq!(here[reg], there[reg]);
    }
    assert_eq!((here[2], here[6], here[15]), (103, 0, 116));
}
