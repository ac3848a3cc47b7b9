//! Patterns of neighbouring lines.

use ccc::peephole::address_folds::{
    fold_address_through_secondary, fold_double_to_leaq, fold_movq_addimm_to_leaq,
    fold_scaled_address_into_load, parse_addq_reg_reg, parse_leaq_double,
};
use ccc::peephole::combined::combined_local_pass;
use ccc::peephole::local_patterns::{fold_xmm_through_accumulator, fuse_movq_ext_truncation};
use ccc::peephole::narrow::narrow_64_to_32;
use ccc::peephole::routing::{
    fold_accumulator_routing, fold_commutative_through_temp, fold_increment_in_place,
    is_commutative_op, match_arith_imm_reg, parse_binop_reg_reg, redirect_load_destination,
};
use ccc::peephole::types::{classify_all, register_family_fast, LineInfo, LineStore};

type Pass = fn(&mut LineStore, &mut [LineInfo]) -> bool;

/// The lines after a pass, without those removed, and whether it changed any.
fn run(pass: Pass, lines: &[&str]) -> (Vec<String>, bool) {
    let mut store = LineStore::new(lines.iter().map(|l| l.to_string()).collect());
    let mut infos = classify_all(&store);
    let changed = pass(&mut store, &mut infos);
    let mut out = Vec::new();
    for i in 0..store.len() {
        if !infos[i].is_nop() {
            out.push(store.get(i).trim().to_string());
        }
    }
    (out, changed)
}

fn becomes(pass: Pass, before: &[&str], after: &[&str]) {
    let (out, changed) = run(pass, before);
    assert_eq!(out, after);
    assert!(changed);
}

fn stays(pass: Pass, lines: &[&str]) {
    let (out, changed) = run(pass, lines);
    let same: Vec<String> = lines.iter().map(|l| l.trim().to_string()).collect();
    assert_eq!(out, same);
    assert!(!changed);
}

// ── The combined pass ───────────────────────────────────────────────────────

#[test]
fn self_move_goes() {
    becomes(combined_local_pass, &["    movq %rax, %rax", "    ret"], &["ret"]);
    stays(combined_local_pass, &["    movq %rax, %rbx", "    ret"]);
}

#[test]
fn reverse_move_goes() {
    becomes(
        combined_local_pass,
        &["    movq %rax, %rbx", "    movq %rbx, %rax"],
        &["movq %rax, %rbx"],
    );
    becomes(
        combined_local_pass,
        &["    movq %rcx, %rbx", "    movq %rdx, -8(%rbp)", "    movq %rbx, %rcx"],
        &["movq %rcx, %rbx", "movq %rdx, -8(%rbp)"],
    );
    stays(
        combined_local_pass,
        &["    movq %rcx, %rbx", "    addq $1, %rbx", "    movq %rbx, %rcx"],
    );
}

#[test]
fn jump_to_next_label_goes() {
    becomes(combined_local_pass, &["    jmp .LBB1", "", ".LBB1:"], &["", ".LBB1:"]);
    stays(combined_local_pass, &["    jmp .LBB2", ".LBB1:", ".LBB2:"]);
}

#[test]
fn branch_over_jump_is_inverted() {
    becomes(
        combined_local_pass,
        &["    jl .LBB1", "    jmp .LBB2", ".LBB1:", "    ret", ".LBB2:"],
        &["jge .LBB2", ".LBB1:", "ret", ".LBB2:"],
    );
    stays(combined_local_pass, &["    jl .LBB3", "    jmp .LBB2", ".LBB1:"]);
}

#[test]
fn load_of_what_was_just_stored_goes() {
    becomes(
        combined_local_pass,
        &["    movq %rbx, -8(%rbp)", "    movq -8(%rbp), %rbx"],
        &["movq %rbx, -8(%rbp)"],
    );
    stays(combined_local_pass, &["    movq %rbx, -8(%rbp)", "    movq -16(%rbp), %rbx"]);
    stays(combined_local_pass, &["    movq %rbx, -8(%rbp)", "    movq -8(%rbp), %rcx"]);
}

#[test]
fn second_extension_goes() {
    becomes(
        combined_local_pass,
        &["    movzbq (%rdi), %rax", "    movzbq %al, %rax"],
        &["movzbq (%rdi), %rax"],
    );
    becomes(combined_local_pass, &["    cltq", "    cltq"], &["cltq"]);
    becomes(
        combined_local_pass,
        &["    addl %ebx, %eax", "    movl %eax, %eax"],
        &["addl %ebx, %eax"],
    );
    stays(combined_local_pass, &["    movl (%rdi), %eax", "    cltq"]);
}

#[test]
fn extension_goes_behind_writes_of_other_registers() {
    becomes(
        combined_local_pass,
        &["    movsbq (%r15), %rax", "    movq %rax, %r13", "    cltq"],
        &["movsbq (%r15), %rax", "movq %rax, %r13"],
    );
    becomes(
        combined_local_pass,
        &["    movsbq (%r15), %rax", "    movq %rax, %r13", "    movsbq %al, %rax"],
        &["movsbq (%r15), %rax", "movq %rax, %r13"],
    );
}

#[test]
fn sign_extension_of_a_zero_extended_value_goes() {
    becomes(
        combined_local_pass,
        &["    movzbl (%rdi), %eax", "    cltq"],
        &["movzbl (%rdi), %eax"],
    );
    becomes(
        combined_local_pass,
        &["    movzwl (%rdi), %eax", "    cltq"],
        &["movzwl (%rdi), %eax"],
    );
}

#[test]
fn second_clear_goes() {
    becomes(
        combined_local_pass,
        &[
            "    xorl %eax, %eax",
            "    movq %rax, -8(%rbp)",
            "    xorl %eax, %eax",
            "    movq %rax, -16(%rbp)",
        ],
        &["xorl %eax, %eax", "movq %rax, -8(%rbp)", "movq %rax, -16(%rbp)"],
    );
    stays(
        combined_local_pass,
        &["    xorl %eax, %eax", ".LBB1:", "    xorl %eax, %eax", "    ret"],
    );
}

#[test]
fn local_patterns_keep_lines() {
    let lines = [
        "f:",
        "    .cfi_startproc",
        "    movq %rbx, %rbx",
        "    movq %rax, -8(%rbp)",
        "    movq -8(%rbp), %rax",
        "    cmpq %rcx, %rax",
        "    jl .L1",
        "    jmp .L2",
        ".L1:",
        "    call g",
        "    jmp .L2",
        ".L2:",
        "    ret",
    ];
    let mut store = LineStore::new(lines.iter().map(|l| l.to_string()).collect());
    let mut infos = classify_all(&store);
    assert!(combined_local_pass(&mut store, &mut infos));
    assert_eq!(store.len(), lines.len());
    let removed = [2, 4, 7, 10];
    for i in 0..lines.len() {
        assert_eq!(infos[i].is_nop(), removed.contains(&i));
        if i == 6 {
            assert_eq!(store.get(i), "    jge .L2");
        } else {
            assert_eq!(store.get(i), lines[i]);
        }
    }
    assert!(!combined_local_pass(&mut store, &mut infos));
}

// ── Moves with an extension ─────────────────────────────────────────────────

#[test]
fn move_and_extension_fuse() {
    let cases = [
        ("    movl %eax, %eax", "movl %ebx, %eax"),
        ("    movslq %eax, %rax", "movslq %ebx, %rax"),
        ("    cltq", "movslq %ebx, %rax"),
        ("    movzbq %al, %rax", "movzbl %bl, %eax"),
        ("    movzwq %ax, %rax", "movzwl %bx, %eax"),
        ("    movsbq %al, %rax", "movsbq %bl, %rax"),
    ];
    for (ext, fused) in cases {
        becomes(fuse_movq_ext_truncation, &["    movq %rbx, %rax", ext], &[fused]);
    }
}

#[test]
fn load_and_extension_fuse() {
    let cases = [
        ("    movl %eax, %eax", "movl -8(%rbp), %eax"),
        ("    cltq", "movslq -8(%rbp), %rax"),
        ("    movzbq %al, %rax", "movzbl -8(%rbp), %eax"),
        ("    movzwq %ax, %rax", "movzwl -8(%rbp), %eax"),
        ("    movsbq %al, %rax", "movsbq -8(%rbp), %rax"),
    ];
    for (ext, fused) in cases {
        becomes(fuse_movq_ext_truncation, &["    movq -8(%rbp), %rax", ext], &[fused]);
    }
}

#[test]
fn move_and_extension_stay_apart() {
    stays(fuse_movq_ext_truncation, &["    movq %rbx, %rcx", "    cltq"]);
    stays(fuse_movq_ext_truncation, &["    movq %rbx, %rax", "    addq $1, %rax", "    cltq"]);
}

#[test]
fn value_from_xmm_goes_straight_to_its_register() {
    becomes(
        fold_xmm_through_accumulator,
        &["    movq %xmm0, %rax", "    movq %rax, %rbx", "    movq %rcx, %rax", "    ret"],
        &["movq %xmm0, %rbx", "movq %rcx, %rax", "ret"],
    );
    // The accumulator holds the return value.
    stays(
        fold_xmm_through_accumulator,
        &["    movq %xmm0, %rax", "    movq %rax, %rbx", "    ret"],
    );
}

#[test]
fn value_from_xmm_goes_straight_to_memory() {
    becomes(
        fold_xmm_through_accumulator,
        &["    movq %xmm0, %rax", "    movq %rax, -48(%rbp)", "    movq $0, %rax", "    ret"],
        &["movsd %xmm0, -48(%rbp)", "movq $0, %rax", "ret"],
    );
    // The address is in the accumulator itself.
    stays(
        fold_xmm_through_accumulator,
        &["    movq %xmm0, %rax", "    movq %rax, (%rax)", "    movq $0, %rax", "    ret"],
    );
    // Reading the accumulator in the move that overwrites it is a use.
    stays(
        fold_xmm_through_accumulator,
        &["    movq %xmm0, %rax", "    movq %rax, -48(%rbp)", "    movq (%rax), %rax", "    ret"],
    );
}

#[test]
fn narrow_value_from_xmm_goes_straight_to_its_place() {
    becomes(
        fold_xmm_through_accumulator,
        &["    movd %xmm0, %eax", "    movl %eax, %ebx", "    movq $0, %rax", "    ret"],
        &["movd %xmm0, %ebx", "movq $0, %rax", "ret"],
    );
    becomes(
        fold_xmm_through_accumulator,
        &["    movd %xmm0, %eax", "    movl %eax, -4(%rbp)", "    xorl %eax, %eax", "    ret"],
        &["movd %xmm0, -4(%rbp)", "xorl %eax, %eax", "ret"],
    );
    stays(
        fold_xmm_through_accumulator,
        &["    movd %xmm0, %eax", "    movl %eax, %ebx", "    movb $0, %al", "    ret"],
    );
}

#[test]
fn implicit_writes_of_the_accumulator_count() {
    stays(
        combined_local_pass,
        &["    movslq (%rdi), %rax", "    cltd", "    idivl %ecx", "    cltq", "    ret"],
    );
    stays(
        combined_local_pass,
        &["    xorl %eax, %eax", "    divl %ecx", "    xorl %eax, %eax", "    ret"],
    );
    becomes(
        combined_local_pass,
        &["    movslq (%rdi), %rax", "    movq %rcx, %rdx", "    cltq", "    ret"],
        &["movslq (%rdi), %rax", "movq %rcx, %rdx", "ret"],
    );
    becomes(
        combined_local_pass,
        &["    xorl %eax, %eax", "    movq %rcx, %rdx", "    xorl %eax, %eax", "    ret"],
        &["xorl %eax, %eax", "movq %rcx, %rdx", "ret"],
    );
    // A constant of more than 32 bits is not its own extension.
    stays(combined_local_pass, &["    movq $4294967295, %rax", "    cltq", "    ret"]);
    becomes(
        combined_local_pass,
        &["    movq $-5, %rax", "    cltq", "    ret"],
        &["movq $-5, %rax", "ret"],
    );
}

// ── Narrowing ───────────────────────────────────────────────────────────────

#[test]
fn masked_test_is_narrowed() {
    becomes(
        narrow_64_to_32,
        &["    andq $8192, %rdi", "    movslq %edi, %rax", "    testq %rax, %rax"],
        &["andl $8192, %edi", "movl %edi, %eax", "testl %eax, %eax"],
    );
}

#[test]
fn mask_is_narrowed_in_range() {
    becomes(narrow_64_to_32, &["    andq $0, %rax"], &["andl $0, %eax"]);
    becomes(narrow_64_to_32, &["    andq $2147483647, %rax"], &["andl $2147483647, %eax"]);
    stays(narrow_64_to_32, &["    andq $2147483648, %rax"]);
    stays(narrow_64_to_32, &["    andq $-1, %rax"]);
}

#[test]
fn extension_of_a_narrow_value_goes() {
    becomes(
        narrow_64_to_32,
        &["    movzwl %bx, %ecx", "    movslq %ecx, %rcx"],
        &["movzwl %bx, %ecx"],
    );
    becomes(
        narrow_64_to_32,
        &["    andl $255, %ecx", "    movslq %ecx, %rdx"],
        &["andl $255, %ecx", "movl %ecx, %edx"],
    );
    // The sign bit may be set.
    stays(narrow_64_to_32, &["    addl %ebx, %ecx", "    movslq %ecx, %rcx"]);
    stays(narrow_64_to_32, &["    movl $-1, %edi", "    movslq %edi, %rax", "    ret"]);
    stays(narrow_64_to_32, &["    andl $-16, %edi", "    movslq %edi, %rax", "    ret"]);
    // The quotient is written without being named.
    stays(narrow_64_to_32, &["    movl %ebx, %eax", "    mulq %rcx", "    testq %rax, %rax"]);
    stays(narrow_64_to_32, &["    addq %rbx, %rcx", "    movslq %ecx, %rcx"]);
    stays(narrow_64_to_32, &["    addl %ebx, %ecx", ".LBB1:", "    testq %rcx, %rcx"]);
}

// ── Addresses ───────────────────────────────────────────────────────────────

#[test]
fn address_is_used_where_it_is() {
    becomes(
        fold_address_through_secondary,
        &["    movq %r15, %rcx", "    movsbq (%rcx), %rax", "    ret"],
        &["movsbq (%r15), %rax", "ret"],
    );
    becomes(
        fold_address_through_secondary,
        &["    movq %rax, %rcx", "    movq (%rcx), %rax", "    ret"],
        &["movq (%rax), %rax", "ret"],
    );
    becomes(
        fold_address_through_secondary,
        &["    movq %r15, %rcx", "    movb %dl, (%rcx)", "    ret"],
        &["movb %dl, (%r15)", "ret"],
    );
    becomes(
        fold_address_through_secondary,
        &["    movq %r14, %rcx", "    leaq 8(%rcx), %rax", "    ret"],
        &["leaq 8(%r14), %rax", "ret"],
    );
}

#[test]
fn address_that_is_read_later_stays() {
    stays(
        fold_address_through_secondary,
        &["    movq %r15, %rcx", "    movsbq (%rcx), %rax", "    movq %rcx, %rdx", "    ret"],
    );
    stays(
        fold_address_through_secondary,
        &["    movq %r15, %rcx", "    movq %rcx, (%rcx)", "    ret"],
    );
}

#[test]
fn double_becomes_an_address() {
    becomes(
        fold_double_to_leaq,
        &["    movq %rdi, %rsi", "    addq %rdi, %rsi", "    cmpq $0, %rsi"],
        &["leaq (%rdi, %rdi), %rsi", "cmpq $0, %rsi"],
    );
    // The sum decides the branch.
    stays(
        fold_double_to_leaq,
        &["    movq %rdi, %rsi", "    addq %rdi, %rsi", "    jne .LBB1", ".LBB1:"],
    );
}

#[test]
fn sum_with_immediate_becomes_an_address() {
    becomes(
        fold_movq_addimm_to_leaq,
        &["    movq %rdi, %rsi", "    addq $8, %rsi", "    cmpq $0, %rsi"],
        &["leaq 8(%rdi), %rsi", "cmpq $0, %rsi"],
    );
    becomes(
        fold_movq_addimm_to_leaq,
        &["    movq %rdi, %rsi", "    subq $8, %rsi", "    cmpq $0, %rsi"],
        &["leaq -8(%rdi), %rsi", "cmpq $0, %rsi"],
    );
    stays(
        fold_movq_addimm_to_leaq,
        &["    movq %rdi, %rsi", "    addq $8, %rsi", "    sete %al"],
    );
}

#[test]
fn index_goes_into_the_operand() {
    becomes(
        fold_scaled_address_into_load,
        &[
            "    leaq (%rdi, %rdi), %rsi",
            "    addq %rsi, %rdx",
            "    movsbq (%rdx), %rax",
            "    cmpq $0, %rax",
            "    ret",
        ],
        &["movsbq (%rdx, %rdi, 2), %rax", "cmpq $0, %rax", "ret"],
    );
    becomes(
        fold_scaled_address_into_load,
        &["    addq %rsi, %rdx", "    movq (%rdx), %rax", "    cmpq $0, %rax", "    ret"],
        &["movq (%rdx, %rsi), %rax", "cmpq $0, %rax", "ret"],
    );
    stays(
        fold_scaled_address_into_load,
        &[
            "    addq %rsi, %rdx",
            "    movq (%rdx), %rax",
            "    cmpq $0, %rdx",
            "    ret",
        ],
    );
}

#[test]
fn sum_that_is_read_stays() {
    stays(
        fold_scaled_address_into_load,
        &["    addq %rdx, %rsi", "    movq %rsi, (%rsi)", "    cmpq $0, %rax", "    ret"],
    );
    // The doubled register is read: only the addition goes.
    becomes(
        fold_scaled_address_into_load,
        &[
            "    leaq (%rdi, %rdi), %rsi",
            "    addq %rsi, %rdx",
            "    movq %rsi, (%rdx)",
            "    cmpq $0, %rax",
            "    ret",
        ],
        &["leaq (%rdi, %rdi), %rsi", "movq %rsi, (%rdx, %rsi)", "cmpq $0, %rax", "ret"],
    );
    // It is overwritten instead.
    becomes(
        fold_scaled_address_into_load,
        &[
            "    leaq (%rdi, %rdi), %rsi",
            "    addq %rsi, %rdx",
            "    movq (%rdx), %rsi",
            "    cmpq $0, %rsi",
            "    ret",
        ],
        &["movq (%rdx, %rdi, 2), %rsi", "cmpq $0, %rsi", "ret"],
    );
}

#[test]
fn lines_that_spare_the_accumulator_are_passed_over() {
    becomes(
        combined_local_pass,
        &["    movslq (%rdi), %rax", "    cqto", "    cltq", "    ret"],
        &["movslq (%rdi), %rax", "cqto", "ret"],
    );
    becomes(
        combined_local_pass,
        &["    xorl %eax, %eax", "    imulq %rbx, %rcx", "    xorl %eax, %eax", "    ret"],
        &["xorl %eax, %eax", "imulq %rbx, %rcx", "ret"],
    );
    stays(
        combined_local_pass,
        &["    xorl %eax, %eax", "    imulq %rbx", "    xorl %eax, %eax", "    ret"],
    );
    stays(
        combined_local_pass,
        &["    movslq (%rdi), %rax", "    xchgq %rax, %rbx", "    cltq", "    ret"],
    );
}

#[test]
fn address_operands_are_read() {
    assert_eq!(parse_leaq_double("leaq (%rdi, %rdi), %rsi"), Some((7, 6)));
    assert_eq!(parse_leaq_double("leaq (%rdi, %rdx), %rsi"), None);
    assert_eq!(parse_leaq_double("leaq (%rdi, %rdi), %rsp"), None);
    assert_eq!(parse_leaq_double("leaq (%rdi, %rdi, 2), %rsi"), None);
    assert_eq!(parse_addq_reg_reg("addq %rax, %r15"), Some((0, 15)));
    assert_eq!(parse_addq_reg_reg("addq %rax, %rax"), None);
    assert_eq!(parse_addq_reg_reg("addq $1, %rax"), None);
    assert_eq!(parse_addq_reg_reg("addq %rbp, %rax"), None);
}

// ── Detours through a register ──────────────────────────────────────────────

#[test]
fn swapped_operands_are_used_as_they_were() {
    becomes(
        fold_commutative_through_temp,
        &["    movq %rax, %rcx", "    movq %rbx, %rax", "    addq %rcx, %rax", "    ret"],
        &["addq %rbx, %rax", "ret"],
    );
    stays(
        fold_commutative_through_temp,
        &["    movq %rax, %rcx", "    movq %rbx, %rax", "    subq %rcx, %rax", "    ret"],
    );
}

#[test]
fn operations_are_told_apart() {
    assert_eq!(parse_binop_reg_reg("xorl %ecx, %eax"), Some(("xorl", 1, 0)));
    assert_eq!(parse_binop_reg_reg("addq $1, %rax"), None);
    assert_eq!(parse_binop_reg_reg("cltq"), None);
    for op in ["addq", "orl", "xorw", "andq", "imull"] {
        assert!(is_commutative_op(op));
    }
    for op in ["subq", "shlq", "movq", ""] {
        assert!(!is_commutative_op(op));
    }
}

#[test]
fn value_goes_straight_to_its_register() {
    becomes(
        fold_accumulator_routing,
        &["    movq $1, %rax", "    movq %rax, %r10", "    movq %rcx, %rax", "    ret"],
        &["movq $1, %r10", "movq %rcx, %rax", "ret"],
    );
    becomes(
        fold_accumulator_routing,
        &["    movq %rbx, %rax", "    movq %rax, %r11", "    movq %rcx, %rax", "    ret"],
        &["movq %rbx, %r11", "movq %rcx, %rax", "ret"],
    );
    stays(
        fold_accumulator_routing,
        &["    movq $1, %rax", "    movq %rax, %r10", "    ret"],
    );
}

#[test]
fn load_goes_straight_to_its_register() {
    becomes(
        redirect_load_destination,
        &[
            "    movsbq (%r15), %rax",
            "    movq %rax, %r13",
            "    testq %rax, %rax",
            "    movq %rcx, %rax",
            "    ret",
        ],
        &["movsbq (%r15), %r13", "testq %r13, %r13", "movq %rcx, %rax", "ret"],
    );
    // The address is computed from the temporary.
    stays(
        redirect_load_destination,
        &["    movq (%rax), %rax", "    movq %rax, %r13", "    movq %rcx, %rax", "    ret"],
    );
}

#[test]
fn register_is_changed_in_place() {
    becomes(
        fold_increment_in_place,
        &["    movq %r15, %rsi", "    addq $1, %rsi", "    movq %rsi, %r15", "    ret"],
        &["addq $1, %r15", "ret"],
    );
    becomes(
        fold_increment_in_place,
        &["    movq %rbx, %rsi", "    subq $1, %rsi", "    movq %rsi, %rbx", "    ret"],
        &["subq $1, %rbx", "ret"],
    );
    stays(
        fold_increment_in_place,
        &[
            "    movq %r15, %rsi",
            "    addq $1, %rsi",
            "    movq %rsi, %r15",
            "    movq %rsi, %rax",
            "    ret",
        ],
    );
}

#[test]
fn immediates_are_read() {
    assert_eq!(match_arith_imm_reg("addq $5, %rsi", "%rsi"), Some(("addq $", "5")));
    assert_eq!(match_arith_imm_reg("subq $-5, %rsi", "%rsi"), Some(("subq $", "-5")));
    assert_eq!(match_arith_imm_reg("addq $5, %rdi", "%rsi"), None);
    assert_eq!(match_arith_imm_reg("addq %rax, %rsi", "%rsi"), None);
}

// ── No pass makes the code longer ───────────────────────────────────────────

#[test]
fn passes_only_shorten() {
    let passes: [(Pass, usize); 12] = [
        (combined_local_pass, 0),
        (fuse_movq_ext_truncation, 1),
        (fold_xmm_through_accumulator, 1),
        (narrow_64_to_32, 0),
        (fold_address_through_secondary, 1),
        (fold_double_to_leaq, 1),
        (fold_movq_addimm_to_leaq, 1),
        (fold_scaled_address_into_load, 1),
        (fold_commutative_through_temp, 2),
        (fold_accumulator_routing, 1),
        (redirect_load_destination, 1),
        (fold_increment_in_place, 2),
    ];
    let lines = [
        "    movq %rbx, %rax",
        "    cltq",
        "    movq %rax, %rcx",
        "    movq (%rcx), %rdx",
        "    movq %rdi, %rsi",
        "    addq $4, %rsi",
        "    movq %rsi, %rdi",
        "    cmpq %rdx, %rdi",
        "    movq %rdx, %rax",
        "    ret",
    ];
    for (pass, gain) in passes {
        let (out, changed) = run(pass, &lines);
        if changed {
            assert!(out.len() + gain <= lines.len());
        } else {
            assert_eq!(out.len(), lines.len());
        }
    }
}

// ── The folds leave the registers as they were ──────────────────────────────

/// The registers after moves, arithmetic and address computations.
fn simulate(lines: &[String], regs: &mut [u64; 16]) {
    for line in lines {
        let (op, rest) = match line.split_once(' ') {
            Some(parts) => parts,
            None => continue,
        };
        let (src, dst) = rest.rsplit_once(", ").unwrap();
        let dst = register_family_fast(dst) as usize;
        let reg = |name: &str| regs[register_family_fast(name) as usize];
        let v = if let Some(imm) = src.strip_prefix('$') {
            imm.parse::<i64>().unwrap() as u64
        } else if let Some((disp, base)) = src.split_once('(') {
            let inner = base.strip_suffix(')').unwrap();
            let sum = inner.split(", ").fold(0u64, |sum, name| sum.wrapping_add(reg(name)));
            let disp = if disp.is_empty() { 0 } else { disp.parse::<i64>().unwrap() };
            sum.wrapping_add(disp as u64)
        } else {
            reg(src)
        };
        let old = regs[dst];
        regs[dst] = match op {
            "movq" | "leaq" => v,
            "addq" => old.wrapping_add(v),
            "subq" => old.wrapping_sub(v),
            "xorq" => old ^ v,
            "imulq" => old.wrapping_mul(v),
            "andq" => old & v,
            "andl" => (old & v) & 0xffff_ffff,
            "addl" => old.wrapping_add(v) & 0xffff_ffff,
            "cmpq" => old,
            _ => panic!("{}", line),
        };
    }
}

#[test]
fn folds_leave_the_same_registers() {
    // The pass, the lines, and the register that is dropped.
    let cases: [(Pass, &[&str], usize); 9] = [
        (
            fold_double_to_leaq,
            &["    movq %rdi, %rsi", "    addq %rdi, %rsi", "    cmpq $0, %rsi"],
            16,
        ),
        (
            fold_movq_addimm_to_leaq,
            &["    movq %rdi, %rsi", "    addq $-8, %rsi", "    cmpq $0, %rsi"],
            16,
        ),
        (
            fold_movq_addimm_to_leaq,
            &["    movq %rdi, %rsi", "    subq $9, %rsi", "    cmpq $0, %rsi"],
            16,
        ),
        (
            fold_accumulator_routing,
            &["    movq %rbx, %rax", "    movq %rax, %r11", "    movq %rcx, %rax", "    ret"],
            0,
        ),
        (
            fold_increment_in_place,
            &["    movq %r15, %rsi", "    subq $3, %rsi", "    movq %rsi, %r15", "    ret"],
            6,
        ),
        (
            fold_commutative_through_temp,
            &["    movq %rax, %rcx", "    movq %rbx, %rax", "    imulq %rcx, %rax", "    ret"],
            1,
        ),
        (
            fold_commutative_through_temp,
            &["    movq %rax, %rcx", "    movq %rbx, %rax", "    xorq %rcx, %rax", "    ret"],
            1,
        ),
        (
            fold_commutative_through_temp,
            &["    movq %rax, %rcx", "    movq %rbx, %rax", "    addl %ecx, %eax", "    ret"],
            1,
        ),
        (narrow_64_to_32, &["    andq $2147483647, %r9"], 16),
    ];
    for (pass, lines, dropped) in cases {
        let (out, changed) = run(pass, lines);
        assert!(changed);
        let before: Vec<String> = lines.iter().map(|l| l.trim().to_string()).collect();
        for seed in [0u64, 1, 0x8000_0000, u64::MAX / 3] {
            let mut there = [0u64; 16];
            for (i, r) in there.iter_mut().enumerate() {
                *r = seed.wrapping_mul(2 * i as u64 + 1).wrapping_sub(i as u64);
            }
            let mut here = there;
            simulate(&before, &mut there);
            simulate(&out, &mut here);
            for r in 0..16 {
                assert!(r == dropped || here[r] == there[r]);
            }
        }
    }
}
