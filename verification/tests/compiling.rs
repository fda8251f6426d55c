use schemec::codegen::gen_asm;
use schemec::decimal::dec_string;
use schemec::emit::Line;
use schemec::emit::render_line;
use schemec::lexer::tokenize;
use schemec::parser::Parser;

fn compile(src: &str) -> String {
    let mut parser = Parser::new(tokenize(src));
    parser.parse_program().expect("parse should succeed");
    gen_asm(&parser)
}

#[test]
fn decimal_notation() {
    assert_eq!(dec_string(0), "0");
    assert_eq!(dec_string(7), "7");
    assert_eq!(dec_string(12345), "12345");
    assert_eq!(dec_string(1000), "1000");
    assert_eq!(dec_string(18446744073709551615), "18446744073709551615");
}

#[test]
fn line_rendering() {
    assert_eq!(render_line(&Line::SubRsp(16)), "    sub rsp, 16");
    assert_eq!(render_line(&Line::PushImm(-1)), "    push -1");
    assert_eq!(render_line(&Line::PushImm(42)), "    push 42");
    assert_eq!(render_line(&Line::LocalLabel(3)), ".L3:");
    assert_eq!(render_line(&Line::LeaRdiRip("add".to_string())), "    lea rdi, [rip+add]");
}

#[test]
fn preamble_and_runtime() {
    let out = compile("5");
    assert!(out.starts_with(".intel_syntax noprefix\n.global main\n.data\n.text\ncons:\n"));
    assert!(out.contains("car:\n    mov rax, QWORD PTR [rsp+8]\n    mov rax, QWORD PTR [rax]\n    ret\n"));
    assert!(out.contains("mul:\n    mov rax, QWORD PTR [rsp+8]\n    imul rax, QWORD PTR [rsp+16]\n    ret\n"));
    assert!(out.contains("rem:\n    mov rax, QWORD PTR [rsp+8]\n    cqo\n    idiv QWORD PTR [rsp+16]\n    mov rax, rdx\n    ret\n"));
}

#[test]
fn literal_program() {
    // a top-level integer literal becomes the program's return value
    let out = compile("5");
    assert!(out.ends_with(
        "main:\n    push rbp\n    mov rbp, rsp\n    sub rsp, 200\n    push 5\n    pop rax\n    mov rsp, rbp\n    pop rbp\n    ret\n"
    ));
}

#[test]
fn addition_program() {
    let out = compile("(+ 2 3)");
    // arguments are pushed right to left
    assert!(out.contains("    push 3\n    push 2\n"));
    assert!(out.contains("    lea rdi, [rip+add]\n"));
    assert!(out.contains("begin0:\n    cmp rax, 0\n    je end0\n"));
    assert!(out.contains("end0:\n    pop rax\n    call rax\n    add rsp, 16\n    push rax\n"));
}

#[test]
fn conditional_program() {
    let out = compile("(if (< 1 2) 10 20)");
    assert!(out.contains("    lea rdi, [rip+lth]\n"));
    assert!(out.contains("    je .L0\n"));
    assert!(out.contains("    jmp .L1\n"));
    assert!(out.contains(".L0:\n"));
    assert!(out.contains(".L1:\n"));
}

#[test]
fn if_labels_advance_by_two() {
    let out = compile("(if 1 2 3) (if 0 4 5)");
    assert!(out.contains(".L0:\n"));
    assert!(out.contains(".L1:\n"));
    assert!(out.contains(".L2:\n"));
    assert!(out.contains(".L3:\n"));
    assert!(!out.contains(".L4"));
}

#[test]
fn global_reserved_once() {
    let out = compile("(define x 7) x");
    assert_eq!(out.matches("x:\n    .zero 8\n").count(), 1);
    assert!(out.contains("    mov [rip+x], rax\n"));
    assert!(out.contains("    mov rax, [rip+x]\n"));
}

#[test]
fn two_globals_reserved_once_each() {
    let out = compile("(define x 1) (define y 2) (+ x y)");
    assert_eq!(out.matches("x:\n    .zero 8\n").count(), 1);
    assert_eq!(out.matches("y:\n    .zero 8\n").count(), 1);
}

#[test]
fn duplicate_define_reserved_once() {
    let out = compile("(define x 1) (define x 2)");
    assert_eq!(out.matches("x:\n    .zero 8\n").count(), 1);
}

#[test]
fn lambda_application_program() {
    let out = compile("((lambda (x) (+ x 1)) 41)");
    // one routine, no captures: one parameter copy into the 8-byte frame
    assert!(out.contains(
        "_0:\n    push rbp\n    mov rbp, rsp\n    sub rsp, 8\n    mov rax, QWORD PTR [rbp+16]\n    mov QWORD PTR [rbp-8], rax\n"
    ));
    assert!(out.contains("    push 41\n"));
    assert!(out.contains("    lea rdi, [rip+_0]\n"));
}

#[test]
fn closure_program() {
    // the inner lambda captures x: its routine reserves two slots and
    // copies the captured word before the parameter
    let out = compile("(define add3 (lambda (x) (lambda (y) (+ x y)))) ((add3 10) 5)");
    assert!(out.contains(
        "_0:\n    push rbp\n    mov rbp, rsp\n    sub rsp, 16\n    mov rax, QWORD PTR [rbp+16]\n    mov QWORD PTR [rbp-8], rax\n    mov rax, QWORD PTR [rbp+24]\n    mov QWORD PTR [rbp-16], rax\n"
    ));
    assert!(out.contains("_1:\n    push rbp\n    mov rbp, rsp\n    sub rsp, 8\n"));
    // the closure construction site of the inner lambda chains one cell
    assert!(out.contains("    lea rdi, [rip+_0]\n    mov [rax], rdi\n    mov QWORD PTR [rax+8], 0\n    push rax\n    mov rdi, 2\n    mov rsi, 8\n    call calloc\n    mov rdi, [rbp-8]\n    pop rsi\n    mov [rax], rdi\n    mov [rax+8], rsi\n"));
    assert!(out.contains("add3:\n    .zero 8\n"));
}

#[test]
fn negative_literal_from_wraparound() {
    let out = compile("4294967295");
    assert!(out.contains("    push -1\n"));
}

#[test]
fn captured_local_define_boxed() {
    // a local define whose binding an inner lambda captures is boxed
    let out = compile("(lambda (x) (define y 1) (lambda () y) y)");
    assert!(out.contains("    mov rdi, 1\n    mov rsi, 8\n    call calloc\n    pop rdi\n    mov QWORD PTR [rax], rdi\n"));
}
