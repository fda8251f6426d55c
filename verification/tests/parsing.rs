use schemec::lexer::Token;
use schemec::lexer::tokenize;
use schemec::parser::Expr;
use schemec::parser::Node;
use schemec::parser::ParseError;
use schemec::parser::Parser;

fn parsed(src: &str) -> Parser {
    let mut parser = Parser::new(tokenize(src));
    parser.parse_program().expect("parse should succeed");
    parser
}

fn parse_err(src: &str) -> ParseError {
    let mut parser = Parser::new(tokenize(src));
    parser.parse_program().expect_err("parse should fail")
}

#[test]
fn parse_literal() {
    let p = parsed("5");
    assert_eq!(p.node_list.len(), 1);
    assert!(matches!(p.node_list[0], Node::Expr(Expr::Int(5))));
}

#[test]
fn parse_define_global() {
    let p = parsed("(define x 7) x");
    let globals = p.env.globals();
    assert_eq!(globals.len(), 1);
    assert_eq!(globals[0].0, "x");
    assert_eq!(p.node_list.len(), 2);
    match &p.node_list[0] {
        Node::Defn(d) => {
            assert_eq!(d.var, 0);
            assert!(matches!(d.expr, Expr::Int(7)));
        },
        _ => panic!("first form should be a definition"),
    }
    assert!(matches!(p.node_list[1], Node::Expr(Expr::Var(0))));
}

#[test]
fn parse_duplicate_global_reuses_binding() {
    // a redefinition reuses the binding, so `.data` declares it once
    let p = parsed("(define x 1) (define x 2)");
    assert_eq!(p.env.globals().len(), 1);
}

#[test]
fn parse_primitive_rewrites_to_label() {
    let p = parsed("(+ 2 3)");
    match &p.node_list[0] {
        Node::Expr(Expr::Call { proc, params }) => {
            match &**proc {
                Expr::Proc(label, fvs) => {
                    assert_eq!(label, "add");
                    assert_eq!(fvs.len(), 0);
                },
                _ => panic!("callee should be the primitive routine"),
            }
            assert_eq!(params.len(), 2);
        },
        _ => panic!("form should be an application"),
    }
}

#[test]
fn parse_if_form() {
    let p = parsed("(if (< 1 2) 10 20)");
    assert!(matches!(p.node_list[0], Node::Expr(Expr::If { .. })));
}

#[test]
fn parse_lambda_record() {
    let p = parsed("((lambda (x) (+ x 1)) 41)");
    assert_eq!(p.proc_list.len(), 1);
    let lam = &p.proc_list[0];
    assert_eq!(lam.args_num, 1);
    assert_eq!(lam.local_num, 1);
    assert_eq!(lam.free_num, 0);
    assert_eq!(lam.body.len(), 1);
}

#[test]
fn parse_closure_captures_free_variable() {
    // the inner lambda captures x from the outer one
    let p = parsed("(define add3 (lambda (x) (lambda (y) (+ x y)))) ((add3 10) 5)");
    assert_eq!(p.proc_list.len(), 2);
    let inner = &p.proc_list[0];
    assert_eq!(inner.free_num, 1);
    assert_eq!(inner.args_num, 1);
    let entries = inner.free_vars.iter();
    assert_eq!(entries.len(), 1);
    assert_eq!(entries[0].0, 8);
    assert_eq!(entries[0].1, "x");
    let outer = &p.proc_list[1];
    assert_eq!(outer.free_num, 0);
    assert_eq!(outer.args_num, 1);
}

#[test]
fn parse_propagation_keeps_order() {
    // both captures cross two lambdas; each intermediate set lists them
    // in the same iteration order
    let p = parsed("(lambda (a b) (lambda () (lambda () (+ a b))))");
    assert_eq!(p.proc_list.len(), 3);
    let innermost = &p.proc_list[0];
    let middle = &p.proc_list[1];
    let inner_entries = innermost.free_vars.iter();
    let middle_entries = middle.free_vars.iter();
    assert_eq!(inner_entries.len(), 2);
    assert_eq!(middle_entries.len(), 2);
    assert_eq!(inner_entries[0], (8, "a".to_string()));
    assert_eq!(inner_entries[1], (16, "b".to_string()));
    assert_eq!(middle_entries[0], (8, "a".to_string()));
    assert_eq!(middle_entries[1], (16, "b".to_string()));
}

#[test]
fn parse_local_define_reserves_slot() {
    let p = parsed("(lambda (x) (define y 1) (+ x y))");
    assert_eq!(p.proc_list.len(), 1);
    let lam = &p.proc_list[0];
    assert_eq!(lam.args_num, 1);
    assert_eq!(lam.local_num, 2);
}

#[test]
fn parse_error_unbound_variable() {
    match parse_err("y") {
        ParseError::UndefinedVariable(name) => assert_eq!(name, "y"),
        e => panic!("unexpected error {:?}", e),
    }
}

#[test]
fn parse_error_close_paren() {
    assert_eq!(parse_err(")"), ParseError::UnexpectedCloseParen);
}

#[test]
fn parse_error_period() {
    assert_eq!(parse_err("."), ParseError::UnexpectedPeriod);
}

#[test]
fn parse_error_define_head() {
    assert_eq!(parse_err("(define 5 5)"), ParseError::ExpectedIdentifier);
}

#[test]
fn parse_error_unclosed() {
    assert_eq!(parse_err("("), ParseError::UnexpectedEnd);
}

#[test]
fn parse_error_formals_not_wrapped() {
    match parse_err("(lambda x 1)") {
        ParseError::Expected(w) => assert_eq!(w, "("),
        e => panic!("unexpected error {:?}", e),
    }
}

#[test]
fn parse_boolean_token() {
    // boolean tokens are part of the token alphabet even though the
    // lexer never produces them
    let mut parser = Parser::new(vec![Token::Bool(true)]);
    parser.parse_program().expect("parse should succeed");
    assert!(matches!(parser.node_list[0], Node::Expr(Expr::Bool(true))));
}
