//! Lowering of the IR to assembly lines.
//!
//! The emitter walks the lifted lambdas and the top-level nodes and
//! produces the output line by line: the directive preamble, one `.data`
//! reservation per global, the fixed runtime-support routines, one
//! labeled routine per lifted lambda, and `main`.  The specification
//! functions in this module pin the emitted line sequence down exactly;
//! the executable emitter is proved to produce it.

use vstd::prelude::*;
use crate::parser::Var;
use crate::parser::SpecVar;
use crate::parser::Expr;
use crate::parser::SpecExpr;
use crate::parser::Node;
use crate::parser::SpecNode;
use crate::parser::Defn;
use crate::parser::SpecDefn;
use crate::parser::Lambda;
use crate::parser::SpecLambda;
use crate::parser::Parser;
use crate::parser::FVs;
use crate::parser::fv_contains_name;
use crate::parser::fv_index_of;
use crate::parser::fvs_wf;
use crate::parser::fv_entry_wf;
use crate::parser::var_wf;
use crate::parser::max_len;
use crate::parser::expr_wf;
use crate::parser::exprs_wf;
use crate::parser::node_wf;
use crate::parser::nodes_wf;
use crate::parser::lambda_wf;
use crate::parser::lambdas_wf;
use crate::parser::expr_size;
use crate::parser::exprs_size;
use crate::parser::node_size;
use crate::parser::nodes_size;
use crate::parser::lambdas_size;
use crate::parser::view_expr;
use crate::parser::view_exprs;
use crate::parser::view_node;
use crate::parser::view_nodes;
use crate::parser::view_lambdas;
use crate::parser::lemma_view_exprs;
use crate::parser::view_frame;
use crate::parser::parser_ir_wf;
use crate::parser::parser_ir_size;
use crate::emit::Line;
use crate::emit::SpecLine;
use crate::emit::view_lines;
use crate::emit::spec_render;
use crate::emit::render;

verus! {

broadcast use vstd::std_specs::vec::group_vec_axioms;

/// The images of the binding arena.
pub open spec fn view_vars(s: Seq<Var>) -> Seq<SpecVar> {
    Seq::new(s.len(), |i: int| s[i]@)
}

/// Every binding of the arena is bounded.
pub open spec fn vars_wf(vars: Seq<SpecVar>) -> bool {
    forall|k: int| 0 <= k < vars.len() ==> var_wf(#[trigger] vars[k])
}

/// Number of `if` forms in an expression.
pub open spec fn if_count(e: SpecExpr) -> nat
    decreases e,
{
    match e {
        SpecExpr::Call { proc, params } => if_count(*proc) + ifs_count(params),
        SpecExpr::If { test, conseq, alter } => 1 + if_count(*test) + if_count(*conseq) + if_count(
            *alter,
        ),
        _ => 0,
    }
}

/// Number of `if` forms in an expression sequence.
pub open spec fn ifs_count(s: Seq<SpecExpr>) -> nat
    decreases s,
{
    if s.len() == 0 {
        0
    } else {
        if_count(s[0]) + ifs_count(s.drop_first())
    }
}

/// Number of application forms in an expression.
pub open spec fn call_count(e: SpecExpr) -> nat
    decreases e,
{
    match e {
        SpecExpr::Call { proc, params } => 1 + call_count(*proc) + calls_count(params),
        SpecExpr::If { test, conseq, alter } => call_count(*test) + call_count(*conseq)
            + call_count(*alter),
        _ => 0,
    }
}

/// Number of application forms in an expression sequence.
pub open spec fn calls_count(s: Seq<SpecExpr>) -> nat
    decreases s,
{
    if s.len() == 0 {
        0
    } else {
        call_count(s[0]) + calls_count(s.drop_first())
    }
}

/// `if` forms in a node.
pub open spec fn node_if_count(n: SpecNode) -> nat {
    match n {
        SpecNode::Defn(d) => if_count(d.expr),
        SpecNode::Expr(e) => if_count(e),
    }
}

/// Application forms in a node.
pub open spec fn node_call_count(n: SpecNode) -> nat {
    match n {
        SpecNode::Defn(d) => call_count(d.expr),
        SpecNode::Expr(e) => call_count(e),
    }
}

/// `if` forms in a node sequence.
pub open spec fn nodes_if_count(s: Seq<SpecNode>) -> nat
    decreases s.len(),
{
    if s.len() == 0 {
        0
    } else {
        node_if_count(s[0]) + nodes_if_count(s.drop_first())
    }
}

/// Application forms in a node sequence.
pub open spec fn nodes_call_count(s: Seq<SpecNode>) -> nat
    decreases s.len(),
{
    if s.len() == 0 {
        0
    } else {
        node_call_count(s[0]) + nodes_call_count(s.drop_first())
    }
}

/// `if` forms in the bodies of a lambda sequence.
pub open spec fn procs_if_count(s: Seq<SpecLambda>) -> nat
    decreases s.len(),
{
    if s.len() == 0 {
        0
    } else {
        nodes_if_count(s[0].body) + procs_if_count(s.drop_first())
    }
}

/// Application forms in the bodies of a lambda sequence.
pub open spec fn procs_call_count(s: Seq<SpecLambda>) -> nat
    decreases s.len(),
{
    if s.len() == 0 {
        0
    } else {
        nodes_call_count(s[0].body) + procs_call_count(s.drop_first())
    }
}

/// Both counters of an expression are bounded by its size.
pub proof fn lemma_counts_le_size(e: SpecExpr)
    ensures
        if_count(e) <= expr_size(e),
        call_count(e) <= expr_size(e),
    decreases e,
{
    match e {
        SpecExpr::Call { proc, params } => {
            lemma_counts_le_size(*proc);
            lemma_counts_le_sizes(params);
        },
        SpecExpr::If { test, conseq, alter } => {
            lemma_counts_le_size(*test);
            lemma_counts_le_size(*conseq);
            lemma_counts_le_size(*alter);
        },
        _ => {},
    }
}

/// Both counters of an expression sequence are bounded by its size.
pub proof fn lemma_counts_le_sizes(s: Seq<SpecExpr>)
    ensures
        ifs_count(s) <= exprs_size(s),
        calls_count(s) <= exprs_size(s),
    decreases s,
{
    if s.len() > 0 {
        lemma_counts_le_size(s[0]);
        lemma_counts_le_sizes(s.drop_first());
    }
}

/// Both counters of a node are bounded by its size.
pub proof fn lemma_node_counts_le_size(n: SpecNode)
    ensures
        node_if_count(n) <= node_size(n),
        node_call_count(n) <= node_size(n),
{
    match n {
        SpecNode::Defn(d) => lemma_counts_le_size(d.expr),
        SpecNode::Expr(e) => lemma_counts_le_size(e),
    }
}

/// Both counters of a node sequence are bounded by its size.
pub proof fn lemma_nodes_counts_le_size(s: Seq<SpecNode>)
    ensures
        nodes_if_count(s) <= nodes_size(s),
        nodes_call_count(s) <= nodes_size(s),
    decreases s.len(),
{
    if s.len() > 0 {
        lemma_node_counts_le_size(s[0]);
        lemma_nodes_counts_le_size(s.drop_first());
    }
}

/// Both counters of a lambda sequence are bounded by its body size.
pub proof fn lemma_procs_counts_le_size(s: Seq<SpecLambda>)
    ensures
        procs_if_count(s) <= lambdas_size(s),
        procs_call_count(s) <= lambdas_size(s),
    decreases s.len(),
{
    if s.len() > 0 {
        lemma_nodes_counts_le_size(s[0].body);
        lemma_procs_counts_le_size(s.drop_first());
    }
}

/// The lines that load the value of a resolved variable and push it:
/// globals load RIP-relative; a local resolves through the current
/// lambda's free-variable set when its name is free here, and through
/// its own frame slot past the captured region otherwise.
pub open spec fn spec_gen_var(
    vars: Seq<SpecVar>,
    fvs: Seq<(usize, Seq<char>)>,
    idx: usize,
) -> Seq<SpecLine> {
    match vars[idx as int] {
        SpecVar::Global(name) => seq![SpecLine::LoadGlobal(name), SpecLine::PushRax],
        SpecVar::Local(name, off, _) => if fv_contains_name(fvs, name) {
            seq![SpecLine::PushRbpMinus((8 * (fv_index_of(fvs, name) + 1)) as usize)]
        } else {
            seq![SpecLine::PushRbpMinus((8 * fvs.len() + off) as usize)]
        },
    }
}

/// The lines that chain one closure cell per captured variable onto the
/// closure record under construction, in iteration order; each new cell
/// becomes the head.
pub open spec fn spec_gen_cells(
    fvs: Seq<(usize, Seq<char>)>,
    pfvs: Seq<(usize, Seq<char>)>,
    k: int,
) -> Seq<SpecLine>
    decreases pfvs.len() - k,
{
    if k < 0 || k >= pfvs.len() {
        Seq::empty()
    } else {
        seq![
            SpecLine::PushRax,
            SpecLine::MovRdiImm(2),
            SpecLine::MovRsiImm(8),
            SpecLine::CallCalloc,
            if fv_contains_name(fvs, pfvs[k].1) {
                SpecLine::MovRdiRbpMinus((8 * (fv_index_of(fvs, pfvs[k].1) + 1)) as usize)
            } else {
                SpecLine::MovRdiRbpMinus((8 * fvs.len() + pfvs[k].0) as usize)
            },
            SpecLine::PopRsi,
            SpecLine::MovMemRaxRdi,
            SpecLine::MovMemRax8Rsi,
        ] + spec_gen_cells(fvs, pfvs, k + 1)
    }
}

/// The lines of one expression.  `ifn` and `cn` are the `if`-label and
/// call-label counters on entry; children advance them exactly as
/// [`if_count`] and [`call_count`] say.
pub open spec fn spec_gen_expr(
    vars: Seq<SpecVar>,
    fvs: Seq<(usize, Seq<char>)>,
    e: SpecExpr,
    ifn: int,
    cn: int,
) -> Seq<SpecLine>
    decreases e, 1int,
{
    match e {
        SpecExpr::Bool(b) => seq![
            SpecLine::PushImm(
                if b {
                    1
                } else {
                    0
                },
            ),
        ],
        SpecExpr::Int(v) => seq![SpecLine::PushImm(v)],
        SpecExpr::Var(idx) => spec_gen_var(vars, fvs, idx),
        SpecExpr::Proc(label, pfvs) => seq![
            SpecLine::MovRdiImm(2),
            SpecLine::MovRsiImm(8),
            SpecLine::CallCalloc,
            SpecLine::LeaRdiRip(label),
            SpecLine::MovMemRaxRdi,
            SpecLine::StoreRax8Zero,
        ] + spec_gen_cells(fvs, pfvs, 0) + seq![SpecLine::PushRax],
        SpecExpr::Call { proc, params } => {
            let pl = spec_gen_exprs_rev(vars, fvs, params, ifn, cn);
            let ifn2 = ifn + 2 * ifs_count(params);
            let cn2 = cn + calls_count(params);
            let prl = spec_gen_expr(vars, fvs, *proc, ifn2, cn2);
            let k = (cn2 + call_count(*proc)) as usize;
            pl + prl + seq![
                SpecLine::PopRax,
                SpecLine::BeginLabel(k),
                SpecLine::CmpRaxZero,
                SpecLine::JeEnd(k),
                SpecLine::PushMemRax,
                SpecLine::MovRaxMemRax8,
                SpecLine::JmpBegin(k),
                SpecLine::EndLabel(k),
                SpecLine::PopRax,
                SpecLine::CallRax,
                SpecLine::AddRspImm((8 * params.len()) as usize),
                SpecLine::PushRax,
            ]
        },
        SpecExpr::If { test, conseq, alter } => {
            let t = spec_gen_expr(vars, fvs, *test, ifn + 2, cn);
            let c = spec_gen_expr(
                vars,
                fvs,
                *conseq,
                ifn + 2 + 2 * if_count(*test),
                cn + call_count(*test),
            );
            let a = spec_gen_expr(
                vars,
                fvs,
                *alter,
                ifn + 2 + 2 * (if_count(*test) + if_count(*conseq)),
                cn + call_count(*test) + call_count(*conseq),
            );
            t + seq![SpecLine::PopRax, SpecLine::CmpRaxZero, SpecLine::JeL(ifn as usize)] + c
                + seq![SpecLine::JmpL((ifn + 1) as usize), SpecLine::LocalLabel(ifn as usize)] + a
                + seq![SpecLine::LocalLabel((ifn + 1) as usize)]
        },
    }
}

/// The lines of an argument list, rightmost argument first.
pub open spec fn spec_gen_exprs_rev(
    vars: Seq<SpecVar>,
    fvs: Seq<(usize, Seq<char>)>,
    params: Seq<SpecExpr>,
    ifn: int,
    cn: int,
) -> Seq<SpecLine>
    decreases params, 0int,
{
    if params.len() == 0 {
        Seq::empty()
    } else {
        spec_gen_expr(vars, fvs, params.last(), ifn, cn) + spec_gen_exprs_rev(
            vars,
            fvs,
            params.drop_last(),
            ifn + 2 * if_count(params.last()),
            cn + call_count(params.last()),
        )
    }
}

/// The lines of a definition: its right-hand side, then the store into
/// the binding's location.  A captured local is boxed in a fresh
/// one-cell allocation whose pointer goes into the slot.
pub open spec fn spec_gen_defn(
    vars: Seq<SpecVar>,
    fvs: Seq<(usize, Seq<char>)>,
    d: SpecDefn,
    ifn: int,
    cn: int,
) -> Seq<SpecLine> {
    spec_gen_expr(vars, fvs, d.expr, ifn, cn) + (match vars[d.var as int] {
        SpecVar::Global(name) => seq![SpecLine::PopRax, SpecLine::StoreGlobal(name)],
        SpecVar::Local(_, off, captured) => if captured {
            seq![
                SpecLine::MovRdiImm(1),
                SpecLine::MovRsiImm(8),
                SpecLine::CallCalloc,
                SpecLine::PopRdi,
                SpecLine::StoreRaxRdi,
                SpecLine::MovRbpMinusRax((8 * fvs.len() + off) as usize),
            ]
        } else {
            seq![SpecLine::PopRax, SpecLine::MovRbpMinusRax((8 * fvs.len() + off) as usize)]
        },
    })
}

/// The lines of one body or top-level form.
pub open spec fn spec_gen_node(
    vars: Seq<SpecVar>,
    fvs: Seq<(usize, Seq<char>)>,
    n: SpecNode,
    ifn: int,
    cn: int,
) -> Seq<SpecLine> {
    match n {
        SpecNode::Defn(d) => spec_gen_defn(vars, fvs, d, ifn, cn),
        SpecNode::Expr(e) => spec_gen_expr(vars, fvs, e, ifn, cn),
    }
}

/// The lines of a sequence of forms, in order.
pub open spec fn spec_gen_nodes(
    vars: Seq<SpecVar>,
    fvs: Seq<(usize, Seq<char>)>,
    ns: Seq<SpecNode>,
    ifn: int,
    cn: int,
) -> Seq<SpecLine>
    decreases ns.len(),
{
    if ns.len() == 0 {
        Seq::empty()
    } else {
        spec_gen_node(vars, fvs, ns[0], ifn, cn) + spec_gen_nodes(
            vars,
            fvs,
            ns.drop_first(),
            ifn + 2 * node_if_count(ns[0]),
            cn + node_call_count(ns[0]),
        )
    }
}

/// The copy of captured slot `i` (1-based) from the incoming stack into
/// the frame, then the following ones.
pub open spec fn spec_copy_free(i: int, free: int) -> Seq<SpecLine>
    decreases free + 1 - i,
{
    if i < 1 || i > free {
        Seq::empty()
    } else {
        seq![
            SpecLine::MovRaxRbpPlus((8 * (i + 1)) as usize),
            SpecLine::MovRbpMinusRax((8 * i) as usize),
        ] + spec_copy_free(i + 1, free)
    }
}

/// The copy of parameter `i` (1-based) into the slot after the captured
/// region, then the following ones.
pub open spec fn spec_copy_args(i: int, free: int, args: int) -> Seq<SpecLine>
    decreases args + 1 - i,
{
    if i < 1 || i > args {
        Seq::empty()
    } else {
        seq![
            SpecLine::MovRaxRbpPlus((8 * (free + i + 1)) as usize),
            SpecLine::MovRbpMinusRax((8 * (free + i)) as usize),
        ] + spec_copy_args(i + 1, free, args)
    }
}

/// The routine of one lifted lambda: label `_<id>`, a prologue that
/// reserves `8 * (free + local)` bytes, the copies of the captured slots
/// and parameters, the body, and the epilogue that returns the last
/// pushed value in `rax`.
pub open spec fn spec_gen_proc(
    vars: Seq<SpecVar>,
    l: SpecLambda,
    id: int,
    ifn: int,
    cn: int,
) -> Seq<SpecLine> {
    seq![
        SpecLine::ProcLabel(id as usize),
        SpecLine::PushRbp,
        SpecLine::MovRbpRsp,
        SpecLine::SubRsp((8 * (l.free_num + l.local_num)) as usize),
    ] + spec_copy_free(1, l.free_num as int) + spec_copy_args(
        1,
        l.free_num as int,
        l.args_num as int,
    ) + spec_gen_nodes(vars, l.free_vars, l.body, ifn, cn) + seq![
        SpecLine::PopRax,
        SpecLine::MovRspRbp,
        SpecLine::PopRbp,
        SpecLine::Ret,
    ]
}

/// The routines of all lifted lambdas, in emission order.
pub open spec fn spec_gen_procs(
    vars: Seq<SpecVar>,
    ps: Seq<SpecLambda>,
    id: int,
    ifn: int,
    cn: int,
) -> Seq<SpecLine>
    decreases ps.len(),
{
    if ps.len() == 0 {
        Seq::empty()
    } else {
        spec_gen_proc(vars, ps[0], id, ifn, cn) + spec_gen_procs(
            vars,
            ps.drop_first(),
            id + 1,
            ifn + 2 * nodes_if_count(ps[0].body),
            cn + nodes_call_count(ps[0].body),
        )
    }
}

/// The `.data` reservations: one `<name>:` label and one `.zero 8` per
/// global, in definition order.
pub open spec fn spec_data_lines(globals: Seq<(Seq<char>, usize)>, j: int) -> Seq<SpecLine>
    decreases globals.len() - j,
{
    if j < 0 || j >= globals.len() {
        Seq::empty()
    } else {
        seq![SpecLine::Label(globals[j].0), SpecLine::Zero8] + spec_data_lines(globals, j + 1)
    }
}

/// The fixed runtime-support routines, every one a leaf that consumes
/// its arguments from `[rsp+8]` onward.
pub open spec fn spec_runtime() -> Seq<SpecLine> {
    seq![
        SpecLine::Label("cons"@),
        SpecLine::MovRdiImm(2),
        SpecLine::MovRsiImm(8),
        SpecLine::CallCalloc,
        SpecLine::MovRdiRsp(8),
        SpecLine::MovRsiRsp(16),
        SpecLine::StoreRaxRdi,
        SpecLine::StoreRax8Rsi,
        SpecLine::Ret,
        SpecLine::Label("car"@),
        SpecLine::MovRaxRsp(8),
        SpecLine::LoadRaxMem,
        SpecLine::Ret,
        SpecLine::Label("cdr"@),
        SpecLine::MovRaxRsp(8),
        SpecLine::LoadRaxMem8,
        SpecLine::Ret,
        SpecLine::Label("equal"@),
        SpecLine::MovRaxRsp(8),
        SpecLine::MovRdiRsp(16),
        SpecLine::CmpRaxRdi,
        SpecLine::Sete,
        SpecLine::MovzbRaxAl,
        SpecLine::Ret,
        SpecLine::Label("neq"@),
        SpecLine::MovRaxRsp(8),
        SpecLine::MovRdiRsp(16),
        SpecLine::CmpRaxRdi,
        SpecLine::Setne,
        SpecLine::MovzbRaxAl,
        SpecLine::Ret,
        SpecLine::Label("lth"@),
        SpecLine::MovRaxRsp(8),
        SpecLine::MovRdiRsp(16),
        SpecLine::CmpRaxRdi,
        SpecLine::Setl,
        SpecLine::MovzbRaxAl,
        SpecLine::Ret,
        SpecLine::Label("leq"@),
        SpecLine::MovRaxRsp(8),
        SpecLine::MovRdiRsp(16),
        SpecLine::CmpRaxRdi,
        SpecLine::Setle,
        SpecLine::MovzbRaxAl,
        SpecLine::Ret,
        SpecLine::Label("gth"@),
        SpecLine::MovRaxRsp(8),
        SpecLine::MovRdiRsp(16),
        SpecLine::CmpRaxRdi,
        SpecLine::Setg,
        SpecLine::MovzbRaxAl,
        SpecLine::Ret,
        SpecLine::Label("geq"@),
        SpecLine::MovRaxRsp(8),
        SpecLine::MovRdiRsp(16),
        SpecLine::CmpRaxRdi,
        SpecLine::Setge,
        SpecLine::MovzbRaxAl,
        SpecLine::Ret,
        SpecLine::Label("add"@),
        SpecLine::MovRaxImm(0),
        SpecLine::AddRaxRsp(8),
        SpecLine::AddRaxRsp(16),
        SpecLine::Ret,
        SpecLine::Label("sub"@),
        SpecLine::MovRaxRsp(8),
        SpecLine::SubRaxRsp(16),
        SpecLine::Ret,
        SpecLine::Label("mul"@),
        SpecLine::MovRaxRsp(8),
        SpecLine::ImulRaxRsp(16),
        SpecLine::Ret,
        SpecLine::Label("div"@),
        SpecLine::MovRaxRsp(8),
        SpecLine::Cqo,
        SpecLine::IdivRsp(16),
        SpecLine::Ret,
        SpecLine::Label("rem"@),
        SpecLine::MovRaxRsp(8),
        SpecLine::Cqo,
        SpecLine::IdivRsp(16),
        SpecLine::MovRaxRdx,
        SpecLine::Ret,
    ]
}

/// The whole output: preamble, `.data` reservations, `.text` with the
/// runtime routines, one routine per lifted lambda, and `main` with a
/// fixed 200-byte scratch frame whose last pushed value becomes the
/// program's exit value.
pub open spec fn spec_gen_program(
    vars: Seq<SpecVar>,
    globals: Seq<(Seq<char>, usize)>,
    procs: Seq<SpecLambda>,
    nodes: Seq<SpecNode>,
) -> Seq<SpecLine> {
    seq![SpecLine::IntelSyntax, SpecLine::GlobalMain, SpecLine::DataSec] + spec_data_lines(
        globals,
        0,
    ) + seq![SpecLine::TextSec] + spec_runtime() + spec_gen_procs(vars, procs, 0, 0, 0) + seq![
        SpecLine::Label("main"@),
        SpecLine::PushRbp,
        SpecLine::MovRbpRsp,
        SpecLine::SubRsp(200),
    ] + spec_gen_nodes(
        vars,
        Seq::empty(),
        nodes,
        2 * procs_if_count(procs) as int,
        procs_call_count(procs) as int,
    ) + seq![SpecLine::PopRax, SpecLine::MovRspRbp, SpecLine::PopRbp, SpecLine::Ret]
}

proof fn lemma_exprs_wf_at(s: Seq<SpecExpr>, nvars: nat, i: int)
    requires
        exprs_wf(s, nvars),
        0 <= i < s.len(),
    ensures
        expr_wf(s[i], nvars),
    decreases i,
{
    if i > 0 {
        lemma_exprs_wf_at(s.drop_first(), nvars, i - 1);
        assert(s.drop_first()[i - 1] == s[i]);
    }
}

proof fn lemma_ifs_count_push(s: Seq<SpecExpr>, e: SpecExpr)
    ensures
        ifs_count(s.push(e)) == ifs_count(s) + if_count(e),
        calls_count(s.push(e)) == calls_count(s) + call_count(e),
    decreases s.len(),
{
    if s.len() == 0 {
        assert(s.push(e).drop_first() =~= Seq::<SpecExpr>::empty());
        assert(s.push(e)[0] == e);
        assert(ifs_count(s.push(e).drop_first()) == 0);
        assert(calls_count(s.push(e).drop_first()) == 0);
    } else {
        assert(s.push(e).drop_first() =~= s.drop_first().push(e));
        assert(s.push(e)[0] == s[0]);
        lemma_ifs_count_push(s.drop_first(), e);
        assert(ifs_count(s.push(e)) == if_count(s[0]) + ifs_count(s.push(e).drop_first()));
        assert(calls_count(s.push(e)) == call_count(s[0]) + calls_count(s.push(e).drop_first()));
    }
}

/// The line emitter: the produced lines and the label counters.
struct CodeGen {
    out: Vec<Line>,
    lambda_num: usize,
    if_num: usize,
    call_num: usize,
}

impl CodeGen {
    /// Emits one expression.
    #[verifier::rlimit(100)]
    fn gen_expr(&mut self, vars: &Vec<Var>, fvs: &FVs, e: &Expr)
        requires
            vars_wf(view_vars(vars@)),
            fvs_wf(fvs@),
            expr_wf(view_expr(*e), vars@.len()),
            old(self).if_num + 2 * if_count(view_expr(*e)) <= usize::MAX,
            old(self).call_num + call_count(view_expr(*e)) <= usize::MAX,
        ensures
            view_lines(final(self).out@) == view_lines(old(self).out@) + spec_gen_expr(
                view_vars(vars@),
                fvs@,
                view_expr(*e),
                old(self).if_num as int,
                old(self).call_num as int,
            ),
            final(self).if_num == old(self).if_num + 2 * if_count(view_expr(*e)),
            final(self).call_num == old(self).call_num + call_count(view_expr(*e)),
            final(self).lambda_num == old(self).lambda_num,
        decreases view_expr(*e),
    {
        let ghost sv = view_vars(vars@);
        let ghost fvv = fvs@;
        let ghost ev = view_expr(*e);
        let ghost out0 = self.out@;
        let ghost if0 = self.if_num as int;
        let ghost cn0 = self.call_num as int;
        match e {
            Expr::Bool(b) => {
                let v: i32 = if *b {
                    1
                } else {
                    0
                };
                self.out.push(Line::PushImm(v));
                proof {
                    assert(view_lines(self.out@) =~= view_lines(out0) + spec_gen_expr(
                        sv,
                        fvv,
                        ev,
                        if0,
                        cn0,
                    ));
                }
            },
            Expr::Int(v) => {
                self.out.push(Line::PushImm(*v));
                proof {
                    assert(view_lines(self.out@) =~= view_lines(out0) + spec_gen_expr(
                        sv,
                        fvv,
                        ev,
                        if0,
                        cn0,
                    ));
                }
            },
            Expr::Var(i) => {
                let idx: usize = *i;
                match &vars[idx] {
                    Var::Global(name) => {
                        self.out.push(Line::LoadGlobal(name.clone()));
                        self.out.push(Line::PushRax);
                        proof {
                            assert(view_lines(self.out@) =~= view_lines(out0) + spec_gen_var(
                                sv,
                                fvv,
                                idx,
                            ));
                        }
                    },
                    Var::Local(name, off, _) => {
                        proof {
                            assert(var_wf(sv[idx as int]));
                        }
                        if fvs.contains(name.as_str()) {
                            let o = fvs.offset(name.as_str());
                            self.out.push(Line::PushRbpMinus(o));
                        } else {
                            let o = 8 * fvs.len() + *off;
                            self.out.push(Line::PushRbpMinus(o));
                        }
                        proof {
                            assert(view_lines(self.out@) =~= view_lines(out0) + spec_gen_var(
                                sv,
                                fvv,
                                idx,
                            ));
                        }
                    },
                }
            },
            Expr::Proc(label, pfvs) => {
                self.out.push(Line::MovRdiImm(2));
                self.out.push(Line::MovRsiImm(8));
                self.out.push(Line::CallCalloc);
                self.out.push(Line::LeaRdiRip(label.clone()));
                self.out.push(Line::MovMemRaxRdi);
                self.out.push(Line::StoreRax8Zero);
                let ghost outh = self.out@;
                proof {
                    assert(view_lines(outh) =~= view_lines(out0) + seq![
                        SpecLine::MovRdiImm(2),
                        SpecLine::MovRsiImm(8),
                        SpecLine::CallCalloc,
                        SpecLine::LeaRdiRip(label@),
                        SpecLine::MovMemRaxRdi,
                        SpecLine::StoreRax8Zero,
                    ]);
                }
                let entries = pfvs.iter();
                let m = entries.len();
                let mut k: usize = 0;
                while k < m
                    invariant
                        m == pfvs@.len(),
                        k <= m,
                        fvs_wf(fvs@),
                        fvs_wf(pfvs@),
                        fvv == fvs@,
                        entries@.len() == pfvs@.len(),
                        forall|i2: int|
                            0 <= i2 < pfvs@.len() ==> (#[trigger] entries@[i2]).0 == pfvs@[i2].0
                                && entries@[i2].1@ == pfvs@[i2].1,
                        view_lines(outh) + spec_gen_cells(fvv, pfvs@, 0) =~= view_lines(self.out@)
                            + spec_gen_cells(fvv, pfvs@, k as int),
                        self.if_num as int == if0,
                        self.call_num as int == cn0,
                        self.lambda_num == old(self).lambda_num,
                    decreases m - k,
                {
                    let ghost outk = self.out@;
                    let off = entries[k].0;
                    let name = &entries[k].1;
                    proof {
                        assert(fv_entry_wf(pfvs@[k as int]));
                    }
                    self.out.push(Line::PushRax);
                    self.out.push(Line::MovRdiImm(2));
                    self.out.push(Line::MovRsiImm(8));
                    self.out.push(Line::CallCalloc);
                    if fvs.contains(name.as_str()) {
                        let o = fvs.offset(name.as_str());
                        self.out.push(Line::MovRdiRbpMinus(o));
                    } else {
                        let o = 8 * fvs.len() + off;
                        self.out.push(Line::MovRdiRbpMinus(o));
                    }
                    self.out.push(Line::PopRsi);
                    self.out.push(Line::MovMemRaxRdi);
                    self.out.push(Line::MovMemRax8Rsi);
                    proof {
                        assert(view_lines(self.out@) =~= view_lines(outk) + seq![
                            SpecLine::PushRax,
                            SpecLine::MovRdiImm(2),
                            SpecLine::MovRsiImm(8),
                            SpecLine::CallCalloc,
                            if fv_contains_name(fvv, pfvs@[k as int].1) {
                                SpecLine::MovRdiRbpMinus(
                                    (8 * (fv_index_of(fvv, pfvs@[k as int].1) + 1)) as usize,
                                )
                            } else {
                                SpecLine::MovRdiRbpMinus(
                                    (8 * fvv.len() + pfvs@[k as int].0) as usize,
                                )
                            },
                            SpecLine::PopRsi,
                            SpecLine::MovMemRaxRdi,
                            SpecLine::MovMemRax8Rsi,
                        ]);
                        assert(view_lines(outh) + spec_gen_cells(fvv, pfvs@, 0) =~= view_lines(
                            self.out@,
                        ) + spec_gen_cells(fvv, pfvs@, k as int + 1));
                    }
                    k = k + 1;
                }
                let ghost outc = self.out@;
                self.out.push(Line::PushRax);
                proof {
                    assert(view_lines(self.out@) =~= view_lines(outc) + seq![SpecLine::PushRax]);
                    assert(spec_gen_cells(fvv, pfvs@, m as int) =~= Seq::<SpecLine>::empty());
                    assert(view_lines(self.out@) =~= view_lines(out0) + spec_gen_expr(
                        sv,
                        fvv,
                        ev,
                        if0,
                        cn0,
                    ));
                }
            },
            Expr::If { test, conseq, alter } => {
                let l1 = self.if_num;
                let l2 = self.if_num + 1;
                self.if_num = self.if_num + 2;
                proof {
                    lemma_counts_le_size(view_expr(**test));
                }
                self.gen_expr(vars, fvs, test);
                let ghost o1 = self.out@;
                self.out.push(Line::PopRax);
                self.out.push(Line::CmpRaxZero);
                self.out.push(Line::JeL(l1));
                proof {
                    assert(view_lines(self.out@) =~= view_lines(o1) + seq![
                        SpecLine::PopRax,
                        SpecLine::CmpRaxZero,
                        SpecLine::JeL(if0 as usize),
                    ]);
                }
                self.gen_expr(vars, fvs, conseq);
                let ghost o2 = self.out@;
                self.out.push(Line::JmpL(l2));
                self.out.push(Line::LocalLabel(l1));
                proof {
                    assert(view_lines(self.out@) =~= view_lines(o2) + seq![
                        SpecLine::JmpL((if0 + 1) as usize),
                        SpecLine::LocalLabel(if0 as usize),
                    ]);
                }
                self.gen_expr(vars, fvs, alter);
                let ghost o3 = self.out@;
                self.out.push(Line::LocalLabel(l2));
                proof {
                    assert(view_lines(self.out@) =~= view_lines(o3) + seq![
                        SpecLine::LocalLabel((if0 + 1) as usize),
                    ]);
                    assert(view_lines(self.out@) =~= view_lines(out0) + spec_gen_expr(
                        sv,
                        fvv,
                        ev,
                        if0,
                        cn0,
                    ));
                }
            },
            Expr::Call { proc, params } => {
                let ghost pv = view_exprs(params@);
                proof {
                    lemma_view_exprs(params@);
                    assert(pv.subrange(0, params@.len() as int) =~= pv);
                }
                let m0 = params.len();
                let mut m: usize = m0;
                while m > 0
                    invariant
                        m <= m0,
                        m0 == params@.len(),
                        pv == view_exprs(params@),
                        pv.len() == params@.len(),
                        forall|i2: int| 0 <= i2 < pv.len() ==> pv[i2] == view_expr(params@[i2]),
                        vars_wf(sv),
                        sv == view_vars(vars@),
                        fvv == fvs@,
                        fvs_wf(fvv),
                        exprs_wf(pv, vars@.len()),
                        self.if_num as int + 2 * ifs_count(pv.subrange(0, m as int)) == if0 + 2
                            * ifs_count(pv),
                        self.call_num as int + calls_count(pv.subrange(0, m as int)) == cn0
                            + calls_count(pv),
                        if0 + 2 * if_count(ev) <= usize::MAX,
                        cn0 + call_count(ev) <= usize::MAX,
                        ev == view_expr(*e),
                        ev matches SpecExpr::Call { proc: p2, params: ps2 } && ps2 == pv
                            && p2 == Box::new(view_expr(**proc)),
                        view_lines(out0) + spec_gen_exprs_rev(sv, fvv, pv, if0, cn0) =~= view_lines(
                            self.out@,
                        ) + spec_gen_exprs_rev(
                            sv,
                            fvv,
                            pv.subrange(0, m as int),
                            self.if_num as int,
                            self.call_num as int,
                        ),
                        self.lambda_num == old(self).lambda_num,
                    decreases m,
                {
                    m = m - 1;
                    proof {
                        assert(pv.subrange(0, m as int + 1).drop_last() =~= pv.subrange(
                            0,
                            m as int,
                        ));
                        assert(pv.subrange(0, m as int + 1).last() == pv[m as int]);
                        assert(pv.subrange(0, m as int + 1) =~= pv.subrange(0, m as int).push(
                            pv[m as int],
                        ));
                        lemma_ifs_count_push(pv.subrange(0, m as int), pv[m as int]);
                        lemma_exprs_wf_at(pv, vars@.len(), m as int);
                        lemma_counts_le_sizes(pv);
                    }
                    proof {
                        assert(decreases_to!(ev => ev->Call_params));
                        assert(ev->Call_params == pv);
                        assert(decreases_to!(pv => pv[m as int]));
                        assert(pv[m as int] == view_expr(params@[m as int]));
                    }
                    self.gen_expr(vars, fvs, &params[m]);
                }
                proof {
                    assert(pv.subrange(0, 0) =~= Seq::<SpecExpr>::empty());
                    assert(ifs_count(pv.subrange(0, 0)) == 0);
                    assert(calls_count(pv.subrange(0, 0)) == 0);
                    assert(spec_gen_exprs_rev(
                        sv,
                        fvv,
                        pv.subrange(0, 0),
                        self.if_num as int,
                        self.call_num as int,
                    ) =~= Seq::<SpecLine>::empty());
                }
                self.gen_expr(vars, fvs, proc);
                let ghost o4 = self.out@;
                let k = self.call_num;
                self.call_num = self.call_num + 1;
                self.out.push(Line::PopRax);
                self.out.push(Line::BeginLabel(k));
                self.out.push(Line::CmpRaxZero);
                self.out.push(Line::JeEnd(k));
                self.out.push(Line::PushMemRax);
                self.out.push(Line::MovRaxMemRax8);
                self.out.push(Line::JmpBegin(k));
                self.out.push(Line::EndLabel(k));
                self.out.push(Line::PopRax);
                self.out.push(Line::CallRax);
                self.out.push(Line::AddRspImm(8 * m0));
                self.out.push(Line::PushRax);
                proof {
                    assert(view_lines(self.out@) =~= view_lines(o4) + seq![
                        SpecLine::PopRax,
                        SpecLine::BeginLabel(k),
                        SpecLine::CmpRaxZero,
                        SpecLine::JeEnd(k),
                        SpecLine::PushMemRax,
                        SpecLine::MovRaxMemRax8,
                        SpecLine::JmpBegin(k),
                        SpecLine::EndLabel(k),
                        SpecLine::PopRax,
                        SpecLine::CallRax,
                        SpecLine::AddRspImm((8 * pv.len()) as usize),
                        SpecLine::PushRax,
                    ]);
                    assert(view_lines(self.out@) =~= view_lines(out0) + spec_gen_expr(
                        sv,
                        fvv,
                        ev,
                        if0,
                        cn0,
                    ));
                }
            },
        }
    }

    /// Emits one definition.
    fn gen_defn(&mut self, vars: &Vec<Var>, fvs: &FVs, d: &Defn)
        requires
            vars_wf(view_vars(vars@)),
            fvs_wf(fvs@),
            d.var < vars@.len(),
            expr_wf(view_expr(d.expr), vars@.len()),
            old(self).if_num + 2 * if_count(view_expr(d.expr)) <= usize::MAX,
            old(self).call_num + call_count(view_expr(d.expr)) <= usize::MAX,
        ensures
            view_lines(final(self).out@) == view_lines(old(self).out@) + spec_gen_defn(
                view_vars(vars@),
                fvs@,
                d@,
                old(self).if_num as int,
                old(self).call_num as int,
            ),
            final(self).if_num == old(self).if_num + 2 * if_count(view_expr(d.expr)),
            final(self).call_num == old(self).call_num + call_count(view_expr(d.expr)),
            final(self).lambda_num == old(self).lambda_num,
    {
        let ghost sv = view_vars(vars@);
        let ghost fvv = fvs@;
        let ghost out0 = self.out@;
        let ghost if0 = self.if_num as int;
        let ghost cn0 = self.call_num as int;
        let fv_num = fvs.len();
        self.gen_expr(vars, fvs, &d.expr);
        let ghost o1 = self.out@;
        match &vars[d.var] {
            Var::Global(name) => {
                self.out.push(Line::PopRax);
                self.out.push(Line::StoreGlobal(name.clone()));
            },
            Var::Local(_, off, captured) => {
                proof {
                    assert(var_wf(sv[d.var as int]));
                }
                if *captured {
                    self.out.push(Line::MovRdiImm(1));
                    self.out.push(Line::MovRsiImm(8));
                    self.out.push(Line::CallCalloc);
                    self.out.push(Line::PopRdi);
                    self.out.push(Line::StoreRaxRdi);
                    self.out.push(Line::MovRbpMinusRax(8 * fv_num + *off));
                } else {
                    self.out.push(Line::PopRax);
                    self.out.push(Line::MovRbpMinusRax(8 * fv_num + *off));
                }
            },
        }
        proof {
            assert(view_lines(self.out@) =~= view_lines(o1) + (match sv[d.var as int] {
                SpecVar::Global(name) => seq![SpecLine::PopRax, SpecLine::StoreGlobal(name)],
                SpecVar::Local(_, off, captured) => if captured {
                    seq![
                        SpecLine::MovRdiImm(1),
                        SpecLine::MovRsiImm(8),
                        SpecLine::CallCalloc,
                        SpecLine::PopRdi,
                        SpecLine::StoreRaxRdi,
                        SpecLine::MovRbpMinusRax((8 * fvv.len() + off) as usize),
                    ]
                } else {
                    seq![
                        SpecLine::PopRax,
                        SpecLine::MovRbpMinusRax((8 * fvv.len() + off) as usize),
                    ]
                },
            }));
            assert(view_lines(self.out@) =~= view_lines(out0) + spec_gen_defn(
                sv,
                fvv,
                d@,
                if0,
                cn0,
            ));
        }
    }

    /// Emits one body or top-level form.
    fn gen_node(&mut self, vars: &Vec<Var>, fvs: &FVs, n: &Node)
        requires
            vars_wf(view_vars(vars@)),
            fvs_wf(fvs@),
            node_wf(view_node(*n), vars@.len()),
            old(self).if_num + 2 * node_if_count(view_node(*n)) <= usize::MAX,
            old(self).call_num + node_call_count(view_node(*n)) <= usize::MAX,
        ensures
            view_lines(final(self).out@) == view_lines(old(self).out@) + spec_gen_node(
                view_vars(vars@),
                fvs@,
                view_node(*n),
                old(self).if_num as int,
                old(self).call_num as int,
            ),
            final(self).if_num == old(self).if_num + 2 * node_if_count(view_node(*n)),
            final(self).call_num == old(self).call_num + node_call_count(view_node(*n)),
            final(self).lambda_num == old(self).lambda_num,
    {
        match n {
            Node::Defn(d) => self.gen_defn(vars, fvs, d),
            Node::Expr(e) => self.gen_expr(vars, fvs, e),
        }
    }

    /// Emits the routine of one lifted lambda.
    #[verifier::rlimit(100)]
    fn gen_proc(&mut self, vars: &Vec<Var>, proc: &Lambda)
        requires
            vars_wf(view_vars(vars@)),
            lambda_wf(proc@, vars@.len()),
            old(self).if_num + 2 * nodes_if_count(view_nodes(proc.body@)) <= usize::MAX,
            old(self).call_num + nodes_call_count(view_nodes(proc.body@)) <= usize::MAX,
            old(self).lambda_num < usize::MAX,
        ensures
            view_lines(final(self).out@) == view_lines(old(self).out@) + spec_gen_proc(
                view_vars(vars@),
                proc@,
                old(self).lambda_num as int,
                old(self).if_num as int,
                old(self).call_num as int,
            ),
            final(self).if_num == old(self).if_num + 2 * nodes_if_count(view_nodes(proc.body@)),
            final(self).call_num == old(self).call_num + nodes_call_count(
                view_nodes(proc.body@),
            ),
            final(self).lambda_num == old(self).lambda_num + 1,
    {
        let ghost sv = view_vars(vars@);
        let ghost out0 = self.out@;
        let ghost if0 = self.if_num as int;
        let ghost cn0 = self.call_num as int;
        let ghost lv = proc@;
        let id = self.lambda_num;
        self.lambda_num = self.lambda_num + 1;
        self.out.push(Line::ProcLabel(id));
        self.out.push(Line::PushRbp);
        self.out.push(Line::MovRbpRsp);
        self.out.push(Line::SubRsp(8 * (proc.free_num + proc.local_num)));
        let ghost outp = self.out@;
        proof {
            assert(view_lines(outp) =~= view_lines(out0) + seq![
                SpecLine::ProcLabel(id),
                SpecLine::PushRbp,
                SpecLine::MovRbpRsp,
                SpecLine::SubRsp((8 * (lv.free_num + lv.local_num)) as usize),
            ]);
        }
        let free_num = proc.free_num;
        let mut i: usize = 1;
        while i <= free_num
            invariant
                1 <= i <= free_num + 1,
                free_num == lv.free_num,
                free_num as int <= max_len(),
                view_lines(outp) + spec_copy_free(1, free_num as int) =~= view_lines(self.out@)
                    + spec_copy_free(i as int, free_num as int),
                self.if_num as int == if0,
                self.call_num as int == cn0,
                self.lambda_num == old(self).lambda_num + 1,
            decreases free_num + 1 - i,
        {
            let ghost outk = self.out@;
            self.out.push(Line::MovRaxRbpPlus(8 * (i + 1)));
            self.out.push(Line::MovRbpMinusRax(8 * i));
            proof {
                assert(view_lines(self.out@) =~= view_lines(outk) + seq![
                    SpecLine::MovRaxRbpPlus((8 * (i as int + 1)) as usize),
                    SpecLine::MovRbpMinusRax((8 * i as int) as usize),
                ]);
                assert(view_lines(outp) + spec_copy_free(1, free_num as int) =~= view_lines(
                    self.out@,
                ) + spec_copy_free(i as int + 1, free_num as int));
            }
            i = i + 1;
        }
        proof {
            assert(spec_copy_free((free_num + 1) as int, free_num as int)
                =~= Seq::<SpecLine>::empty());
        }
        let ghost outf = self.out@;
        let args_num = proc.args_num;
        let mut i2: usize = 1;
        while i2 <= args_num
            invariant
                1 <= i2 <= args_num + 1,
                args_num == lv.args_num,
                free_num == lv.free_num,
                free_num as int <= max_len(),
                args_num as int <= max_len(),
                view_lines(outf) + spec_copy_args(1, free_num as int, args_num as int)
                    =~= view_lines(self.out@) + spec_copy_args(
                    i2 as int,
                    free_num as int,
                    args_num as int,
                ),
                self.if_num as int == if0,
                self.call_num as int == cn0,
                self.lambda_num == old(self).lambda_num + 1,
            decreases args_num + 1 - i2,
        {
            let ghost outk = self.out@;
            self.out.push(Line::MovRaxRbpPlus(8 * (free_num + i2 + 1)));
            self.out.push(Line::MovRbpMinusRax(8 * (free_num + i2)));
            proof {
                assert(view_lines(self.out@) =~= view_lines(outk) + seq![
                    SpecLine::MovRaxRbpPlus((8 * (free_num as int + i2 as int + 1)) as usize),
                    SpecLine::MovRbpMinusRax((8 * (free_num as int + i2 as int)) as usize),
                ]);
                assert(view_lines(outf) + spec_copy_args(1, free_num as int, args_num as int)
                    =~= view_lines(self.out@) + spec_copy_args(
                    i2 as int + 1,
                    free_num as int,
                    args_num as int,
                ));
            }
            i2 = i2 + 1;
        }
        proof {
            assert(spec_copy_args((args_num + 1) as int, free_num as int, args_num as int)
                =~= Seq::<SpecLine>::empty());
        }
        let ghost outb = self.out@;
        let ghost nv = view_nodes(proc.body@);
        let n = proc.body.len();
        let mut j: usize = 0;
        proof {
            assert(nv.subrange(0, n as int) =~= nv);
        }
        while j < n
            invariant
                j <= n,
                n == proc.body@.len(),
                nv == view_nodes(proc.body@),
                sv == view_vars(vars@),
                vars_wf(sv),
                lambda_wf(proc@, vars@.len()),
                lv == proc@,
                self.if_num as int + 2 * nodes_if_count(nv.subrange(j as int, n as int)) == if0 + 2
                    * nodes_if_count(nv),
                self.call_num as int + nodes_call_count(nv.subrange(j as int, n as int)) == cn0
                    + nodes_call_count(nv),
                if0 + 2 * nodes_if_count(nv) <= usize::MAX,
                cn0 + nodes_call_count(nv) <= usize::MAX,
                view_lines(outb) + spec_gen_nodes(sv, lv.free_vars, nv, if0, cn0) =~= view_lines(
                    self.out@,
                ) + spec_gen_nodes(
                    sv,
                    lv.free_vars,
                    nv.subrange(j as int, n as int),
                    self.if_num as int,
                    self.call_num as int,
                ),
                self.lambda_num == old(self).lambda_num + 1,
            decreases n - j,
        {
            proof {
                assert(nv.subrange(j as int, n as int)[0] == nv[j as int]);
                assert(nv.subrange(j as int, n as int).drop_first() =~= nv.subrange(
                    j as int + 1,
                    n as int,
                ));
                assert(node_wf(nv[j as int], vars@.len()));
                assert(nv[j as int] == view_node(proc.body@[j as int]));
                lemma_node_counts_le_size(nv[j as int]);
                lemma_nodes_counts_le_size(nv.subrange(j as int, n as int));
            }
            self.gen_node(vars, &proc.free_vars, &proc.body[j]);
            j = j + 1;
        }
        proof {
            assert(nv.subrange(n as int, n as int) =~= Seq::<SpecNode>::empty());
        }
        let ghost oute = self.out@;
        self.out.push(Line::PopRax);
        self.out.push(Line::MovRspRbp);
        self.out.push(Line::PopRbp);
        self.out.push(Line::Ret);
        proof {
            assert(view_lines(self.out@) =~= view_lines(oute) + seq![
                SpecLine::PopRax,
                SpecLine::MovRspRbp,
                SpecLine::PopRbp,
                SpecLine::Ret,
            ]);
            assert(view_lines(self.out@) =~= view_lines(out0) + spec_gen_proc(
                sv,
                lv,
                old(self).lambda_num as int,
                if0,
                cn0,
            ));
        }
    }
}

impl CodeGen {
    /// Emits the fixed runtime-support routines.
    #[verifier::rlimit(100)]
    fn emit_runtime(&mut self)
        ensures
            view_lines(final(self).out@) == view_lines(old(self).out@) + spec_runtime(),
            final(self).if_num == old(self).if_num,
            final(self).call_num == old(self).call_num,
            final(self).lambda_num == old(self).lambda_num,
    {
        let ghost out0 = self.out@;
        self.out.push(Line::Label("cons".to_owned()));
        self.out.push(Line::MovRdiImm(2));
        self.out.push(Line::MovRsiImm(8));
        self.out.push(Line::CallCalloc);
        self.out.push(Line::MovRdiRsp(8));
        self.out.push(Line::MovRsiRsp(16));
        self.out.push(Line::StoreRaxRdi);
        self.out.push(Line::StoreRax8Rsi);
        self.out.push(Line::Ret);
        self.out.push(Line::Label("car".to_owned()));
        self.out.push(Line::MovRaxRsp(8));
        self.out.push(Line::LoadRaxMem);
        self.out.push(Line::Ret);
        self.out.push(Line::Label("cdr".to_owned()));
        self.out.push(Line::MovRaxRsp(8));
        self.out.push(Line::LoadRaxMem8);
        self.out.push(Line::Ret);
        self.out.push(Line::Label("equal".to_owned()));
        self.out.push(Line::MovRaxRsp(8));
        self.out.push(Line::MovRdiRsp(16));
        self.out.push(Line::CmpRaxRdi);
        self.out.push(Line::Sete);
        self.out.push(Line::MovzbRaxAl);
        self.out.push(Line::Ret);
        self.out.push(Line::Label("neq".to_owned()));
        self.out.push(Line::MovRaxRsp(8));
        self.out.push(Line::MovRdiRsp(16));
        self.out.push(Line::CmpRaxRdi);
        self.out.push(Line::Setne);
        self.out.push(Line::MovzbRaxAl);
        self.out.push(Line::Ret);
        self.out.push(Line::Label("lth".to_owned()));
        self.out.push(Line::MovRaxRsp(8));
        self.out.push(Line::MovRdiRsp(16));
        self.out.push(Line::CmpRaxRdi);
        self.out.push(Line::Setl);
        self.out.push(Line::MovzbRaxAl);
        self.out.push(Line::Ret);
        self.out.push(Line::Label("leq".to_owned()));
        self.out.push(Line::MovRaxRsp(8));
        self.out.push(Line::MovRdiRsp(16));
        self.out.push(Line::CmpRaxRdi);
        self.out.push(Line::Setle);
        self.out.push(Line::MovzbRaxAl);
        self.out.push(Line::Ret);
        self.out.push(Line::Label("gth".to_owned()));
        self.out.push(Line::MovRaxRsp(8));
        self.out.push(Line::MovRdiRsp(16));
        self.out.push(Line::CmpRaxRdi);
        self.out.push(Line::Setg);
        self.out.push(Line::MovzbRaxAl);
        self.out.push(Line::Ret);
        self.out.push(Line::Label("geq".to_owned()));
        self.out.push(Line::MovRaxRsp(8));
        self.out.push(Line::MovRdiRsp(16));
        self.out.push(Line::CmpRaxRdi);
        self.out.push(Line::Setge);
        self.out.push(Line::MovzbRaxAl);
        self.out.push(Line::Ret);
        self.out.push(Line::Label("add".to_owned()));
        self.out.push(Line::MovRaxImm(0));
        self.out.push(Line::AddRaxRsp(8));
        self.out.push(Line::AddRaxRsp(16));
        self.out.push(Line::Ret);
        self.out.push(Line::Label("sub".to_owned()));
        self.out.push(Line::MovRaxRsp(8));
        self.out.push(Line::SubRaxRsp(16));
        self.out.push(Line::Ret);
        self.out.push(Line::Label("mul".to_owned()));
        self.out.push(Line::MovRaxRsp(8));
        self.out.push(Line::ImulRaxRsp(16));
        self.out.push(Line::Ret);
        self.out.push(Line::Label("div".to_owned()));
        self.out.push(Line::MovRaxRsp(8));
        self.out.push(Line::Cqo);
        self.out.push(Line::IdivRsp(16));
        self.out.push(Line::Ret);
        self.out.push(Line::Label("rem".to_owned()));
        self.out.push(Line::MovRaxRsp(8));
        self.out.push(Line::Cqo);
        self.out.push(Line::IdivRsp(16));
        self.out.push(Line::MovRaxRdx);
        self.out.push(Line::Ret);
        proof {
            assert(view_lines(self.out@) =~= view_lines(out0) + spec_runtime());
        }
    }

    /// Emits the whole program for the parsed state: preamble, `.data`
    /// reservations, runtime routines, lifted-lambda routines, and
    /// `main`.
    fn gen_asm(&mut self, parser: &Parser)
        requires
            parser_ir_wf(*parser),
            parser_ir_size(*parser) <= max_len(),
            old(self).out@.len() == 0,
            old(self).if_num == 0,
            old(self).call_num == 0,
            old(self).lambda_num == 0,
        ensures
            view_lines(final(self).out@) == spec_gen_program(
                view_vars(parser.env.vars@),
                parser.env@.frames[0],
                view_lambdas(parser.proc_list@),
                view_nodes(parser.node_list@),
            ),
    {
        let ghost sv = view_vars(parser.env.vars@);
        let ghost gv = parser.env@.frames[0];
        let ghost pv = view_lambdas(parser.proc_list@);
        let ghost nv = view_nodes(parser.node_list@);
        proof {
            lemma_procs_counts_le_size(pv);
            lemma_nodes_counts_le_size(nv);
        }
        self.out.push(Line::IntelSyntax);
        self.out.push(Line::GlobalMain);
        self.out.push(Line::DataSec);
        let ghost out0 = self.out@;
        proof {
            assert(view_lines(out0) =~= Seq::<SpecLine>::empty() + seq![
                SpecLine::IntelSyntax,
                SpecLine::GlobalMain,
                SpecLine::DataSec,
            ]);
        }
        let globals = parser.env.globals();
        let gn = globals.len();
        let mut j: usize = 0;
        while j < gn
            invariant
                gn == gv.len(),
                view_frame(globals@) == gv,
                globals@.len() == gv.len(),
                j <= gn,
                view_lines(out0) + spec_data_lines(gv, 0) =~= view_lines(self.out@)
                    + spec_data_lines(gv, j as int),
                self.if_num == 0,
                self.call_num == 0,
                self.lambda_num == 0,
            decreases gn - j,
        {
            let ghost outj = self.out@;
            let name = globals[j].0.clone();
            self.out.push(Line::Label(name));
            self.out.push(Line::Zero8);
            proof {
                assert(view_lines(self.out@) =~= view_lines(outj) + seq![
                    SpecLine::Label(gv[j as int].0),
                    SpecLine::Zero8,
                ]);
                assert(view_lines(out0) + spec_data_lines(gv, 0) =~= view_lines(self.out@)
                    + spec_data_lines(gv, j as int + 1));
            }
            j = j + 1;
        }
        proof {
            assert(spec_data_lines(gv, gn as int) =~= Seq::<SpecLine>::empty());
        }
        let ghost outd = self.out@;
        self.out.push(Line::TextSec);
        proof {
            assert(view_lines(self.out@) =~= view_lines(outd) + seq![SpecLine::TextSec]);
        }
        self.emit_runtime();
        let ghost outr = self.out@;
        let pn = parser.proc_list.len();
        let mut i: usize = 0;
        proof {
            assert(pv.subrange(0, pn as int) =~= pv);
        }
        while i < pn
            invariant
                pn == pv.len(),
                pv == view_lambdas(parser.proc_list@),
                sv == view_vars(parser.env.vars@),
                parser_ir_wf(*parser),
                parser_ir_size(*parser) <= max_len(),
                i <= pn,
                self.lambda_num == i,
                self.if_num as int + 2 * procs_if_count(pv.subrange(i as int, pn as int)) == 2
                    * procs_if_count(pv),
                self.call_num as int + procs_call_count(pv.subrange(i as int, pn as int))
                    == procs_call_count(pv),
                procs_if_count(pv) <= max_len(),
                procs_call_count(pv) <= max_len(),
                view_lines(outr) + spec_gen_procs(sv, pv, 0, 0, 0) =~= view_lines(self.out@)
                    + spec_gen_procs(
                    sv,
                    pv.subrange(i as int, pn as int),
                    i as int,
                    self.if_num as int,
                    self.call_num as int,
                ),
            decreases pn - i,
        {
            proof {
                assert(pv.subrange(i as int, pn as int)[0] == pv[i as int]);
                assert(pv.subrange(i as int, pn as int).drop_first() =~= pv.subrange(
                    i as int + 1,
                    pn as int,
                ));
                assert(lambda_wf(pv[i as int], parser.env.vars@.len()));
                assert(pv[i as int] == parser.proc_list@[i as int]@);
                lemma_nodes_counts_le_size(pv[i as int].body);
                lemma_procs_counts_le_size(pv.subrange(i as int, pn as int));
            }
            self.gen_proc(&parser.env.vars, &parser.proc_list[i]);
            i = i + 1;
        }
        proof {
            assert(pv.subrange(pn as int, pn as int) =~= Seq::<SpecLambda>::empty());
        }
        let ghost outm = self.out@;
        self.out.push(Line::Label("main".to_owned()));
        self.out.push(Line::PushRbp);
        self.out.push(Line::MovRbpRsp);
        self.out.push(Line::SubRsp(200));
        proof {
            assert(view_lines(self.out@) =~= view_lines(outm) + seq![
                SpecLine::Label("main"@),
                SpecLine::PushRbp,
                SpecLine::MovRbpRsp,
                SpecLine::SubRsp(200),
            ]);
        }
        let ghost outn = self.out@;
        let ghost if1 = self.if_num as int;
        let ghost cn1 = self.call_num as int;
        let empty_fvs = FVs::new();
        let nn = parser.node_list.len();
        let mut t: usize = 0;
        proof {
            assert(nv.subrange(0, nn as int) =~= nv);
        }
        while t < nn
            invariant
                nn == nv.len(),
                nv == view_nodes(parser.node_list@),
                sv == view_vars(parser.env.vars@),
                parser_ir_wf(*parser),
                parser_ir_size(*parser) <= max_len(),
                t <= nn,
                empty_fvs@ =~= Seq::<(usize, Seq<char>)>::empty(),
                fvs_wf(empty_fvs@),
                self.if_num as int + 2 * nodes_if_count(nv.subrange(t as int, nn as int)) == if1
                    + 2 * nodes_if_count(nv),
                self.call_num as int + nodes_call_count(nv.subrange(t as int, nn as int)) == cn1
                    + nodes_call_count(nv),
                if1 + 2 * nodes_if_count(nv) <= usize::MAX,
                cn1 + nodes_call_count(nv) <= usize::MAX,
                view_lines(outn) + spec_gen_nodes(sv, Seq::empty(), nv, if1, cn1) =~= view_lines(
                    self.out@,
                ) + spec_gen_nodes(
                    sv,
                    Seq::empty(),
                    nv.subrange(t as int, nn as int),
                    self.if_num as int,
                    self.call_num as int,
                ),
            decreases nn - t,
        {
            proof {
                assert(nv.subrange(t as int, nn as int)[0] == nv[t as int]);
                assert(nv.subrange(t as int, nn as int).drop_first() =~= nv.subrange(
                    t as int + 1,
                    nn as int,
                ));
                assert(node_wf(nv[t as int], parser.env.vars@.len()));
                assert(nv[t as int] == view_node(parser.node_list@[t as int]));
                lemma_node_counts_le_size(nv[t as int]);
                lemma_nodes_counts_le_size(nv.subrange(t as int, nn as int));
            }
            self.gen_node(&parser.env.vars, &empty_fvs, &parser.node_list[t]);
            t = t + 1;
        }
        proof {
            assert(nv.subrange(nn as int, nn as int) =~= Seq::<SpecNode>::empty());
        }
        let ghost oute = self.out@;
        self.out.push(Line::PopRax);
        self.out.push(Line::MovRspRbp);
        self.out.push(Line::PopRbp);
        self.out.push(Line::Ret);
        proof {
            assert(view_lines(self.out@) =~= view_lines(oute) + seq![
                SpecLine::PopRax,
                SpecLine::MovRspRbp,
                SpecLine::PopRbp,
                SpecLine::Ret,
            ]);
            assert(view_lines(self.out@) =~= spec_gen_program(sv, gv, pv, nv));
        }
    }
}

proof fn lemma_copy_free_len(i: int, free: int)
    requires
        1 <= i,
    ensures
        spec_copy_free(i, free).len() == if i > free {
            0int
        } else {
            2 * (free - i + 1)
        },
    decreases free + 1 - i,
{
    if i <= free {
        lemma_copy_free_len(i + 1, free);
    }
}

proof fn lemma_copy_args_len(i: int, free: int, args: int)
    requires
        1 <= i,
    ensures
        spec_copy_args(i, free, args).len() == if i > args {
            0int
        } else {
            2 * (args - i + 1)
        },
    decreases args + 1 - i,
{
    if i <= args {
        lemma_copy_args_len(i + 1, free, args);
    }
}

/// Frame layout of every lifted-lambda routine: the prologue reserves
/// exactly `8 * (free_num + local_num)` stack bytes, and the copy
/// section that follows moves exactly `free_num + args_num` incoming
/// words (two instructions each) from the caller's push region into the
/// local frame, captured slots first.
pub proof fn lemma_proc_frame_layout(
    vars: Seq<SpecVar>,
    l: SpecLambda,
    id: int,
    ifn: int,
    cn: int,
)
    ensures
        ({
            let r = spec_gen_proc(vars, l, id, ifn, cn);
            let free = l.free_num as int;
            let args = l.args_num as int;
            &&& r[3] == SpecLine::SubRsp((8 * (l.free_num + l.local_num)) as usize)
            &&& spec_copy_free(1, free).len() == 2 * free
            &&& spec_copy_args(1, free, args).len() == 2 * args
            &&& r.subrange(4, 4 + 2 * free) == spec_copy_free(1, free)
            &&& r.subrange(4 + 2 * free, 4 + 2 * free + 2 * args) == spec_copy_args(1, free, args)
        }),
{
    let r = spec_gen_proc(vars, l, id, ifn, cn);
    let free = l.free_num as int;
    let args = l.args_num as int;
    lemma_copy_free_len(1, free);
    lemma_copy_args_len(1, free, args);
    assert(r.subrange(4, 4 + 2 * free) =~= spec_copy_free(1, free));
    assert(r.subrange(4 + 2 * free, 4 + 2 * free + 2 * args) =~= spec_copy_args(1, free, args));
}

/// Number of `name:` label lines in a line sequence.
pub open spec fn count_label(ls: Seq<SpecLine>, name: Seq<char>) -> nat
    decreases ls.len(),
{
    if ls.len() == 0 {
        0
    } else {
        (if ls[0] matches SpecLine::Label(n) && n == name {
            1nat
        } else {
            0nat
        }) + count_label(ls.drop_first(), name)
    }
}

proof fn lemma_count_label_concat(a: Seq<SpecLine>, b: Seq<SpecLine>, name: Seq<char>)
    ensures
        count_label(a + b, name) == count_label(a, name) + count_label(b, name),
    decreases a.len(),
{
    if a.len() == 0 {
        assert(a + b =~= b);
    } else {
        assert((a + b).drop_first() =~= a.drop_first() + b);
        assert((a + b)[0] == a[0]);
        lemma_count_label_concat(a.drop_first(), b, name);
    }
}

proof fn lemma_data_lines_no_name(globals: Seq<(Seq<char>, usize)>, name: Seq<char>, j: int)
    requires
        forall|k: int| j <= k < globals.len() ==> (#[trigger] globals[k]).0 != name,
    ensures
        count_label(spec_data_lines(globals, j), name) == 0,
    decreases globals.len() - j,
{
    if !(j < 0 || j >= globals.len()) {
        lemma_data_lines_no_name(globals, name, j + 1);
        let head = seq![SpecLine::Label(globals[j].0), SpecLine::Zero8];
        lemma_count_label_concat(head, spec_data_lines(globals, j + 1), name);
        assert(count_label(head, name) == 0) by {
            assert(count_label(Seq::<SpecLine>::empty(), name) == 0);
            assert(seq![SpecLine::Zero8].drop_first() =~= Seq::<SpecLine>::empty());
            assert(count_label(seq![SpecLine::Zero8], name) == 0);
            assert(head.drop_first() =~= seq![SpecLine::Zero8]);
            assert(head[0] == SpecLine::Label(globals[j].0));
        }
    }
}

/// The `.data` section declares every global name exactly once: with
/// pairwise-distinct global names (as the environment guarantees), each
/// name's `name:` label appears exactly once among the reservation
/// lines, and an undefined name not at all.
pub proof fn lemma_data_section_unique(
    globals: Seq<(Seq<char>, usize)>,
    name: Seq<char>,
    j: int,
)
    requires
        0 <= j <= globals.len(),
        forall|j1: int, j2: int|
            0 <= j1 < j2 < globals.len() ==> (#[trigger] globals[j1]).0 != (
            #[trigger] globals[j2]).0,
    ensures
        count_label(spec_data_lines(globals, j), name) == if crate::parser::frame_index_of_from(
            globals,
            name,
            j,
        ) >= 0 {
            1nat
        } else {
            0nat
        },
    decreases globals.len() - j,
{
    if j < globals.len() {
        let head = seq![SpecLine::Label(globals[j].0), SpecLine::Zero8];
        lemma_count_label_concat(head, spec_data_lines(globals, j + 1), name);
        assert(count_label(head, name) == (if globals[j].0 == name {
            1nat
        } else {
            0nat
        })) by {
            assert(count_label(Seq::<SpecLine>::empty(), name) == 0);
            assert(seq![SpecLine::Zero8].drop_first() =~= Seq::<SpecLine>::empty());
            assert(count_label(seq![SpecLine::Zero8], name) == 0);
            assert(head.drop_first() =~= seq![SpecLine::Zero8]);
            assert(head[0] == SpecLine::Label(globals[j].0));
        }
        if globals[j].0 == name {
            assert forall|k: int| j + 1 <= k < globals.len() implies (#[trigger] globals[k]).0
                != name by {}
            lemma_data_lines_no_name(globals, name, j + 1);
        } else {
            lemma_data_section_unique(globals, name, j + 1);
        }
    }
}

/// Whether every `if`-arm label (`.L<k>`, and the jumps to them) in a
/// line sequence lies in `[lo, hi)`.
pub open spec fn if_labels_in_range(ls: Seq<SpecLine>, lo: int, hi: int) -> bool {
    forall|i: int|
        0 <= i < ls.len() ==> match #[trigger] ls[i] {
            SpecLine::LocalLabel(k) => lo <= k < hi,
            SpecLine::JeL(k) => lo <= k < hi,
            SpecLine::JmpL(k) => lo <= k < hi,
            _ => true,
        }
}

proof fn lemma_labels_concat(a: Seq<SpecLine>, b: Seq<SpecLine>, lo: int, hi: int)
    requires
        if_labels_in_range(a, lo, hi),
        if_labels_in_range(b, lo, hi),
    ensures
        if_labels_in_range(a + b, lo, hi),
{
    assert forall|i: int| 0 <= i < (a + b).len() implies match #[trigger] (a + b)[i] {
        SpecLine::LocalLabel(k) => lo <= k < hi,
        SpecLine::JeL(k) => lo <= k < hi,
        SpecLine::JmpL(k) => lo <= k < hi,
        _ => true,
    } by {
        if i < a.len() {
            assert((a + b)[i] == a[i]);
        } else {
            assert((a + b)[i] == b[i - a.len()]);
        }
    }
}

proof fn lemma_labels_widen(ls: Seq<SpecLine>, lo: int, hi: int, lo2: int, hi2: int)
    requires
        if_labels_in_range(ls, lo, hi),
        lo2 <= lo,
        hi <= hi2,
    ensures
        if_labels_in_range(ls, lo2, hi2),
{
}

proof fn lemma_cells_no_if_labels(
    fvs: Seq<(usize, Seq<char>)>,
    pfvs: Seq<(usize, Seq<char>)>,
    k: int,
    lo: int,
    hi: int,
)
    ensures
        if_labels_in_range(spec_gen_cells(fvs, pfvs, k), lo, hi),
    decreases pfvs.len() - k,
{
    if !(k < 0 || k >= pfvs.len()) {
        lemma_cells_no_if_labels(fvs, pfvs, k + 1, lo, hi);
        lemma_labels_concat(
            spec_gen_cells(fvs, pfvs, k).subrange(0, 8),
            spec_gen_cells(fvs, pfvs, k + 1),
            lo,
            hi,
        );
        assert(spec_gen_cells(fvs, pfvs, k).subrange(0, 8) + spec_gen_cells(fvs, pfvs, k + 1)
            =~= spec_gen_cells(fvs, pfvs, k));
    }
}

/// The `if`-arm labels an expression emits: exactly the window the
/// counter discipline grants it.  Each `if` form takes the two labels at
/// the counter and advances it by two, so every label the expression
/// uses lies in `[ifn, ifn + 2 * if_count(e))`.
pub proof fn lemma_if_labels_in_range(
    vars: Seq<SpecVar>,
    fvs: Seq<(usize, Seq<char>)>,
    e: SpecExpr,
    ifn: int,
    cn: int,
)
    requires
        ifn >= 0,
        ifn + 2 * if_count(e) <= usize::MAX,
    ensures
        if_labels_in_range(spec_gen_expr(vars, fvs, e, ifn, cn), ifn, ifn + 2 * if_count(e)),
    decreases e, 1int,
{
    let r = spec_gen_expr(vars, fvs, e, ifn, cn);
    let hi = ifn + 2 * if_count(e);
    match e {
        SpecExpr::Bool(_) => {},
        SpecExpr::Int(_) => {},
        SpecExpr::Var(_) => {},
        SpecExpr::Proc(label, pfvs) => {
            lemma_cells_no_if_labels(fvs, pfvs, 0, ifn, hi);
            assert(if_labels_in_range(r, ifn, hi)) by {
                lemma_labels_concat(r.subrange(0, 6), spec_gen_cells(fvs, pfvs, 0), ifn, hi);
                lemma_labels_concat(
                    r.subrange(0, 6) + spec_gen_cells(fvs, pfvs, 0),
                    seq![SpecLine::PushRax],
                    ifn,
                    hi,
                );
                assert(r.subrange(0, 6) + spec_gen_cells(fvs, pfvs, 0) + seq![SpecLine::PushRax]
                    =~= r);
            }
        },
        SpecExpr::Call { proc, params } => {
            let pl = spec_gen_exprs_rev(vars, fvs, params, ifn, cn);
            let ifn2 = ifn + 2 * ifs_count(params);
            let cn2 = cn + calls_count(params);
            let prl = spec_gen_expr(vars, fvs, *proc, ifn2, cn2);
            lemma_if_labels_in_range_rev(vars, fvs, params, ifn, cn);
            lemma_if_labels_in_range(vars, fvs, *proc, ifn2, cn2);
            lemma_labels_widen(pl, ifn, ifn2, ifn, hi);
            lemma_labels_widen(prl, ifn2, ifn2 + 2 * if_count(*proc), ifn, hi);
            lemma_labels_concat(pl, prl, ifn, hi);
            let tail = seq![
                SpecLine::PopRax,
                SpecLine::BeginLabel((cn2 + call_count(*proc)) as usize),
                SpecLine::CmpRaxZero,
                SpecLine::JeEnd((cn2 + call_count(*proc)) as usize),
                SpecLine::PushMemRax,
                SpecLine::MovRaxMemRax8,
                SpecLine::JmpBegin((cn2 + call_count(*proc)) as usize),
                SpecLine::EndLabel((cn2 + call_count(*proc)) as usize),
                SpecLine::PopRax,
                SpecLine::CallRax,
                SpecLine::AddRspImm((8 * params.len()) as usize),
                SpecLine::PushRax,
            ];
            lemma_labels_concat(pl + prl, tail, ifn, hi);
            assert(pl + prl + tail =~= r);
        },
        SpecExpr::If { test, conseq, alter } => {
            let t = spec_gen_expr(vars, fvs, *test, ifn + 2, cn);
            let c = spec_gen_expr(
                vars,
                fvs,
                *conseq,
                ifn + 2 + 2 * if_count(*test),
                cn + call_count(*test),
            );
            let a = spec_gen_expr(
                vars,
                fvs,
                *alter,
                ifn + 2 + 2 * (if_count(*test) + if_count(*conseq)),
                cn + call_count(*test) + call_count(*conseq),
            );
            lemma_if_labels_in_range(vars, fvs, *test, ifn + 2, cn);
            lemma_if_labels_in_range(
                vars,
                fvs,
                *conseq,
                ifn + 2 + 2 * if_count(*test),
                cn + call_count(*test),
            );
            lemma_if_labels_in_range(
                vars,
                fvs,
                *alter,
                ifn + 2 + 2 * (if_count(*test) + if_count(*conseq)),
                cn + call_count(*test) + call_count(*conseq),
            );
            lemma_labels_widen(t, ifn + 2, ifn + 2 + 2 * if_count(*test), ifn, hi);
            lemma_labels_widen(
                c,
                ifn + 2 + 2 * if_count(*test),
                ifn + 2 + 2 * if_count(*test) + 2 * if_count(*conseq),
                ifn,
                hi,
            );
            lemma_labels_widen(
                a,
                ifn + 2 + 2 * (if_count(*test) + if_count(*conseq)),
                ifn + 2 + 2 * (if_count(*test) + if_count(*conseq)) + 2 * if_count(*alter),
                ifn,
                hi,
            );
            let s1 = seq![SpecLine::PopRax, SpecLine::CmpRaxZero, SpecLine::JeL(ifn as usize)];
            let s2 = seq![SpecLine::JmpL((ifn + 1) as usize), SpecLine::LocalLabel(ifn as usize)];
            let s3 = seq![SpecLine::LocalLabel((ifn + 1) as usize)];
            lemma_labels_concat(t, s1, ifn, hi);
            lemma_labels_concat(t + s1, c, ifn, hi);
            lemma_labels_concat(t + s1 + c, s2, ifn, hi);
            lemma_labels_concat(t + s1 + c + s2, a, ifn, hi);
            lemma_labels_concat(t + s1 + c + s2 + a, s3, ifn, hi);
            assert(t + s1 + c + s2 + a + s3 =~= r);
        },
    }
}

/// Label range of a reversed argument list.
pub proof fn lemma_if_labels_in_range_rev(
    vars: Seq<SpecVar>,
    fvs: Seq<(usize, Seq<char>)>,
    params: Seq<SpecExpr>,
    ifn: int,
    cn: int,
)
    requires
        ifn >= 0,
        ifn + 2 * ifs_count(params) <= usize::MAX,
    ensures
        if_labels_in_range(
            spec_gen_exprs_rev(vars, fvs, params, ifn, cn),
            ifn,
            ifn + 2 * ifs_count(params),
        ),
    decreases params, 0int,
{
    if params.len() > 0 {
        let last = params.last();
        let g = spec_gen_expr(vars, fvs, last, ifn, cn);
        let rest = spec_gen_exprs_rev(
            vars,
            fvs,
            params.drop_last(),
            ifn + 2 * if_count(last),
            cn + call_count(last),
        );
        lemma_ifs_count_drop_last(params);
        lemma_if_labels_in_range(vars, fvs, last, ifn, cn);
        lemma_if_labels_in_range_rev(
            vars,
            fvs,
            params.drop_last(),
            ifn + 2 * if_count(last),
            cn + call_count(last),
        );
        lemma_labels_widen(g, ifn, ifn + 2 * if_count(last), ifn, ifn + 2 * ifs_count(params));
        lemma_labels_widen(
            rest,
            ifn + 2 * if_count(last),
            ifn + 2 * if_count(last) + 2 * ifs_count(params.drop_last()),
            ifn,
            ifn + 2 * ifs_count(params),
        );
        lemma_labels_concat(g, rest, ifn, ifn + 2 * ifs_count(params));
    }
}

proof fn lemma_ifs_count_drop_last(s: Seq<SpecExpr>)
    requires
        s.len() > 0,
    ensures
        ifs_count(s) == ifs_count(s.drop_last()) + if_count(s.last()),
        calls_count(s) == calls_count(s.drop_last()) + call_count(s.last()),
{
    assert(s.drop_last().push(s.last()) =~= s);
    lemma_ifs_count_push(s.drop_last(), s.last());
}

/// The output for a program that is one top-level integer literal, as
/// the parser produces for a lone number token: after the fixed
/// preamble and runtime, `main` pushes exactly that literal and its
/// epilogue pops it into `rax`, the exit value under the standard
/// convention.  (That the assembled program then terminates with that
/// value is behavior of the machine, outside what the library states.)
pub proof fn lemma_literal_program_output(n: i32)
    ensures
        spec_gen_program(
            Seq::empty(),
            Seq::empty(),
            Seq::empty(),
            seq![SpecNode::Expr(SpecExpr::Int(n))],
        ) =~= seq![
            SpecLine::IntelSyntax,
            SpecLine::GlobalMain,
            SpecLine::DataSec,
            SpecLine::TextSec,
        ] + spec_runtime() + seq![
            SpecLine::Label("main"@),
            SpecLine::PushRbp,
            SpecLine::MovRbpRsp,
            SpecLine::SubRsp(200),
            SpecLine::PushImm(n),
            SpecLine::PopRax,
            SpecLine::MovRspRbp,
            SpecLine::PopRbp,
            SpecLine::Ret,
        ],
{
    let nodes = seq![SpecNode::Expr(SpecExpr::Int(n))];
    assert(spec_data_lines(Seq::empty(), 0) =~= Seq::<SpecLine>::empty());
    assert(spec_gen_procs(Seq::empty(), Seq::empty(), 0, 0, 0) =~= Seq::<SpecLine>::empty());
    assert(procs_if_count(Seq::empty()) == 0);
    assert(procs_call_count(Seq::empty()) == 0);
    assert(nodes.drop_first() =~= Seq::<SpecNode>::empty());
    assert(spec_gen_nodes(Seq::empty(), Seq::empty(), nodes.drop_first(), 0, 0)
        =~= Seq::<SpecLine>::empty());
    assert(spec_gen_node(Seq::empty(), Seq::empty(), nodes[0], 0, 0) =~= seq![
        SpecLine::PushImm(n),
    ]);
    assert(spec_gen_nodes(Seq::empty(), Seq::empty(), nodes, 0, 0) =~= seq![SpecLine::PushImm(n)]);
}

/// Emits the whole program for a parsed state and renders it to text.
///
/// Lowering is total: for every parsed state the parser hands over
/// (its well-formedness conditions below are what
/// [`Parser::parse_program`] establishes on success), the compiler
/// produces the output text — no input that parses can fail to compile.
pub fn gen_asm(parser: &Parser) -> (r: String)
    requires
        parser_ir_wf(*parser),
        parser_ir_size(*parser) <= max_len(),
    ensures
        r@ == spec_render(
            spec_gen_program(
                view_vars(parser.env.vars@),
                parser.env@.frames[0],
                view_lambdas(parser.proc_list@),
                view_nodes(parser.node_list@),
            ),
        ),
{
    let mut cg = CodeGen { out: Vec::new(), lambda_num: 0, if_num: 0, call_num: 0 };
    cg.gen_asm(parser);
    render(&cg.out)
}

} // verus!
