//! The line-level representation of the emitted assembly, and its
//! rendering to GNU Intel-syntax text.
//!
//! The emitter produces a sequence of [`Line`] values; [`render`]
//! turns them into the output text, one line each, exactly as the
//! specification functions describe.

use vstd::prelude::*;
use vstd::string::StrSliceExecFns;
use vstd::string::StringExecFns;
use crate::decimal::dec_str;
use crate::decimal::dec_string;

verus! {

/// One line of the output file: a directive, a label, or an
/// instruction.  Each variant renders to exactly one text line.
#[derive(Debug, PartialEq)]
pub enum Line {
    IntelSyntax,
    GlobalMain,
    DataSec,
    TextSec,
    Label(String),
    ProcLabel(usize),
    BeginLabel(usize),
    EndLabel(usize),
    LocalLabel(usize),
    Zero8,
    PushRbp,
    MovRbpRsp,
    SubRsp(usize),
    PopRax,
    PopRdi,
    PopRsi,
    PushRax,
    MovRspRbp,
    PopRbp,
    Ret,
    MovRdiImm(usize),
    MovRsiImm(usize),
    CallCalloc,
    MovRdiRsp(usize),
    MovRsiRsp(usize),
    MovRaxRsp(usize),
    StoreRaxRdi,
    StoreRax8Rsi,
    StoreRax8Zero,
    MovMemRaxRdi,
    MovMemRax8Rsi,
    CmpRaxRdi,
    CmpRaxZero,
    Sete,
    Setne,
    Setl,
    Setle,
    Setg,
    Setge,
    MovzbRaxAl,
    MovRaxImm(usize),
    AddRaxRsp(usize),
    SubRaxRsp(usize),
    ImulRaxRsp(usize),
    Cqo,
    IdivRsp(usize),
    MovRaxRdx,
    PushImm(i32),
    LeaRdiRip(String),
    StoreGlobal(String),
    LoadGlobal(String),
    MovRdiRbpMinus(usize),
    PushRbpMinus(usize),
    MovRaxRbpPlus(usize),
    MovRbpMinusRax(usize),
    JeEnd(usize),
    JmpBegin(usize),
    JeL(usize),
    JmpL(usize),
    PushMemRax,
    MovRaxMemRax8,
    LoadRaxMem,
    LoadRaxMem8,
    CallRax,
    AddRspImm(usize),
}

/// The mathematical image of an [`Line`].
pub enum SpecLine {
    IntelSyntax,
    GlobalMain,
    DataSec,
    TextSec,
    Label(Seq<char>),
    ProcLabel(usize),
    BeginLabel(usize),
    EndLabel(usize),
    LocalLabel(usize),
    Zero8,
    PushRbp,
    MovRbpRsp,
    SubRsp(usize),
    PopRax,
    PopRdi,
    PopRsi,
    PushRax,
    MovRspRbp,
    PopRbp,
    Ret,
    MovRdiImm(usize),
    MovRsiImm(usize),
    CallCalloc,
    MovRdiRsp(usize),
    MovRsiRsp(usize),
    MovRaxRsp(usize),
    StoreRaxRdi,
    StoreRax8Rsi,
    StoreRax8Zero,
    MovMemRaxRdi,
    MovMemRax8Rsi,
    CmpRaxRdi,
    CmpRaxZero,
    Sete,
    Setne,
    Setl,
    Setle,
    Setg,
    Setge,
    MovzbRaxAl,
    MovRaxImm(usize),
    AddRaxRsp(usize),
    SubRaxRsp(usize),
    ImulRaxRsp(usize),
    Cqo,
    IdivRsp(usize),
    MovRaxRdx,
    PushImm(i32),
    LeaRdiRip(Seq<char>),
    StoreGlobal(Seq<char>),
    LoadGlobal(Seq<char>),
    MovRdiRbpMinus(usize),
    PushRbpMinus(usize),
    MovRaxRbpPlus(usize),
    MovRbpMinusRax(usize),
    JeEnd(usize),
    JmpBegin(usize),
    JeL(usize),
    JmpL(usize),
    PushMemRax,
    MovRaxMemRax8,
    LoadRaxMem,
    LoadRaxMem8,
    CallRax,
    AddRspImm(usize),
}

impl View for Line {
    type V = SpecLine;

    open spec fn view(&self) -> SpecLine {
        match self {
            Line::IntelSyntax => SpecLine::IntelSyntax,
            Line::GlobalMain => SpecLine::GlobalMain,
            Line::DataSec => SpecLine::DataSec,
            Line::TextSec => SpecLine::TextSec,
            Line::Label(n) => SpecLine::Label(n@),
            Line::ProcLabel(i) => SpecLine::ProcLabel(*i),
            Line::BeginLabel(i) => SpecLine::BeginLabel(*i),
            Line::EndLabel(i) => SpecLine::EndLabel(*i),
            Line::LocalLabel(i) => SpecLine::LocalLabel(*i),
            Line::Zero8 => SpecLine::Zero8,
            Line::PushRbp => SpecLine::PushRbp,
            Line::MovRbpRsp => SpecLine::MovRbpRsp,
            Line::SubRsp(n) => SpecLine::SubRsp(*n),
            Line::PopRax => SpecLine::PopRax,
            Line::PopRdi => SpecLine::PopRdi,
            Line::PopRsi => SpecLine::PopRsi,
            Line::PushRax => SpecLine::PushRax,
            Line::MovRspRbp => SpecLine::MovRspRbp,
            Line::PopRbp => SpecLine::PopRbp,
            Line::Ret => SpecLine::Ret,
            Line::MovRdiImm(n) => SpecLine::MovRdiImm(*n),
            Line::MovRsiImm(n) => SpecLine::MovRsiImm(*n),
            Line::CallCalloc => SpecLine::CallCalloc,
            Line::MovRdiRsp(n) => SpecLine::MovRdiRsp(*n),
            Line::MovRsiRsp(n) => SpecLine::MovRsiRsp(*n),
            Line::MovRaxRsp(n) => SpecLine::MovRaxRsp(*n),
            Line::StoreRaxRdi => SpecLine::StoreRaxRdi,
            Line::StoreRax8Rsi => SpecLine::StoreRax8Rsi,
            Line::StoreRax8Zero => SpecLine::StoreRax8Zero,
            Line::MovMemRaxRdi => SpecLine::MovMemRaxRdi,
            Line::MovMemRax8Rsi => SpecLine::MovMemRax8Rsi,
            Line::CmpRaxRdi => SpecLine::CmpRaxRdi,
            Line::CmpRaxZero => SpecLine::CmpRaxZero,
            Line::Sete => SpecLine::Sete,
            Line::Setne => SpecLine::Setne,
            Line::Setl => SpecLine::Setl,
            Line::Setle => SpecLine::Setle,
            Line::Setg => SpecLine::Setg,
            Line::Setge => SpecLine::Setge,
            Line::MovzbRaxAl => SpecLine::MovzbRaxAl,
            Line::MovRaxImm(n) => SpecLine::MovRaxImm(*n),
            Line::AddRaxRsp(n) => SpecLine::AddRaxRsp(*n),
            Line::SubRaxRsp(n) => SpecLine::SubRaxRsp(*n),
            Line::ImulRaxRsp(n) => SpecLine::ImulRaxRsp(*n),
            Line::Cqo => SpecLine::Cqo,
            Line::IdivRsp(n) => SpecLine::IdivRsp(*n),
            Line::MovRaxRdx => SpecLine::MovRaxRdx,
            Line::PushImm(v) => SpecLine::PushImm(*v),
            Line::LeaRdiRip(n) => SpecLine::LeaRdiRip(n@),
            Line::StoreGlobal(n) => SpecLine::StoreGlobal(n@),
            Line::LoadGlobal(n) => SpecLine::LoadGlobal(n@),
            Line::MovRdiRbpMinus(n) => SpecLine::MovRdiRbpMinus(*n),
            Line::PushRbpMinus(n) => SpecLine::PushRbpMinus(*n),
            Line::MovRaxRbpPlus(n) => SpecLine::MovRaxRbpPlus(*n),
            Line::MovRbpMinusRax(n) => SpecLine::MovRbpMinusRax(*n),
            Line::JeEnd(n) => SpecLine::JeEnd(*n),
            Line::JmpBegin(n) => SpecLine::JmpBegin(*n),
            Line::JeL(n) => SpecLine::JeL(*n),
            Line::JmpL(n) => SpecLine::JmpL(*n),
            Line::PushMemRax => SpecLine::PushMemRax,
            Line::MovRaxMemRax8 => SpecLine::MovRaxMemRax8,
            Line::LoadRaxMem => SpecLine::LoadRaxMem,
            Line::LoadRaxMem8 => SpecLine::LoadRaxMem8,
            Line::CallRax => SpecLine::CallRax,
            Line::AddRspImm(n) => SpecLine::AddRspImm(*n),
        }
    }
}

/// The decimal notation of a signed value.
pub open spec fn int_str(v: int) -> Seq<char> {
    if v < 0 {
        "-"@ + dec_str((-v) as nat)
    } else {
        dec_str(v as nat)
    }
}

/// The text of one line, without its newline.
pub open spec fn spec_render_line(l: SpecLine) -> Seq<char> {
    match l {
        SpecLine::IntelSyntax => ".intel_syntax noprefix"@,
        SpecLine::GlobalMain => ".global main"@,
        SpecLine::DataSec => ".data"@,
        SpecLine::TextSec => ".text"@,
        SpecLine::Label(n) => n + ":"@,
        SpecLine::ProcLabel(i) => "_"@ + dec_str(i as nat) + ":"@,
        SpecLine::BeginLabel(i) => "begin"@ + dec_str(i as nat) + ":"@,
        SpecLine::EndLabel(i) => "end"@ + dec_str(i as nat) + ":"@,
        SpecLine::LocalLabel(i) => ".L"@ + dec_str(i as nat) + ":"@,
        SpecLine::Zero8 => "    .zero 8"@,
        SpecLine::PushRbp => "    push rbp"@,
        SpecLine::MovRbpRsp => "    mov rbp, rsp"@,
        SpecLine::SubRsp(n) => "    sub rsp, "@ + dec_str(n as nat),
        SpecLine::PopRax => "    pop rax"@,
        SpecLine::PopRdi => "    pop rdi"@,
        SpecLine::PopRsi => "    pop rsi"@,
        SpecLine::PushRax => "    push rax"@,
        SpecLine::MovRspRbp => "    mov rsp, rbp"@,
        SpecLine::PopRbp => "    pop rbp"@,
        SpecLine::Ret => "    ret"@,
        SpecLine::MovRdiImm(n) => "    mov rdi, "@ + dec_str(n as nat),
        SpecLine::MovRsiImm(n) => "    mov rsi, "@ + dec_str(n as nat),
        SpecLine::CallCalloc => "    call calloc"@,
        SpecLine::MovRdiRsp(n) => "    mov rdi, QWORD PTR [rsp+"@ + dec_str(n as nat) + "]"@,
        SpecLine::MovRsiRsp(n) => "    mov rsi, QWORD PTR [rsp+"@ + dec_str(n as nat) + "]"@,
        SpecLine::MovRaxRsp(n) => "    mov rax, QWORD PTR [rsp+"@ + dec_str(n as nat) + "]"@,
        SpecLine::StoreRaxRdi => "    mov QWORD PTR [rax], rdi"@,
        SpecLine::StoreRax8Rsi => "    mov QWORD PTR [rax+8], rsi"@,
        SpecLine::StoreRax8Zero => "    mov QWORD PTR [rax+8], 0"@,
        SpecLine::MovMemRaxRdi => "    mov [rax], rdi"@,
        SpecLine::MovMemRax8Rsi => "    mov [rax+8], rsi"@,
        SpecLine::CmpRaxRdi => "    cmp rax, rdi"@,
        SpecLine::CmpRaxZero => "    cmp rax, 0"@,
        SpecLine::Sete => "    sete al"@,
        SpecLine::Setne => "    setne al"@,
        SpecLine::Setl => "    setl al"@,
        SpecLine::Setle => "    setle al"@,
        SpecLine::Setg => "    setg al"@,
        SpecLine::Setge => "    setge al"@,
        SpecLine::MovzbRaxAl => "    movzb rax, al"@,
        SpecLine::MovRaxImm(n) => "    mov rax, "@ + dec_str(n as nat),
        SpecLine::AddRaxRsp(n) => "    add rax, QWORD PTR [rsp+"@ + dec_str(n as nat) + "]"@,
        SpecLine::SubRaxRsp(n) => "    sub rax, QWORD PTR [rsp+"@ + dec_str(n as nat) + "]"@,
        SpecLine::ImulRaxRsp(n) => "    imul rax, QWORD PTR [rsp+"@ + dec_str(n as nat) + "]"@,
        SpecLine::Cqo => "    cqo"@,
        SpecLine::IdivRsp(n) => "    idiv QWORD PTR [rsp+"@ + dec_str(n as nat) + "]"@,
        SpecLine::MovRaxRdx => "    mov rax, rdx"@,
        SpecLine::PushImm(v) => "    push "@ + int_str(v as int),
        SpecLine::LeaRdiRip(n) => "    lea rdi, [rip+"@ + n + "]"@,
        SpecLine::StoreGlobal(n) => "    mov [rip+"@ + n + "], rax"@,
        SpecLine::LoadGlobal(n) => "    mov rax, [rip+"@ + n + "]"@,
        SpecLine::MovRdiRbpMinus(n) => "    mov rdi, [rbp-"@ + dec_str(n as nat) + "]"@,
        SpecLine::PushRbpMinus(n) => "    push QWORD PTR [rbp-"@ + dec_str(n as nat) + "]"@,
        SpecLine::MovRaxRbpPlus(n) => "    mov rax, QWORD PTR [rbp+"@ + dec_str(n as nat) + "]"@,
        SpecLine::MovRbpMinusRax(n) => "    mov QWORD PTR [rbp-"@ + dec_str(n as nat) + "], rax"@,
        SpecLine::JeEnd(n) => "    je end"@ + dec_str(n as nat),
        SpecLine::JmpBegin(n) => "    jmp begin"@ + dec_str(n as nat),
        SpecLine::JeL(n) => "    je .L"@ + dec_str(n as nat),
        SpecLine::JmpL(n) => "    jmp .L"@ + dec_str(n as nat),
        SpecLine::PushMemRax => "    push [rax]"@,
        SpecLine::MovRaxMemRax8 => "    mov rax, [rax+8]"@,
        SpecLine::LoadRaxMem => "    mov rax, QWORD PTR [rax]"@,
        SpecLine::LoadRaxMem8 => "    mov rax, QWORD PTR [rax+8]"@,
        SpecLine::CallRax => "    call rax"@,
        SpecLine::AddRspImm(n) => "    add rsp, "@ + dec_str(n as nat),
    }
}

/// The images of a line sequence.
pub open spec fn view_lines(ls: Seq<Line>) -> Seq<SpecLine> {
    Seq::new(ls.len(), |i: int| ls[i]@)
}

/// The whole output text: each line followed by a newline.
pub open spec fn spec_render(ls: Seq<SpecLine>) -> Seq<char>
    decreases ls.len(),
{
    if ls.len() == 0 {
        Seq::empty()
    } else {
        spec_render(ls.drop_last()) + spec_render_line(ls.last()) + "\n"@
    }
}

fn cat1(head: &str, n: usize) -> (r: String)
    ensures
        r@ == head@ + dec_str(n as nat),
{
    let mut s = head.to_owned();
    let num = dec_string(n as u64);
    s.append(num.as_str());
    proof {
        assert(s@ =~= head@ + dec_str(n as nat));
    }
    s
}

fn cat2(head: &str, n: usize, tail: &str) -> (r: String)
    ensures
        r@ == head@ + dec_str(n as nat) + tail@,
{
    let mut s = cat1(head, n);
    s.append(tail);
    proof {
        assert(s@ =~= head@ + dec_str(n as nat) + tail@);
    }
    s
}

fn cat_name(head: &str, name: &str, tail: &str) -> (r: String)
    ensures
        r@ == head@ + name@ + tail@,
{
    let mut s = head.to_owned();
    s.append(name);
    s.append(tail);
    proof {
        assert(s@ =~= head@ + name@ + tail@);
    }
    s
}

/// The text of one line.
pub fn render_line(l: &Line) -> (r: String)
    ensures
        r@ == spec_render_line(l@),
{
    match l {
        Line::IntelSyntax => ".intel_syntax noprefix".to_owned(),
        Line::GlobalMain => ".global main".to_owned(),
        Line::DataSec => ".data".to_owned(),
        Line::TextSec => ".text".to_owned(),
        Line::Label(n) => {
            let mut s = n.as_str().to_owned();
            s.append(":");
            proof {
                assert(s@ =~= n@ + ":"@);
            }
            s
        },
        Line::ProcLabel(i) => cat2("_", *i, ":"),
        Line::BeginLabel(i) => cat2("begin", *i, ":"),
        Line::EndLabel(i) => cat2("end", *i, ":"),
        Line::LocalLabel(i) => cat2(".L", *i, ":"),
        Line::Zero8 => "    .zero 8".to_owned(),
        Line::PushRbp => "    push rbp".to_owned(),
        Line::MovRbpRsp => "    mov rbp, rsp".to_owned(),
        Line::SubRsp(n) => cat1("    sub rsp, ", *n),
        Line::PopRax => "    pop rax".to_owned(),
        Line::PopRdi => "    pop rdi".to_owned(),
        Line::PopRsi => "    pop rsi".to_owned(),
        Line::PushRax => "    push rax".to_owned(),
        Line::MovRspRbp => "    mov rsp, rbp".to_owned(),
        Line::PopRbp => "    pop rbp".to_owned(),
        Line::Ret => "    ret".to_owned(),
        Line::MovRdiImm(n) => cat1("    mov rdi, ", *n),
        Line::MovRsiImm(n) => cat1("    mov rsi, ", *n),
        Line::CallCalloc => "    call calloc".to_owned(),
        Line::MovRdiRsp(n) => cat2("    mov rdi, QWORD PTR [rsp+", *n, "]"),
        Line::MovRsiRsp(n) => cat2("    mov rsi, QWORD PTR [rsp+", *n, "]"),
        Line::MovRaxRsp(n) => cat2("    mov rax, QWORD PTR [rsp+", *n, "]"),
        Line::StoreRaxRdi => "    mov QWORD PTR [rax], rdi".to_owned(),
        Line::StoreRax8Rsi => "    mov QWORD PTR [rax+8], rsi".to_owned(),
        Line::StoreRax8Zero => "    mov QWORD PTR [rax+8], 0".to_owned(),
        Line::MovMemRaxRdi => "    mov [rax], rdi".to_owned(),
        Line::MovMemRax8Rsi => "    mov [rax+8], rsi".to_owned(),
        Line::CmpRaxRdi => "    cmp rax, rdi".to_owned(),
        Line::CmpRaxZero => "    cmp rax, 0".to_owned(),
        Line::Sete => "    sete al".to_owned(),
        Line::Setne => "    setne al".to_owned(),
        Line::Setl => "    setl al".to_owned(),
        Line::Setle => "    setle al".to_owned(),
        Line::Setg => "    setg al".to_owned(),
        Line::Setge => "    setge al".to_owned(),
        Line::MovzbRaxAl => "    movzb rax, al".to_owned(),
        Line::MovRaxImm(n) => cat1("    mov rax, ", *n),
        Line::AddRaxRsp(n) => cat2("    add rax, QWORD PTR [rsp+", *n, "]"),
        Line::SubRaxRsp(n) => cat2("    sub rax, QWORD PTR [rsp+", *n, "]"),
        Line::ImulRaxRsp(n) => cat2("    imul rax, QWORD PTR [rsp+", *n, "]"),
        Line::Cqo => "    cqo".to_owned(),
        Line::IdivRsp(n) => cat2("    idiv QWORD PTR [rsp+", *n, "]"),
        Line::MovRaxRdx => "    mov rax, rdx".to_owned(),
        Line::PushImm(v) => {
            let mut s = "    push ".to_owned();
            if *v < 0 {
                s.append("-");
                let m: u64 = (-(*v as i64)) as u64;
                let num = dec_string(m);
                s.append(num.as_str());
                proof {
                    assert(s@ =~= "    push "@ + int_str(*v as int));
                }
            } else {
                let num = dec_string(*v as u64);
                s.append(num.as_str());
                proof {
                    assert(s@ =~= "    push "@ + int_str(*v as int));
                }
            }
            s
        },
        Line::LeaRdiRip(n) => cat_name("    lea rdi, [rip+", n.as_str(), "]"),
        Line::StoreGlobal(n) => cat_name("    mov [rip+", n.as_str(), "], rax"),
        Line::LoadGlobal(n) => cat_name("    mov rax, [rip+", n.as_str(), "]"),
        Line::MovRdiRbpMinus(n) => cat2("    mov rdi, [rbp-", *n, "]"),
        Line::PushRbpMinus(n) => cat2("    push QWORD PTR [rbp-", *n, "]"),
        Line::MovRaxRbpPlus(n) => cat2("    mov rax, QWORD PTR [rbp+", *n, "]"),
        Line::MovRbpMinusRax(n) => cat2("    mov QWORD PTR [rbp-", *n, "], rax"),
        Line::JeEnd(n) => cat1("    je end", *n),
        Line::JmpBegin(n) => cat1("    jmp begin", *n),
        Line::JeL(n) => cat1("    je .L", *n),
        Line::JmpL(n) => cat1("    jmp .L", *n),
        Line::PushMemRax => "    push [rax]".to_owned(),
        Line::MovRaxMemRax8 => "    mov rax, [rax+8]".to_owned(),
        Line::LoadRaxMem => "    mov rax, QWORD PTR [rax]".to_owned(),
        Line::LoadRaxMem8 => "    mov rax, QWORD PTR [rax+8]".to_owned(),
        Line::CallRax => "    call rax".to_owned(),
        Line::AddRspImm(n) => cat1("    add rsp, ", *n),
    }
}

/// The whole output text of a line sequence, one text line per
/// [`Line`].
pub fn render(lines: &Vec<Line>) -> (r: String)
    ensures
        r@ == spec_render(view_lines(lines@)),
{
    let mut out = String::new();
    let n = lines.len();
    let mut i: usize = 0;
    while i < n
        invariant
            n == lines@.len(),
            i <= n,
            out@ =~= spec_render(view_lines(lines@).subrange(0, i as int)),
        decreases n - i,
    {
        let line = render_line(&lines[i]);
        out.append(line.as_str());
        out.append("\n");
        proof {
            let lv = view_lines(lines@);
            assert(lv.subrange(0, i as int + 1).drop_last() =~= lv.subrange(0, i as int));
            assert(lv.subrange(0, i as int + 1).last() == lv[i as int]);
            assert(out@ =~= spec_render(lv.subrange(0, i as int + 1)));
        }
        i = i + 1;
    }
    proof {
        assert(view_lines(lines@).subrange(0, n as int) =~= view_lines(lines@));
    }
    out
}

} // verus!
