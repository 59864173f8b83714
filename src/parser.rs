//! The parser: turns tokens into operations, one statement at a time, then
//! resolves the targets of jumps against the labels that were declared.
//!
//! The grammar is stated over the kinds of the tokens (`Lexeme`s): a failed
//! parse names the first invalid construct by a cause and the index of the
//! token responsible for it.
use crate::lexer::{
    kinds, lemma_lexes_to_kinds, lexemes, lexes_to, Instruction, Lexeme, Register, Token, TokenKind,
};
use crate::shared::{
    encode, lemma_encode_slice, lemma_ops_size_bounds_len, lemma_ops_size_same_sizes,
    lemma_size_bounds, ops_size, Case, Op, MEMORY_SIZE,
};
use vstd::prelude::*;

verus! {

/// A parse failure: its cause and the index of the token responsible.
pub type Fault = (&'static str, int);

/// One statement, as the first pass of the parser reads it.
#[derive(PartialEq, Eq, Structural, Debug, Clone, Copy)]
pub enum Parsed {
    /// An operation complete as it stands.
    Op(Op),
    /// A jump whose target is the label named by the token at the index given.
    Jump(Op, usize),
    /// The declaration of the label named by the token at the index given.
    Label(usize),
}

/// The kind of an operand of `mov`: register, absolute address, address
/// held in a register, immediate byte.
#[derive(PartialEq, Eq, Structural, Debug, Clone, Copy)]
pub enum Place {
    R,
    A,
    X,
    N,
}

/// The register index a token kind names, if it names one.
pub open spec fn reg_of(l: Lexeme) -> Option<u8> {
    match l {
        Lexeme::Reg(r) => Some(r.spec_index()),
        _ => None,
    }
}

/// A number as a byte, if it is one.
pub open spec fn byte_of(n: i32) -> Option<u8> {
    if 0 <= n <= 255 {
        Some(n as u8)
    } else {
        None
    }
}

/// The text of a symbol.
pub open spec fn symbol_name(l: Lexeme) -> Seq<char> {
    match l {
        Lexeme::Symbol(s) => s,
        _ => seq![],
    }
}

/// The target byte that a jump carries until its label is resolved.
pub const UNRESOLVED: u8 = 0xEA;

pub open spec fn unary_at(k: Seq<Lexeme>, i: int, ins: Instruction) -> Result<(Parsed, int), Fault> {
    if i + 1 >= k.len() {
        Err(("Missing a register after here", i))
    } else {
        match reg_of(k[i + 1]) {
            None => Err(("Expected a register here", i + 1)),
            Some(x) => Ok(
                (
                    Parsed::Op(
                        match ins {
                            Instruction::Print => Op::PRINT(x),
                            Instruction::Shl => Op::SHL(x),
                            _ => Op::SHR(x),
                        },
                    ),
                    i + 2,
                ),
            ),
        }
    }
}

/// The comparison spelled by the operator token `first`, followed by
/// `second` when the operator has two characters.
pub open spec fn comparison(first: Lexeme, second: Option<Lexeme>, x: u8, y: u8) -> Option<Case> {
    match (first, second) {
        (Lexeme::Greater, None) => Some(Case::GRT(x, y)),
        (Lexeme::Greater, Some(Lexeme::Equal)) => Some(Case::GRTEQ(x, y)),
        (Lexeme::Lesser, None) => Some(Case::LSR(x, y)),
        (Lexeme::Lesser, Some(Lexeme::Equal)) => Some(Case::LSREQ(x, y)),
        (Lexeme::Equal, Some(Lexeme::Equal)) => Some(Case::EQ(x, y)),
        (Lexeme::Exclamation, Some(Lexeme::Equal)) => Some(Case::NEQ(x, y)),
        _ => None,
    }
}

/// The end of a jump, from its `to` at index `w` on.
pub open spec fn jump_tail(k: Seq<Lexeme>, w: int, case: Option<Case>) -> Result<(Parsed, int), Fault> {
    if !(k[w] is To) {
        Err(("Expected 'to' here", w))
    } else if w + 1 >= k.len() {
        Err(("Missing label after here", w))
    } else if k[w + 1] is Symbol {
        let op = match case {
            Some(c) => Op::JMPIF(c, UNRESOLVED),
            None => Op::JMP(UNRESOLVED),
        };
        Ok((Parsed::Jump(op, (w + 1) as usize), w + 2))
    } else {
        Err(("Is not a label", w + 1))
    }
}

/// A conditional jump, whose `if` is at index `i + 1`.
pub open spec fn cond_jump_at(k: Seq<Lexeme>, i: int) -> Result<(Parsed, int), Fault> {
    let w = i + 1;
    let x = i + 2;
    let c = i + 3;
    let y0 = i + 4;
    if x >= k.len() {
        Err(("Missing left-hand side of comparison after here", w))
    } else if c >= k.len() {
        Err(("Missing comparison operator after here", x))
    } else if y0 >= k.len() {
        Err(("Missing right-hand side of comparison after here", c))
    } else if !(k[y0] is Reg || k[y0] is Equal || k[y0] is Greater || k[y0] is Lesser) {
        Err(("Must be a register", y0))
    } else {
        let second = !(k[y0] is Reg);
        let y = if second {
            y0 + 1
        } else {
            y0
        };
        if second && y >= k.len() {
            Err(("Missing right-hand side of comparison after here", y0))
        } else if y + 1 >= k.len() {
            Err(("Missing 'to' after here", y))
        } else {
            match (reg_of(k[x]), reg_of(k[y])) {
                (None, _) => Err(("Must be a register", x)),
                (_, None) => Err(("Must be a register", y)),
                (Some(a), Some(b)) => match comparison(
                    k[c],
                    if second {
                        Some(k[y0])
                    } else {
                        None
                    },
                    a,
                    b,
                ) {
                    None => Err(("Expected a comparison operator here", c)),
                    Some(case) => jump_tail(k, y + 1, Some(case)),
                },
            }
        }
    }
}

pub open spec fn jump_at(k: Seq<Lexeme>, i: int) -> Result<(Parsed, int), Fault> {
    if i + 1 >= k.len() {
        Err(("Missing 'to' or 'if' here", i))
    } else if k[i + 1] is If {
        cond_jump_at(k, i)
    } else {
        jump_tail(k, i + 1, None)
    }
}

pub open spec fn label_at(k: Seq<Lexeme>, i: int) -> Result<(Parsed, int), Fault> {
    if i + 1 >= k.len() {
        Err(("Missing 'as' after here", i))
    } else if !(k[i + 1] is As) {
        Err(("Expected 'as' here", i + 1))
    } else if i + 2 >= k.len() {
        Err(("Missing a label name after here", i + 1))
    } else if k[i + 2] is Symbol {
        Ok((Parsed::Label((i + 2) as usize), i + 3))
    } else {
        Err(("Label name cannot be a number or a keyword", i + 2))
    }
}

/// The bitwise operation `ins` on a register and a register (`by_reg`) or an immediate.
pub open spec fn logic_op(ins: Instruction, by_reg: bool, x: u8, y: u8) -> Op {
    match ins {
        Instruction::Xor => if by_reg {
            Op::XORRR(x, y)
        } else {
            Op::XORRN(x, y)
        },
        Instruction::Or => if by_reg {
            Op::ORRR(x, y)
        } else {
            Op::ORRN(x, y)
        },
        _ => if by_reg {
            Op::ANDRR(x, y)
        } else {
            Op::ANDRN(x, y)
        },
    }
}

pub open spec fn logic_at(k: Seq<Lexeme>, i: int, ins: Instruction) -> Result<(Parsed, int), Fault> {
    let (a, w, b) = (i + 1, i + 2, i + 3);
    if a >= k.len() {
        Err(("Missing register after here", i))
    } else if w >= k.len() {
        Err(("Missing 'with' after here", a))
    } else if b >= k.len() {
        Err(("Missing register or number after here", w))
    } else {
        match reg_of(k[a]) {
            None => Err(("Expected a register here", a)),
            Some(x) => if !(k[w] is With) {
                Err(("Expected 'with' here", w))
            } else {
                match k[b] {
                    Lexeme::Number(y) => match byte_of(y) {
                        None => Err(("Integers should be between 0 and 255 (included)", b)),
                        Some(v) => Ok((Parsed::Op(logic_op(ins, false, x, v)), i + 4)),
                    },
                    Lexeme::Reg(r) => Ok((Parsed::Op(logic_op(ins, true, x, r.spec_index())), i + 4)),
                    _ => Err(("Expected a register or a number here", b)),
                }
            },
        }
    }
}

/// `add` (when `add` holds) or `sub` of a register or an immediate to a register.
pub open spec fn arith_op(add: bool, by_reg: bool, y: u8, x: u8) -> Op {
    if add {
        if by_reg {
            Op::ADDRR(y, x)
        } else {
            Op::ADDRN(y, x)
        }
    } else {
        if by_reg {
            Op::SUBRR(y, x)
        } else {
            Op::SUBRN(y, x)
        }
    }
}

pub open spec fn arith_at(k: Seq<Lexeme>, i: int, add: bool) -> Result<(Parsed, int), Fault> {
    let (a, w, b) = (i + 1, i + 2, i + 3);
    if a >= k.len() {
        Err(("Missing register or number after here", i))
    } else if w >= k.len() {
        Err(
            (
                if add {
                    "Missing 'to' after here"
                } else {
                    "Missing 'from' after here"
                },
                a,
            ),
        )
    } else if b >= k.len() {
        Err(("Missing register after here", w))
    } else {
        match reg_of(k[b]) {
            None => Err(("Expected a register here", b)),
            Some(y) => if (add && !(k[w] is To)) || (!add && !(k[w] is From)) {
                Err(
                    (
                        if add {
                            "Expected 'to' here"
                        } else {
                            "Expected 'from' here"
                        },
                        w,
                    ),
                )
            } else {
                match k[a] {
                    Lexeme::Number(x) => match byte_of(x) {
                        None => Err(("Integers should be between 0 and 255 (included)", a)),
                        Some(v) => Ok((Parsed::Op(arith_op(add, false, y, v)), i + 4)),
                    },
                    Lexeme::Reg(r) => Ok((Parsed::Op(arith_op(add, true, y, r.spec_index())), i + 4)),
                    _ => Err(("Expected a register or a number here", a)),
                }
            },
        }
    }
}

/// The `mov` with destination kind `dst` and source kind `src`.
pub open spec fn mov_op(dst: Place, src: Place, d: u8, s: u8) -> Op {
    match (dst, src) {
        (Place::R, Place::N) => Op::MOVRN(d, s),
        (Place::R, Place::R) => Op::MOVRR(d, s),
        (Place::R, Place::A) => Op::MOVRA(d, s),
        (Place::R, Place::X) => Op::MOVRX(d, s),
        (Place::A, Place::N) => Op::MOVAN(d, s),
        (Place::A, Place::R) => Op::MOVAR(d, s),
        (Place::A, Place::A) => Op::MOVAA(d, s),
        (Place::A, Place::X) => Op::MOVAX(d, s),
        (Place::X, Place::N) => Op::MOVXN(d, s),
        (Place::X, Place::R) => Op::MOVXR(d, s),
        (Place::X, Place::A) => Op::MOVXA(d, s),
        _ => Op::MOVXX(d, s),
    }
}

/// The destination of a `mov` at index `b`, `$` before it when `deref_b`
/// holds, for a source of kind `src` and byte `s`.
pub open spec fn mov_dst(k: Seq<Lexeme>, b: int, deref_b: bool, src: Place, s: u8) -> Result<(Parsed, int), Fault> {
    match k[b] {
        Lexeme::Reg(d) => Ok(
            (
                Parsed::Op(
                    mov_op(
                        if deref_b {
                            Place::X
                        } else {
                            Place::R
                        },
                        src,
                        d.spec_index(),
                        s,
                    ),
                ),
                b + 1,
            ),
        ),
        Lexeme::Number(d) if deref_b => match byte_of(d) {
            None => Err(("Integers should be between 0 and 255 (included)", b)),
            Some(dv) => Ok((Parsed::Op(mov_op(Place::A, src, dv, s)), b + 1)),
        },
        _ => Err(("Expected a register or an address here", b)),
    }
}

pub open spec fn mov_at(k: Seq<Lexeme>, i: int) -> Result<(Parsed, int), Fault> {
    let a0 = i + 1;
    if a0 >= k.len() {
        Err(("Missing source after here", i))
    } else {
        let deref_a = k[a0] is Deref;
        let a = if deref_a {
            a0 + 1
        } else {
            a0
        };
        if deref_a && a >= k.len() {
            Err(("Nothing to dereference after here", a0))
        } else if a + 1 >= k.len() {
            Err(("Missing 'to' after here", a))
        } else if !(k[a + 1] is To) {
            Err(("Expected 'to' here", a + 1))
        } else if a + 2 >= k.len() {
            Err(("Missing destination after here", a + 1))
        } else {
            let b0 = a + 2;
            let deref_b = k[b0] is Deref;
            let b = if deref_b {
                b0 + 1
            } else {
                b0
            };
            if deref_b && b >= k.len() {
                Err(("Nothing to dereference after here", b0))
            } else {
                match k[a] {
                    Lexeme::Number(n) => match byte_of(n) {
                        None => Err(("Integers should be between 0 and 255 (included)", a)),
                        Some(s) => mov_dst(
                            k,
                            b,
                            deref_b,
                            if deref_a {
                                Place::A
                            } else {
                                Place::N
                            },
                            s,
                        ),
                    },
                    Lexeme::Reg(r) => mov_dst(
                        k,
                        b,
                        deref_b,
                        if deref_a {
                            Place::X
                        } else {
                            Place::R
                        },
                        r.spec_index(),
                    ),
                    _ => Err(("Expected a register, an address or a number here", a)),
                }
            }
        }
    }
}

/// The statement that starts at index `i`, and the index after it.
pub open spec fn stmt_at(k: Seq<Lexeme>, i: int) -> Result<(Parsed, int), Fault> {
    match k[i] {
        Lexeme::Ins(ins) => match ins {
            Instruction::Halt => Ok((Parsed::Op(Op::HALT), i + 1)),
            Instruction::Print | Instruction::Shl | Instruction::Shr => unary_at(k, i, ins),
            Instruction::Jmp => jump_at(k, i),
            Instruction::Label => label_at(k, i),
            Instruction::Or | Instruction::Xor | Instruction::And => logic_at(k, i, ins),
            Instruction::Add => arith_at(k, i, true),
            Instruction::Sub => arith_at(k, i, false),
            Instruction::Mov => mov_at(k, i),
        },
        _ => Err(("Expected an operation or directive here", i)),
    }
}

/// A statement that parses ends after its start and within the tokens.
pub proof fn lemma_stmt_advances(k: Seq<Lexeme>, i: int)
    requires
        0 <= i < k.len(),
    ensures
        stmt_at(k, i) matches Ok((_, j)) ==> i < j <= k.len(),
        stmt_at(k, i) matches Err((_, t)) ==> i <= t < k.len(),
{
}

/// The tokens that a statement names as labels are symbols.
pub proof fn lemma_stmt_names(k: Seq<Lexeme>, i: int)
    requires
        0 <= i < k.len(),
        k.len() <= usize::MAX,
    ensures
        stmt_at(k, i) matches Ok((Parsed::Label(t), _)) ==> t < k.len() && k[t as int] is Symbol,
        stmt_at(k, i) matches Ok((Parsed::Label(t), j)) ==> t == i + 2 && j == i + 3,
        stmt_at(k, i) matches Ok((Parsed::Jump(op, t), _)) ==> {
            &&& t < k.len()
            &&& k[t as int] is Symbol
            &&& (op is JMP || op is JMPIF)
        },
{
}

/// What the first pass has gathered: the operations so far, the label
/// declarations as (name token, address), and the jumps to patch as
/// (operation index, label token).
pub struct Scan {
    pub code: Seq<Op>,
    pub labels: Seq<(usize, u8)>,
    pub jumps: Seq<(usize, usize)>,
}

/// The first pass over the tokens from index `i` on, continuing `st`.
pub open spec fn scan_from(k: Seq<Lexeme>, i: int, st: Scan) -> Result<Scan, Fault>
    decreases k.len() - i,
{
    if i < 0 || i >= k.len() {
        Ok(st)
    } else {
        proof {
            lemma_stmt_advances(k, i);
        }
        match stmt_at(k, i) {
            Err(e) => Err(e),
            Ok((p, j)) => match p {
                Parsed::Op(op) => if ops_size(st.code) + op.spec_size() > MEMORY_SIZE {
                    Err(("Program does not fit in 256 bytes of memory", i))
                } else {
                    scan_from(k, j, Scan { code: st.code.push(op), ..st })
                },
                Parsed::Jump(op, t) => if ops_size(st.code) + op.spec_size() > MEMORY_SIZE {
                    Err(("Program does not fit in 256 bytes of memory", i))
                } else {
                    scan_from(
                        k,
                        j,
                        Scan {
                            code: st.code.push(op),
                            jumps: st.jumps.push((st.code.len() as usize, t)),
                            ..st
                        },
                    )
                },
                Parsed::Label(t) => if ops_size(st.code) > 255 {
                    Err(("Label address does not fit in a byte", t as int))
                } else {
                    scan_from(
                        k,
                        j,
                        Scan { labels: st.labels.push((t, ops_size(st.code) as u8)), ..st },
                    )
                },
            },
        }
    }
}

pub open spec fn empty_scan() -> Scan {
    Scan { code: seq![], labels: seq![], jumps: seq![] }
}

/// The first pass over all the tokens.
pub open spec fn scan(k: Seq<Lexeme>) -> Result<Scan, Fault> {
    scan_from(k, 0, empty_scan())
}

/// The address of the last declaration of the label `name`.
pub open spec fn find_label(k: Seq<Lexeme>, labels: Seq<(usize, u8)>, name: Seq<char>) -> Option<u8>
    decreases labels.len(),
{
    if labels.len() == 0 {
        None
    } else if symbol_name(k[labels.last().0 as int]) == name {
        Some(labels.last().1)
    } else {
        find_label(k, labels.drop_last(), name)
    }
}

/// A jump with its target set to `addr`; any other operation is kept.
pub open spec fn with_target(op: Op, addr: u8) -> Op {
    match op {
        Op::JMP(_) => Op::JMP(addr),
        Op::JMPIF(c, _) => Op::JMPIF(c, addr),
        _ => op,
    }
}

/// Patches the jumps from the `m`-th on, in order, failing at the first
/// whose label was never declared.
pub open spec fn resolve_from(k: Seq<Lexeme>, code: Seq<Op>, st: Scan, m: int) -> Result<Seq<Op>, Fault>
    decreases st.jumps.len() - m,
{
    if m < 0 || m >= st.jumps.len() {
        Ok(code)
    } else {
        let (o, t) = st.jumps[m];
        match find_label(k, st.labels, symbol_name(k[t as int])) {
            None => Err(("Jumping to undefined label", t as int)),
            Some(addr) => resolve_from(
                k,
                code.update(o as int, with_target(code[o as int], addr)),
                st,
                m + 1,
            ),
        }
    }
}

/// The operations that the tokens `k` stand for, or the first fault in them.
pub open spec fn parse_tokens(k: Seq<Lexeme>) -> Result<Seq<Op>, Fault> {
    match scan(k) {
        Err(e) => Err(e),
        Ok(st) => resolve_from(k, st.code, st, 0),
    }
}

/// The executable outcome `r` of reading a statement is the outcome `s` of the grammar.
pub open spec fn step_agrees(
    r: Result<(Parsed, usize), (&'static str, usize)>,
    s: Result<(Parsed, int), Fault>,
) -> bool {
    match (r, s) {
        (Ok((p, j)), Ok((q, j2))) => p == q && j == j2,
        (Err((c, t)), Err((c2, t2))) => c == c2 && t == t2,
        _ => false,
    }
}

fn reg_at(k: &Vec<Token>, j: usize) -> (r: Option<u8>)
    requires
        j < k@.len(),
    ensures
        r == reg_of(kinds(k@)[j as int]),
{
    k[j].kind.register_index()
}

fn byte_from(n: i32) -> (r: Option<u8>)
    ensures
        r == byte_of(n),
{
    if 0 <= n && n <= 255 {
        Some(n as u8)
    } else {
        None
    }
}

fn unary(k: &Vec<Token>, i: usize, ins: Instruction) -> (r: Result<(Parsed, usize), (&'static str, usize)>)
    requires
        i < k@.len(),
    ensures
        step_agrees(r, unary_at(kinds(k@), i as int, ins)),
{
    let n = k.len();
    if i + 1 >= n {
        return Err(("Missing a register after here", i));
    }
    match reg_at(k, i + 1) {
        None => Err(("Expected a register here", i + 1)),
        Some(x) => {
            let op = match ins {
                Instruction::Print => Op::PRINT(x),
                Instruction::Shl => Op::SHL(x),
                _ => Op::SHR(x),
            };
            Ok((Parsed::Op(op), i + 2))
        },
    }
}

fn jump_end(k: &Vec<Token>, w: usize, case: Option<Case>) -> (r: Result<(Parsed, usize), (&'static str, usize)>)
    requires
        w < k@.len(),
    ensures
        step_agrees(r, jump_tail(kinds(k@), w as int, case)),
{
    let n = k.len();
    if !matches!(k[w].kind, TokenKind::To) {
        return Err(("Expected 'to' here", w));
    }
    if w + 1 >= n {
        return Err(("Missing label after here", w));
    }
    if matches!(k[w + 1].kind, TokenKind::Symbol(_)) {
        let op = match case {
            Some(c) => Op::JMPIF(c, UNRESOLVED),
            None => Op::JMP(UNRESOLVED),
        };
        Ok((Parsed::Jump(op, w + 1), w + 2))
    } else {
        Err(("Is not a label", w + 1))
    }
}

fn comparison_of(first: &TokenKind, second: Option<&TokenKind>, x: u8, y: u8) -> (r: Option<Case>)
    ensures
        r == comparison(
            first@,
            match second {
                Some(t) => Some(t@),
                None => None,
            },
            x,
            y,
        ),
{
    match (first, second) {
        (TokenKind::Greater, None) => Some(Case::GRT(x, y)),
        (TokenKind::Greater, Some(TokenKind::Equal)) => Some(Case::GRTEQ(x, y)),
        (TokenKind::Lesser, None) => Some(Case::LSR(x, y)),
        (TokenKind::Lesser, Some(TokenKind::Equal)) => Some(Case::LSREQ(x, y)),
        (TokenKind::Equal, Some(TokenKind::Equal)) => Some(Case::EQ(x, y)),
        (TokenKind::Exclamation, Some(TokenKind::Equal)) => Some(Case::NEQ(x, y)),
        _ => None,
    }
}

fn cond_jump(k: &Vec<Token>, i: usize) -> (r: Result<(Parsed, usize), (&'static str, usize)>)
    requires
        i + 1 < k@.len(),
    ensures
        step_agrees(r, cond_jump_at(kinds(k@), i as int)),
{
    let n = k.len();
    let w = i + 1;
    if w + 1 >= n {
        return Err(("Missing left-hand side of comparison after here", w));
    }
    let x = w + 1;
    if x + 1 >= n {
        return Err(("Missing comparison operator after here", x));
    }
    let c = x + 1;
    if c + 1 >= n {
        return Err(("Missing right-hand side of comparison after here", c));
    }
    let y0 = c + 1;
    let second = match &k[y0].kind {
        TokenKind::Reg(_) => false,
        TokenKind::Equal | TokenKind::Greater | TokenKind::Lesser => true,
        _ => {
            return Err(("Must be a register", y0));
        },
    };
    let y = if second {
        y0 + 1
    } else {
        y0
    };
    if second && y >= n {
        return Err(("Missing right-hand side of comparison after here", y0));
    }
    if y + 1 >= n {
        return Err(("Missing 'to' after here", y));
    }
    let a = match reg_at(k, x) {
        Some(a) => a,
        None => {
            return Err(("Must be a register", x));
        },
    };
    let b = match reg_at(k, y) {
        Some(b) => b,
        None => {
            return Err(("Must be a register", y));
        },
    };
    let op2 = if second {
        Some(&k[y0].kind)
    } else {
        None
    };
    match comparison_of(&k[c].kind, op2, a, b) {
        None => Err(("Expected a comparison operator here", c)),
        Some(case) => jump_end(k, y + 1, Some(case)),
    }
}

fn jump(k: &Vec<Token>, i: usize) -> (r: Result<(Parsed, usize), (&'static str, usize)>)
    requires
        i < k@.len(),
    ensures
        step_agrees(r, jump_at(kinds(k@), i as int)),
{
    let n = k.len();
    if i + 1 >= n {
        Err(("Missing 'to' or 'if' here", i))
    } else if matches!(k[i + 1].kind, TokenKind::If) {
        cond_jump(k, i)
    } else {
        jump_end(k, i + 1, None)
    }
}

fn label(k: &Vec<Token>, i: usize) -> (r: Result<(Parsed, usize), (&'static str, usize)>)
    requires
        i < k@.len(),
    ensures
        step_agrees(r, label_at(kinds(k@), i as int)),
{
    let n = k.len();
    if i + 1 >= n {
        Err(("Missing 'as' after here", i))
    } else if !matches!(k[i + 1].kind, TokenKind::As) {
        Err(("Expected 'as' here", i + 1))
    } else if i + 2 >= n {
        Err(("Missing a label name after here", i + 1))
    } else if matches!(k[i + 2].kind, TokenKind::Symbol(_)) {
        Ok((Parsed::Label(i + 2), i + 3))
    } else {
        Err(("Label name cannot be a number or a keyword", i + 2))
    }
}

fn logic_op_of(ins: Instruction, by_reg: bool, x: u8, y: u8) -> (r: Op)
    ensures
        r == logic_op(ins, by_reg, x, y),
{
    match ins {
        Instruction::Xor => if by_reg {
            Op::XORRR(x, y)
        } else {
            Op::XORRN(x, y)
        },
        Instruction::Or => if by_reg {
            Op::ORRR(x, y)
        } else {
            Op::ORRN(x, y)
        },
        _ => if by_reg {
            Op::ANDRR(x, y)
        } else {
            Op::ANDRN(x, y)
        },
    }
}

fn logic(k: &Vec<Token>, i: usize, ins: Instruction) -> (r: Result<(Parsed, usize), (&'static str, usize)>)
    requires
        i < k@.len(),
    ensures
        step_agrees(r, logic_at(kinds(k@), i as int, ins)),
{
    let n = k.len();
    if i + 1 >= n {
        return Err(("Missing register after here", i));
    }
    if i + 2 >= n {
        return Err(("Missing 'with' after here", i + 1));
    }
    if i + 3 >= n {
        return Err(("Missing register or number after here", i + 2));
    }
    let (a, w, b) = (i + 1, i + 2, i + 3);
    let x = match reg_at(k, a) {
        Some(x) => x,
        None => {
            return Err(("Expected a register here", a));
        },
    };
    if !matches!(k[w].kind, TokenKind::With) {
        return Err(("Expected 'with' here", w));
    }
    match &k[b].kind {
        TokenKind::Number(y) => match byte_from(*y) {
            None => Err(("Integers should be between 0 and 255 (included)", b)),
            Some(v) => Ok((Parsed::Op(logic_op_of(ins, false, x, v)), i + 4)),
        },
        TokenKind::Reg(r) => Ok((Parsed::Op(logic_op_of(ins, true, x, r.index())), i + 4)),
        _ => Err(("Expected a register or a number here", b)),
    }
}

fn arith_op_of(add: bool, by_reg: bool, y: u8, x: u8) -> (r: Op)
    ensures
        r == arith_op(add, by_reg, y, x),
{
    if add {
        if by_reg {
            Op::ADDRR(y, x)
        } else {
            Op::ADDRN(y, x)
        }
    } else {
        if by_reg {
            Op::SUBRR(y, x)
        } else {
            Op::SUBRN(y, x)
        }
    }
}

fn arith(k: &Vec<Token>, i: usize, add: bool) -> (r: Result<(Parsed, usize), (&'static str, usize)>)
    requires
        i < k@.len(),
    ensures
        step_agrees(r, arith_at(kinds(k@), i as int, add)),
{
    let n = k.len();
    if i + 1 >= n {
        return Err(("Missing register or number after here", i));
    }
    if i + 2 >= n {
        let cause = if add {
            "Missing 'to' after here"
        } else {
            "Missing 'from' after here"
        };
        return Err((cause, i + 1));
    }
    if i + 3 >= n {
        return Err(("Missing register after here", i + 2));
    }
    let (a, w, b) = (i + 1, i + 2, i + 3);
    let y = match reg_at(k, b) {
        Some(y) => y,
        None => {
            return Err(("Expected a register here", b));
        },
    };
    if add && !matches!(k[w].kind, TokenKind::To) {
        return Err(("Expected 'to' here", w));
    }
    if !add && !matches!(k[w].kind, TokenKind::From) {
        return Err(("Expected 'from' here", w));
    }
    match &k[a].kind {
        TokenKind::Number(x) => match byte_from(*x) {
            None => Err(("Integers should be between 0 and 255 (included)", a)),
            Some(v) => Ok((Parsed::Op(arith_op_of(add, false, y, v)), i + 4)),
        },
        TokenKind::Reg(r) => Ok((Parsed::Op(arith_op_of(add, true, y, r.index())), i + 4)),
        _ => Err(("Expected a register or a number here", a)),
    }
}

fn mov_op_of(dst: Place, src: Place, d: u8, s: u8) -> (r: Op)
    ensures
        r == mov_op(dst, src, d, s),
{
    match (dst, src) {
        (Place::R, Place::N) => Op::MOVRN(d, s),
        (Place::R, Place::R) => Op::MOVRR(d, s),
        (Place::R, Place::A) => Op::MOVRA(d, s),
        (Place::R, Place::X) => Op::MOVRX(d, s),
        (Place::A, Place::N) => Op::MOVAN(d, s),
        (Place::A, Place::R) => Op::MOVAR(d, s),
        (Place::A, Place::A) => Op::MOVAA(d, s),
        (Place::A, Place::X) => Op::MOVAX(d, s),
        (Place::X, Place::N) => Op::MOVXN(d, s),
        (Place::X, Place::R) => Op::MOVXR(d, s),
        (Place::X, Place::A) => Op::MOVXA(d, s),
        _ => Op::MOVXX(d, s),
    }
}

fn mov_to(k: &Vec<Token>, b: usize, deref_b: bool, src: Place, s: u8) -> (r: Result<(Parsed, usize), (&'static str, usize)>)
    requires
        b < k@.len(),
    ensures
        step_agrees(r, mov_dst(kinds(k@), b as int, deref_b, src, s)),
{
    let n = k.len();
    match &k[b].kind {
        TokenKind::Reg(d) => {
            let dst = if deref_b {
                Place::X
            } else {
                Place::R
            };
            Ok((Parsed::Op(mov_op_of(dst, src, d.index(), s)), b + 1))
        },
        TokenKind::Number(d) if deref_b => match byte_from(*d) {
            None => Err(("Integers should be between 0 and 255 (included)", b)),
            Some(dv) => Ok((Parsed::Op(mov_op_of(Place::A, src, dv, s)), b + 1)),
        },
        _ => Err(("Expected a register or an address here", b)),
    }
}

fn mov(k: &Vec<Token>, i: usize) -> (r: Result<(Parsed, usize), (&'static str, usize)>)
    requires
        i < k@.len(),
    ensures
        step_agrees(r, mov_at(kinds(k@), i as int)),
{
    let n = k.len();
    if i + 1 >= n {
        return Err(("Missing source after here", i));
    }
    let a0 = i + 1;
    let deref_a = matches!(k[a0].kind, TokenKind::Deref);
    if deref_a && a0 + 1 >= n {
        return Err(("Nothing to dereference after here", a0));
    }
    let a = if deref_a {
        a0 + 1
    } else {
        a0
    };
    if a + 1 >= n {
        return Err(("Missing 'to' after here", a));
    }
    if !matches!(k[a + 1].kind, TokenKind::To) {
        return Err(("Expected 'to' here", a + 1));
    }
    if a + 2 >= n {
        return Err(("Missing destination after here", a + 1));
    }
    let b0 = a + 2;
    let deref_b = matches!(k[b0].kind, TokenKind::Deref);
    if deref_b && b0 + 1 >= n {
        return Err(("Nothing to dereference after here", b0));
    }
    let b = if deref_b {
        b0 + 1
    } else {
        b0
    };
    match &k[a].kind {
        TokenKind::Number(n) => match byte_from(*n) {
            None => Err(("Integers should be between 0 and 255 (included)", a)),
            Some(s) => {
                let src = if deref_a {
                    Place::A
                } else {
                    Place::N
                };
                mov_to(k, b, deref_b, src, s)
            },
        },
        TokenKind::Reg(r) => {
            let src = if deref_a {
                Place::X
            } else {
                Place::R
            };
            mov_to(k, b, deref_b, src, r.index())
        },
        _ => Err(("Expected a register, an address or a number here", a)),
    }
}

/// Reads the statement that starts at token `i`.
fn statement(k: &Vec<Token>, i: usize) -> (r: Result<(Parsed, usize), (&'static str, usize)>)
    requires
        i < k@.len(),
    ensures
        step_agrees(r, stmt_at(kinds(k@), i as int)),
{
    let n = k.len();
    match &k[i].kind {
        TokenKind::Ins(ins) => match ins {
            Instruction::Halt => Ok((Parsed::Op(Op::HALT), i + 1)),
            Instruction::Print | Instruction::Shl | Instruction::Shr => unary(k, i, *ins),
            Instruction::Jmp => jump(k, i),
            Instruction::Label => label(k, i),
            Instruction::Or | Instruction::Xor | Instruction::And => logic(k, i, *ins),
            Instruction::Add => arith(k, i, true),
            Instruction::Sub => arith(k, i, false),
            Instruction::Mov => mov(k, i),
        },
        _ => Err(("Expected an operation or directive here", i)),
    }
}

/// The tokens at the indices that `labels` and `jumps` give are symbols,
/// and each jump points at an operation of `code`.
pub open spec fn scan_indices_ok(k: Seq<Lexeme>, st: Scan) -> bool {
    &&& forall|m: int|
        0 <= m < st.labels.len() ==> {
            &&& (#[trigger] st.labels[m]).0 < k.len()
            &&& k[st.labels[m].0 as int] is Symbol
        }
    &&& forall|m: int|
        0 <= m < st.jumps.len() ==> {
            &&& (#[trigger] st.jumps[m]).0 < st.code.len()
            &&& st.jumps[m].1 < k.len()
            &&& k[st.jumps[m].1 as int] is Symbol
        }
}

/// The first pass: every statement in order, with the operations, label
/// declarations and jumps it gathers.
fn first_pass(k: &Vec<Token>) -> (r: Result<(Vec<Op>, Vec<(usize, u8)>, Vec<(usize, usize)>), (&'static str, usize)>)
    ensures
        match r {
            Ok((c, l, j)) => {
                &&& scan(kinds(k@)) == Ok::<Scan, Fault>(Scan { code: c@, labels: l@, jumps: j@ })
                &&& scan_indices_ok(kinds(k@), Scan { code: c@, labels: l@, jumps: j@ })
            },
            Err((cause, t)) => scan(kinds(k@)) == Err::<Scan, Fault>((cause, t as int)),
        },
        r matches Err((_, t)) ==> t < k@.len(),
{
    let ghost kk = kinds(k@);
    let n = k.len();
    let mut i: usize = 0;
    let mut code: Vec<Op> = Vec::new();
    let mut size: usize = 0;
    let mut labels: Vec<(usize, u8)> = Vec::new();
    let mut jumps: Vec<(usize, usize)> = Vec::new();
    while i < n
        invariant
            i <= n,
            n == k@.len(),
            kk == kinds(k@),
            size == ops_size(code@),
            size <= MEMORY_SIZE,
            scan(kk) == scan_from(kk, i as int, Scan { code: code@, labels: labels@, jumps: jumps@ }),
            scan_indices_ok(kk, Scan { code: code@, labels: labels@, jumps: jumps@ }),
        decreases n - i,
    {
        let ghost st = Scan { code: code@, labels: labels@, jumps: jumps@ };
        proof {
            lemma_stmt_advances(kk, i as int);
            lemma_stmt_names(kk, i as int);
        }
        match statement(k, i) {
            Err(e) => {
                return Err(e);
            },
            Ok((p, j)) => {
                match p {
                    Parsed::Op(op) => {
                        let sz = op.get_size();
                        if size + sz > MEMORY_SIZE {
                            return Err(("Program does not fit in 256 bytes of memory", i));
                        }
                        code.push(op);
                        size = size + sz;
                        assert(code@.drop_last() =~= st.code);
                    },
                    Parsed::Jump(op, t) => {
                        let sz = op.get_size();
                        if size + sz > MEMORY_SIZE {
                            return Err(("Program does not fit in 256 bytes of memory", i));
                        }
                        jumps.push((code.len(), t));
                        code.push(op);
                        size = size + sz;
                        assert(code@.drop_last() =~= st.code);
                    },
                    Parsed::Label(t) => {
                        if size > 255 {
                            return Err(("Label address does not fit in a byte", t));
                        }
                        labels.push((t, size as u8));
                    },
                }
                i = j;
            },
        }
    }
    Ok((code, labels, jumps))
}

/// The address of the last declaration of the label `name`.
fn lookup(k: &Vec<Token>, labels: &Vec<(usize, u8)>, name: &String) -> (r: Option<u8>)
    requires
        forall|m: int|
            0 <= m < labels@.len() ==> (#[trigger] labels@[m]).0 < k@.len() && kinds(k@)[labels@[m].0 as int] is Symbol,
    ensures
        r == find_label(kinds(k@), labels@, name@),
{
    let ghost kk = kinds(k@);
    let mut m = labels.len();
    assert(labels@.take(m as int) =~= labels@);
    while m > 0
        invariant
            m <= labels@.len(),
            kk == kinds(k@),
            forall|m: int|
                0 <= m < labels@.len() ==> (#[trigger] labels@[m]).0 < k@.len() && kk[labels@[m].0 as int] is Symbol,
            find_label(kk, labels@, name@) == find_label(kk, labels@.take(m as int), name@),
        decreases m,
    {
        let (t, addr) = labels[m - 1];
        assert(labels@.take(m as int).drop_last() =~= labels@.take(m - 1));
        assert(kk[t as int] == k@[t as int].kind@);
        let same = match &k[t].kind {
            TokenKind::Symbol(s) => *s == *name,
            _ => false,
        };
        if same {
            return Some(addr);
        }
        m = m - 1;
    }
    None
}

fn retarget(op: Op, addr: u8) -> (r: Op)
    ensures
        r == with_target(op, addr),
{
    match op {
        Op::JMP(_) => Op::JMP(addr),
        Op::JMPIF(c, _) => Op::JMPIF(c, addr),
        _ => op,
    }
}

/// The second pass: sets the target of every jump to the address of its label.
fn resolve(k: &Vec<Token>, ops: Vec<Op>, labels: &Vec<(usize, u8)>, jumps: &Vec<(usize, usize)>) -> (r: Result<Vec<Op>, (&'static str, usize)>)
    requires
        scan_indices_ok(kinds(k@), Scan { code: ops@, labels: labels@, jumps: jumps@ }),
    ensures
        match (r, resolve_from(kinds(k@), ops@, Scan { code: ops@, labels: labels@, jumps: jumps@ }, 0)) {
            (Ok(c), Ok(c2)) => c@ == c2,
            (Err((cause, t)), Err((cause2, t2))) => cause == cause2 && t == t2,
            _ => false,
        },
        r matches Err((_, t)) ==> t < k@.len(),
{
    let ghost kk = kinds(k@);
    let ghost st = Scan { code: ops@, labels: labels@, jumps: jumps@ };
    let mut code = ops;
    let mut m: usize = 0;
    while m < jumps.len()
        invariant
            m <= jumps@.len(),
            kk == kinds(k@),
            st == (Scan { code: ops@, labels: labels@, jumps: jumps@ }),
            code@.len() == st.code.len(),
            scan_indices_ok(kk, st),
            resolve_from(kk, st.code, st, 0) == resolve_from(kk, code@, st, m as int),
        decreases jumps@.len() - m,
    {
        let (o, t) = jumps[m];
        assert(kk[t as int] == k@[t as int].kind@);
        let found = match &k[t].kind {
            TokenKind::Symbol(name) => lookup(k, labels, name),
            _ => None,
        };
        match found {
            None => {
                assert(kk[t as int] is Symbol);
                assert(find_label(kk, st.labels, symbol_name(kk[t as int])) is None);
                return Err(("Jumping to undefined label", t));
            },
            Some(addr) => {
                let patched = retarget(code[o], addr);
                code.set(o, patched);
            },
        }
        m = m + 1;
    }
    Ok(code)
}

/// Reads a token stream into operations.
pub struct Parser {
    pub input: Vec<Token>,
}

/// Why a parse failed, and the token responsible.
#[derive(Debug)]
pub struct ParserError<'a> {
    pub cause: &'a str,
    pub responsible: &'a Token,
}

impl Parser {
    /// The operations that the tokens stand for, with every jump resolved to
    /// the address of its label; or the first invalid construct.
    pub fn parse(&mut self) -> (r: Result<Vec<Op>, ParserError<'_>>)
        ensures
            final(self).input@ == old(self).input@,
            match (r, parse_tokens(kinds(old(self).input@))) {
                (Ok(code), Ok(c)) => code@ == c,
                (Err(e), Err((cause, t))) => {
                    &&& e.cause == cause
                    &&& 0 <= t < old(self).input@.len()
                    &&& *e.responsible == old(self).input@[t]
                },
                _ => false,
            },
    {
        let k = &self.input;
        match first_pass(k) {
            Err((cause, t)) => Err(ParserError { cause, responsible: &k[t] }),
            Ok((code, labels, jumps)) => match resolve(k, code, &labels, &jumps) {
                Ok(code) => Ok(code),
                Err((cause, t)) => Err(ParserError { cause, responsible: &k[t] }),
            },
        }
    }
}

/// Appends the serialization of `ops` to `dest`: for each operation its
/// opcode, then its operand bytes.
pub fn to_bytes(ops: Vec<Op>, dest: &mut Vec<u8>)
    ensures
        final(dest)@ == old(dest)@ + encode(ops@),
{
    let mut i: usize = 0;
    while i < ops.len()
        invariant
            i <= ops@.len(),
            dest@ == old(dest)@ + encode(ops@.take(i as int)),
        decreases ops@.len() - i,
    {
        let op = ops[i];
        let ghost before = dest@;
        dest.push(op.get_opcode());
        match op {
            Op::MOVAA(a, b) | Op::MOVAR(a, b) | Op::MOVAN(a, b) | Op::MOVAX(a, b) | Op::MOVXA(a, b)
            | Op::MOVXR(a, b) | Op::MOVXN(a, b) | Op::MOVXX(a, b) | Op::MOVRA(a, b) | Op::MOVRR(a, b)
            | Op::MOVRN(a, b) | Op::MOVRX(a, b) | Op::ADDRN(a, b) | Op::ADDRR(a, b) | Op::SUBRN(a, b)
            | Op::SUBRR(a, b) | Op::MULRN(a, b) | Op::MULRR(a, b) | Op::DIVRN(a, b) | Op::DIVRR(a, b)
            | Op::ORRN(a, b) | Op::ORRR(a, b) | Op::ANDRN(a, b) | Op::ANDRR(a, b) | Op::XORRN(a, b)
            | Op::XORRR(a, b) => {
                dest.push(a);
                dest.push(b);
            },
            Op::SHR(x) | Op::SHL(x) | Op::PRINT(x) | Op::JMP(x) => {
                dest.push(x);
            },
            Op::JMPIF(case, to) => {
                dest.push(case.get_opcode());
                match case {
                    Case::EQ(x, y) | Case::NEQ(x, y) | Case::GRT(x, y) | Case::LSR(x, y)
                    | Case::GRTEQ(x, y) | Case::LSREQ(x, y) => {
                        dest.push(x);
                        dest.push(y);
                    },
                }
                dest.push(to);
            },
            Op::HALT | Op::NOOP => {},
        }
        proof {
            assert(dest@ =~= before + op.bytes());
            assert(ops@.take(i + 1).drop_last() =~= ops@.take(i as int));
        }
        i = i + 1;
    }
    assert(ops@.take(ops@.len() as int) =~= ops@);
}

/// What assembling the source `s` gives: its bytes, or the first fault.
pub open spec fn assemble(s: Seq<char>) -> Result<Seq<u8>, Fault> {
    match parse_tokens(lexemes(s)) {
        Ok(ops) => Ok(encode(ops)),
        Err(e) => Err(e),
    }
}

/// Assembling is a function of the source text alone: whatever tokens the
/// lexer hands over for `s`, the parser reads the same operations from them,
/// and so the encoder writes the same bytes.
pub proof fn lemma_assembly_deterministic(s: Seq<char>, t1: Seq<Token>, t2: Seq<Token>)
    requires
        lexes_to(s, t1),
        lexes_to(s, t2),
    ensures
        parse_tokens(kinds(t1)) == parse_tokens(kinds(t2)),
        parse_tokens(kinds(t1)) matches Ok(ops) ==> assemble(s) == Ok::<Seq<u8>, Fault>(encode(ops)),
{
    lemma_lexes_to_kinds(s, t1);
    lemma_lexes_to_kinds(s, t2);
}

/// The jumps of `st` point at distinct operations of its code, in increasing order.
pub open spec fn jumps_ordered(st: Scan) -> bool {
    &&& forall|m: int| 0 <= m < st.jumps.len() ==> (#[trigger] st.jumps[m]).0 < st.code.len()
    &&& forall|m1: int, m2: int|
        0 <= m1 < m2 < st.jumps.len() ==> (#[trigger] st.jumps[m1]).0 < (#[trigger] st.jumps[m2]).0
}

proof fn lemma_scan_orders_jumps(k: Seq<Lexeme>, i: int, st: Scan)
    requires
        jumps_ordered(st),
        ops_size(st.code) <= MEMORY_SIZE,
    ensures
        scan_from(k, i, st) matches Ok(st2) ==> jumps_ordered(st2),
    decreases k.len() - i,
{
    if 0 <= i < k.len() {
        lemma_stmt_advances(k, i);
        match stmt_at(k, i) {
            Err(_) => {},
            Ok((p, j)) => match p {
                Parsed::Op(op) => if ops_size(st.code) + op.spec_size() <= MEMORY_SIZE {
                    assert(st.code.push(op).drop_last() =~= st.code);
                    lemma_scan_orders_jumps(k, j, Scan { code: st.code.push(op), ..st });
                },
                Parsed::Jump(op, t) => if ops_size(st.code) + op.spec_size() <= MEMORY_SIZE {
                    lemma_ops_size_bounds_len(st.code);
                    assert(st.code.push(op).drop_last() =~= st.code);
                    let st2 = Scan {
                        code: st.code.push(op),
                        jumps: st.jumps.push((st.code.len() as usize, t)),
                        ..st
                    };
                    assert(jumps_ordered(st2)) by {
                        assert forall|m1: int, m2: int|
                            0 <= m1 < m2 < st2.jumps.len() implies (#[trigger] st2.jumps[m1]).0 < (
                        #[trigger] st2.jumps[m2]).0 by {
                            if m2 == st.jumps.len() {
                                assert(st.jumps[m1].0 < st.code.len());
                            } else {
                                assert(st.jumps[m1].0 < st.jumps[m2].0);
                            }
                        }
                    }
                    lemma_scan_orders_jumps(k, j, st2);
                },
                Parsed::Label(t) => {
                    lemma_scan_orders_jumps(
                        k,
                        j,
                        Scan { labels: st.labels.push((t, ops_size(st.code) as u8)), ..st },
                    );
                },
            },
        }
    }
}

proof fn lemma_resolve_targets(k: Seq<Lexeme>, code: Seq<Op>, st: Scan, m: int)
    requires
        0 <= m <= st.jumps.len(),
        jumps_ordered(st),
        code.len() == st.code.len(),
        forall|m2: int| m <= m2 < st.jumps.len() ==> code[(#[trigger] st.jumps[m2]).0 as int] == st.code[st.jumps[m2].0 as int],
        resolve_from(k, code, st, m) is Ok,
    ensures
        ({
            let fin = resolve_from(k, code, st, m)->Ok_0;
            &&& fin.len() == code.len()
            &&& forall|x: int| 0 <= x < code.len() ==> (#[trigger] fin[x]).spec_size() == code[x].spec_size()
            &&& forall|x: int|
                0 <= x < code.len() && (forall|m2: int| m <= m2 < st.jumps.len() ==> (#[trigger] st.jumps[m2]).0 != x)
                    ==> fin[x] == code[x]
            &&& forall|m2: int|
                m <= m2 < st.jumps.len() ==> {
                    let (o, t) = #[trigger] st.jumps[m2];
                    &&& find_label(k, st.labels, symbol_name(k[t as int])) is Some
                    &&& fin[o as int] == with_target(
                        st.code[o as int],
                        find_label(k, st.labels, symbol_name(k[t as int]))->Some_0,
                    )
                }
        }),
    decreases st.jumps.len() - m,
{
    if m < st.jumps.len() {
        let (o, t) = st.jumps[m];
        let addr = find_label(k, st.labels, symbol_name(k[t as int]))->Some_0;
        let code1 = code.update(o as int, with_target(code[o as int], addr));
        assert forall|m2: int| m + 1 <= m2 < st.jumps.len() implies code1[(#[trigger] st.jumps[m2]).0 as int]
            == st.code[st.jumps[m2].0 as int] by {
            assert(st.jumps[m].0 < st.jumps[m2].0);
        }
        lemma_resolve_targets(k, code1, st, m + 1);
        let fin = resolve_from(k, code, st, m)->Ok_0;
        assert forall|x: int| 0 <= x < code.len() implies (#[trigger] fin[x]).spec_size() == code[x].spec_size() by {
            assert(fin[x].spec_size() == code1[x].spec_size());
        }
        assert forall|x: int|
            0 <= x < code.len() && (forall|m2: int| m <= m2 < st.jumps.len() ==> (#[trigger] st.jumps[m2]).0 != x)
                implies fin[x] == code[x] by {
            assert(st.jumps[m].0 != x);
        }
        assert forall|m2: int| m <= m2 < st.jumps.len() implies {
            let (o2, t2) = #[trigger] st.jumps[m2];
            &&& find_label(k, st.labels, symbol_name(k[t2 as int])) is Some
            &&& fin[o2 as int] == with_target(
                st.code[o2 as int],
                find_label(k, st.labels, symbol_name(k[t2 as int]))->Some_0,
            )
        } by {
            if m2 == m {
                assert forall|m3: int| m + 1 <= m3 < st.jumps.len() implies (#[trigger] st.jumps[m3]).0 != o by {
                    assert(st.jumps[m].0 < st.jumps[m3].0);
                }
            }
        }
    }
}

/// Every jump is resolved to the address of the last declaration of its
/// label, whether the jump comes before that declaration or after it. So two
/// jumps of the same kind to the same label encode to the same bytes.
pub proof fn lemma_jumps_resolved(k: Seq<Lexeme>)
    requires
        parse_tokens(k) is Ok,
    ensures
        ({
            let st = scan(k)->Ok_0;
            let code = parse_tokens(k)->Ok_0;
            &&& code.len() == st.code.len()
            &&& forall|x: int| 0 <= x < code.len() ==> (#[trigger] code[x]).spec_size() == st.code[x].spec_size()
            &&& forall|m: int|
                0 <= m < st.jumps.len() ==> {
                    let (o, t) = #[trigger] st.jumps[m];
                    &&& find_label(k, st.labels, symbol_name(k[t as int])) is Some
                    &&& code[o as int] == with_target(
                        st.code[o as int],
                        find_label(k, st.labels, symbol_name(k[t as int]))->Some_0,
                    )
                }
            &&& forall|m1: int, m2: int|
                0 <= m1 < st.jumps.len() && 0 <= m2 < st.jumps.len()
                    && symbol_name(k[(#[trigger] st.jumps[m1]).1 as int]) == symbol_name(
                    k[(#[trigger] st.jumps[m2]).1 as int],
                ) && st.code[st.jumps[m1].0 as int] == st.code[st.jumps[m2].0 as int]
                    ==> code[st.jumps[m1].0 as int].bytes() == code[st.jumps[m2].0 as int].bytes()
        }),
{
    let st = scan(k)->Ok_0;
    lemma_scan_orders_jumps(k, 0, empty_scan());
    lemma_resolve_targets(k, st.code, st, 0);
}

/// `a` is the start of `b`.
pub open spec fn is_prefix(a: Seq<Lexeme>, b: Seq<Lexeme>) -> bool {
    a.len() <= b.len() && forall|x: int| 0 <= x < a.len() ==> #[trigger] a[x] == b[x]
}

proof fn lemma_stmt_prefix(a: Seq<Lexeme>, b: Seq<Lexeme>, i: int)
    requires
        0 <= i < a.len(),
        is_prefix(a, b),
        stmt_at(a, i) is Ok,
    ensures
        stmt_at(b, i) == stmt_at(a, i),
{
    assert(a[i] == b[i]);
    if i + 1 < a.len() {
        assert(a[i + 1] == b[i + 1]);
    }
    if i + 2 < a.len() {
        assert(a[i + 2] == b[i + 2]);
    }
    if i + 3 < a.len() {
        assert(a[i + 3] == b[i + 3]);
    }
    if i + 4 < a.len() {
        assert(a[i + 4] == b[i + 4]);
    }
    if i + 5 < a.len() {
        assert(a[i + 5] == b[i + 5]);
    }
    if i + 6 < a.len() {
        assert(a[i + 6] == b[i + 6]);
    }
    if i + 7 < a.len() {
        assert(a[i + 7] == b[i + 7]);
    }
}

proof fn lemma_scan_prefix(a: Seq<Lexeme>, b: Seq<Lexeme>, i: int, st: Scan)
    requires
        0 <= i <= a.len(),
        is_prefix(a, b),
        scan_from(a, i, st) is Ok,
    ensures
        scan_from(b, i, st) == scan_from(b, a.len() as int, scan_from(a, i, st)->Ok_0),
    decreases a.len() - i,
{
    if i < a.len() {
        lemma_stmt_advances(a, i);
        lemma_stmt_prefix(a, b, i);
        match stmt_at(a, i) {
            Err(_) => {},
            Ok((p, j)) => match p {
                Parsed::Op(op) => {
                    lemma_scan_prefix(a, b, j, Scan { code: st.code.push(op), ..st });
                },
                Parsed::Jump(op, t) => {
                    lemma_scan_prefix(
                        a,
                        b,
                        j,
                        Scan {
                            code: st.code.push(op),
                            jumps: st.jumps.push((st.code.len() as usize, t)),
                            ..st
                        },
                    );
                },
                Parsed::Label(t) => {
                    lemma_scan_prefix(
                        a,
                        b,
                        j,
                        Scan { labels: st.labels.push((t, ops_size(st.code) as u8)), ..st },
                    );
                },
            },
        }
    }
}

/// A label declared after the statements of `k.take(p)` stands for the
/// address right after their operations: the sum of their sizes. The
/// declaration adds just that label, and a lookup of its name finds it.
pub proof fn lemma_label_placement(k: Seq<Lexeme>, p: int)
    requires
        0 <= p,
        p + 3 <= k.len(),
        k.len() <= usize::MAX,
        scan(k.take(p)) is Ok,
        k[p] == Lexeme::Ins(Instruction::Label),
        k[p + 1] is As,
        k[p + 2] is Symbol,
        ops_size(scan(k.take(p))->Ok_0.code) <= 255,
    ensures
        ({
            let before = scan(k.take(p))->Ok_0;
            let after = scan(k.take(p + 3));
            let addr = ops_size(before.code) as u8;
            &&& after == Ok::<Scan, Fault>(
                Scan { labels: before.labels.push(((p + 2) as usize, addr)), ..before },
            )
            &&& addr == ops_size(before.code)
            &&& find_label(k, after->Ok_0.labels, symbol_name(k[p + 2])) == Some(addr)
        }),
{
    let a = k.take(p);
    let b = k.take(p + 3);
    let before = scan(a)->Ok_0;
    assert(is_prefix(a, b));
    lemma_scan_prefix(a, b, 0, empty_scan());
    assert(b[p] == k[p] && b[p + 1] == k[p + 1] && b[p + 2] == k[p + 2]);
    assert(stmt_at(b, p) == Ok::<(Parsed, int), Fault>((Parsed::Label((p + 2) as usize), p + 3)));
    let after = Scan { labels: before.labels.push(((p + 2) as usize, ops_size(before.code) as u8)), ..before };
    assert(scan_from(b, p + 3, after) == Ok::<Scan, Fault>(after));
    assert(after.labels.last() == ((p + 2) as usize, ops_size(before.code) as u8));
}

/// The register with index `i`.
pub open spec fn register_at(i: u8) -> Register {
    if i == 0 {
        Register::N
    } else if i == 1 {
        Register::X
    } else if i == 2 {
        Register::Y
    } else if i == 3 {
        Register::Z
    } else if i == 4 {
        Register::A
    } else if i == 5 {
        Register::B
    } else if i == 6 {
        Register::C
    } else {
        Register::I
    }
}

pub open spec fn reg_tok(i: u8) -> Lexeme {
    Lexeme::Reg(register_at(i))
}

pub open spec fn num_tok(n: u8) -> Lexeme {
    Lexeme::Number(n as i32)
}

/// The tokens of the comparison operator of `c`.
pub open spec fn operator_toks(c: Case) -> Seq<Lexeme> {
    match c {
        Case::EQ(_, _) => seq![Lexeme::Equal, Lexeme::Equal],
        Case::NEQ(_, _) => seq![Lexeme::Exclamation, Lexeme::Equal],
        Case::LSR(_, _) => seq![Lexeme::Lesser],
        Case::GRT(_, _) => seq![Lexeme::Greater],
        Case::LSREQ(_, _) => seq![Lexeme::Lesser, Lexeme::Equal],
        Case::GRTEQ(_, _) => seq![Lexeme::Greater, Lexeme::Equal],
    }
}

/// `label as l` with a one-letter label.
pub open spec fn label_toks() -> Seq<Lexeme> {
    seq![Lexeme::Ins(Instruction::Label), Lexeme::As, Lexeme::Symbol(seq!['l'])]
}

/// A program that the assembler reads as the single operation `op`.
pub open spec fn source_of(op: Op) -> Seq<Lexeme> {
    let mov = Lexeme::Ins(Instruction::Mov);
    match op {
        Op::HALT => seq![Lexeme::Ins(Instruction::Halt)],
        Op::MOVRN(d, n) => seq![mov, num_tok(n), Lexeme::To, reg_tok(d)],
        Op::MOVRR(d, s) => seq![mov, reg_tok(s), Lexeme::To, reg_tok(d)],
        Op::MOVRA(d, a) => seq![mov, Lexeme::Deref, num_tok(a), Lexeme::To, reg_tok(d)],
        Op::MOVRX(d, s) => seq![mov, Lexeme::Deref, reg_tok(s), Lexeme::To, reg_tok(d)],
        Op::MOVAN(a, n) => seq![mov, num_tok(n), Lexeme::To, Lexeme::Deref, num_tok(a)],
        Op::MOVAR(a, s) => seq![mov, reg_tok(s), Lexeme::To, Lexeme::Deref, num_tok(a)],
        Op::MOVAA(a, b) => seq![mov, Lexeme::Deref, num_tok(b), Lexeme::To, Lexeme::Deref, num_tok(a)],
        Op::MOVAX(a, s) => seq![mov, Lexeme::Deref, reg_tok(s), Lexeme::To, Lexeme::Deref, num_tok(a)],
        Op::MOVXN(d, n) => seq![mov, num_tok(n), Lexeme::To, Lexeme::Deref, reg_tok(d)],
        Op::MOVXR(d, s) => seq![mov, reg_tok(s), Lexeme::To, Lexeme::Deref, reg_tok(d)],
        Op::MOVXA(d, a) => seq![mov, Lexeme::Deref, num_tok(a), Lexeme::To, Lexeme::Deref, reg_tok(d)],
        Op::MOVXX(d, s) => seq![mov, Lexeme::Deref, reg_tok(s), Lexeme::To, Lexeme::Deref, reg_tok(d)],
        Op::ADDRN(d, n) => seq![Lexeme::Ins(Instruction::Add), num_tok(n), Lexeme::To, reg_tok(d)],
        Op::ADDRR(d, s) => seq![Lexeme::Ins(Instruction::Add), reg_tok(s), Lexeme::To, reg_tok(d)],
        Op::SUBRN(d, n) => seq![Lexeme::Ins(Instruction::Sub), num_tok(n), Lexeme::From, reg_tok(d)],
        Op::SUBRR(d, s) => seq![Lexeme::Ins(Instruction::Sub), reg_tok(s), Lexeme::From, reg_tok(d)],
        Op::ANDRR(d, s) => seq![Lexeme::Ins(Instruction::And), reg_tok(d), Lexeme::With, reg_tok(s)],
        Op::ANDRN(d, n) => seq![Lexeme::Ins(Instruction::And), reg_tok(d), Lexeme::With, num_tok(n)],
        Op::XORRR(d, s) => seq![Lexeme::Ins(Instruction::Xor), reg_tok(d), Lexeme::With, reg_tok(s)],
        Op::XORRN(d, n) => seq![Lexeme::Ins(Instruction::Xor), reg_tok(d), Lexeme::With, num_tok(n)],
        Op::ORRR(d, s) => seq![Lexeme::Ins(Instruction::Or), reg_tok(d), Lexeme::With, reg_tok(s)],
        Op::ORRN(d, n) => seq![Lexeme::Ins(Instruction::Or), reg_tok(d), Lexeme::With, num_tok(n)],
        Op::SHR(d) => seq![Lexeme::Ins(Instruction::Shr), reg_tok(d)],
        Op::SHL(d) => seq![Lexeme::Ins(Instruction::Shl), reg_tok(d)],
        Op::PRINT(d) => seq![Lexeme::Ins(Instruction::Print), reg_tok(d)],
        Op::JMP(_) => label_toks() + seq![
            Lexeme::Ins(Instruction::Jmp),
            Lexeme::To,
            Lexeme::Symbol(seq!['l']),
        ],
        Op::JMPIF(c, _) => label_toks() + seq![
            Lexeme::Ins(Instruction::Jmp),
            Lexeme::If,
            reg_tok(c.operands().0),
        ] + operator_toks(c) + seq![reg_tok(c.operands().1), Lexeme::To, Lexeme::Symbol(seq!['l'])],
        _ => seq![],
    }
}

/// The operations the assembler writes: every variant but the no-op and the
/// reserved multiplications and divisions, with registers in `0..=7`, and
/// with jumps to address 0, where `source_of` puts their label.
pub open spec fn emitted_form(op: Op) -> bool {
    match op {
        Op::NOOP | Op::MULRN(_, _) | Op::MULRR(_, _) | Op::DIVRN(_, _) | Op::DIVRR(_, _) => false,
        Op::MOVRN(d, _) | Op::MOVRA(d, _) | Op::MOVXN(d, _) | Op::MOVXA(d, _) | Op::ADDRN(d, _)
        | Op::SUBRN(d, _) | Op::ANDRN(d, _) | Op::XORRN(d, _) | Op::ORRN(d, _) | Op::SHR(d)
        | Op::SHL(d) | Op::PRINT(d) => d < 8,
        Op::MOVAR(_, s) | Op::MOVAX(_, s) => s < 8,
        Op::MOVRR(d, s) | Op::MOVRX(d, s) | Op::MOVXR(d, s) | Op::MOVXX(d, s) | Op::ADDRR(d, s)
        | Op::SUBRR(d, s) | Op::ANDRR(d, s) | Op::XORRR(d, s) | Op::ORRR(d, s) => d < 8 && s < 8,
        Op::JMP(to) => to == 0,
        Op::JMPIF(c, to) => to == 0 && c.operands().0 < 8 && c.operands().1 < 8,
        _ => true,
    }
}

proof fn lemma_register_at(i: u8)
    requires
        i < 8,
    ensures
        register_at(i).spec_index() == i,
{
}

/// A program of one statement that reads as the operation `op`.
proof fn lemma_one_statement_program(k: Seq<Lexeme>, op: Op)
    requires
        k.len() > 0,
        stmt_at(k, 0) == Ok::<(Parsed, int), Fault>((Parsed::Op(op), k.len() as int)),
    ensures
        parse_tokens(k) == Ok::<Seq<Op>, Fault>(seq![op]),
{
    lemma_size_bounds(op);
    assert(seq![op].drop_last() =~= Seq::<Op>::empty());
    assert(ops_size(seq![op]) == op.spec_size());
    let st = Scan { code: seq![op], ..empty_scan() };
    assert(scan_from(k, k.len() as int, st) == Ok::<Scan, Fault>(st));
    assert(scan(k) == Ok::<Scan, Fault>(st));
}

proof fn lemma_mov_forms(op: Op)
    requires
        emitted_form(op),
        op is MOVRN || op is MOVRR || op is MOVRA || op is MOVRX || op is MOVAN || op is MOVAR
            || op is MOVAA || op is MOVAX || op is MOVXN || op is MOVXR || op is MOVXA || op is MOVXX,
    ensures
        stmt_at(source_of(op), 0) == Ok::<(Parsed, int), Fault>(
            (Parsed::Op(op), source_of(op).len() as int),
        ),
{
    match op {
        Op::MOVRR(d, s) | Op::MOVRX(d, s) | Op::MOVXR(d, s) | Op::MOVXX(d, s) => {
            lemma_register_at(d);
            lemma_register_at(s);
        },
        Op::MOVRN(d, _) | Op::MOVRA(d, _) | Op::MOVXN(d, _) | Op::MOVXA(d, _) => {
            lemma_register_at(d);
        },
        Op::MOVAR(_, s) | Op::MOVAX(_, s) => {
            lemma_register_at(s);
        },
        _ => {},
    }
}

proof fn lemma_arith_logic_forms(op: Op)
    requires
        emitted_form(op),
        op is ADDRN || op is ADDRR || op is SUBRN || op is SUBRR || op is ANDRR || op is ANDRN
            || op is XORRR || op is XORRN || op is ORRR || op is ORRN || op is SHR || op is SHL
            || op is PRINT || op is HALT,
    ensures
        stmt_at(source_of(op), 0) == Ok::<(Parsed, int), Fault>(
            (Parsed::Op(op), source_of(op).len() as int),
        ),
{
    match op {
        Op::ADDRR(d, s) | Op::SUBRR(d, s) | Op::ANDRR(d, s) | Op::XORRR(d, s) | Op::ORRR(d, s) => {
            lemma_register_at(d);
            lemma_register_at(s);
        },
        Op::ADDRN(d, _) | Op::SUBRN(d, _) | Op::ANDRN(d, _) | Op::XORRN(d, _) | Op::ORRN(d, _)
        | Op::SHR(d) | Op::SHL(d) | Op::PRINT(d) => {
            lemma_register_at(d);
        },
        _ => {},
    }
}

/// A program that declares a label at address 0 and then jumps to it.
proof fn lemma_label_then_jump_program(k: Seq<Lexeme>, pending: Op)
    requires
        k.len() > 4,
        pending is JMP || pending is JMPIF,
        stmt_at(k, 0) == Ok::<(Parsed, int), Fault>((Parsed::Label(2), 3)),
        stmt_at(k, 3) == Ok::<(Parsed, int), Fault>(
            (Parsed::Jump(pending, (k.len() - 1) as usize), k.len() as int),
        ),
        k[2] == k[k.len() - 1],
    ensures
        parse_tokens(k) == Ok::<Seq<Op>, Fault>(seq![with_target(pending, 0)]),
{
    lemma_size_bounds(pending);
    let j = k.len() as int;
    let st1 = Scan { labels: seq![(2usize, 0u8)], ..empty_scan() };
    let st2 = Scan {
        code: seq![pending],
        labels: seq![(2usize, 0u8)],
        jumps: seq![(0usize, (j - 1) as usize)],
    };
    assert(seq![pending].drop_last() =~= Seq::<Op>::empty());
    assert(ops_size(seq![pending]) == pending.spec_size());
    assert(scan_from(k, j, st2) == Ok::<Scan, Fault>(st2));
    assert(scan_from(k, 3, st1) == Ok::<Scan, Fault>(st2));
    assert(scan(k) == Ok::<Scan, Fault>(st2));
    assert(st2.labels.drop_last() =~= Seq::<(usize, u8)>::empty());
    assert(find_label(k, st2.labels, symbol_name(k[j - 1])) == Some(0u8));
    let fin = st2.code.update(0, with_target(st2.code[0], 0));
    assert(fin =~= seq![with_target(pending, 0)]);
    assert(resolve_from(k, fin, st2, 1) == Ok::<Seq<Op>, Fault>(fin));
}

proof fn lemma_jump_forms(op: Op)
    requires
        emitted_form(op),
        op is JMP || op is JMPIF,
    ensures
        parse_tokens(source_of(op)) == Ok::<Seq<Op>, Fault>(seq![op]),
{
    let k = source_of(op);
    let j = k.len() as int;
    assert(label_at(k, 0) == Ok::<(Parsed, int), Fault>((Parsed::Label(2), 3)));
    match op {
        Op::JMPIF(c, _) => {
            lemma_register_at(c.operands().0);
            lemma_register_at(c.operands().1);
            assert(cond_jump_at(k, 3) == Ok::<(Parsed, int), Fault>(
                (Parsed::Jump(Op::JMPIF(c, UNRESOLVED), (j - 1) as usize), j),
            ));
            lemma_label_then_jump_program(k, Op::JMPIF(c, UNRESOLVED));
        },
        _ => {
            assert(jump_tail(k, 4, None) == Ok::<(Parsed, int), Fault>(
                (Parsed::Jump(Op::JMP(UNRESOLVED), 5), 6),
            ));
            lemma_label_then_jump_program(k, Op::JMP(UNRESOLVED));
        },
    }
}

/// Every operation of the forms the assembler writes comes out of a
/// program of its own, alone.
pub proof fn lemma_every_form_is_assembled(op: Op)
    requires
        emitted_form(op),
    ensures
        parse_tokens(source_of(op)) == Ok::<Seq<Op>, Fault>(seq![op]),
{
    if op is JMP || op is JMPIF {
        lemma_jump_forms(op);
    } else if op is MOVRN || op is MOVRR || op is MOVRA || op is MOVRX || op is MOVAN || op is MOVAR
        || op is MOVAA || op is MOVAX || op is MOVXN || op is MOVXR || op is MOVXA || op is MOVXX {
        lemma_mov_forms(op);
        lemma_one_statement_program(source_of(op), op);
    } else {
        lemma_arith_logic_forms(op);
        lemma_one_statement_program(source_of(op), op);
    }
}

/// The first pass only adds: the code and labels it starts from stay in front.
proof fn lemma_scan_extends(k: Seq<Lexeme>, i: int, st: Scan)
    ensures
        scan_from(k, i, st) matches Ok(st2) ==> {
            &&& st.code.len() <= st2.code.len()
            &&& st2.code.take(st.code.len() as int) == st.code
            &&& st.labels.len() <= st2.labels.len()
            &&& st2.labels.take(st.labels.len() as int) == st.labels
        },
    decreases k.len() - i,
{
    if 0 <= i < k.len() {
        lemma_stmt_advances(k, i);
        match stmt_at(k, i) {
            Err(_) => {},
            Ok((p, j)) => {
                let next = match p {
                    Parsed::Op(op) => Scan { code: st.code.push(op), ..st },
                    Parsed::Jump(op, t) => Scan {
                        code: st.code.push(op),
                        jumps: st.jumps.push((st.code.len() as usize, t)),
                        ..st
                    },
                    Parsed::Label(t) => Scan {
                        labels: st.labels.push((t, ops_size(st.code) as u8)),
                        ..st
                    },
                };
                lemma_scan_extends(k, j, next);
                if let Ok(st2) = scan_from(k, i, st) {
                    assert(scan_from(k, i, st) == scan_from(k, j, next));
                    assert(st2.code.take(st.code.len() as int) =~= st2.code.take(
                        next.code.len() as int,
                    ).take(st.code.len() as int));
                    assert(st2.labels.take(st.labels.len() as int) =~= st2.labels.take(
                        next.labels.len() as int,
                    ).take(st.labels.len() as int));
                }
            },
        }
    }
}

/// The label declarations of `st` name tokens before `i`, in increasing order.
pub open spec fn labels_ordered(st: Scan, i: int) -> bool {
    &&& forall|m: int| 0 <= m < st.labels.len() ==> (#[trigger] st.labels[m]).0 < i
    &&& forall|m1: int, m2: int|
        0 <= m1 < m2 < st.labels.len() ==> (#[trigger] st.labels[m1]).0 < (#[trigger] st.labels[m2]).0
}

proof fn lemma_scan_orders_labels(k: Seq<Lexeme>, i: int, st: Scan)
    requires
        0 <= i <= k.len(),
        k.len() <= usize::MAX,
        labels_ordered(st, i),
    ensures
        scan_from(k, i, st) matches Ok(st2) ==> labels_ordered(st2, k.len() as int),
    decreases k.len() - i,
{
    if i < k.len() {
        lemma_stmt_advances(k, i);
        lemma_stmt_names(k, i);
        match stmt_at(k, i) {
            Err(_) => {},
            Ok((p, j)) => match p {
                Parsed::Op(op) => {
                    lemma_scan_orders_labels(k, j, Scan { code: st.code.push(op), ..st });
                },
                Parsed::Jump(op, t) => {
                    lemma_scan_orders_labels(
                        k,
                        j,
                        Scan {
                            code: st.code.push(op),
                            jumps: st.jumps.push((st.code.len() as usize, t)),
                            ..st
                        },
                    );
                },
                Parsed::Label(t) => {
                    let next = Scan { labels: st.labels.push((t, ops_size(st.code) as u8)), ..st };
                    assert(labels_ordered(next, j)) by {
                        assert forall|m1: int, m2: int|
                            0 <= m1 < m2 < next.labels.len() implies (#[trigger] next.labels[m1]).0 < (
                        #[trigger] next.labels[m2]).0 by {
                            if m2 == st.labels.len() {
                                assert(st.labels[m1].0 < i);
                            } else {
                                assert(st.labels[m1].0 < st.labels[m2].0);
                            }
                        }
                    }
                    lemma_scan_orders_labels(k, j, next);
                },
            },
        }
    }
}

/// A label declared once is found at the address of that declaration.
proof fn lemma_find_single(k: Seq<Lexeme>, labels: Seq<(usize, u8)>, name: Seq<char>, n0: int)
    requires
        0 <= n0 < labels.len(),
        symbol_name(k[labels[n0].0 as int]) == name,
        forall|m: int|
            0 <= m < labels.len() && symbol_name(k[(#[trigger] labels[m]).0 as int]) == name ==> labels[m].0
                == labels[n0].0,
        forall|m1: int, m2: int|
            0 <= m1 < m2 < labels.len() ==> (#[trigger] labels[m1]).0 < (#[trigger] labels[m2]).0,
    ensures
        find_label(k, labels, name) == Some(labels[n0].1),
    decreases labels.len(),
{
    let last = labels.len() - 1;
    if n0 != last {
        assert(labels[n0].0 < labels[last].0);
        assert(symbol_name(k[labels[last].0 as int]) != name);
        let rest = labels.drop_last();
        assert forall|m: int|
            0 <= m < rest.len() && symbol_name(k[(#[trigger] rest[m]).0 as int]) == name implies rest[m].0
                == rest[n0].0 by {
            assert(rest[m] == labels[m]);
        }
        assert forall|m1: int, m2: int| 0 <= m1 < m2 < rest.len() implies (#[trigger] rest[m1]).0 < (
        #[trigger] rest[m2]).0 by {
            assert(rest[m1] == labels[m1] && rest[m2] == labels[m2]);
        }
        lemma_find_single(k, rest, name, n0);
    }
}

/// The address of a label, as a jump gets it after resolution, is the byte
/// offset at which the operation following the declaration is emitted: the
/// total size of the operations of the statements before it. Where the
/// label is declared once, every jump to it, before or after the
/// declaration, carries that address, and its bytes stand in the encoding
/// of the program at the offset of its operation.
pub proof fn lemma_label_resolves(k: Seq<Lexeme>, p: int)
    requires
        k.len() <= usize::MAX,
        0 <= p,
        p + 3 <= k.len(),
        parse_tokens(k) is Ok,
        scan(k.take(p)) is Ok,
        k[p] == Lexeme::Ins(Instruction::Label),
        k[p + 1] is As,
        k[p + 2] is Symbol,
        forall|m: int|
            0 <= m < scan(k)->Ok_0.labels.len() && symbol_name(
                k[(#[trigger] scan(k)->Ok_0.labels[m]).0 as int],
            ) == symbol_name(k[p + 2]) ==> scan(k)->Ok_0.labels[m].0 == p + 2,
    ensures
        ({
            let before = scan(k.take(p))->Ok_0.code;
            let st = scan(k)->Ok_0;
            let code = parse_tokens(k)->Ok_0;
            let addr = ops_size(code.take(before.len() as int));
            &&& before.len() <= code.len()
            &&& addr == ops_size(before)
            &&& addr <= 255
            &&& forall|m: int|
                0 <= m < st.jumps.len() && symbol_name(k[(#[trigger] st.jumps[m]).1 as int])
                    == symbol_name(k[p + 2]) ==> {
                    let o = st.jumps[m].0 as int;
                    &&& code[o] == with_target(st.code[o], addr as u8)
                    &&& encode(code).subrange(
                        ops_size(code.take(o)) as int,
                        ops_size(code.take(o + 1)) as int,
                    ) == with_target(st.code[o], addr as u8).bytes()
                }
        }),
{
    let a = k.take(p);
    let before = scan(a)->Ok_0;
    let st = scan(k)->Ok_0;
    let code = parse_tokens(k)->Ok_0;
    assert(is_prefix(a, k));
    lemma_scan_prefix(a, k, 0, empty_scan());
    assert(scan(k) == scan_from(k, p, before));
    assert(stmt_at(k, p) == Ok::<(Parsed, int), Fault>((Parsed::Label((p + 2) as usize), p + 3)));
    assert(ops_size(before.code) <= 255);
    let after = Scan {
        labels: before.labels.push(((p + 2) as usize, ops_size(before.code) as u8)),
        ..before
    };
    assert(scan(k) == scan_from(k, p + 3, after));
    lemma_scan_extends(k, p + 3, after);
    lemma_scan_orders_labels(k, 0, empty_scan());
    let n0 = before.labels.len() as int;
    assert(st.labels[n0] == st.labels.take(after.labels.len() as int)[n0]);
    assert(st.labels[n0] == ((p + 2) as usize, ops_size(before.code) as u8));
    lemma_find_single(k, st.labels, symbol_name(k[p + 2]), n0);
    lemma_jumps_resolved(k);
    let nb = before.code.len() as int;
    lemma_ops_size_same_sizes(code, st.code, nb);
    assert(st.code.take(nb) == before.code);
    assert forall|m: int|
        0 <= m < st.jumps.len() && symbol_name(k[(#[trigger] st.jumps[m]).1 as int]) == symbol_name(
            k[p + 2],
        ) implies {
        let o = st.jumps[m].0 as int;
        &&& code[o] == with_target(st.code[o], ops_size(code.take(nb)) as u8)
        &&& encode(code).subrange(ops_size(code.take(o)) as int, ops_size(code.take(o + 1)) as int)
            == with_target(st.code[o], ops_size(code.take(nb)) as u8).bytes()
    } by {
        lemma_scan_orders_jumps(k, 0, empty_scan());
        let o = st.jumps[m].0 as int;
        lemma_encode_slice(code, o);
    }
}

} // verus!
