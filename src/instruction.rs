//! Instructions: what a line of text means, decoded by position from its
//! words.
use vstd::prelude::*;
use vstd::string::StrSliceExecFns;
use crate::alu::{BinOp, wrap32};
use crate::number::{i32_literal, i64_literal, parse_literal};
use crate::text::{chars_of, field_spans, fields, span_texts, word_spans, words};

verus! {

/// The source of an operand: a register or a constant.
#[derive(Clone, Debug, PartialEq, Eq)]
pub enum Operand<N> {
    Reg(N),
    Imm(i32),
}

/// A decoded instruction; `N` names registers.
#[derive(Clone, Debug, PartialEq, Eq)]
pub enum Instr<N> {
    /// Changes nothing: `nop`, and every opcode that the machine does not know.
    Nop,
    /// `dest = lhs op rhs`.
    Binary { op: BinOp, lhs: Operand<N>, rhs: Operand<N>, dest: N },
    /// `dest = value`.
    LoadImm { value: i32, dest: N },
    /// `dest = MEMORY[base + offset]`, if that word lies in memory.
    Load { base: N, offset: Operand<N>, dest: N },
    /// `MEMORY[base + offset] = src`, if that word lies in memory.
    Store { src: N, base: N, offset: Operand<N> },
}

/// Why an instruction cannot be carried out; each one stops the run.
#[derive(Clone, Debug, PartialEq, Eq)]
pub enum Fault<N> {
    /// Too few operands, or a constant that is not a literal of its type.
    Malformed,
    /// A register was read that was never written.
    UnknownRegister(N),
    /// A division whose divisor is zero.
    DivisionByZero,
    /// `cloadAI` and `cloadAO`, which the machine does not carry out.
    Unimplemented,
}

impl View for Operand<String> {
    type V = Operand<Seq<char>>;

    open spec fn view(&self) -> Operand<Seq<char>> {
        match self {
            Operand::Reg(n) => Operand::Reg(n@),
            Operand::Imm(v) => Operand::Imm(*v),
        }
    }
}

impl View for Instr<String> {
    type V = Instr<Seq<char>>;

    open spec fn view(&self) -> Instr<Seq<char>> {
        match self {
            Instr::Nop => Instr::Nop,
            Instr::Binary { op, lhs, rhs, dest } => Instr::Binary {
                op: *op,
                lhs: lhs@,
                rhs: rhs@,
                dest: dest@,
            },
            Instr::LoadImm { value, dest } => Instr::LoadImm { value: *value, dest: dest@ },
            Instr::Load { base, offset, dest } => Instr::Load {
                base: base@,
                offset: offset@,
                dest: dest@,
            },
            Instr::Store { src, base, offset } => Instr::Store {
                src: src@,
                base: base@,
                offset: offset@,
            },
        }
    }
}

impl View for Fault<String> {
    type V = Fault<Seq<char>>;

    open spec fn view(&self) -> Fault<Seq<char>> {
        match self {
            Fault::Malformed => Fault::Malformed,
            Fault::UnknownRegister(n) => Fault::UnknownRegister(n@),
            Fault::DivisionByZero => Fault::DivisionByZero,
            Fault::Unimplemented => Fault::Unimplemented,
        }
    }
}

/// The model of a decoding result.
pub open spec fn decoded_view(r: Result<Instr<String>, Fault<String>>) -> Result<
    Instr<Seq<char>>,
    Fault<Seq<char>>,
> {
    match r {
        Ok(i) => Ok(i@),
        Err(f) => Err(f@),
    }
}

/// Opcodes that combine two registers.
pub open spec fn register_form(op: Seq<char>) -> Option<BinOp> {
    if op == "add"@ {
        Some(BinOp::Add)
    } else if op == "sub"@ {
        Some(BinOp::Sub)
    } else if op == "mult"@ {
        Some(BinOp::Mult)
    } else if op == "div"@ {
        Some(BinOp::Div)
    } else if op == "lshift"@ {
        Some(BinOp::LShift)
    } else if op == "rshift"@ {
        Some(BinOp::RShift)
    } else if op == "and"@ {
        Some(BinOp::And)
    } else if op == "or"@ {
        Some(BinOp::Or)
    } else if op == "xor"@ {
        Some(BinOp::Xor)
    } else {
        None
    }
}

/// Opcodes that combine a register, on the left, with a constant.
pub open spec fn immediate_form(op: Seq<char>) -> Option<BinOp> {
    if op == "addI"@ {
        Some(BinOp::Add)
    } else if op == "subI"@ {
        Some(BinOp::Sub)
    } else if op == "multI"@ {
        Some(BinOp::Mult)
    } else if op == "divI"@ {
        Some(BinOp::Div)
    } else if op == "lshiftI"@ {
        Some(BinOp::LShift)
    } else if op == "rshiftI"@ {
        Some(BinOp::RShift)
    } else if op == "andI"@ {
        Some(BinOp::And)
    } else if op == "orI"@ {
        Some(BinOp::Or)
    } else if op == "xorI"@ {
        Some(BinOp::Xor)
    } else {
        None
    }
}

/// Opcodes that combine a constant, on the left, with a register.
pub open spec fn reversed_form(op: Seq<char>) -> Option<BinOp> {
    if op == "rsubI"@ {
        Some(BinOp::Sub)
    } else if op == "rdivI"@ {
        Some(BinOp::Div)
    } else {
        None
    }
}

/// The two comma-separated parts at the front of a word (`r1,r2`).
pub open spec fn pair_of(t: Seq<char>) -> Option<(Seq<char>, Seq<char>)> {
    let f = fields(t, ',');
    if f.len() >= 2 {
        Some((f[0], f[1]))
    } else {
        None
    }
}

/// The operand pair of an instruction: the parts of its second word.
pub open spec fn operands(w: Seq<Seq<char>>) -> Option<(Seq<char>, Seq<char>)> {
    if w.len() >= 2 {
        pair_of(w[1])
    } else {
        None
    }
}

/// A register and a constant, written as a pair.
pub open spec fn reg_imm(p: Option<(Seq<char>, Seq<char>)>) -> Option<(Seq<char>, i32)> {
    match p {
        Some((x, c)) => match i32_literal(c) {
            Some(v) => Some((x, v as i32)),
            None => None,
        },
        None => None,
    }
}

/// What the text of an instruction means.
///
/// The first word is the opcode. A register written to is the last word; a
/// store's source is the second word and its address the fourth (after
/// `=>`). The operands stand where the opcode's layout puts them, and a
/// missing one is a fault.
pub open spec fn decode(s: Seq<char>) -> Result<Instr<Seq<char>>, Fault<Seq<char>>> {
    let w = words(s);
    if w.len() == 0 {
        Err(Fault::Malformed)
    } else {
        let opcode = w[0];
        let dest = w.last();
        if register_form(opcode) is Some {
            match operands(w) {
                Some((x, y)) => Ok(
                    Instr::Binary {
                        op: register_form(opcode)->0,
                        lhs: Operand::Reg(x),
                        rhs: Operand::Reg(y),
                        dest,
                    },
                ),
                None => Err(Fault::Malformed),
            }
        } else if immediate_form(opcode) is Some {
            match reg_imm(operands(w)) {
                Some((x, c)) => Ok(
                    Instr::Binary {
                        op: immediate_form(opcode)->0,
                        lhs: Operand::Reg(x),
                        rhs: Operand::Imm(c),
                        dest,
                    },
                ),
                None => Err(Fault::Malformed),
            }
        } else if reversed_form(opcode) is Some {
            match reg_imm(operands(w)) {
                Some((x, c)) => Ok(
                    Instr::Binary {
                        op: reversed_form(opcode)->0,
                        lhs: Operand::Imm(c),
                        rhs: Operand::Reg(x),
                        dest,
                    },
                ),
                None => Err(Fault::Malformed),
            }
        } else if opcode == "loadI"@ {
            if w.len() < 2 {
                Err(Fault::Malformed)
            } else {
                match i64_literal(w[1]) {
                    Some(v) => Ok(Instr::LoadImm { value: wrap32(v), dest }),
                    None => Err(Fault::Malformed),
                }
            }
        } else if opcode == "load"@ || opcode == "cload"@ {
            if w.len() < 2 {
                Err(Fault::Malformed)
            } else {
                Ok(Instr::Load { base: w[1], offset: Operand::Imm(0), dest })
            }
        } else if opcode == "loadAI"@ {
            match reg_imm(operands(w)) {
                Some((x, c)) => Ok(Instr::Load { base: x, offset: Operand::Imm(c), dest }),
                None => Err(Fault::Malformed),
            }
        } else if opcode == "loadAO"@ {
            match operands(w) {
                Some((x, y)) => Ok(Instr::Load { base: x, offset: Operand::Reg(y), dest }),
                None => Err(Fault::Malformed),
            }
        } else if opcode == "store"@ {
            if w.len() < 4 {
                Err(Fault::Malformed)
            } else {
                Ok(Instr::Store { src: w[1], base: w[3], offset: Operand::Imm(0) })
            }
        } else if opcode == "storeAI"@ {
            if w.len() < 4 {
                Err(Fault::Malformed)
            } else {
                match reg_imm(pair_of(w[3])) {
                    Some((x, c)) => Ok(Instr::Store { src: w[1], base: x, offset: Operand::Imm(c) }),
                    None => Err(Fault::Malformed),
                }
            }
        } else if opcode == "storeAO"@ {
            if w.len() < 4 {
                Err(Fault::Malformed)
            } else {
                match pair_of(w[3]) {
                    Some((x, y)) => Ok(
                        Instr::Store { src: w[1], base: x, offset: Operand::Reg(y) },
                    ),
                    None => Err(Fault::Malformed),
                }
            }
        } else if opcode == "cloadAI"@ || opcode == "cloadAO"@ {
            Err(Fault::Unimplemented)
        } else {
            Ok(Instr::Nop)
        }
    }
}

/// The text that a span picks out of `s`.
pub open spec fn span_text(s: Seq<char>, p: (usize, usize)) -> Seq<char> {
    s.subrange(p.0 as int, p.1 as int)
}

/// A span that lies inside `s`.
pub open spec fn span_ok(s: Seq<char>, p: (usize, usize)) -> bool {
    p.0 <= p.1 <= s.len()
}

/// Whether `s[p]` spells `lit`.
fn span_is(s: &Vec<char>, p: (usize, usize), lit: &str) -> (r: bool)
    requires
        span_ok(s@, p),
    ensures
        r == (span_text(s@, p) == lit@),
{
    let n = lit.unicode_len();
    if p.1 - p.0 != n {
        return false;
    }
    let mut k: usize = 0;
    while k < n
        invariant
            span_ok(s@, p),
            p.1 - p.0 == n == lit@.len(),
            k <= n,
            forall|j: int| 0 <= j < k ==> s@[p.0 + j] == lit@[j],
        decreases n - k,
    {
        if s[p.0 + k] != lit.get_char(k) {
            assert(span_text(s@, p)[k as int] != lit@[k as int]);
            return false;
        }
        k = k + 1;
    }
    assert(span_text(s@, p) =~= lit@);
    true
}

/// The text of a span, as a `String`.
fn piece(text: &str, s: &Vec<char>, p: (usize, usize)) -> (r: String)
    requires
        s@ == text@,
        span_ok(s@, p),
    ensures
        r@ == span_text(s@, p),
{
    text.substring_char(p.0, p.1).to_owned()
}

fn register_form_at(s: &Vec<char>, p: (usize, usize)) -> (r: Option<BinOp>)
    requires
        span_ok(s@, p),
    ensures
        r == register_form(span_text(s@, p)),
{
    if span_is(s, p, "add") {
        Some(BinOp::Add)
    } else if span_is(s, p, "sub") {
        Some(BinOp::Sub)
    } else if span_is(s, p, "mult") {
        Some(BinOp::Mult)
    } else if span_is(s, p, "div") {
        Some(BinOp::Div)
    } else if span_is(s, p, "lshift") {
        Some(BinOp::LShift)
    } else if span_is(s, p, "rshift") {
        Some(BinOp::RShift)
    } else if span_is(s, p, "and") {
        Some(BinOp::And)
    } else if span_is(s, p, "or") {
        Some(BinOp::Or)
    } else if span_is(s, p, "xor") {
        Some(BinOp::Xor)
    } else {
        None
    }
}

fn immediate_form_at(s: &Vec<char>, p: (usize, usize)) -> (r: Option<BinOp>)
    requires
        span_ok(s@, p),
    ensures
        r == immediate_form(span_text(s@, p)),
{
    if span_is(s, p, "addI") {
        Some(BinOp::Add)
    } else if span_is(s, p, "subI") {
        Some(BinOp::Sub)
    } else if span_is(s, p, "multI") {
        Some(BinOp::Mult)
    } else if span_is(s, p, "divI") {
        Some(BinOp::Div)
    } else if span_is(s, p, "lshiftI") {
        Some(BinOp::LShift)
    } else if span_is(s, p, "rshiftI") {
        Some(BinOp::RShift)
    } else if span_is(s, p, "andI") {
        Some(BinOp::And)
    } else if span_is(s, p, "orI") {
        Some(BinOp::Or)
    } else if span_is(s, p, "xorI") {
        Some(BinOp::Xor)
    } else {
        None
    }
}

fn reversed_form_at(s: &Vec<char>, p: (usize, usize)) -> (r: Option<BinOp>)
    requires
        span_ok(s@, p),
    ensures
        r == reversed_form(span_text(s@, p)),
{
    if span_is(s, p, "rsubI") {
        Some(BinOp::Sub)
    } else if span_is(s, p, "rdivI") {
        Some(BinOp::Div)
    } else {
        None
    }
}

/// The spans of the two comma-separated parts at the front of `s[p]`.
fn pair_at(s: &Vec<char>, p: (usize, usize)) -> (r: Option<((usize, usize), (usize, usize))>)
    requires
        span_ok(s@, p),
    ensures
        r matches Some((a, b)) ==> span_ok(s@, a) && span_ok(s@, b),
        pair_of(span_text(s@, p)) == match r {
            Some((a, b)) => Some((span_text(s@, a), span_text(s@, b))),
            None => None,
        },
{
    let f = field_spans(s, p.0, p.1, ',');
    if f.len() >= 2 {
        assert(span_texts(s@, f@)[0] == span_text(s@, f@[0]));
        assert(span_texts(s@, f@)[1] == span_text(s@, f@[1]));
        Some((f[0], f[1]))
    } else {
        None
    }
}

/// The value of `s[p]` as an `i32` literal.
fn literal_at(s: &Vec<char>, p: (usize, usize)) -> (r: Option<i32>)
    requires
        span_ok(s@, p),
    ensures
        r matches Some(v) ==> i32_literal(span_text(s@, p)) == Some(v as int),
        r is None ==> i32_literal(span_text(s@, p)) is None,
{
    match parse_literal(s, p.0, p.1, i32::MIN as i64, i32::MAX as i64) {
        Some(v) => Some(v as i32),
        None => None,
    }
}

/// A register and a constant, from the spans of a pair.
fn reg_imm_at(text: &str, s: &Vec<char>, q: Option<((usize, usize), (usize, usize))>) -> (r: Option<
    (String, i32),
>)
    requires
        s@ == text@,
        q matches Some((a, b)) ==> span_ok(s@, a) && span_ok(s@, b),
    ensures
        reg_imm(
            match q {
                Some((a, b)) => Some((span_text(s@, a), span_text(s@, b))),
                None => None,
            },
        ) == match r {
            Some((x, c)) => Some((x@, c)),
            None => None,
        },
{
    match q {
        Some((a, b)) => match literal_at(s, b) {
            Some(c) => Some((piece(text, s, a), c)),
            None => None,
        },
        None => None,
    }
}

/// The two's-complement wraparound of a 64-bit value to 32 bits.
fn wrap_i64(v: i64) -> (r: i32)
    ensures
        r == wrap32(v as int),
{
    let m0 = v % 0x1_0000_0000;
    let m = if m0 < 0 {
        m0 + 0x1_0000_0000
    } else {
        m0
    };
    assert(m == (v as int) % 0x1_0000_0000);
    if m > 0x7fff_ffff {
        (m - 0x1_0000_0000) as i32
    } else {
        m as i32
    }
}

/// Decodes the text of one instruction.
pub fn decode_instruction(text: &str) -> (r: Result<Instr<String>, Fault<String>>)
    ensures
        decoded_view(r) == decode(text@),
{
    let s = chars_of(text);
    let w = word_spans(&s, 0, s.len());
    let ghost ws = words(s@);
    assert(s@.subrange(0, s@.len() as int) =~= s@);
    assert(forall|i: int| 0 <= i < w@.len() ==> #[trigger] ws[i] == span_text(s@, w@[i]));
    if w.len() == 0 {
        return Err(Fault::Malformed);
    }
    let op = w[0];
    let last = w[w.len() - 1];
    assert(ws.last() == span_text(s@, last));
    if let Some(o) = register_form_at(&s, op) {
        if w.len() < 2 {
            return Err(Fault::Malformed);
        }
        match pair_at(&s, w[1]) {
            Some((a, b)) => Ok(
                Instr::Binary {
                    op: o,
                    lhs: Operand::Reg(piece(text, &s, a)),
                    rhs: Operand::Reg(piece(text, &s, b)),
                    dest: piece(text, &s, last),
                },
            ),
            None => Err(Fault::Malformed),
        }
    } else if let Some(o) = immediate_form_at(&s, op) {
        if w.len() < 2 {
            return Err(Fault::Malformed);
        }
        match reg_imm_at(text, &s, pair_at(&s, w[1])) {
            Some((x, c)) => Ok(
                Instr::Binary {
                    op: o,
                    lhs: Operand::Reg(x),
                    rhs: Operand::Imm(c),
                    dest: piece(text, &s, last),
                },
            ),
            None => Err(Fault::Malformed),
        }
    } else if let Some(o) = reversed_form_at(&s, op) {
        if w.len() < 2 {
            return Err(Fault::Malformed);
        }
        match reg_imm_at(text, &s, pair_at(&s, w[1])) {
            Some((x, c)) => Ok(
                Instr::Binary {
                    op: o,
                    lhs: Operand::Imm(c),
                    rhs: Operand::Reg(x),
                    dest: piece(text, &s, last),
                },
            ),
            None => Err(Fault::Malformed),
        }
    } else if span_is(&s, op, "loadI") {
        if w.len() < 2 {
            return Err(Fault::Malformed);
        }
        let p = w[1];
        match parse_literal(&s, p.0, p.1, i64::MIN, i64::MAX) {
            Some(v) => {
                let value = wrap_i64(v);
                Ok(Instr::LoadImm { value, dest: piece(text, &s, last) })
            },
            None => Err(Fault::Malformed),
        }
    } else if span_is(&s, op, "load") || span_is(&s, op, "cload") {
        if w.len() < 2 {
            return Err(Fault::Malformed);
        }
        Ok(
            Instr::Load {
                base: piece(text, &s, w[1]),
                offset: Operand::Imm(0),
                dest: piece(text, &s, last),
            },
        )
    } else if span_is(&s, op, "loadAI") {
        if w.len() < 2 {
            return Err(Fault::Malformed);
        }
        match reg_imm_at(text, &s, pair_at(&s, w[1])) {
            Some((x, c)) => Ok(
                Instr::Load { base: x, offset: Operand::Imm(c), dest: piece(text, &s, last) },
            ),
            None => Err(Fault::Malformed),
        }
    } else if span_is(&s, op, "loadAO") {
        if w.len() < 2 {
            return Err(Fault::Malformed);
        }
        match pair_at(&s, w[1]) {
            Some((a, b)) => Ok(
                Instr::Load {
                    base: piece(text, &s, a),
                    offset: Operand::Reg(piece(text, &s, b)),
                    dest: piece(text, &s, last),
                },
            ),
            None => Err(Fault::Malformed),
        }
    } else if span_is(&s, op, "store") {
        if w.len() < 4 {
            return Err(Fault::Malformed);
        }
        Ok(
            Instr::Store {
                src: piece(text, &s, w[1]),
                base: piece(text, &s, w[3]),
                offset: Operand::Imm(0),
            },
        )
    } else if span_is(&s, op, "storeAI") {
        if w.len() < 4 {
            return Err(Fault::Malformed);
        }
        match reg_imm_at(text, &s, pair_at(&s, w[3])) {
            Some((x, c)) => Ok(
                Instr::Store { src: piece(text, &s, w[1]), base: x, offset: Operand::Imm(c) },
            ),
            None => Err(Fault::Malformed),
        }
    } else if span_is(&s, op, "storeAO") {
        if w.len() < 4 {
            return Err(Fault::Malformed);
        }
        match pair_at(&s, w[3]) {
            Some((a, b)) => Ok(
                Instr::Store {
                    src: piece(text, &s, w[1]),
                    base: piece(text, &s, a),
                    offset: Operand::Reg(piece(text, &s, b)),
                },
            ),
            None => Err(Fault::Malformed),
        }
    } else if span_is(&s, op, "cloadAI") || span_is(&s, op, "cloadAO") {
        Err(Fault::Unimplemented)
    } else {
        Ok(Instr::Nop)
    }
}

} // verus!
