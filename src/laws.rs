//! Properties of the machine, stated over the models that the executable
//! functions' contracts use, and proved.
use vstd::prelude::*;
use crate::alu::{BinOp, apply, shift_amount, trunc_div, wrap32};
use crate::instruction::{
    Fault,
    Instr,
    Operand,
    decode,
    immediate_form,
    pair_of,
    register_form,
    reversed_form,
};
use crate::number::i32_literal;
use crate::text::{is_space, lemma_fields_pair, lemma_words_concat, lemma_words_plain, plain, words};
use crate::memory::{le_bytes, with_word, word_fits, lemma_word_round_trip};
use crate::parser::{lemma_normalize_lines_opener_free, no_comment_opener, normalize};
use crate::vm::{VmState, execute, operand_value, perform, run_state, step_state};

verus! {

/// The exact result of `add`, `sub` and `mult`, before wraparound.
pub open spec fn exact(op: BinOp, a: i32, b: i32) -> int {
    match op {
        BinOp::Add => a + b,
        BinOp::Sub => a - b,
        _ => a * b,
    }
}

/// `add`, `sub` and `mult`, on registers or constants, store the `i32` that
/// is congruent to the exact result modulo 2^32, and touch nothing else.
pub proof fn law_wrapping_arithmetic(
    regs: Map<Seq<char>, i32>,
    mem: Seq<u8>,
    op: BinOp,
    lhs: Operand<Seq<char>>,
    rhs: Operand<Seq<char>>,
    dest: Seq<char>,
)
    requires
        op == BinOp::Add || op == BinOp::Sub || op == BinOp::Mult,
        operand_value(regs, lhs) is Ok,
        operand_value(regs, rhs) is Ok,
    ensures
        ({
            let a = operand_value(regs, lhs)->Ok_0;
            let b = operand_value(regs, rhs)->Ok_0;
            let v = wrap32(exact(op, a, b));
            &&& perform(regs, mem, Instr::Binary { op, lhs, rhs, dest }) == Ok::<
                (Map<Seq<char>, i32>, Seq<u8>),
                Fault<Seq<char>>,
            >((regs.insert(dest, v), mem))
            &&& (v - exact(op, a, b)) % 0x1_0000_0000 == 0
            &&& (i32::MIN <= exact(op, a, b) <= i32::MAX ==> v == exact(op, a, b))
        }),
{
    let a = operand_value(regs, lhs)->Ok_0;
    let b = operand_value(regs, rhs)->Ok_0;
    let x = exact(op, a, b);
    assert((wrap32(x) - x) % 0x1_0000_0000 == 0);
}

/// A division (`div`, `divI`, `rdivI`) whose divisor is zero faults; the
/// fault leaves registers and memory as they were.
pub proof fn law_division_by_zero(
    regs: Map<Seq<char>, i32>,
    mem: Seq<u8>,
    lhs: Operand<Seq<char>>,
    rhs: Operand<Seq<char>>,
    dest: Seq<char>,
)
    requires
        operand_value(regs, lhs) is Ok,
        operand_value(regs, rhs) == Ok::<i32, Fault<Seq<char>>>(0),
    ensures
        perform(regs, mem, Instr::Binary { op: BinOp::Div, lhs, rhs, dest }) == Err::<
            (Map<Seq<char>, i32>, Seq<u8>),
            Fault<Seq<char>>,
        >(Fault::DivisionByZero),
{
}

/// Division truncates toward zero: the remainder is smaller than the divisor
/// and is zero or has the sign of the dividend. The one quotient that does
/// not fit, `i32::MIN / -1`, wraps to `i32::MIN`.
pub proof fn law_division_truncates(a: i32, b: i32)
    requires
        b != 0,
    ensures
        !(a == i32::MIN && b == -1) ==> ({
            let q = apply(BinOp::Div, a, b);
            let r = a - q * b;
            &&& q == trunc_div(a as int, b as int)
            &&& (if r < 0 { -r } else { r }) < (if b < 0 { -b } else { b as int })
            &&& (r == 0 || (r < 0) == (a < 0))
        }),
        (a == i32::MIN && b == -1) ==> apply(BinOp::Div, a, b) == i32::MIN,
{
    crate::alu::lemma_trunc_div(a, b);
    let x = a as int;
    let y = b as int;
    let m = if y < 0 { -y } else { y };
    if !(a == i32::MIN && b == -1) {
        let q = apply(BinOp::Div, a, b) as int;
        assert(q == trunc_div(x, y));
        if x >= 0 {
            assert(x - (x / y) * y == x % y && 0 <= x % y < m) by (nonlinear_arith)
                requires
                    y != 0,
                    m == if y < 0 { -y } else { y },
            ;
            assert(q == x / y);
        } else {
            assert((-x) - ((-x) / y) * y == (-x) % y && 0 <= (-x) % y < m) by (nonlinear_arith)
                requires
                    y != 0,
                    m == if y < 0 { -y } else { y },
            ;
            assert(q == -((-x) / y));
            assert(x - q * y == -((-x) % y)) by (nonlinear_arith)
                requires
                    q == -((-x) / y),
                    (-x) - ((-x) / y) * y == (-x) % y,
            ;
        }
    }
}

/// An arithmetic right shift keeps the sign of the shifted value, whatever
/// the amount.
pub proof fn law_right_shift_keeps_sign(a: i32, b: i32)
    ensures
        (apply(BinOp::RShift, a, b) < 0) == (a < 0),
{
    let s = shift_amount(b);
    assert(s < 32);
    assert(((a >> s) < 0) == (a < 0)) by (bit_vector)
        requires
            s < 32,
    ;
}

/// Shift amounts count modulo 32: shifting by `b` and by `b - 32` agree.
pub proof fn law_shift_amount_wraps(a: i32, b: i32)
    requires
        32 <= b,
    ensures
        apply(BinOp::LShift, a, b) == apply(BinOp::LShift, a, (b - 32) as i32),
        apply(BinOp::RShift, a, b) == apply(BinOp::RShift, a, (b - 32) as i32),
{
    assert(b as u32 == b);
    assert(((b - 32) as i32) as u32 == b - 32);
}

/// A word stored at an address that lies in memory loads back unchanged from
/// the same address, and memory then holds its little-endian bytes there.
pub proof fn law_store_then_load(
    regs: Map<Seq<char>, i32>,
    mem: Seq<u8>,
    src: Seq<char>,
    base: Seq<char>,
    offset: Operand<Seq<char>>,
    dest: Seq<char>,
)
    requires
        regs.contains_key(src),
        regs.contains_key(base),
        operand_value(regs, offset) is Ok,
        word_fits(mem.len() as int, regs[base] + operand_value(regs, offset)->Ok_0),
    ensures
        ({
            let addr = regs[base] + operand_value(regs, offset)->Ok_0;
            let stored = with_word(mem, addr, regs[src]);
            &&& perform(regs, mem, Instr::Store { src, base, offset }) == Ok::<
                (Map<Seq<char>, i32>, Seq<u8>),
                Fault<Seq<char>>,
            >((regs, stored))
            &&& stored.len() == mem.len()
            &&& stored.subrange(addr, addr + 4) == le_bytes(regs[src])
            &&& perform(regs, stored, Instr::Load { base, offset, dest }) == Ok::<
                (Map<Seq<char>, i32>, Seq<u8>),
                Fault<Seq<char>>,
            >((regs.insert(dest, regs[src]), stored))
        }),
{
    let addr = regs[base] + operand_value(regs, offset)->Ok_0;
    lemma_word_round_trip(mem, addr, regs[src]);
}

/// A load whose word does not lie in memory changes nothing and is no fault.
pub proof fn law_load_out_of_range(
    regs: Map<Seq<char>, i32>,
    mem: Seq<u8>,
    base: Seq<char>,
    offset: Operand<Seq<char>>,
    dest: Seq<char>,
)
    requires
        regs.contains_key(base),
        operand_value(regs, offset) is Ok,
        !word_fits(mem.len() as int, regs[base] + operand_value(regs, offset)->Ok_0),
    ensures
        perform(regs, mem, Instr::Load { base, offset, dest }) == Ok::<
            (Map<Seq<char>, i32>, Seq<u8>),
            Fault<Seq<char>>,
        >((regs, mem)),
{
}

/// A store whose word does not lie in memory changes nothing and is no fault.
pub proof fn law_store_out_of_range(
    regs: Map<Seq<char>, i32>,
    mem: Seq<u8>,
    src: Seq<char>,
    base: Seq<char>,
    offset: Operand<Seq<char>>,
)
    requires
        regs.contains_key(src),
        regs.contains_key(base),
        operand_value(regs, offset) is Ok,
        !word_fits(mem.len() as int, regs[base] + operand_value(regs, offset)->Ok_0),
    ensures
        perform(regs, mem, Instr::Store { src, base, offset }) == Ok::<
            (Map<Seq<char>, i32>, Seq<u8>),
            Fault<Seq<char>>,
        >((regs, mem)),
{
}

/// A word of an instruction: not empty and without white space.
pub open spec fn solid(t: Seq<char>) -> bool {
    t.len() > 0 && forall|i: int| 0 <= i < t.len() ==> !is_space(#[trigger] t[i])
}

/// The text `op x,y => z`.
pub open spec fn register_text(op: Seq<char>, x: Seq<char>, y: Seq<char>, z: Seq<char>) -> Seq<
    char,
> {
    op + seq![' '] + (x + seq![','] + y) + seq![' '] + "=>"@ + seq![' '] + z
}

/// The text `op a => b`.
pub open spec fn transfer_text(op: Seq<char>, a: Seq<char>, b: Seq<char>) -> Seq<char> {
    op + seq![' '] + a + seq![' '] + "=>"@ + seq![' '] + b
}

proof fn lemma_words_four(p: Seq<char>, q: Seq<char>, r: Seq<char>, t: Seq<char>)
    requires
        solid(p),
        solid(q),
        solid(r),
        solid(t),
    ensures
        words(p + seq![' '] + q + seq![' '] + r + seq![' '] + t) == seq![p, q, r, t],
{
    let rt = r + seq![' '] + t;
    let qrt = q + seq![' '] + rt;
    assert(p + seq![' '] + q + seq![' '] + r + seq![' '] + t =~= p + seq![' '] + qrt);
    lemma_words_concat(p, qrt);
    lemma_words_concat(q, rt);
    lemma_words_concat(r, t);
    lemma_words_plain(p);
    lemma_words_plain(q);
    lemma_words_plain(r);
    lemma_words_plain(t);
    assert(seq![p] + (seq![q] + (seq![r] + seq![t])) =~= seq![p, q, r, t]);
}

proof fn lemma_plain_solid(t: Seq<char>)
    requires
        plain(t),
    ensures
        solid(t),
        forall|i: int| 0 <= i < t.len() ==> #[trigger] t[i] != ',',
{
}

/// What the opcode literals spell, as far as the laws below need it.
proof fn lemma_opcodes()
    ensures
        register_form("add"@) == Some(BinOp::Add),
        register_form("sub"@) == Some(BinOp::Sub),
        register_form("mult"@) == Some(BinOp::Mult),
        register_form("div"@) == Some(BinOp::Div),
        solid("add"@) && solid("sub"@) && solid("mult"@) && solid("div"@),
        solid("=>"@) && solid("load"@) && solid("store"@) && solid("divI"@) && solid("rdivI"@),
        register_form("divI"@) is None && immediate_form("divI"@) == Some(BinOp::Div),
        register_form("rdivI"@) is None && immediate_form("rdivI"@) is None && reversed_form(
            "rdivI"@,
        ) == Some(BinOp::Div),
        register_form("load"@) is None && immediate_form("load"@) is None && reversed_form(
            "load"@,
        ) is None && "load"@ != "loadI"@,
        register_form("store"@) is None && immediate_form("store"@) is None && reversed_form(
            "store"@,
        ) is None,
        "store"@ != "loadI"@ && "store"@ != "load"@ && "store"@ != "cload"@ && "store"@
            != "loadAI"@ && "store"@ != "loadAO"@,
{
    reveal_strlit("add");
    reveal_strlit("sub");
    reveal_strlit("mult");
    reveal_strlit("div");
    reveal_strlit("lshift");
    reveal_strlit("rshift");
    reveal_strlit("and");
    reveal_strlit("or");
    reveal_strlit("xor");
    reveal_strlit("addI");
    reveal_strlit("subI");
    reveal_strlit("multI");
    reveal_strlit("divI");
    reveal_strlit("lshiftI");
    reveal_strlit("rshiftI");
    reveal_strlit("andI");
    reveal_strlit("orI");
    reveal_strlit("xorI");
    reveal_strlit("rsubI");
    reveal_strlit("rdivI");
    reveal_strlit("loadI");
    reveal_strlit("load");
    reveal_strlit("cload");
    reveal_strlit("loadAI");
    reveal_strlit("loadAO");
    reveal_strlit("store");
    reveal_strlit("=>");
    assert("add"@.len() == 3 && "add"@[0] == 'a');
    assert("sub"@.len() == 3 && "sub"@[0] == 's');
    assert("mult"@.len() == 4 && "mult"@[0] == 'm');
    assert("div"@.len() == 3 && "div"@[0] == 'd');
    assert("lshift"@.len() == 6 && "lshift"@[0] == 'l');
    assert("rshift"@.len() == 6 && "rshift"@[0] == 'r');
    assert("and"@.len() == 3 && "and"@[0] == 'a');
    assert("or"@.len() == 2 && "or"@[0] == 'o');
    assert("xor"@.len() == 3 && "xor"@[0] == 'x');
    assert("addI"@.len() == 4 && "addI"@[0] == 'a');
    assert("subI"@.len() == 4 && "subI"@[0] == 's');
    assert("multI"@.len() == 5 && "multI"@[0] == 'm');
    assert("divI"@.len() == 4 && "divI"@[0] == 'd');
    assert("lshiftI"@.len() == 7 && "lshiftI"@[0] == 'l');
    assert("rshiftI"@.len() == 7 && "rshiftI"@[0] == 'r');
    assert("andI"@.len() == 4 && "andI"@[0] == 'a');
    assert("orI"@.len() == 3 && "orI"@[0] == 'o');
    assert("xorI"@.len() == 4 && "xorI"@[0] == 'x');
    assert("rsubI"@.len() == 5 && "rsubI"@[0] == 'r');
    assert("rdivI"@.len() == 5 && "rdivI"@[0] == 'r');
    assert("loadI"@.len() == 5 && "loadI"@[0] == 'l');
    assert("load"@.len() == 4 && "load"@[0] == 'l');
    assert("cload"@.len() == 5 && "cload"@[0] == 'c');
    assert("loadAI"@.len() == 6 && "loadAI"@[0] == 'l');
    assert("loadAO"@.len() == 6 && "loadAO"@[0] == 'l');
    assert("store"@.len() == 5 && "store"@[0] == 's');
    assert("add"@[1] != "and"@[1]);
    assert("rsubI"@[1] != "rdivI"@[1]);
}

/// `op x,y => z`, for an opcode that combines two registers and plain
/// register names, is that operation on `x` and `y` into `z`.
pub proof fn law_decode_register_form(op: Seq<char>, x: Seq<char>, y: Seq<char>, z: Seq<char>)
    requires
        op == "add"@ || op == "sub"@ || op == "mult"@ || op == "div"@,
        plain(x),
        plain(y),
        plain(z),
    ensures
        decode(register_text(op, x, y, z)) == Ok::<Instr<Seq<char>>, Fault<Seq<char>>>(
            Instr::Binary {
                op: register_form(op)->0,
                lhs: Operand::Reg(x),
                rhs: Operand::Reg(y),
                dest: z,
            },
        ),
{
    lemma_opcodes();
    lemma_plain_solid(x);
    lemma_plain_solid(y);
    lemma_plain_solid(z);
    let xy = x + seq![','] + y;
    assert(solid(xy)) by {
        assert forall|i: int| 0 <= i < xy.len() implies !is_space(#[trigger] xy[i]) by {
            if i < x.len() {
                assert(xy[i] == x[i]);
            } else if i > x.len() {
                assert(xy[i] == y[i - x.len() - 1]);
            }
        }
    }
    lemma_words_four(op, xy, "=>"@, z);
    lemma_fields_pair(x, y, ',');
    assert(pair_of(xy) == Some((x, y)));
}

/// `add`, `sub` and `mult` written out as text: `op x,y => z` stores the
/// wraparound of the exact result of `x` and `y` in `z`.
pub proof fn law_wrapping_arithmetic_text(
    regs: Map<Seq<char>, i32>,
    mem: Seq<u8>,
    op: Seq<char>,
    x: Seq<char>,
    y: Seq<char>,
    z: Seq<char>,
)
    requires
        op == "add"@ || op == "sub"@ || op == "mult"@,
        plain(x),
        plain(y),
        plain(z),
        regs.contains_key(x),
        regs.contains_key(y),
    ensures
        execute(regs, mem, register_text(op, x, y, z)) == Ok::<
            (Map<Seq<char>, i32>, Seq<u8>),
            Fault<Seq<char>>,
        >((regs.insert(z, wrap32(exact(register_form(op)->0, regs[x], regs[y]))), mem)),
{
    lemma_opcodes();
    law_decode_register_form(op, x, y, z);
    law_wrapping_arithmetic(regs, mem, register_form(op)->0, Operand::Reg(x), Operand::Reg(y), z);
}

/// `div x,y => z` with `y` holding zero faults.
pub proof fn law_division_by_zero_text(
    regs: Map<Seq<char>, i32>,
    mem: Seq<u8>,
    x: Seq<char>,
    y: Seq<char>,
    z: Seq<char>,
)
    requires
        plain(x),
        plain(y),
        plain(z),
        regs.contains_key(x),
        regs.contains_key(y),
        regs[y] == 0,
    ensures
        execute(regs, mem, register_text("div"@, x, y, z)) == Err::<
            (Map<Seq<char>, i32>, Seq<u8>),
            Fault<Seq<char>>,
        >(Fault::DivisionByZero),
{
    lemma_opcodes();
    law_decode_register_form("div"@, x, y, z);
}

/// `store v => p` followed by `load p => w`, with `p` holding an address
/// whose word lies in memory, leaves `w` holding what `v` holds, and the
/// word's bytes in memory are the little-endian bytes of that value.
pub proof fn law_store_then_load_text(
    regs: Map<Seq<char>, i32>,
    mem: Seq<u8>,
    v: Seq<char>,
    p: Seq<char>,
    w: Seq<char>,
)
    requires
        plain(v),
        plain(p),
        plain(w),
        regs.contains_key(v),
        regs.contains_key(p),
        word_fits(mem.len() as int, regs[p] as int),
    ensures
        ({
            let stored = with_word(mem, regs[p] as int, regs[v]);
            &&& execute(regs, mem, transfer_text("store"@, v, p)) == Ok::<
                (Map<Seq<char>, i32>, Seq<u8>),
                Fault<Seq<char>>,
            >((regs, stored))
            &&& stored.subrange(regs[p] as int, regs[p] + 4) == le_bytes(regs[v])
            &&& execute(regs, stored, transfer_text("load"@, p, w)) == Ok::<
                (Map<Seq<char>, i32>, Seq<u8>),
                Fault<Seq<char>>,
            >((regs.insert(w, regs[v]), stored))
        }),
{
    lemma_opcodes();
    lemma_plain_solid(v);
    lemma_plain_solid(p);
    lemma_plain_solid(w);
    lemma_words_four("store"@, v, "=>"@, p);
    lemma_words_four("load"@, p, "=>"@, w);
    assert(transfer_text("store"@, v, p) == "store"@ + seq![' '] + v + seq![' '] + "=>"@ + seq![' ']
        + p);
    law_store_then_load(regs, mem, v, p, Operand::Imm(0), w);
}

/// A run ends either at the end of the program, with the program unchanged,
/// or at an instruction that faults, in the state just before it.
pub proof fn law_run_ends(s: VmState)
    ensures
        match run_state(s) {
            Ok(t) => t.pc >= t.program.len() && t.program == s.program && (s.pc >= s.program.len()
                ==> t == s),
            Err((f, t)) => t.pc < t.program.len() && t.program == s.program && step_state(t) == Err::<
                Option<VmState>,
                Fault<Seq<char>>,
            >(f),
        },
    decreases s.program.len() - s.pc,
{
    if s.pc < s.program.len() {
        match step_state(s) {
            Ok(Some(n)) => law_run_ends(n),
            _ => {},
        }
    }
}

/// Every block comment is gone from a normalized program: no line that
/// `parse_iloc` returns holds `/*`.
pub proof fn law_no_comment_opener_left(text: Seq<char>)
    ensures
        forall|i: int|
            0 <= i < normalize(text).len() ==> no_comment_opener(#[trigger] normalize(text)[i]),
{
    lemma_normalize_lines_opener_free(crate::text::fields(text, '\n'), false);
}

/// The text `op x,c => z` with a constant written `c`.
pub open spec fn immediate_text(op: Seq<char>, x: Seq<char>, c: Seq<char>, z: Seq<char>) -> Seq<
    char,
> {
    register_text(op, x, c, z)
}

proof fn lemma_decode_pair_text(op: Seq<char>, x: Seq<char>, c: Seq<char>, z: Seq<char>)
    requires
        solid(op),
        plain(x),
        plain(c),
        plain(z),
    ensures
        words(register_text(op, x, c, z)) == seq![op, x + seq![','] + c, "=>"@, z],
        pair_of(x + seq![','] + c) == Some((x, c)),
{
    lemma_opcodes();
    lemma_plain_solid(x);
    lemma_plain_solid(c);
    lemma_plain_solid(z);
    let xc = x + seq![','] + c;
    assert(solid(xc)) by {
        assert forall|i: int| 0 <= i < xc.len() implies !is_space(#[trigger] xc[i]) by {
            if i < x.len() {
                assert(xc[i] == x[i]);
            } else if i > x.len() {
                assert(xc[i] == c[i - x.len() - 1]);
            }
        }
    }
    lemma_words_four(op, xc, "=>"@, z);
    lemma_fields_pair(x, c, ',');
}

/// `divI x,c => z` with a constant that reads as zero, and `rdivI x,c => z`
/// with `x` holding zero, fault as division by zero.
pub proof fn law_division_by_zero_immediate_text(
    regs: Map<Seq<char>, i32>,
    mem: Seq<u8>,
    x: Seq<char>,
    c: Seq<char>,
    z: Seq<char>,
)
    requires
        plain(x),
        plain(c),
        plain(z),
        regs.contains_key(x),
        i32_literal(c) is Some,
    ensures
        i32_literal(c) == Some(0int) ==> execute(regs, mem, immediate_text("divI"@, x, c, z))
            == Err::<(Map<Seq<char>, i32>, Seq<u8>), Fault<Seq<char>>>(Fault::DivisionByZero),
        regs[x] == 0 ==> execute(regs, mem, immediate_text("rdivI"@, x, c, z)) == Err::<
            (Map<Seq<char>, i32>, Seq<u8>),
            Fault<Seq<char>>,
        >(Fault::DivisionByZero),
{
    lemma_opcodes();
    lemma_decode_pair_text("divI"@, x, c, z);
    lemma_decode_pair_text("rdivI"@, x, c, z);
}

/// A `store` with fewer than four words lacks its address, and is malformed.
pub proof fn law_store_needs_address(s: Seq<char>)
    requires
        words(s).len() > 0,
        words(s)[0] == "store"@,
        words(s).len() < 4,
    ensures
        decode(s) == Err::<Instr<Seq<char>>, Fault<Seq<char>>>(Fault::Malformed),
{
    lemma_opcodes();
}

} // verus!
