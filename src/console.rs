//! What the interactive front end decides and shows, apart from drawing and
//! reading keys: its reaction to key presses and free-running, and the text
//! of its memory and register panels.
use vstd::prelude::*;
use vstd::string::StrSliceExecFns;
use crate::registers::RegisterFile;
use crate::text::{string_of, texts};

verus! {

/// What the front end does in answer to a key.
#[derive(Clone, Copy, Debug, PartialEq, Eq, Structural)]
pub enum Action {
    Quit,
    Step,
    Nothing,
}

/// Whether the machine free-runs, one step per frame.
#[derive(Clone, Copy, Debug, PartialEq, Eq, Structural)]
pub struct Controller {
    pub running: bool,
}

impl Controller {
    /// A controller that waits for single steps.
    pub fn new() -> (r: Controller)
        ensures
            !r.running,
    {
        Controller { running: false }
    }

    /// `q` quits, `s` asks for one step, `r` starts or stops free-running;
    /// any other key does nothing.
    pub fn on_key(&mut self, key: char) -> (r: Action)
        ensures
            key == 'q' ==> r == Action::Quit && final(self).running == old(self).running,
            key == 's' ==> r == Action::Step && final(self).running == old(self).running,
            key == 'r' ==> r == Action::Nothing && final(self).running == !old(self).running,
            key != 'q' && key != 's' && key != 'r' ==> r == Action::Nothing && final(self).running
                == old(self).running,
    {
        if key == 'q' {
            Action::Quit
        } else if key == 's' {
            Action::Step
        } else {
            if key == 'r' {
                self.running = !self.running;
            }
            Action::Nothing
        }
    }

    /// Takes note of a free-running step: running stops once the machine
    /// reports that the program has ended.
    pub fn after_step(&mut self, advanced: bool)
        ensures
            final(self).running == (old(self).running && advanced),
    {
        self.running = self.running && advanced;
    }
}

/// The upper-case hexadecimal digit for `d`.
pub open spec fn hex_digit(d: int) -> char {
    if d < 10 {
        ('0' as int + d) as char
    } else {
        ('A' as int + d - 10) as char
    }
}

/// `n` in upper-case hexadecimal, without leading zeros.
pub open spec fn hex(n: nat) -> Seq<char>
    decreases n,
{
    if n < 16 {
        seq![hex_digit(n as int)]
    } else {
        hex(n / 16).push(hex_digit((n % 16) as int))
    }
}

/// `n` in hexadecimal, padded with zeros to at least `width` digits.
pub open spec fn hex_padded(n: nat, width: nat) -> Seq<char> {
    let h = hex(n);
    if h.len() < width {
        Seq::new((width - h.len()) as nat, |i: int| '0') + h
    } else {
        h
    }
}

/// How a byte shows in the text column: itself if it is a visible ASCII
/// character, else a dot.
pub open spec fn shown_char(b: u8) -> char {
    if 0x21 <= b <= 0x7e {
        b as char
    } else {
        '.'
    }
}

/// The hexadecimal column for one half-row: each byte as two digits and a
/// space, with a second space after the fourth.
pub open spec fn hex_group(g: Seq<u8>) -> Seq<char>
    decreases g.len(),
{
    if g.len() == 0 {
        seq![]
    } else {
        let h = hex_group(g.drop_last()) + hex_padded(g.last() as nat, 2);
        if g.len() == 4 {
            h + seq![' ', ' ']
        } else {
            h + seq![' ']
        }
    }
}

/// The text column for one half-row.
pub open spec fn text_group(g: Seq<u8>) -> Seq<char> {
    g.map_values(|b: u8| shown_char(b))
}

/// The memory panel's line for the eight bytes from `8 * row`: the address,
/// the bytes in hexadecimal, and the bytes as text, each column in two
/// halves of four.
pub open spec fn memory_line(mem: Seq<u8>, row: nat) -> Seq<char> {
    let start: int = 8 * row as int;
    let end: int = if start + 8 <= mem.len() {
        start + 8
    } else {
        mem.len() as int
    };
    let mid: int = if start + 4 <= end {
        start + 4
    } else {
        end
    };
    let left = mem.subrange(start, mid);
    let right = mem.subrange(mid, end);
    "0x"@ + hex_padded(start as nat, 4) + ": "@ + hex_group(left) + hex_group(right) + "|"@ + text_group(
        left,
    ) + "  "@ + text_group(right) + "|"@
}

fn hex_char(d: usize) -> (c: char)
    requires
        d < 16,
    ensures
        c == hex_digit(d as int),
{
    if d < 10 {
        ((48 + d) as u8) as char
    } else {
        ((55 + d) as u8) as char
    }
}

fn push_hex(out: &mut Vec<char>, n: usize)
    ensures
        final(out)@ == old(out)@ + hex(n as nat),
    decreases n,
{
    if n >= 16 {
        push_hex(out, n / 16);
    }
    out.push(hex_char(n % 16));
    assert(out@ =~= old(out)@ + hex(n as nat));
}

fn push_hex_padded(out: &mut Vec<char>, n: usize, width: usize)
    ensures
        final(out)@ == old(out)@ + hex_padded(n as nat, width as nat),
{
    let mut h: Vec<char> = Vec::new();
    push_hex(&mut h, n);
    assert(h@ =~= hex(n as nat));
    if h.len() < width {
        let pad = width - h.len();
        let mut i: usize = 0;
        while i < pad
            invariant
                i <= pad,
                out@ == old(out)@ + Seq::new(i as nat, |k: int| '0'),
            decreases pad - i,
        {
            out.push('0');
            assert(out@ =~= old(out)@ + Seq::new((i + 1) as nat, |k: int| '0'));
            i = i + 1;
        }
    }
    let ghost before = out@;
    let mut j: usize = 0;
    while j < h.len()
        invariant
            j <= h@.len(),
            out@ == before + h@.take(j as int),
        decreases h@.len() - j,
    {
        out.push(h[j]);
        assert(out@ =~= before + h@.take(j + 1));
        j = j + 1;
    }
    assert(h@.take(j as int) =~= h@);
    assert(out@ =~= old(out)@ + hex_padded(n as nat, width as nat));
}

fn push_hex_group(out: &mut Vec<char>, mem: &[u8], lo: usize, hi: usize)
    requires
        lo <= hi <= mem@.len(),
        hi - lo <= 4,
    ensures
        final(out)@ == old(out)@ + hex_group(mem@.subrange(lo as int, hi as int)),
{
    let mut i: usize = lo;
    assert(mem@.subrange(lo as int, lo as int) =~= seq![]);
    while i < hi
        invariant
            lo <= i <= hi <= mem@.len(),
            out@ == old(out)@ + hex_group(mem@.subrange(lo as int, i as int)),
        decreases hi - i,
    {
        let ghost g = mem@.subrange(lo as int, i + 1);
        assert(g.drop_last() =~= mem@.subrange(lo as int, i as int));
        push_hex_padded(out, mem[i] as usize, 2);
        out.push(' ');
        if i + 1 - lo == 4 {
            out.push(' ');
        }
        assert(out@ =~= old(out)@ + hex_group(g));
        i = i + 1;
    }
}

fn push_text_group(out: &mut Vec<char>, mem: &[u8], lo: usize, hi: usize)
    requires
        lo <= hi <= mem@.len(),
    ensures
        final(out)@ == old(out)@ + text_group(mem@.subrange(lo as int, hi as int)),
{
    let mut i: usize = lo;
    while i < hi
        invariant
            lo <= i <= hi <= mem@.len(),
            out@ == old(out)@ + text_group(mem@.subrange(lo as int, i as int)),
        decreases hi - i,
    {
        let b = mem[i];
        let c = if 0x21 <= b && b <= 0x7e {
            b as char
        } else {
            '.'
        };
        out.push(c);
        assert(out@ =~= old(out)@ + text_group(mem@.subrange(lo as int, i + 1)));
        i = i + 1;
    }
}

fn push_str(out: &mut Vec<char>, s: &str)
    ensures
        final(out)@ == old(out)@ + s@,
{
    let n = s.unicode_len();
    let mut i: usize = 0;
    while i < n
        invariant
            n == s@.len(),
            i <= n,
            out@ == old(out)@ + s@.take(i as int),
        decreases n - i,
    {
        out.push(s.get_char(i));
        assert(out@ =~= old(out)@ + s@.take(i + 1));
        i = i + 1;
    }
    assert(s@.take(i as int) =~= s@);
}

/// The memory panel's line for row `row`, which must start inside memory.
pub fn memory_row(mem: &[u8], row: usize) -> (r: String)
    requires
        8 * row < mem@.len(),
    ensures
        r@ == memory_line(mem@, row as nat),
{
    let n = mem.len();
    assert(8 * row < n);
    let start = 8 * row;
    let end = if mem.len() - start >= 8 {
        start + 8
    } else {
        mem.len()
    };
    let mid = if end - start >= 4 {
        start + 4
    } else {
        end
    };
    let mut out: Vec<char> = Vec::new();
    push_str(&mut out, "0x");
    push_hex_padded(&mut out, start, 4);
    push_str(&mut out, ": ");
    push_hex_group(&mut out, mem, start, mid);
    push_hex_group(&mut out, mem, mid, end);
    push_str(&mut out, "|");
    push_text_group(&mut out, mem, start, mid);
    push_str(&mut out, "  ");
    push_text_group(&mut out, mem, mid, end);
    push_str(&mut out, "|");
    assert(out@ =~= memory_line(mem@, row as nat));
    string_of(&out)
}

/// `n` in decimal, without leading zeros.
pub open spec fn decimal(n: nat) -> Seq<char>
    decreases n,
{
    if n < 10 {
        seq![('0' as int + n) as char]
    } else {
        decimal(n / 10).push(('0' as int + n % 10) as char)
    }
}

/// `v` in decimal, with a minus sign if it is negative.
pub open spec fn signed_decimal(v: int) -> Seq<char> {
    if v < 0 {
        seq!['-'] + decimal((-v) as nat)
    } else {
        decimal(v as nat)
    }
}

/// The register panel's line for one register.
pub open spec fn register_line(name: Seq<char>, v: i32) -> Seq<char> {
    name + ": "@ + signed_decimal(v as int)
}

/// Lexicographic order by code point, which is how `str` orders.
pub open spec fn lex_le(a: Seq<char>, b: Seq<char>) -> bool
    decreases a.len(),
{
    if a.len() == 0 {
        true
    } else if b.len() == 0 {
        false
    } else if a[0] != b[0] {
        a[0] < b[0]
    } else {
        lex_le(a.drop_first(), b.drop_first())
    }
}

/// Any two texts are ordered one way or the other.
pub proof fn lemma_lex_total(a: Seq<char>, b: Seq<char>)
    ensures
        lex_le(a, b) || lex_le(b, a),
    decreases a.len(),
{
    if a.len() > 0 && b.len() > 0 && a[0] == b[0] {
        lemma_lex_total(a.drop_first(), b.drop_first());
    }
}

/// The order is transitive.
pub proof fn lemma_lex_transitive(a: Seq<char>, b: Seq<char>, c: Seq<char>)
    requires
        lex_le(a, b),
        lex_le(b, c),
    ensures
        lex_le(a, c),
    decreases a.len(),
{
    if a.len() > 0 && b.len() > 0 && c.len() > 0 && a[0] == b[0] && b[0] == c[0] {
        lemma_lex_transitive(a.drop_first(), b.drop_first(), c.drop_first());
    }
}

fn push_decimal(out: &mut Vec<char>, n: u64)
    ensures
        final(out)@ == old(out)@ + decimal(n as nat),
    decreases n,
{
    if n >= 10 {
        push_decimal(out, n / 10);
    }
    out.push(((48 + n % 10) as u8) as char);
    assert(out@ =~= old(out)@ + decimal(n as nat));
}

fn lex_le_exec(a: &Vec<char>, b: &Vec<char>) -> (r: bool)
    ensures
        r == lex_le(a@, b@),
{
    let mut i: usize = 0;
    assert(a@.skip(0) =~= a@);
    assert(b@.skip(0) =~= b@);
    while i < a.len() && i < b.len() && a[i] == b[i]
        invariant
            i <= a@.len(),
            i <= b@.len(),
            lex_le(a@, b@) == lex_le(a@.skip(i as int), b@.skip(i as int)),
        decreases a@.len() - i,
    {
        assert(a@.skip(i as int).drop_first() =~= a@.skip(i + 1));
        assert(b@.skip(i as int).drop_first() =~= b@.skip(i + 1));
        i = i + 1;
    }
    if i == a.len() {
        true
    } else if i == b.len() {
        false
    } else {
        a[i] < b[i]
    }
}

/// Every pair of entries is in order.
pub open spec fn sorted(s: Seq<Seq<char>>) -> bool {
    forall|i: int, j: int| 0 <= i < j < s.len() ==> lex_le(s[i], s[j])
}

/// The register panel's line for the register `name` holding `v`.
fn format_register_line(name: &String, v: i32) -> (r: Vec<char>)
    ensures
        r@ == register_line(name@, v),
{
    let mut line: Vec<char> = Vec::new();
    push_str(&mut line, name.as_str());
    push_str(&mut line, ": ");
    if v < 0 {
        line.push('-');
        push_decimal(&mut line, (0 - (v as i64)) as u64);
    } else {
        push_decimal(&mut line, v as u64);
    }
    assert(line@ =~= register_line(name@, v));
    line
}

/// `l` is the line of one of the registers.
pub open spec fn is_register_line(regs: Map<Seq<char>, i32>, l: Seq<char>) -> bool {
    exists|k: Seq<char>| #[trigger] regs.contains_key(k) && l == register_line(k, regs[k])
}

/// Puts `line` into the sorted list `out` at the first place after which
/// nothing comes before it.
fn insert_sorted(out: &mut Vec<Vec<char>>, line: Vec<char>) -> (p: usize)
    requires
    sorted(views(old(out)@)),
    ensures
    p <= old(out)@.len(),
    final(out)@ == old(out)@.insert(p as int, line),
    sorted(views(final(out)@)),
{
    let mut p: usize = 0;
    while p < out.len() && lex_le_exec(&out[p], &line)
        invariant
            p <= out@.len(),
            forall|k: int| 0 <= k < p ==> lex_le(#[trigger] out@[k]@, line@),
        decreases out@.len() - p,
    {
        p = p + 1;
    }
    let ghost old_out = out@;
    proof {
        if p < old_out.len() {
            lemma_lex_total(old_out[p as int]@, line@);
            assert forall|k: int| p <= k < old_out.len() implies lex_le(line@, #[trigger] old_out[k]@) by {
                if k > p {
                    assert(sorted(views(old_out)));
                    assert(views(old_out)[p as int] == old_out[p as int]@);
                    assert(views(old_out)[k] == old_out[k]@);
                    lemma_lex_transitive(line@, old_out[p as int]@, old_out[k]@);
                }
            }
        }
    }
    let ghost lv = line@;
    out.insert(p, line);
    proof {
        let nv = views(out@);
        assert forall|a: int, b: int| 0 <= a < b < nv.len() implies lex_le(nv[a], nv[b]) by {
            assert(nv[a] == out@[a]@ && nv[b] == out@[b]@);
            let ov = views(old_out);
            if a < p && b < p {
                assert(ov[a] == old_out[a]@ && ov[b] == old_out[b]@);
            } else if a < p && b == p {
                assert(ov[a] == old_out[a]@);
            } else if a < p {
                assert(ov[a] == old_out[a]@ && ov[b - 1] == old_out[b - 1]@);
            } else if a == p {
                assert(ov[b - 1] == old_out[b - 1]@);
            } else {
                assert(ov[a - 1] == old_out[a - 1]@ && ov[b - 1] == old_out[b - 1]@);
            }
        }
    }
    p
}

/// The register panel: one line per register, in lexicographic order.
pub fn register_lines(regs: &RegisterFile) -> (r: Vec<String>)
    requires
        regs.wf(),
    ensures
        sorted(texts(r@)),
        r@.len() == regs@.len(),
        forall|i: int| 0 <= i < r@.len() ==> is_register_line(regs@, #[trigger] r@[i]@),
        forall|k: Seq<char>|
            #[trigger] regs@.contains_key(k) ==> exists|i: int|
                0 <= i < r@.len() && r@[i]@ == register_line(k, regs@[k]),
{
    let entries = regs.listing();
    let ghost lines = entries@.map_values(|e: (String, i32)| register_line(e.0@, e.1));
    let mut out: Vec<Vec<char>> = Vec::new();
    let mut i: usize = 0;
    while i < entries.len()
        invariant
            i <= entries@.len(),
            lines == entries@.map_values(|e: (String, i32)| register_line(e.0@, e.1)),
            out@.len() == i,
            sorted(views(out@)),
            forall|j: int| 0 <= j < out@.len() ==> exists|m: int| 0 <= m < i && #[trigger] out@[j]@ == lines[m],
            forall|m: int| 0 <= m < i ==> exists|j: int| 0 <= j < out@.len() && out@[j]@ == #[trigger] lines[m],
        decreases entries@.len() - i,
    {
        let line = format_register_line(&entries[i].0, entries[i].1);
        assert(line@ == lines[i as int]);
        let ghost old_out = out@;
        let ghost lv = line@;
        let p = insert_sorted(&mut out, line);
        proof {
            assert forall|j: int| 0 <= j < out@.len() implies exists|m: int| 0 <= m < i + 1 && #[trigger] out@[j]@ == lines[m] by {
                if j < p {
                    assert(out@[j] == old_out[j]);
                } else if j == p {
                    assert(out@[j]@ == lv);
                } else {
                    assert(out@[j] == old_out[j - 1]);
                }
            }
            assert forall|m: int| 0 <= m < i + 1 implies exists|j: int| 0 <= j < out@.len() && out@[j]@ == #[trigger] lines[m] by {
                if m == i {
                    assert(out@[p as int]@ == lines[m]);
                } else {
                    let j = choose|j: int| 0 <= j < old_out.len() && old_out[j]@ == lines[m];
                    if j < p {
                        assert(out@[j] == old_out[j]);
                    } else {
                        assert(out@[j + 1] == old_out[j]);
                    }
                }
            }
        }
        i = i + 1;
    }
    let mut r: Vec<String> = Vec::new();
    let mut j: usize = 0;
    while j < out.len()
        invariant
            j <= out@.len(),
            r@.len() == j,
            forall|k: int| 0 <= k < j ==> #[trigger] r@[k]@ == out@[k]@,
        decreases out@.len() - j,
    {
        r.push(string_of(&out[j]));
        j = j + 1;
    }
    assert(texts(r@) =~= views(out@));
    proof {
        assert forall|a: int| 0 <= a < r@.len() implies is_register_line(regs@, #[trigger] r@[a]@) by {
            assert(texts(r@)[a] == r@[a]@);
            assert(views(out@)[a] == out@[a]@);
            let m = choose|m: int| 0 <= m < i && out@[a]@ == lines[m];
            assert(regs@.contains_key(entries@[m].0@));
        }
        assert forall|k: Seq<char>| #[trigger] regs@.contains_key(k) implies exists|a: int|
            0 <= a < r@.len() && r@[a]@ == register_line(k, regs@[k]) by {
            let m = choose|m: int| 0 <= m < entries@.len() && entries@[m].0@ == k;
            assert(lines[m] == register_line(k, regs@[k]));
            let a = choose|a: int| 0 <= a < out@.len() && out@[a]@ == #[trigger] lines[m];
            assert(texts(r@)[a] == r@[a]@);
            assert(views(out@)[a] == out@[a]@);
        }
    }
    r
}

/// The characters of each vector of a list.
pub open spec fn views(s: Seq<Vec<char>>) -> Seq<Seq<char>> {
    s.map_values(|l: Vec<char>| l@)
}

} // verus!
