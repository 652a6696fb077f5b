//! Turns the text of a program into one normalized instruction per line:
//! comments go, white space collapses, and `", "` becomes `","`.
use vstd::prelude::*;
use crate::text::{chars_of, char_is_space, field_spans, fields, is_space, span_texts, spans_within, string_of, texts, word_spans, words};

verus! {

/// `s` without the white space at its front.
pub open spec fn trim_start(s: Seq<char>) -> Seq<char>
    decreases s.len(),
{
    if s.len() > 0 && is_space(s[0]) {
        trim_start(s.drop_first())
    } else {
        s
    }
}

/// `s` without the white space at its end.
pub open spec fn trim_end(s: Seq<char>) -> Seq<char>
    decreases s.len(),
{
    if s.len() > 0 && is_space(s.last()) {
        trim_end(s.drop_last())
    } else {
        s
    }
}

/// `s` without the white space at either end.
pub open spec fn trim(s: Seq<char>) -> Seq<char> {
    trim_end(trim_start(s))
}

/// The first position at or after `k` where `a` is directly followed by `b`.
pub open spec fn find_pair(s: Seq<char>, a: char, b: char, k: nat) -> Option<nat>
    decreases s.len() - k,
{
    if k + 1 >= s.len() {
        None
    } else if s[k as int] == a && s[k + 1 as int] == b {
        Some(k)
    } else {
        find_pair(s, a, b, k + 1)
    }
}

/// The first position at or after `k` that holds `c`.
pub open spec fn find_char(s: Seq<char>, c: char, k: nat) -> Option<nat>
    decreases s.len() - k,
{
    if k >= s.len() {
        None
    } else if s[k as int] == c {
        Some(k)
    } else {
        find_char(s, c, k + 1)
    }
}

/// `s` cut before its first `#` and then before its first `//`.
pub open spec fn strip_line_comment(s: Seq<char>) -> Seq<char> {
    let t = match find_char(s, '#', 0) {
        Some(i) => s.take(i as int),
        None => s,
    };
    match find_pair(t, '/', '/', 0) {
        Some(i) => t.take(i as int),
        None => t,
    }
}

/// `t` with every block comment that opens in it replaced by a space, and
/// whether a block comment is still open at its end. A comment's `*/` is
/// looked for after its `/*`.
pub open spec fn strip_blocks(t: Seq<char>) -> (Seq<char>, bool)
    decreases t.len(),
    via strip_blocks_decreases
{
    match find_pair(t, '/', '*', 0) {
        None => (t, false),
        Some(st) => match find_pair(t, '*', '/', st + 2) {
            Some(end) => {
                let (rest, open) = strip_blocks(t.skip(end + 2 as int));
                (t.take(st as int) + seq![' '] + rest, open)
            },
            None => (t.take(st as int), true),
        },
    }
}

proof fn lemma_find_pair_bounds(s: Seq<char>, a: char, b: char, k: nat)
    ensures
        find_pair(s, a, b, k) matches Some(i) ==> k <= i && i + 1 < s.len(),
    decreases s.len() - k,
{
    if k + 1 < s.len() && !(s[k as int] == a && s[k + 1 as int] == b) {
        lemma_find_pair_bounds(s, a, b, k + 1);
    }
}

#[via_fn]
proof fn strip_blocks_decreases(t: Seq<char>) {
    lemma_find_pair_bounds(t, '/', '*', 0);
    if let Some(st) = find_pair(t, '/', '*', 0) {
        lemma_find_pair_bounds(t, '*', '/', st + 2);
    }
}

/// What is left of a line once block comments are handled (`None` if all of
/// it lies inside one), and whether a block comment is open after it.
pub open spec fn strip_block(line: Seq<char>, in_block: bool) -> (Option<Seq<char>>, bool) {
    let t = trim(line);
    if in_block {
        match find_pair(t, '*', '/', 0) {
            None => (None, true),
            Some(end) => {
                let (rest, open) = strip_blocks(t.skip(end + 2 as int));
                (Some(rest), open)
            },
        }
    } else {
        let (rest, open) = strip_blocks(t);
        (Some(rest), open)
    }
}

/// Words joined by single spaces.
pub open spec fn join_words(ws: Seq<Seq<char>>) -> Seq<char>
    decreases ws.len(),
{
    if ws.len() == 0 {
        seq![]
    } else if ws.len() == 1 {
        ws[0]
    } else {
        join_words(ws.drop_last()) + seq![' '] + ws.last()
    }
}

/// `s` without each space that directly follows a comma, which is what
/// replacing every `", "` by `","` does.
pub open spec fn tighten(s: Seq<char>) -> Seq<char>
    decreases s.len(),
{
    if s.len() == 0 {
        s
    } else if s.last() == ' ' && s.len() >= 2 && s[s.len() - 2] == ',' {
        tighten(s.drop_last())
    } else {
        tighten(s.drop_last()).push(s.last())
    }
}

/// The normalized instruction that a line yields, if any, and whether a block
/// comment is open after it.
pub open spec fn line_output(line: Seq<char>, in_block: bool) -> (Option<Seq<char>>, bool) {
    let (part, open) = strip_block(line, in_block);
    match part {
        Some(t) => {
            let w = trim(strip_line_comment(t));
            if w.len() > 0 {
                (Some(tighten(join_words(words(w)))), open)
            } else {
                (None, open)
            }
        },
        None => (None, open),
    }
}

/// The instructions that a list of lines yields, starting in or out of a
/// block comment.
pub open spec fn normalize_lines(ls: Seq<Seq<char>>, in_block: bool) -> Seq<Seq<char>>
    decreases ls.len(),
{
    if ls.len() == 0 {
        seq![]
    } else {
        let (out, open) = line_output(ls[0], in_block);
        let rest = normalize_lines(ls.drop_first(), open);
        match out {
            Some(l) => seq![l] + rest,
            None => rest,
        }
    }
}

/// The instructions of a program text, one per line that holds one.
pub open spec fn normalize(text: Seq<char>) -> Seq<Seq<char>> {
    normalize_lines(fields(text, '\n'), false)
}

/// No `/*` occurs in `s`.
pub open spec fn no_comment_opener(s: Seq<char>) -> bool {
    forall|i: int| 0 <= i && i + 1 < s.len() ==> !(#[trigger] s[i] == '/' && s[i + 1] == '*')
}

proof fn lemma_find_pair_none_before(s: Seq<char>, a: char, b: char, k: nat)
    ensures
        forall|i: int|
            k <= i && i + 1 < s.len() && (find_pair(s, a, b, k) matches Some(j) ==> i < j) ==> !(
            #[trigger] s[i] == a && s[i + 1] == b),
    decreases s.len() - k,
{
    if k + 1 < s.len() && !(s[k as int] == a && s[k + 1 as int] == b) {
        lemma_find_pair_none_before(s, a, b, k + 1);
    }
}

proof fn lemma_opener_free_subrange(s: Seq<char>, lo: int, hi: int)
    requires
        no_comment_opener(s),
        0 <= lo <= hi <= s.len(),
    ensures
        no_comment_opener(s.subrange(lo, hi)),
{
    let t = s.subrange(lo, hi);
    assert forall|i: int| 0 <= i && i + 1 < t.len() implies !(#[trigger] t[i] == '/' && t[i + 1]
        == '*') by {
        assert(t[i] == s[lo + i] && t[i + 1] == s[lo + i + 1]);
    }
}

proof fn lemma_strip_blocks_opener_free(t: Seq<char>)
    ensures
        no_comment_opener(strip_blocks(t).0),
    decreases t.len(),
{
    lemma_find_pair_bounds(t, '/', '*', 0);
    lemma_find_pair_none_before(t, '/', '*', 0);
    match find_pair(t, '/', '*', 0) {
        None => {},
        Some(st) => {
            lemma_find_pair_bounds(t, '*', '/', st + 2);
            let head = t.take(st as int);
            assert forall|i: int| 0 <= i && i + 1 < head.len() implies !(#[trigger] head[i] == '/'
                && head[i + 1] == '*') by {
                assert(head[i] == t[i] && head[i + 1] == t[i + 1]);
            }
            match find_pair(t, '*', '/', st + 2) {
                None => {},
                Some(end) => {
                    let rest_in = t.skip(end + 2 as int);
                    lemma_strip_blocks_opener_free(rest_in);
                    let rest = strip_blocks(rest_in).0;
                    let r = head + seq![' '] + rest;
                    assert forall|i: int| 0 <= i && i + 1 < r.len() implies !(#[trigger] r[i] == '/'
                        && r[i + 1] == '*') by {
                        if i + 1 < head.len() {
                            assert(r[i] == head[i] && r[i + 1] == head[i + 1]);
                        } else if i + 1 == head.len() {
                            assert(r[i + 1] == ' ');
                        } else if i == head.len() {
                            assert(r[i] == ' ');
                        } else {
                            assert(r[i] == rest[i - head.len() - 1]);
                            assert(r[i + 1] == rest[i - head.len()]);
                        }
                    }
                },
            }
        },
    }
}

proof fn lemma_trim_start_suffix(s: Seq<char>)
    ensures
        exists|k: int| 0 <= k <= s.len() && trim_start(s) == s.subrange(k, s.len() as int),
    decreases s.len(),
{
    if s.len() > 0 && is_space(s[0]) {
        lemma_trim_start_suffix(s.drop_first());
        let k = choose|k: int|
            0 <= k <= s.drop_first().len() && trim_start(s.drop_first()) == s.drop_first().subrange(
                k,
                s.drop_first().len() as int,
            );
        assert(s.drop_first().subrange(k, s.drop_first().len() as int) =~= s.subrange(
            k + 1,
            s.len() as int,
        ));
    } else {
        assert(s.subrange(0, s.len() as int) =~= s);
    }
}

proof fn lemma_trim_end_prefix(s: Seq<char>)
    ensures
        exists|k: int| 0 <= k <= s.len() && trim_end(s) == s.subrange(0, k),
    decreases s.len(),
{
    if s.len() > 0 && is_space(s.last()) {
        lemma_trim_end_prefix(s.drop_last());
        let k = choose|k: int|
            0 <= k <= s.drop_last().len() && trim_end(s.drop_last()) == s.drop_last().subrange(0, k);
        assert(s.drop_last().subrange(0, k) =~= s.subrange(0, k));
    } else {
        assert(s.subrange(0, s.len() as int) =~= s);
    }
}

proof fn lemma_trim_opener_free(s: Seq<char>)
    requires
        no_comment_opener(s),
    ensures
        no_comment_opener(trim(s)),
{
    lemma_trim_start_suffix(s);
    let k = choose|k: int| 0 <= k <= s.len() && trim_start(s) == s.subrange(k, s.len() as int);
    lemma_opener_free_subrange(s, k, s.len() as int);
    let u = trim_start(s);
    lemma_trim_end_prefix(u);
    let j = choose|j: int| 0 <= j <= u.len() && trim_end(u) == u.subrange(0, j);
    lemma_opener_free_subrange(u, 0, j);
}

proof fn lemma_line_comment_opener_free(s: Seq<char>)
    requires
        no_comment_opener(s),
    ensures
        no_comment_opener(strip_line_comment(s)),
{
    let t = match find_char(s, '#', 0) {
        Some(i) => s.take(i as int),
        None => s,
    };
    lemma_find_char_bound(s, '#', 0);
    if let Some(i) = find_char(s, '#', 0) {
        lemma_opener_free_subrange(s, 0, i as int);
    }
    lemma_find_pair_bounds(t, '/', '/', 0);
    if let Some(i) = find_pair(t, '/', '/', 0) {
        lemma_opener_free_subrange(t, 0, i as int);
    }
}

proof fn lemma_find_char_bound(s: Seq<char>, c: char, k: nat)
    ensures
        find_char(s, c, k) matches Some(i) ==> i < s.len(),
    decreases s.len() - k,
{
    if k < s.len() && s[k as int] != c {
        lemma_find_char_bound(s, c, k + 1);
    }
}

/// Joining the words of a text creates no `/*`, and a text ending in a
/// non-space character gives a join ending in it.
proof fn lemma_join_words_opener_free(s: Seq<char>)
    requires
        no_comment_opener(s),
    ensures
        no_comment_opener(join_words(words(s))),
        s.len() > 0 && !is_space(s.last()) ==> join_words(words(s)).len() > 0 && join_words(
            words(s),
        ).last() == s.last(),
    decreases s.len(),
{
    if s.len() > 0 {
        let init = s.drop_last();
        let c = s.last();
        lemma_opener_free_subrange(s, 0, s.len() - 1);
        assert(init =~= s.subrange(0, s.len() - 1));
        lemma_join_words_opener_free(init);
        let w = words(init);
        let j = join_words(w);
        if is_space(c) {
        } else if init.len() > 0 && !is_space(init.last()) {
            let u = w.update(w.len() - 1, w.last().push(c));
            assert(w.len() > 0);
            if w.len() == 1 {
                assert(join_words(u) == u[0]);
                assert(j == w[0]);
            } else {
                assert(u.drop_last() =~= w.drop_last());
                assert(join_words(w) == join_words(w.drop_last()) + seq![' '] + w.last());
            }
            assert(join_words(u) =~= j.push(c));
            assert(s[s.len() - 2] == init.last());
            assert forall|i: int| 0 <= i && i + 1 < j.push(c).len() implies !(#[trigger] j.push(
                c,
            )[i] == '/' && j.push(c)[i + 1] == '*') by {
                if i + 1 < j.len() {
                    assert(j.push(c)[i] == j[i] && j.push(c)[i + 1] == j[i + 1]);
                }
            }
        } else {
            let u = w.push(seq![c]);
            assert(u.drop_last() =~= w);
            let r = join_words(u);
            if w.len() == 0 {
                assert(r == seq![c]);
            } else {
                assert(r == j + seq![' '] + seq![c]);
                assert forall|i: int| 0 <= i && i + 1 < r.len() implies !(#[trigger] r[i] == '/'
                    && r[i + 1] == '*') by {
                    if i + 1 < j.len() {
                        assert(r[i] == j[i] && r[i + 1] == j[i + 1]);
                    } else if i + 1 == j.len() {
                        assert(r[i + 1] == ' ');
                    } else {
                        assert(r[i] == ' ');
                    }
                }
            }
        }
    }
}

/// Dropping spaces after commas creates no `/*`; what it leaves ends in the
/// text's last character or in a comma.
proof fn lemma_tighten_opener_free(s: Seq<char>)
    requires
        no_comment_opener(s),
    ensures
        no_comment_opener(tighten(s)),
        s.len() > 0 ==> tighten(s).len() > 0 && (tighten(s).last() == s.last() || tighten(s).last()
            == ','),
    decreases s.len(),
{
    if s.len() > 0 {
        let init = s.drop_last();
        let c = s.last();
        lemma_opener_free_subrange(s, 0, s.len() - 1);
        assert(init =~= s.subrange(0, s.len() - 1));
        lemma_tighten_opener_free(init);
        let t = tighten(init);
        if c == ' ' && s.len() >= 2 && s[s.len() - 2] == ',' {
            assert(init.last() == ',');
        } else {
            assert forall|i: int| 0 <= i && i + 1 < t.push(c).len() implies !(#[trigger] t.push(
                c,
            )[i] == '/' && t.push(c)[i + 1] == '*') by {
                if i + 1 < t.len() {
                    assert(t.push(c)[i] == t[i] && t.push(c)[i + 1] == t[i + 1]);
                } else {
                    assert(t.push(c)[i] == t.last());
                    assert(s[s.len() - 2] == init.last());
                }
            }
        }
    }
}

/// No line that a program text yields holds `/*`.
pub proof fn lemma_normalize_lines_opener_free(ls: Seq<Seq<char>>, in_block: bool)
    ensures
        forall|i: int|
            0 <= i < normalize_lines(ls, in_block).len() ==> no_comment_opener(
                #[trigger] normalize_lines(ls, in_block)[i],
            ),
    decreases ls.len(),
{
    if ls.len() > 0 {
        let t = trim(ls[0]);
        let (part, open) = strip_block(ls[0], in_block);
        if in_block {
            if let Some(end) = find_pair(t, '*', '/', 0) {
                lemma_strip_blocks_opener_free(t.skip(end + 2 as int));
            }
        } else {
            lemma_strip_blocks_opener_free(t);
        }
        if let Some(p) = part {
            lemma_line_comment_opener_free(p);
            let w = trim(strip_line_comment(p));
            lemma_trim_opener_free(strip_line_comment(p));
            lemma_join_words_opener_free(w);
            lemma_tighten_opener_free(join_words(words(w)));
        }
        lemma_normalize_lines_opener_free(ls.drop_first(), open);
        let rest = normalize_lines(ls.drop_first(), open);
        let out = line_output(ls[0], in_block).0;
        if let Some(l) = out {
            assert forall|i: int| 0 <= i < (seq![l] + rest).len() implies no_comment_opener(
                #[trigger] (seq![l] + rest)[i],
            ) by {
                if i > 0 {
                    assert((seq![l] + rest)[i] == rest[i - 1]);
                }
            }
        }
    }
}

/// The span of `v[lo..hi]` without white space at either end.
fn trimmed(v: &Vec<char>, lo: usize, hi: usize) -> (r: (usize, usize))
    requires
        lo <= hi <= v@.len(),
    ensures
        lo <= r.0 <= r.1 <= hi,
        v@.subrange(r.0 as int, r.1 as int) == trim(v@.subrange(lo as int, hi as int)),
{
    let mut a: usize = lo;
    while a < hi && char_is_space(v[a])
        invariant
            lo <= a <= hi <= v@.len(),
            trim_start(v@.subrange(lo as int, hi as int)) == trim_start(
                v@.subrange(a as int, hi as int),
            ),
        decreases hi - a,
    {
        assert(v@.subrange(a as int, hi as int).drop_first() =~= v@.subrange(a + 1, hi as int));
        a = a + 1;
    }
    let mut b: usize = hi;
    while b > a && char_is_space(v[b - 1])
        invariant
            lo <= a <= b <= hi <= v@.len(),
            trim_end(v@.subrange(a as int, hi as int)) == trim_end(v@.subrange(a as int, b as int)),
        decreases b - a,
    {
        assert(v@.subrange(a as int, b as int).drop_last() =~= v@.subrange(a as int, b - 1));
        b = b - 1;
    }
    (a, b)
}

/// A copy of `v[lo..hi]`.
fn copy_range(v: &Vec<char>, lo: usize, hi: usize) -> (r: Vec<char>)
    requires
        lo <= hi <= v@.len(),
    ensures
        r@ == v@.subrange(lo as int, hi as int),
{
    let mut r: Vec<char> = Vec::new();
    let mut i: usize = lo;
    while i < hi
        invariant
            lo <= i <= hi <= v@.len(),
            r@ == v@.subrange(lo as int, i as int),
        decreases hi - i,
    {
        r.push(v[i]);
        assert(r@ =~= v@.subrange(lo as int, i + 1));
        i = i + 1;
    }
    r
}

/// Where `a` directly followed by `b` first occurs in `v`, from `k` on.
fn find_pair_from(v: &Vec<char>, a: char, b: char, k: usize) -> (r: Option<usize>)
    ensures
        match r {
            Some(i) => find_pair(v@, a, b, k as nat) == Some(i as nat) && k <= i && i + 1 < v@.len(),
            None => find_pair(v@, a, b, k as nat) is None,
        },
{
    let mut i: usize = k;
    while i < v.len() && i + 1 < v.len()
        invariant
            k <= i,
            find_pair(v@, a, b, k as nat) == find_pair(v@, a, b, i as nat),
        decreases v@.len() - i,
    {
        if v[i] == a && v[i + 1] == b {
            return Some(i);
        }
        i = i + 1;
    }
    None
}

/// Where `c` first occurs in `v`.
fn find_char_in(v: &Vec<char>, c: char) -> (r: Option<usize>)
    ensures
        match r {
            Some(i) => find_char(v@, c, 0) == Some(i as nat) && i < v@.len(),
            None => find_char(v@, c, 0) is None,
        },
{
    let mut i: usize = 0;
    while i < v.len()
        invariant
            find_char(v@, c, 0) == find_char(v@, c, i as nat),
        decreases v@.len() - i,
    {
        if v[i] == c {
            return Some(i);
        }
        i = i + 1;
    }
    None
}

fn line_comment_stripped(v: &Vec<char>) -> (r: Vec<char>)
    ensures
        r@ == strip_line_comment(v@),
{
    let t = match find_char_in(v, '#') {
        Some(i) => copy_range(v, 0, i),
        None => copy_range(v, 0, v.len()),
    };
    assert(v@.subrange(0, v@.len() as int) =~= v@);
    match find_pair_from(&t, '/', '/', 0) {
        Some(i) => copy_range(&t, 0, i),
        None => {
            assert(t@.subrange(0, t@.len() as int) =~= t@);
            copy_range(&t, 0, t.len())
        },
    }
}

fn blocks_stripped(t: &Vec<char>) -> (r: (Vec<char>, bool))
    ensures
        (r.0@, r.1) == strip_blocks(t@),
    decreases t@.len(),
{
    let n = t.len();
    match find_pair_from(t, '/', '*', 0) {
        None => {
            assert(t@.subrange(0, t@.len() as int) =~= t@);
            (copy_range(t, 0, t.len()), false)
        },
        Some(st) => match find_pair_from(t, '*', '/', st + 2) {
            Some(end) => {
                assert(end + 2 <= n);
                let rest = copy_range(t, end + 2, t.len());
                assert(rest@ =~= t@.skip(end + 2 as int));
                let (mut tail, open) = blocks_stripped(&rest);
                let mut u = copy_range(t, 0, st);
                u.push(' ');
                u.append(&mut tail);
                assert(u@ =~= t@.take(st as int) + seq![' '] + strip_blocks(rest@).0);
                (u, open)
            },
            None => (copy_range(t, 0, st), true),
        },
    }
}

/// Joins the words of `v` by single spaces.
fn joined_words(v: &Vec<char>) -> (r: Vec<char>)
    ensures
        r@ == join_words(words(v@)),
{
    let w = word_spans(v, 0, v.len());
    assert(v@.subrange(0, v@.len() as int) =~= v@);
    let ghost ws = span_texts(v@, w@);
    let mut r: Vec<char> = Vec::new();
    let mut j: usize = 0;
    while j < w.len()
        invariant
            j <= w@.len(),
            ws == span_texts(v@, w@),
            spans_within(w@, 0, v@.len() as int),
            r@ == join_words(ws.take(j as int)),
        decreases w@.len() - j,
    {
        let ghost before = r@;
        if j > 0 {
            r.push(' ');
        }
        let (a, b) = w[j];
        assert(a <= b <= v@.len());
        let mut k: usize = a;
        while k < b
            invariant
                a <= k <= b <= v@.len(),
                r@ == (if j > 0 { before.push(' ') } else { before }) + v@.subrange(a as int, k as int),
            decreases b - k,
        {
            r.push(v[k]);
            assert(r@ =~= (if j > 0 { before.push(' ') } else { before }) + v@.subrange(a as int, k + 1));
            k = k + 1;
        }
        let ghost next = ws.take(j + 1);
        assert(next.drop_last() =~= ws.take(j as int));
        assert(ws[j as int] == v@.subrange(a as int, b as int));
        if j == 0 {
            assert(r@ =~= join_words(next));
        } else {
            assert(r@ =~= join_words(next));
        }
        j = j + 1;
    }
    assert(ws.take(j as int) =~= ws);
    r
}

/// `v` without each space that directly follows a comma.
fn tightened(v: &Vec<char>) -> (r: Vec<char>)
    ensures
        r@ == tighten(v@),
{
    let mut r: Vec<char> = Vec::new();
    let mut i: usize = 0;
    assert(v@.take(0) =~= seq![]);
    while i < v.len()
        invariant
            i <= v@.len(),
            r@ == tighten(v@.take(i as int)),
        decreases v@.len() - i,
    {
        let ghost next = v@.take(i + 1);
        assert(next.drop_last() =~= v@.take(i as int));
        if !(v[i] == ' ' && i >= 1 && v[i - 1] == ',') {
            r.push(v[i]);
        }
        i = i + 1;
    }
    assert(v@.take(i as int) =~= v@);
    r
}

/// The instruction that a line yields, if any, and whether a block comment
/// is open after it.
fn normalize_line(line: &Vec<char>, in_block: bool) -> (r: (Option<Vec<char>>, bool))
    ensures
        line_output(line@, in_block) == (match r.0 {
            Some(v) => Some(v@),
            None => None,
        }, r.1),
{
    let (a, b) = trimmed(line, 0, line.len());
    assert(line@.subrange(0, line@.len() as int) =~= line@);
    let t = copy_range(line, a, b);
    let (part, open) = if in_block {
        match find_pair_from(&t, '*', '/', 0) {
            None => return (None, true),
            Some(e) => {
                let rest = copy_range(&t, e + 2, t.len());
                assert(rest@ =~= t@.skip(e + 2 as int));
                blocks_stripped(&rest)
            },
        }
    } else {
        blocks_stripped(&t)
    };
    let c = line_comment_stripped(&part);
    let (x, y) = trimmed(&c, 0, c.len());
    assert(c@.subrange(0, c@.len() as int) =~= c@);
    if x == y {
        (None, open)
    } else {
        let w = copy_range(&c, x, y);
        let j = joined_words(&w);
        (Some(tightened(&j)), open)
    }
}

/// The instructions of a program text, one per line that holds one once
/// comments and surrounding white space are gone. A program with none is
/// refused.
pub fn parse_iloc(program: &str) -> (r: Result<Vec<String>, String>)
    ensures
        match r {
            Ok(v) => texts(v@) == normalize(program@) && v@.len() > 0,
            Err(e) => normalize(program@).len() == 0 && e@ == "Program is empty"@,
        },
{
    let s = chars_of(program);
    let ls = field_spans(&s, 0, s.len(), '\n');
    assert(s@.subrange(0, s@.len() as int) =~= s@);
    let ghost lines = span_texts(s@, ls@);
    let mut out: Vec<String> = Vec::new();
    let mut in_block = false;
    let mut i: usize = 0;
    assert(lines.skip(0) =~= lines);
    assert(texts(out@) + normalize_lines(lines, false) =~= normalize_lines(lines, false));
    while i < ls.len()
        invariant
            i <= ls@.len(),
            lines == span_texts(s@, ls@),
            lines == fields(s@, '\n'),
            spans_within(ls@, 0, s@.len() as int),
            texts(out@) + normalize_lines(lines.skip(i as int), in_block) == normalize(s@),
        decreases ls@.len() - i,
    {
        let (a, b) = ls[i];
        let line = copy_range(&s, a, b);
        let ghost rest = lines.skip(i as int);
        assert(rest[0] == line@);
        assert(rest.drop_first() =~= lines.skip(i + 1));
        let (o, open) = normalize_line(&line, in_block);
        match o {
            Some(l) => {
                let ghost prev = texts(out@);
                out.push(string_of(&l));
                assert(texts(out@) =~= prev.push(l@));
                assert(texts(out@) + normalize_lines(lines.skip(i + 1), open) =~= prev + (seq![l@]
                    + normalize_lines(lines.skip(i + 1), open)));
            },
            None => {},
        }
        in_block = open;
        i = i + 1;
    }
    assert(lines.skip(i as int) =~= seq![]);
    assert(texts(out@) =~= normalize(s@));
    if out.len() == 0 {
        Err("Program is empty".to_owned())
    } else {
        Ok(out)
    }
}

} // verus!
