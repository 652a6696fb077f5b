//! Character-level views of instruction text: white space, words and
//! separator-delimited fields.
use vstd::prelude::*;
use vstd::std_specs::iter::IteratorSpec;

verus! {

/// The characters that Unicode classes as `White_Space`, which is what
/// `char::is_whitespace` tests.
pub open spec fn is_space(c: char) -> bool {
    c == '\t' || c == '\n' || c == '\u{0B}' || c == '\u{0C}' || c == '\r' || c == ' '
        || c == '\u{85}' || c == '\u{A0}' || c == '\u{1680}' || ('\u{2000}' <= c
        && c <= '\u{200A}') || c == '\u{2028}' || c == '\u{2029}' || c == '\u{202F}'
        || c == '\u{205F}' || c == '\u{3000}'
}

/// The maximal runs of non-space characters of `s`, in order.
///
/// Read from the back: a space adds nothing, a character that follows a
/// non-space extends the last word, any other character starts a word.
pub open spec fn words(s: Seq<char>) -> Seq<Seq<char>>
    decreases s.len(),
{
    if s.len() == 0 {
        seq![]
    } else {
        let init = s.drop_last();
        let c = s.last();
        let w = words(init);
        if is_space(c) {
            w
        } else if init.len() > 0 && !is_space(init.last()) {
            w.update(w.len() - 1, w.last().push(c))
        } else {
            w.push(seq![c])
        }
    }
}

/// The pieces of `s` between occurrences of `sep`; there is always at least
/// one, and two adjacent separators give an empty piece.
pub open spec fn fields(s: Seq<char>, sep: char) -> Seq<Seq<char>>
    decreases s.len(),
{
    if s.len() == 0 {
        seq![seq![]]
    } else {
        let f = fields(s.drop_last(), sep);
        if s.last() == sep {
            f.push(seq![])
        } else {
            f.update(f.len() - 1, f.last().push(s.last()))
        }
    }
}

/// The characters of each string of a list.
pub open spec fn texts(p: Seq<String>) -> Seq<Seq<char>> {
    p.map_values(|s: String| s@)
}

/// The pieces that a list of spans picks out of `s`.
pub open spec fn span_texts(s: Seq<char>, spans: Seq<(usize, usize)>) -> Seq<Seq<char>> {
    spans.map_values(|p: (usize, usize)| s.subrange(p.0 as int, p.1 as int))
}

/// Every span lies inside `lo..hi` and is ordered.
pub open spec fn spans_within(spans: Seq<(usize, usize)>, lo: int, hi: int) -> bool {
    forall|j: int|
        0 <= j < spans.len() ==> lo <= #[trigger] spans[j].0 <= spans[j].1 <= hi
}

/// A name as it is written in an instruction: not empty, no white space
/// and no comma.
pub open spec fn plain(t: Seq<char>) -> bool {
    t.len() > 0 && forall|i: int| 0 <= i < t.len() ==> !is_space(#[trigger] t[i]) && t[i] != ','
}

proof fn lemma_words_last_word(s: Seq<char>)
    requires
        s.len() > 0,
        !is_space(s.last()),
    ensures
        words(s).len() > 0,
    decreases s.len(),
{
    let init = s.drop_last();
    if init.len() > 0 && !is_space(init.last()) {
        lemma_words_last_word(init);
    }
}

/// The words of two texts joined by a space are the words of each.
pub proof fn lemma_words_concat(a: Seq<char>, b: Seq<char>)
    ensures
        words(a + seq![' '] + b) == words(a) + words(b),
    decreases b.len(),
{
    let s = a + seq![' '] + b;
    if b.len() == 0 {
        assert(s.drop_last() =~= a);
        assert(words(b) =~= seq![]);
        assert(words(a) + words(b) =~= words(a));
    } else {
        let b1 = b.drop_last();
        let c = b.last();
        lemma_words_concat(a, b1);
        assert(s.drop_last() =~= a + seq![' '] + b1);
        assert(s.last() == c);
        let x = words(a);
        let y = words(b1);
        if is_space(c) {
        } else if b1.len() > 0 && !is_space(b1.last()) {
            assert((a + seq![' '] + b1).last() == b1.last());
            lemma_words_last_word(b1);
            assert((x + y).update(x.len() + y.len() - 1, (x + y).last().push(c)) =~= x + y.update(
                y.len() - 1,
                y.last().push(c),
            ));
        } else {
            assert((a + seq![' '] + b1).last() == if b1.len() > 0 {
                b1.last()
            } else {
                ' '
            });
            assert((x + y).push(seq![c]) =~= x + y.push(seq![c]));
        }
    }
}

/// A plain name is one word.
pub proof fn lemma_words_plain(t: Seq<char>)
    requires
        t.len() > 0,
        forall|i: int| 0 <= i < t.len() ==> !is_space(#[trigger] t[i]),
    ensures
        words(t) == seq![t],
    decreases t.len(),
{
    let init = t.drop_last();
    if init.len() == 0 {
        assert(words(init) =~= seq![]);
        assert(seq![t.last()] =~= t);
        assert(words(t) =~= seq![t]);
    } else {
        assert(forall|i: int| 0 <= i < init.len() ==> init[i] == t[i]);
        lemma_words_plain(init);
        assert(init.last() == t[t.len() - 2]);
        assert(init.push(t.last()) =~= t);
        assert(words(t) =~= seq![t]);
    }
}

proof fn lemma_fields_single(t: Seq<char>, sep: char)
    requires
        forall|i: int| 0 <= i < t.len() ==> #[trigger] t[i] != sep,
    ensures
        fields(t, sep) == seq![t],
    decreases t.len(),
{
    if t.len() == 0 {
        assert(t =~= seq![]);
    } else {
        let init = t.drop_last();
        assert(forall|i: int| 0 <= i < init.len() ==> init[i] == t[i]);
        lemma_fields_single(init, sep);
        assert(init.push(t.last()) =~= t);
        assert(fields(t, sep) =~= seq![t]);
    }
}

/// Two pieces without the separator, joined by it, split back into the two.
pub proof fn lemma_fields_pair(x: Seq<char>, y: Seq<char>, sep: char)
    requires
        forall|i: int| 0 <= i < x.len() ==> #[trigger] x[i] != sep,
        forall|i: int| 0 <= i < y.len() ==> #[trigger] y[i] != sep,
    ensures
        fields(x + seq![sep] + y, sep) == seq![x, y],
    decreases y.len(),
{
    let s = x + seq![sep] + y;
    if y.len() == 0 {
        lemma_fields_single(x, sep);
        assert(s.drop_last() =~= x);
        assert(y =~= seq![]);
        assert(fields(s, sep) =~= seq![x, y]);
    } else {
        let y1 = y.drop_last();
        assert(forall|i: int| 0 <= i < y1.len() ==> y1[i] == y[i]);
        lemma_fields_pair(x, y1, sep);
        assert(s.drop_last() =~= x + seq![sep] + y1);
        assert(y1.push(y.last()) =~= y);
        assert(fields(s, sep) =~= seq![x, y]);
    }
}

/// Relies on `String::push`, which appends one character to the string.
pub assume_specification[ String::push ](s: &mut String, ch: char)
    ensures
        final(s)@ == old(s)@.push(ch),
;

/// A string that holds the characters of `v`, in order.
pub fn string_of(v: &Vec<char>) -> (r: String)
    ensures
        r@ == v@,
{
    let mut r = String::new();
    let mut i: usize = 0;
    while i < v.len()
        invariant
            i <= v@.len(),
            r@ == v@.take(i as int),
        decreases v@.len() - i,
    {
        r.push(v[i]);
        assert(r@ =~= v@.take(i + 1));
        i = i + 1;
    }
    assert(v@.take(i as int) =~= v@);
    r
}

/// Executable test for [`is_space`].
pub fn char_is_space(c: char) -> (r: bool)
    ensures
        r == is_space(c),
{
    c == '\t' || c == '\n' || c == '\u{0B}' || c == '\u{0C}' || c == '\r' || c == ' '
        || c == '\u{85}' || c == '\u{A0}' || c == '\u{1680}' || ('\u{2000}' <= c
        && c <= '\u{200A}') || c == '\u{2028}' || c == '\u{2029}' || c == '\u{202F}'
        || c == '\u{205F}' || c == '\u{3000}'
}

/// The characters of `s`, in order.
pub fn chars_of(s: &str) -> (r: Vec<char>)
    ensures
        r@ == s@,
{
    let mut it = s.chars();
    let mut r: Vec<char> = Vec::new();
    loop
        invariant
            r@ + it.remaining() == s@,
            it.decrease() is Some,
        ensures
            r@ == s@,
        decreases it.decrease()->0,
    {
        match it.next() {
            Some(c) => {
                proof {
                    assert(r@.push(c) + it.remaining() =~= s@);
                }
                r.push(c);
            },
            None => {
                assert(r@ =~= s@);
                break ;
            },
        }
    }
    r
}

/// The spans of the words of `s[lo..hi]`, as positions in `s`.
pub fn word_spans(s: &Vec<char>, lo: usize, hi: usize) -> (r: Vec<(usize, usize)>)
    requires
        lo <= hi <= s@.len(),
    ensures
        spans_within(r@, lo as int, hi as int),
        span_texts(s@, r@) == words(s@.subrange(lo as int, hi as int)),
{
    let mut r: Vec<(usize, usize)> = Vec::new();
    let mut start: usize = lo;
    let mut in_word = false;
    let mut i: usize = lo;
    while i < hi
        invariant
            lo <= start <= i <= hi <= s@.len(),
            spans_within(r@, lo as int, i as int),
            in_word == (i > lo && !is_space(s@[i - 1])),
            in_word ==> start < i && words(s@.subrange(lo as int, i as int)) == span_texts(
                s@,
                r@,
            ).push(s@.subrange(start as int, i as int)),
            !in_word ==> words(s@.subrange(lo as int, i as int)) == span_texts(s@, r@),
        decreases hi - i,
    {
        let c = s[i];
        let ghost prev = s@.subrange(lo as int, i as int);
        let ghost next = s@.subrange(lo as int, i + 1);
        assert(next.drop_last() =~= prev);
        assert(next.last() == c);
        if char_is_space(c) {
            if in_word {
                r.push((start, i));
                assert(span_texts(s@, r@) =~= words(prev));
            }
            in_word = false;
        } else if in_word {
            assert(prev.last() == s@[i - 1]);
            assert(s@.subrange(start as int, i as int).push(c) =~= s@.subrange(start as int, i + 1));
            assert(span_texts(s@, r@).push(s@.subrange(start as int, i + 1)) =~= words(next));
        } else {
            start = i;
            assert(s@.subrange(start as int, i + 1) =~= seq![c]);
            assert(i > lo ==> prev.last() == s@[i - 1]);
        }
        i = i + 1;
        in_word = !char_is_space(c);
    }
    if in_word {
        r.push((start, hi));
        assert(span_texts(s@, r@) =~= words(s@.subrange(lo as int, hi as int)));
    }
    r
}

/// The spans of the pieces of `s[lo..hi]` between occurrences of `sep`, as
/// positions in `s`.
pub fn field_spans(s: &Vec<char>, lo: usize, hi: usize, sep: char) -> (r: Vec<(usize, usize)>)
    requires
        lo <= hi <= s@.len(),
    ensures
        spans_within(r@, lo as int, hi as int),
        span_texts(s@, r@) == fields(s@.subrange(lo as int, hi as int), sep),
{
    let mut r: Vec<(usize, usize)> = Vec::new();
    let mut start: usize = lo;
    let mut i: usize = lo;
    assert(s@.subrange(lo as int, lo as int) =~= seq![]);
    assert(s@.subrange(start as int, i as int) =~= seq![]);
    while i < hi
        invariant
            lo <= start <= i <= hi <= s@.len(),
            spans_within(r@, lo as int, i as int),
            fields(s@.subrange(lo as int, i as int), sep) == span_texts(s@, r@).push(
                s@.subrange(start as int, i as int),
            ),
        decreases hi - i,
    {
        let c = s[i];
        let ghost prev = s@.subrange(lo as int, i as int);
        let ghost next = s@.subrange(lo as int, i + 1);
        assert(next.drop_last() =~= prev);
        assert(next.last() == c);
        if c == sep {
            r.push((start, i));
            start = i + 1;
            assert(s@.subrange(start as int, i + 1) =~= seq![]);
            assert(span_texts(s@, r@).push(s@.subrange(start as int, i + 1)) =~= fields(
                next,
                sep,
            ));
        } else {
            assert(s@.subrange(start as int, i as int).push(c) =~= s@.subrange(start as int, i + 1));
            assert(span_texts(s@, r@).push(s@.subrange(start as int, i + 1)) =~= fields(
                next,
                sep,
            ));
        }
        i = i + 1;
    }
    r.push((start, hi));
    assert(span_texts(s@, r@) =~= fields(s@.subrange(lo as int, hi as int), sep));
    r
}

} // verus!
