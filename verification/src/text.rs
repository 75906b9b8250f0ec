//! Text as sequences of characters: lines, whitespace-separated words, and
//! the conversions between `str`/`String` and character vectors.
use vstd::prelude::*;

verus! {

/// Unicode `White_Space`, the characters that `char::is_whitespace` accepts
/// and that `str::trim` and `str::split_whitespace` cut at.
pub open spec fn is_space(c: char) -> bool {
    let u = c as u32;
    (9 <= u && u <= 13) || u == 32 || u == 0x85 || u == 0xa0 || u == 0x1680 || (0x2000 <= u && u
        <= 0x200a) || u == 0x2028 || u == 0x2029 || u == 0x202f || u == 0x205f || u == 0x3000
}

/// Number of leading characters of `s` before the first whitespace.
pub open spec fn word_len(s: Seq<char>) -> nat
    decreases s.len(),
{
    if s.len() == 0 || is_space(s[0]) {
        0
    } else {
        1 + word_len(s.drop_first())
    }
}

pub proof fn lemma_word_len(s: Seq<char>)
    ensures
        word_len(s) <= s.len(),
        forall|i: int| 0 <= i < word_len(s) ==> !is_space(#[trigger] s[i]),
        word_len(s) < s.len() ==> is_space(s[word_len(s) as int]),
    decreases s.len(),
{
    if s.len() > 0 && !is_space(s[0]) {
        lemma_word_len(s.drop_first());
        assert forall|i: int| 0 <= i < word_len(s) implies !is_space(#[trigger] s[i]) by {
            if i > 0 {
                assert(s[i] == s.drop_first()[i - 1]);
            }
        }
    }
}

pub proof fn lemma_word_len_at(s: Seq<char>, k: int)
    requires
        0 <= k <= s.len(),
        forall|i: int| 0 <= i < k ==> !is_space(#[trigger] s[i]),
        k == s.len() || is_space(s[k]),
    ensures
        word_len(s) == k,
    decreases k,
{
    if k > 0 {
        assert(!is_space(s[0]));
        assert forall|i: int| 0 <= i < k - 1 implies !is_space(#[trigger] s.drop_first()[i]) by {
            assert(s.drop_first()[i] == s[i + 1]);
        }
        if k < s.len() {
            assert(s.drop_first()[k - 1] == s[k]);
        }
        lemma_word_len_at(s.drop_first(), k - 1);
    }
}

/// The whitespace-separated words of `s`, as `str::split_whitespace` yields them.
pub open spec fn words(s: Seq<char>) -> Seq<Seq<char>>
    decreases s.len(),
{
    if s.len() == 0 {
        seq![]
    } else if is_space(s[0]) {
        words(s.drop_first())
    } else {
        let k = word_len(s);
        proof {
            lemma_word_len(s);
        }
        seq![s.take(k as int)] + words(s.skip(k as int))
    }
}

/// Every word is non-empty and holds no whitespace.
pub open spec fn is_word(w: Seq<char>) -> bool {
    w.len() > 0 && forall|i: int| 0 <= i < w.len() ==> !is_space(#[trigger] w[i])
}

/// Words joined by single spaces (`[&str]::join(" ")`).
pub open spec fn join_words(ws: Seq<Seq<char>>) -> Seq<char>
    decreases ws.len(),
{
    if ws.len() == 0 {
        seq![]
    } else if ws.len() == 1 {
        ws[0]
    } else {
        ws[0] + seq![' '] + join_words(ws.drop_first())
    }
}

/// A name that reads back unchanged when split into words and joined again:
/// no leading, trailing or doubled whitespace, and only plain spaces between words.
pub open spec fn is_plain_name(s: Seq<char>) -> bool {
    join_words(words(s)) == s
}

pub proof fn lemma_words_are_words(s: Seq<char>)
    ensures
        forall|i: int| 0 <= i < words(s).len() ==> is_word(#[trigger] words(s)[i]),
    decreases s.len(),
{
    if s.len() > 0 {
        if is_space(s[0]) {
            lemma_words_are_words(s.drop_first());
            assert(words(s) == words(s.drop_first()));
        } else {
            let k = word_len(s);
            lemma_word_len(s);
            lemma_words_are_words(s.skip(k as int));
            let ws = words(s);
            assert forall|i: int| 0 <= i < ws.len() implies is_word(#[trigger] ws[i]) by {
                if i == 0 {
                    assert(ws[0] == s.take(k as int));
                    assert forall|j: int| 0 <= j < ws[0].len() implies !is_space(#[trigger] ws[0][j]) by {
                        assert(ws[0][j] == s[j]);
                    }
                } else {
                    assert(ws[i] == words(s.skip(k as int))[i - 1]);
                }
            }
        }
    }
}

/// Leading whitespace does not change the words.
pub proof fn lemma_words_space(c: char, rest: Seq<char>)
    requires
        is_space(c),
    ensures
        words(seq![c] + rest) == words(rest),
{
    let s = seq![c] + rest;
    assert(s.drop_first() =~= rest);
}

/// A word followed by whitespace (or by nothing) is the first word.
pub proof fn lemma_words_prefix(w: Seq<char>, rest: Seq<char>)
    requires
        is_word(w),
        rest.len() == 0 || is_space(rest[0]),
    ensures
        words(w + rest) == seq![w] + words(rest),
{
    let s = w + rest;
    assert forall|i: int| 0 <= i < w.len() implies !is_space(#[trigger] s[i]) by {
        assert(s[i] == w[i]);
    }
    if rest.len() > 0 {
        assert(s[w.len() as int] == rest[0]);
    }
    lemma_word_len_at(s, w.len() as int);
    assert(!is_space(s[0]));
    assert(s.take(w.len() as int) =~= w);
    assert(s.skip(w.len() as int) =~= rest);
}

/// The words of a single word.
pub proof fn lemma_words_single(w: Seq<char>)
    requires
        is_word(w),
    ensures
        words(w) == seq![w],
{
    lemma_words_prefix(w, seq![]);
    assert(w + Seq::<char>::empty() =~= w);
    assert(words(Seq::<char>::empty()) =~= Seq::<Seq<char>>::empty());
    assert(seq![w] + Seq::<Seq<char>>::empty() =~= seq![w]);
}

/// A whitespace character splits a text in two: the words of the whole are
/// the words before it followed by the words after it.
pub proof fn lemma_words_split(x: Seq<char>, c: char, y: Seq<char>)
    requires
        is_space(c),
    ensures
        words(x + seq![c] + y) == words(x) + words(y),
    decreases x.len(),
{
    let s = x + seq![c] + y;
    if x.len() == 0 {
        assert(s =~= seq![c] + y);
        lemma_words_space(c, y);
        assert(words(x) =~= Seq::<Seq<char>>::empty());
        assert(words(x) + words(y) =~= words(y));
    } else if is_space(x[0]) {
        assert(s[0] == x[0]);
        assert(s.drop_first() =~= x.drop_first() + seq![c] + y);
        lemma_words_split(x.drop_first(), c, y);
    } else {
        let k = word_len(x) as int;
        lemma_word_len(x);
        assert(k >= 1);
        assert forall|i: int| 0 <= i < k implies !is_space(#[trigger] s[i]) by {
            assert(s[i] == x[i]);
        }
        if k < x.len() {
            assert(s[k] == x[k]);
        } else {
            assert(s[k] == c);
        }
        lemma_word_len_at(s, k);
        assert(s[0] == x[0]);
        assert(s.take(k) =~= x.take(k));
        assert(s.skip(k) =~= x.skip(k) + seq![c] + y);
        lemma_words_split(x.skip(k), c, y);
        assert(words(s) == seq![x.take(k)] + words(s.skip(k)));
        assert(words(x) == seq![x.take(k)] + words(x.skip(k)));
        assert(seq![x.take(k)] + (words(x.skip(k)) + words(y)) =~= seq![x.take(k)] + words(x.skip(k))
            + words(y));
    }
}

/// The characters that `char::is_whitespace` accepts, the Unicode
/// `White_Space` list written out: tab, line feed, vertical tab, form feed,
/// carriage return, space, U+0085, U+00A0, U+1680, U+2000 to U+200A, U+2028,
/// U+2029, U+202F, U+205F and U+3000.
pub open spec fn white_space_listed(c: char) -> bool {
    c == '\t' || c == '\n' || c == '\u{0B}' || c == '\u{0C}' || c == '\r' || c == ' ' || c == '\u{85}'
        || c == '\u{A0}' || c == '\u{1680}' || ('\u{2000}' <= c && c <= '\u{200A}') || c == '\u{2028}'
        || c == '\u{2029}' || c == '\u{202F}' || c == '\u{205F}' || c == '\u{3000}'
}

/// Every character that `char::is_whitespace` accepts (tab, line feed,
/// vertical tab, form feed, carriage return, space, U+0085, U+00A0, U+1680,
/// U+2000 to U+200A, U+2028, U+2029, U+202F, U+205F and U+3000) separates
/// words and belongs to none: the words of `x`, that character and `y` are
/// the words of `x` followed by those of `y`, and the character before or
/// after a text changes none of its words. So a line that ends in a carriage
/// return ("\r\n" line endings) has the words of the line without it.
pub proof fn law_white_space_separates_words(x: Seq<char>, c: char, y: Seq<char>)
    requires
        white_space_listed(c),
    ensures
        words(x + seq![c] + y) == words(x) + words(y),
        words(x.push(c)) == words(x),
        words(seq![c] + x) == words(x),
        forall|i: int, j: int|
            0 <= i < words(x).len() && 0 <= j < words(x)[i].len() ==> words(x)[i][j] != c,
{
    assert(is_space(c));
    lemma_words_split(x, c, seq![]);
    assert(x + seq![c] + Seq::<char>::empty() =~= x.push(c));
    assert(words(Seq::<char>::empty()) =~= Seq::<Seq<char>>::empty());
    assert(words(x) + Seq::<Seq<char>>::empty() =~= words(x));
    lemma_words_split(x, c, y);
    lemma_words_space(c, x);
    lemma_words_are_words(x);
    assert forall|i: int, j: int|
        0 <= i < words(x).len() && 0 <= j < words(x)[i].len() implies words(x)[i][j] != c by {
        assert(is_word(words(x)[i]));
        assert(!is_space(words(x)[i][j]));
    }
}

/// Any other character is part of a word: alone it is a word of its own.
pub proof fn law_other_chars_make_words(c: char)
    requires
        !white_space_listed(c),
    ensures
        words(seq![c]) == seq![seq![c]],
{
    assert(!is_space(c));
    assert(is_word(seq![c]));
    lemma_words_single(seq![c]);
}

/// `w + " " + rest`, the usual shape of a line of the level file.
pub proof fn lemma_words_word_space(w: Seq<char>, rest: Seq<char>)
    requires
        is_word(w),
    ensures
        words(w + seq![' '] + rest) == seq![w] + words(rest),
{
    assert(w + seq![' '] + rest =~= w + (seq![' '] + rest));
    lemma_words_prefix(w, seq![' '] + rest);
    lemma_words_space(' ', rest);
}

// ------------------------------------------------------------------
// Lines
// ------------------------------------------------------------------

/// Number of leading characters of `s` before the first newline.
pub open spec fn line_len(s: Seq<char>) -> nat
    decreases s.len(),
{
    if s.len() == 0 || s[0] == '\n' {
        0
    } else {
        1 + line_len(s.drop_first())
    }
}

pub proof fn lemma_line_len(s: Seq<char>)
    ensures
        line_len(s) <= s.len(),
        line_len(s) < s.len() ==> s[line_len(s) as int] == '\n',
    decreases s.len(),
{
    if s.len() > 0 && s[0] != '\n' {
        lemma_line_len(s.drop_first());
    }
}

pub proof fn lemma_line_len_at(s: Seq<char>, k: int)
    requires
        0 <= k <= s.len(),
        forall|i: int| 0 <= i < k ==> #[trigger] s[i] != '\n',
        k == s.len() || s[k] == '\n',
    ensures
        line_len(s) == k,
    decreases k,
{
    if k > 0 {
        assert(s[0] != '\n');
        assert forall|i: int| 0 <= i < k - 1 implies #[trigger] s.drop_first()[i] != '\n' by {
            assert(s.drop_first()[i] == s[i + 1]);
        }
        if k < s.len() {
            assert(s.drop_first()[k - 1] == s[k]);
        }
        lemma_line_len_at(s.drop_first(), k - 1);
    }
}

/// The pieces of `t` between newlines; the last piece is what follows the
/// last newline, possibly empty.
pub open spec fn lines_of(t: Seq<char>) -> Seq<Seq<char>>
    decreases t.len(),
{
    let k = line_len(t);
    proof {
        lemma_line_len(t);
    }
    if k >= t.len() {
        seq![t]
    } else {
        seq![t.take(k as int)] + lines_of(t.skip(k + 1 as int))
    }
}

pub open spec fn has_newline(s: Seq<char>) -> bool {
    exists|i: int| 0 <= i < s.len() && s[i] == '\n'
}

/// Each line followed by a newline.
pub open spec fn lines_text(ls: Seq<Seq<char>>) -> Seq<char>
    decreases ls.len(),
{
    if ls.len() == 0 {
        seq![]
    } else {
        ls[0] + seq!['\n'] + lines_text(ls.drop_first())
    }
}

pub proof fn lemma_lines_text_add(a: Seq<Seq<char>>, b: Seq<Seq<char>>)
    ensures
        lines_text(a + b) == lines_text(a) + lines_text(b),
    decreases a.len(),
{
    if a.len() == 0 {
        assert(a + b =~= b);
        assert(lines_text(a) =~= Seq::<char>::empty());
        assert(lines_text(a) + lines_text(b) =~= lines_text(b));
    } else {
        lemma_lines_text_add(a.drop_first(), b);
        assert((a + b).drop_first() =~= a.drop_first() + b);
        assert((a + b)[0] == a[0]);
        assert(lines_text(a + b) =~= a[0] + seq!['\n'] + lines_text(a.drop_first() + b));
        assert(lines_text(a + b) =~= lines_text(a) + lines_text(b));
    }
}

pub proof fn lemma_lines_text_push(a: Seq<Seq<char>>, l: Seq<char>)
    ensures
        lines_text(a.push(l)) == lines_text(a) + l + seq!['\n'],
{
    lemma_lines_text_add(a, seq![l]);
    assert(a.push(l) =~= a + seq![l]);
    let one = seq![l];
    assert(one.drop_first() =~= Seq::<Seq<char>>::empty());
    assert(lines_text(one.drop_first()) =~= Seq::<char>::empty());
    assert(lines_text(one) == l + seq!['\n'] + lines_text(one.drop_first()));
    assert(lines_text(one) =~= l + seq!['\n']);
    assert(lines_text(a) + (l + seq!['\n']) =~= lines_text(a) + l + seq!['\n']);
}

/// Splitting off the first line.
pub proof fn lemma_lines_of_cons(l: Seq<char>, rest: Seq<char>)
    requires
        !has_newline(l),
    ensures
        lines_of(l + seq!['\n'] + rest) == seq![l] + lines_of(rest),
{
    let t = l + seq!['\n'] + rest;
    assert forall|i: int| 0 <= i < l.len() implies #[trigger] t[i] != '\n' by {
        assert(t[i] == l[i]);
    }
    assert(t[l.len() as int] == '\n');
    lemma_line_len_at(t, l.len() as int);
    assert(t.take(l.len() as int) =~= l);
    assert(t.skip(l.len() + 1 as int) =~= rest);
}

/// Reading back lines that were each written with a newline.
pub proof fn lemma_lines_of_text(ls: Seq<Seq<char>>)
    requires
        forall|i: int| 0 <= i < ls.len() ==> !has_newline(#[trigger] ls[i]),
    ensures
        lines_of(lines_text(ls)) == ls.push(seq![]),
    decreases ls.len(),
{
    if ls.len() == 0 {
        let e = Seq::<char>::empty();
        lemma_line_len_at(e, 0);
        assert(lines_of(e) =~= seq![e]);
        assert(ls.push(e) =~= seq![e]);
    } else {
        let rest = ls.drop_first();
        assert forall|i: int| 0 <= i < rest.len() implies !has_newline(#[trigger] rest[i]) by {
            assert(rest[i] == ls[i + 1]);
        }
        lemma_lines_of_text(rest);
        assert(!has_newline(ls[0]));
        lemma_lines_of_cons(ls[0], lines_text(rest));
        assert(ls.push(seq![]) =~= seq![ls[0]] + rest.push(seq![]));
    }
}

// ------------------------------------------------------------------
// Executable helpers
// ------------------------------------------------------------------

/// `char::is_whitespace`.
pub fn is_white(c: char) -> (b: bool)
    ensures
        b == is_space(c),
{
    let u = c as u32;
    (9 <= u && u <= 13) || u == 32 || u == 0x85 || u == 0xa0 || u == 0x1680 || (0x2000 <= u && u
        <= 0x200a) || u == 0x2028 || u == 0x2029 || u == 0x202f || u == 0x205f || u == 0x3000
}

/// The characters of a string slice.
pub fn chars_of(s: &str) -> (v: Vec<char>)
    ensures
        v@ == s@,
{
    broadcast use vstd::string::group_string_axioms;

    let mut v: Vec<char> = Vec::new();
    for c in it: s.chars()
        invariant
            v@ == it.seq().take(it.index() as int),
            it.seq() == s@,
    {
        v.push(c);
    }
    v
}

/// Appends the characters of `s`.
pub fn push_str(out: &mut Vec<char>, s: &str)
    ensures
        final(out)@ == old(out)@ + s@,
{
    let v = chars_of(s);
    let mut i: usize = 0;
    while i < v.len()
        invariant
            i <= v@.len(),
            out@ == old(out)@ + v@.take(i as int),
        decreases v@.len() - i,
    {
        out.push(v[i]);
        i = i + 1;
        assert(out@ =~= old(out)@ + v@.take(i as int));
    }
    assert(v@.take(i as int) =~= v@);
}

/// Appends `v[start..end]`.
pub fn push_range(out: &mut Vec<char>, v: &Vec<char>, start: usize, end: usize)
    requires
        start <= end <= v@.len(),
    ensures
        final(out)@ == old(out)@ + v@.subrange(start as int, end as int),
{
    let mut i = start;
    while i < end
        invariant
            start <= i <= end <= v@.len(),
            out@ == old(out)@ + v@.subrange(start as int, i as int),
        decreases end - i,
    {
        out.push(v[i]);
        i = i + 1;
        assert(out@ =~= old(out)@ + v@.subrange(start as int, i as int));
    }
}

/// A `String` holding exactly the given characters, in order
/// (`String::from_iter`, which pushes each character in turn).
#[verifier::external_body]
pub fn string_from_chars(v: Vec<char>) -> (s: String)
    ensures
        s@ == v@,
{
    String::from_iter(v)
}

/// Whether `v[start..end]` is exactly the characters of `lit`.
pub fn range_is(v: &Vec<char>, start: usize, end: usize, lit: &str) -> (b: bool)
    requires
        start <= end <= v@.len(),
    ensures
        b == (v@.subrange(start as int, end as int) == lit@),
{
    let w = chars_of(lit);
    if end - start != w.len() {
        proof {
            if v@.subrange(start as int, end as int) == lit@ {
                assert(v@.subrange(start as int, end as int).len() == w@.len());
            }
        }
        return false;
    }
    let mut i: usize = 0;
    while i < w.len()
        invariant
            end - start == w@.len(),
            start <= end <= v@.len(),
            w@ == lit@,
            i <= w@.len(),
            forall|k: int| 0 <= k < i ==> v@[start + k] == w@[k],
        decreases w@.len() - i,
    {
        if v[start + i] != w[i] {
            proof {
                assert(v@.subrange(start as int, end as int)[i as int] == v@[start + i]);
            }
            return false;
        }
        i = i + 1;
    }
    assert(v@.subrange(start as int, end as int) =~= w@);
    true
}

/// First newline at or after `start`, or the end of the text.
pub fn line_end(v: &Vec<char>, start: usize) -> (e: usize)
    requires
        start <= v@.len(),
    ensures
        start <= e <= v@.len(),
        e < v@.len() ==> v@[e as int] == '\n',
        forall|i: int| start <= i < e ==> v@[i] != '\n',
        line_len(v@.skip(start as int)) == e - start,
{
    let mut e = start;
    while e < v.len() && v[e] != '\n'
        invariant
            start <= e <= v@.len(),
            forall|i: int| start <= i < e ==> v@[i] != '\n',
        decreases v@.len() - e,
    {
        e = e + 1;
    }
    proof {
        let s = v@.skip(start as int);
        assert forall|i: int| 0 <= i < e - start implies #[trigger] s[i] != '\n' by {
            assert(s[i] == v@[start + i]);
        }
        if e < v@.len() {
            assert(s[e - start] == v@[e as int]);
        }
        lemma_line_len_at(s, e - start);
    }
    e
}

/// The words of `v[start..end]`, as index ranges into `v`.
pub fn split_words(v: &Vec<char>, start: usize, end: usize) -> (toks: Vec<(usize, usize)>)
    requires
        start <= end <= v@.len(),
    ensures
        forall|i: int|
            0 <= i < toks@.len() ==> start <= (#[trigger] toks@[i]).0 < toks@[i].1 <= end,
        toks@.map_values(|r: (usize, usize)| v@.subrange(r.0 as int, r.1 as int)) == words(
            v@.subrange(start as int, end as int),
        ),
{
    let mut toks: Vec<(usize, usize)> = Vec::new();
    let mut i = start;
    while i < end
        invariant
            start <= i <= end <= v@.len(),
            forall|k: int|
                0 <= k < toks@.len() ==> start <= (#[trigger] toks@[k]).0 < toks@[k].1 <= i,
            words(v@.subrange(start as int, end as int)) == toks@.map_values(
                |r: (usize, usize)| v@.subrange(r.0 as int, r.1 as int),
            ) + words(v@.subrange(i as int, end as int)),
        decreases end - i,
    {
        let ghost rest = v@.subrange(i as int, end as int);
        if is_white(v[i]) {
            proof {
                assert(rest[0] == v@[i as int]);
                assert(rest.drop_first() =~= v@.subrange(i + 1, end as int));
            }
            i = i + 1;
        } else {
            let mut j = i;
            while j < end && !is_white(v[j])
                invariant
                    i <= j <= end <= v@.len(),
                    forall|k: int| i <= k < j ==> !is_space(#[trigger] v@[k]),
                decreases end - j,
            {
                j = j + 1;
            }
            proof {
                assert forall|k: int| 0 <= k < j - i implies !is_space(#[trigger] rest[k]) by {
                    assert(rest[k] == v@[i + k]);
                }
                if j < end {
                    assert(rest[j - i] == v@[j as int]);
                }
                lemma_word_len_at(rest, j - i);
                assert(rest[0] == v@[i as int]);
                assert(rest.take(j - i) =~= v@.subrange(i as int, j as int));
                assert(rest.skip(j - i) =~= v@.subrange(j as int, end as int));
            }
            let ghost old_toks = toks@;
            toks.push((i, j));
            proof {
                let f = |r: (usize, usize)| v@.subrange(r.0 as int, r.1 as int);
                assert(toks@.map_values(f) =~= old_toks.map_values(f).push(
                    v@.subrange(i as int, j as int),
                ));
                assert(words(rest) == seq![v@.subrange(i as int, j as int)] + words(
                    v@.subrange(j as int, end as int),
                ));
                assert(old_toks.map_values(f) + words(rest) =~= toks@.map_values(f) + words(
                    v@.subrange(j as int, end as int),
                ));
            }
            i = j;
        }
    }
    proof {
        let e = v@.subrange(end as int, end as int);
        assert(e.len() == 0);
        assert(words(e) =~= Seq::<Seq<char>>::empty());
        let f = |r: (usize, usize)| v@.subrange(r.0 as int, r.1 as int);
        assert(toks@.map_values(f) + words(e) =~= toks@.map_values(f));
    }
    toks
}

} // verus!
