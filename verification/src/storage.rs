//! File naming for stored measurements: turning a module name or a user label
//! into a safe file name fragment.
//!
//! Reading and writing the JSON itself is I/O and lives with the application.

use vstd::prelude::*;
use vstd::string::*;

verus! {

/// The accented letters of Czech, Slovak, German and Polish that a slug
/// keeps as plain ASCII: each as (capital, small letter, ASCII base).
pub open spec fn accented_letters() -> Seq<(char, char, char)> {
    seq![
        ('\u{c1}', '\u{e1}', 'a'),
        ('\u{c0}', '\u{e0}', 'a'),
        ('\u{c4}', '\u{e4}', 'a'),
        ('\u{c2}', '\u{e2}', 'a'),
        ('\u{10c}', '\u{10d}', 'c'),
        ('\u{c7}', '\u{e7}', 'c'),
        ('\u{10e}', '\u{10f}', 'd'),
        ('\u{c9}', '\u{e9}', 'e'),
        ('\u{11a}', '\u{11b}', 'e'),
        ('\u{c8}', '\u{e8}', 'e'),
        ('\u{cb}', '\u{eb}', 'e'),
        ('\u{cd}', '\u{ed}', 'i'),
        ('\u{cc}', '\u{ec}', 'i'),
        ('\u{cf}', '\u{ef}', 'i'),
        ('\u{147}', '\u{148}', 'n'),
        ('\u{d3}', '\u{f3}', 'o'),
        ('\u{d6}', '\u{f6}', 'o'),
        ('\u{d4}', '\u{f4}', 'o'),
        ('\u{158}', '\u{159}', 'r'),
        ('\u{160}', '\u{161}', 's'),
        ('\u{164}', '\u{165}', 't'),
        ('\u{da}', '\u{fa}', 'u'),
        ('\u{16e}', '\u{16f}', 'u'),
        ('\u{dc}', '\u{fc}', 'u'),
        ('\u{dd}', '\u{fd}', 'y'),
        ('\u{17d}', '\u{17e}', 'z'),
        ('\u{141}', '\u{142}', 'l'),
        ('\u{d1}', '\u{f1}', 'n'),
        ('\u{1e9e}', '\u{df}', 's'),
    ]
}

/// First character of the Unicode lowercase mapping of `c`.
pub uninterp spec fn lowercase_first(c: char) -> Option<char>;

/// Calls `char::to_lowercase` and takes the first character it yields. The
/// standard library documents that the mapping yields one or more
/// characters, and the character itself where it has no lowercase mapping;
/// within ASCII only `'A'..='Z'` have one, onto `'a'..='z'`. Of the accented
/// letters of `accented_letters`, the Unicode case table maps each capital
/// onto its small letter and has no mapping for the small letter. Beyond
/// that the mapping is the Unicode case table, named here by
/// `lowercase_first` and not spelled out.
#[verifier::external_body]
fn first_lowercase(c: char) -> (r: Option<char>)
    ensures
        r == lowercase_first(c),
        r is Some,
        (c as u32) < 128 ==> r == Some(if 'A' <= c && c <= 'Z' { ascii_lower(c) } else { c }),
        forall|i: int| 0 <= i < accented_letters().len() ==> (c == (#[trigger] accented_letters()[i]).0 ==> r == Some(accented_letters()[i].1)),
        forall|i: int| 0 <= i < accented_letters().len() ==> (c == (#[trigger] accented_letters()[i]).1 ==> r == Some(c)),
{
    c.to_lowercase().next()
}

/// Appends a character to a string (`String::push`).
#[verifier::external_body]
fn push_char(s: &mut String, c: char)
    ensures
        final(s)@ == old(s)@.push(c),
{
    s.push(c);
}

/// The accented letters common in Czech, Slovak, German and Polish, each
/// folded onto its ASCII base; `None` for anything else.
pub open spec fn fold_accented(c: char) -> Option<char> {
    if c == '\u{e1}' || c == '\u{e0}' || c == '\u{e4}' || c == '\u{e2}' {
        Some('a')
    } else if c == '\u{10d}' || c == '\u{e7}' {
        Some('c')
    } else if c == '\u{10f}' {
        Some('d')
    } else if c == '\u{e9}' || c == '\u{11b}' || c == '\u{e8}' || c == '\u{eb}' {
        Some('e')
    } else if c == '\u{ed}' || c == '\u{ec}' || c == '\u{ef}' {
        Some('i')
    } else if c == '\u{148}' || c == '\u{f1}' {
        Some('n')
    } else if c == '\u{f3}' || c == '\u{f6}' || c == '\u{f4}' {
        Some('o')
    } else if c == '\u{159}' {
        Some('r')
    } else if c == '\u{161}' || c == '\u{df}' {
        Some('s')
    } else if c == '\u{165}' {
        Some('t')
    } else if c == '\u{fa}' || c == '\u{16f}' || c == '\u{fc}' {
        Some('u')
    } else if c == '\u{fd}' {
        Some('y')
    } else if c == '\u{17e}' {
        Some('z')
    } else if c == '\u{142}' {
        Some('l')
    } else {
        None
    }
}

/// The fold table agrees with the list of accented letters, entry by entry
/// and in both directions.
proof fn lemma_fold_matches_letters()
    ensures
        forall|i: int| 0 <= i < accented_letters().len() ==>
            fold_accented((#[trigger] accented_letters()[i]).1) == Some(accented_letters()[i].2),
        forall|l: char| #[trigger] fold_accented(l) is Some ==> exists|i: int|
            0 <= i < accented_letters().len() && (#[trigger] accented_letters()[i]).1 == l
                && fold_accented(l) == Some(accented_letters()[i].2),
{
    let t = accented_letters();
    assert forall|i: int| 0 <= i < t.len() implies fold_accented((#[trigger] t[i]).1) == Some(t[i].2) by {
        if i == 0 {
    } else if i == 1 {
    } else if i == 2 {
    } else if i == 3 {
    } else if i == 4 {
    } else if i == 5 {
    } else if i == 6 {
    } else if i == 7 {
    } else if i == 8 {
    } else if i == 9 {
    } else if i == 10 {
    } else if i == 11 {
    } else if i == 12 {
    } else if i == 13 {
    } else if i == 14 {
    } else if i == 15 {
    } else if i == 16 {
    } else if i == 17 {
    } else if i == 18 {
    } else if i == 19 {
    } else if i == 20 {
    } else if i == 21 {
    } else if i == 22 {
    } else if i == 23 {
    } else if i == 24 {
    } else if i == 25 {
    } else if i == 26 {
    } else if i == 27 {
    } else if i == 28 {
        }
    }
    assert forall|l: char| #[trigger] fold_accented(l) is Some implies exists|i: int|
        0 <= i < t.len() && (#[trigger] t[i]).1 == l && fold_accented(l) == Some(t[i].2) by {
        assert(t[0] == t[0]);
        assert(t[1] == t[1]);
        assert(t[2] == t[2]);
        assert(t[3] == t[3]);
        assert(t[4] == t[4]);
        assert(t[5] == t[5]);
        assert(t[6] == t[6]);
        assert(t[7] == t[7]);
        assert(t[8] == t[8]);
        assert(t[9] == t[9]);
        assert(t[10] == t[10]);
        assert(t[11] == t[11]);
        assert(t[12] == t[12]);
        assert(t[13] == t[13]);
        assert(t[14] == t[14]);
        assert(t[15] == t[15]);
        assert(t[16] == t[16]);
        assert(t[17] == t[17]);
        assert(t[18] == t[18]);
        assert(t[19] == t[19]);
        assert(t[20] == t[20]);
        assert(t[21] == t[21]);
        assert(t[22] == t[22]);
        assert(t[23] == t[23]);
        assert(t[24] == t[24]);
        assert(t[25] == t[25]);
        assert(t[26] == t[26]);
        assert(t[27] == t[27]);
        assert(t[28] == t[28]);
    }
}

/// Every accented letter of the list folds to its ASCII base, whether it is
/// given as a capital or as a small letter, and nothing outside the list
/// folds: a character folds only when its lowercase form is in the list.
pub proof fn lemma_diacritic_base_follows_letters(c: char)
    ensures
        forall|i: int| 0 <= i < accented_letters().len() && lowercase_first(c) == Some((#[trigger] accented_letters()[i]).1)
            ==> diacritic_base(c) == Some(accented_letters()[i].2),
        diacritic_base(c) matches Some(b) ==> exists|i: int| 0 <= i < accented_letters().len()
            && lowercase_first(c) == Some((#[trigger] accented_letters()[i]).1) && b == accented_letters()[i].2,
{
    lemma_fold_matches_letters();
}

/// What `strip_diacritics` gives for `c`: its lowercase form, folded.
pub open spec fn diacritic_base(c: char) -> Option<char> {
    match lowercase_first(c) {
        Some(lower) => fold_accented(lower),
        None => None,
    }
}

/// Folds the accented letters common in Czech, Slovak, German and Polish onto
/// their ASCII base, in either case. Anything unknown gives `None`.
pub fn strip_diacritics(ch: char) -> (r: Option<char>)
    ensures
        r == diacritic_base(ch),
        (ch as u32) < 128 ==> r is None,
        forall|i: int| 0 <= i < accented_letters().len() && (ch == (#[trigger] accented_letters()[i]).0 || ch
            == accented_letters()[i].1) ==> r == Some(accented_letters()[i].2),
        r matches Some(b) ==> exists|i: int| 0 <= i < accented_letters().len()
            && lowercase_first(ch) == Some((#[trigger] accented_letters()[i]).1) && b == accented_letters()[i].2,
{
    let lower = match first_lowercase(ch) {
        Some(l) => l,
        None => return None,
    };
    proof {
        lemma_diacritic_base_follows_letters(ch);
    }
    if lower == '\u{e1}' || lower == '\u{e0}' || lower == '\u{e4}' || lower == '\u{e2}' {
        Some('a')
    } else if lower == '\u{10d}' || lower == '\u{e7}' {
        Some('c')
    } else if lower == '\u{10f}' {
        Some('d')
    } else if lower == '\u{e9}' || lower == '\u{11b}' || lower == '\u{e8}' || lower == '\u{eb}' {
        Some('e')
    } else if lower == '\u{ed}' || lower == '\u{ec}' || lower == '\u{ef}' {
        Some('i')
    } else if lower == '\u{148}' || lower == '\u{f1}' {
        Some('n')
    } else if lower == '\u{f3}' || lower == '\u{f6}' || lower == '\u{f4}' {
        Some('o')
    } else if lower == '\u{159}' {
        Some('r')
    } else if lower == '\u{161}' || lower == '\u{df}' {
        Some('s')
    } else if lower == '\u{165}' {
        Some('t')
    } else if lower == '\u{fa}' || lower == '\u{16f}' || lower == '\u{fc}' {
        Some('u')
    } else if lower == '\u{fd}' {
        Some('y')
    } else if lower == '\u{17e}' {
        Some('z')
    } else if lower == '\u{142}' {
        Some('l')
    } else {
        None
    }
}

/// `c` lowered by one ASCII case step (for `'A'..='Z'`).
pub open spec fn ascii_lower(c: char) -> char {
    ((c as u32) + 32) as char
}

/// What one character of the text becomes in a slug; `'-'` is a separator.
pub open spec fn slug_char(c: char) -> char {
    if ('a' <= c && c <= 'z') || ('0' <= c && c <= '9') {
        c
    } else if 'A' <= c && c <= 'Z' {
        ascii_lower(c)
    } else if (c as u32) < 128 {
        '-'
    } else {
        match diacritic_base(c) {
            Some(base) => base,
            None => '-',
        }
    }
}

/// The maximal runs of non-separator characters of `s`, in order.
pub open spec fn words(s: Seq<char>) -> Seq<Seq<char>>
    decreases s.len(),
{
    if s.len() == 0 {
        seq![]
    } else {
        let w = words(s.drop_last());
        let c = s.last();
        if c == '-' {
            w
        } else if s.len() >= 2 && s[s.len() - 2] != '-' {
            w.update(w.len() - 1, w.last().push(c))
        } else {
            w.push(seq![c])
        }
    }
}

/// Words joined with single dashes.
pub open spec fn join_dashed(ws: Seq<Seq<char>>) -> Seq<char>
    decreases ws.len(),
{
    if ws.len() == 0 {
        seq![]
    } else if ws.len() == 1 {
        ws[0]
    } else {
        join_dashed(ws.drop_last()) + seq!['-'] + ws.last()
    }
}

/// The slug of a text: every character mapped by `slug_char`, and the words
/// that remain joined with single dashes, none at either end.
pub open spec fn spec_slug(text: Seq<char>) -> Seq<char> {
    join_dashed(words(text.map_values(|c: char| slug_char(c))))
}

proof fn lemma_words_nonempty(s: Seq<char>)
    requires
        s.len() > 0,
        s.last() != '-',
    ensures
        words(s).len() > 0,
    decreases s.len(),
{
    if s.len() >= 2 && s[s.len() - 2] != '-' {
        lemma_words_nonempty(s.drop_last());
    }
}

proof fn lemma_join_extend_last(ws: Seq<Seq<char>>, c: char)
    requires
        ws.len() > 0,
    ensures
        join_dashed(ws.update(ws.len() - 1, ws.last().push(c))) == join_dashed(ws).push(c),
{
    let ws2 = ws.update(ws.len() - 1, ws.last().push(c));
    if ws.len() > 1 {
        assert(ws2.drop_last() =~= ws.drop_last());
        assert(join_dashed(ws2) =~= join_dashed(ws).push(c));
    }
}

proof fn lemma_join_push(ws: Seq<Seq<char>>, w: Seq<char>)
    ensures
        join_dashed(ws.push(w)) == if ws.len() == 0 { w } else { join_dashed(ws) + seq!['-'] + w },
{
    assert(ws.push(w).drop_last() =~= ws);
}

/// A character a slug may hold besides its separating dashes.
pub open spec fn is_slug_char(c: char) -> bool {
    ('a' <= c && c <= 'z') || ('0' <= c && c <= '9')
}

/// Safe as a file name fragment: lowercase ASCII letters and digits, words
/// separated by single dashes, no dash at either end.
pub open spec fn is_safe_fragment(r: Seq<char>) -> bool {
    &&& forall|i: int| 0 <= i < r.len() ==> is_slug_char(#[trigger] r[i]) || r[i] == '-'
    &&& r.len() > 0 ==> is_slug_char(r[0]) && is_slug_char(r.last())
    &&& forall|i: int| 0 <= i < r.len() - 1 && #[trigger] r[i] == '-' ==> is_slug_char(r[i + 1])
}

proof fn lemma_slug_char_is_safe(c: char)
    ensures
        is_slug_char(slug_char(c)) || slug_char(c) == '-',
{
    if 'A' <= c && c <= 'Z' && !(('a' <= c && c <= 'z') || ('0' <= c && c <= '9')) {
        let u = c as u32;
        assert(65 <= u <= 90);
        assert(((u + 32) as char) as u32 == u + 32);
    }
}

/// Every word of a text made of slug characters and dashes is a non-empty
/// run of slug characters.
proof fn lemma_words_are_slug_runs(s: Seq<char>)
    requires
        forall|i: int| 0 <= i < s.len() ==> is_slug_char(#[trigger] s[i]) || s[i] == '-',
    ensures
        forall|w: int| 0 <= w < words(s).len() ==> (#[trigger] words(s)[w]).len() > 0 && forall|i: int|
            0 <= i < words(s)[w].len() ==> is_slug_char(#[trigger] words(s)[w][i]),
    decreases s.len(),
{
    if s.len() > 0 {
        let t = s.drop_last();
        assert forall|i: int| 0 <= i < t.len() implies is_slug_char(#[trigger] t[i]) || t[i] == '-' by {
            assert(t[i] == s[i]);
        }
        lemma_words_are_slug_runs(t);
        let c = s.last();
        if c != '-' {
            assert(is_slug_char(c));
            if s.len() >= 2 && s[s.len() - 2] != '-' {
                assert(t.last() == s[s.len() - 2]);
                lemma_words_nonempty(t);
            }
        }
    }
}

/// Joining non-empty runs of slug characters with single dashes gives a
/// safe fragment.
proof fn lemma_join_is_safe(ws: Seq<Seq<char>>)
    requires
        forall|w: int| 0 <= w < ws.len() ==> (#[trigger] ws[w]).len() > 0 && forall|i: int|
            0 <= i < ws[w].len() ==> is_slug_char(#[trigger] ws[w][i]),
    ensures
        is_safe_fragment(join_dashed(ws)),
    decreases ws.len(),
{
    if ws.len() == 1 {
        assert(ws[0].len() > 0);
        assert(is_slug_char(ws[0][0]));
        assert(is_slug_char(ws[0][ws[0].len() - 1]));
    } else if ws.len() > 1 {
        let front = ws.drop_last();
        assert forall|w: int| 0 <= w < front.len() implies (#[trigger] front[w]).len() > 0 && forall|i: int|
            0 <= i < front[w].len() ==> is_slug_char(#[trigger] front[w][i]) by {
            assert(front[w] == ws[w]);
        }
        lemma_join_is_safe(front);
        let a = join_dashed(front);
        let last = ws.last();
        assert(ws[ws.len() - 1] == last);
        assert(last.len() > 0);
        let r = join_dashed(ws);
        assert(r == a + seq!['-'] + last);
        if a.len() == 0 {
            assert(join_dashed(front.drop_last()).len() >= 0);
            lemma_join_nonempty(front);
        }
        assert forall|i: int| 0 <= i < r.len() implies is_slug_char(#[trigger] r[i]) || r[i] == '-' by {
            if i < a.len() {
                assert(r[i] == a[i]);
            } else if i > a.len() {
                assert(r[i] == last[i - a.len() - 1]);
            }
        }
        assert(r[0] == a[0]);
        assert(r.last() == last[last.len() - 1]);
        assert forall|i: int| 0 <= i < r.len() - 1 && #[trigger] r[i] == '-' implies is_slug_char(r[i + 1]) by {
            if i < a.len() - 1 {
                assert(r[i] == a[i]);
                assert(r[i + 1] == a[i + 1]);
            } else if i == a.len() - 1 {
                assert(r[i] == a.last());
            } else if i == a.len() {
                assert(r[i + 1] == last[0]);
            } else {
                assert(r[i] == last[i - a.len() - 1]);
                assert(r[i + 1] == last[i + 1 - a.len() - 1]);
            }
        }
    }
}

proof fn lemma_join_nonempty(ws: Seq<Seq<char>>)
    requires
        ws.len() > 0,
        forall|w: int| 0 <= w < ws.len() ==> (#[trigger] ws[w]).len() > 0,
    ensures
        join_dashed(ws).len() > 0,
    decreases ws.len(),
{
    if ws.len() > 1 {
        assert(ws[ws.len() - 1].len() > 0);
    } else {
        assert(ws[0].len() > 0);
    }
}

/// A slug is always a safe file name fragment: lowercase ASCII letters and
/// digits in words separated by single dashes, with no dash at either end.
pub proof fn lemma_slug_is_safe(text: Seq<char>)
    ensures
        is_safe_fragment(spec_slug(text)),
{
    let mapped = text.map_values(|c: char| slug_char(c));
    assert forall|i: int| 0 <= i < mapped.len() implies is_slug_char(#[trigger] mapped[i]) || mapped[i] == '-' by {
        lemma_slug_char_is_safe(text[i]);
    }
    lemma_words_are_slug_runs(mapped);
    lemma_join_is_safe(words(mapped));
}

/// Words of a text with no dash at its start and no two dashes in a row,
/// joined again with single dashes, give the text back, less a trailing dash.
proof fn lemma_join_words_of_dashed(s: Seq<char>)
    requires
        s.len() > 0 ==> s[0] != '-',
        forall|i: int| 0 <= i < s.len() - 1 && #[trigger] s[i] == '-' ==> s[i + 1] != '-',
    ensures
        join_dashed(words(s)) == (if s.len() > 0 && s.last() == '-' { s.drop_last() } else { s }),
        (words(s).len() > 0) == (s.len() > 0),
    decreases s.len(),
{
    if s.len() > 0 {
        let t = s.drop_last();
        let c = s.last();
        assert forall|i: int| 0 <= i < t.len() - 1 && #[trigger] t[i] == '-' implies t[i + 1] != '-' by {
            assert(s[i] == t[i] && s[i + 1] == t[i + 1]);
        }
        if t.len() > 0 {
            assert(t[0] == s[0]);
        }
        lemma_join_words_of_dashed(t);
        if c == '-' {
            assert(s.len() >= 2);
            assert(s[s.len() - 2] != '-');
            assert(t.last() == s[s.len() - 2]);
        } else if s.len() >= 2 && s[s.len() - 2] != '-' {
            assert(t.last() == s[s.len() - 2]);
            lemma_join_extend_last(words(t), c);
            assert(t.push(c) =~= s);
        } else {
            lemma_join_push(words(t), seq![c]);
            if t.len() > 0 {
                assert(t.last() == s[s.len() - 2]);
                assert(t.drop_last() + seq!['-'] + seq![c] =~= s);
            } else {
                assert(seq![c] =~= s);
            }
        }
    }
}

/// A slug is its own slug: slugging twice changes nothing.
pub proof fn lemma_slug_idempotent(text: Seq<char>)
    ensures
        spec_slug(spec_slug(text)) == spec_slug(text),
{
    let r = spec_slug(text);
    lemma_slug_is_safe(text);
    let mapped = r.map_values(|c: char| slug_char(c));
    assert forall|i: int| 0 <= i < r.len() implies mapped[i] == r[i] by {
        assert(is_slug_char(r[i]) || r[i] == '-');
    }
    assert(mapped =~= r);
    assert forall|i: int| 0 <= i < r.len() - 1 && #[trigger] r[i] == '-' implies r[i + 1] != '-' by {
        assert(is_slug_char(r[i + 1]));
    }
    lemma_join_words_of_dashed(r);
}

/// Turns arbitrary text into a safe file name fragment: diacritics folded to
/// ASCII, everything else collapsed into single dashes.
pub fn slug(text: &str) -> (r: String)
    ensures
        r@ == spec_slug(text@),
{
    let n = text.unicode_len();
    let ghost mapped = text@.map_values(|c: char| slug_char(c));
    let mut out: Vec<char> = Vec::new();
    let mut last_dash = true;
    let mut i: usize = 0;
    while i < n
        invariant
            n == text@.len(),
            mapped == text@.map_values(|c: char| slug_char(c)),
            i <= n,
            last_dash == (i == 0 || mapped[i - 1] == '-'),
            out@ == join_dashed(words(mapped.subrange(0, i as int))) + (if i > 0 && mapped[i - 1] == '-' && words(mapped.subrange(0, i as int)).len() > 0 {
                seq!['-']
            } else {
                seq![]
            }),
        decreases n - i,
    {
        let ch = text.get_char(i);
        let m = if ('a' <= ch && ch <= 'z') || ('0' <= ch && ch <= '9') {
            ch
        } else if 'A' <= ch && ch <= 'Z' {
            ((ch as u8) + 32) as char
        } else {
            match strip_diacritics(ch) {
                Some(base) => base,
                None => '-',
            }
        };
        proof {
            let p = mapped.subrange(0, i as int);
            let q = mapped.subrange(0, i + 1);
            assert(m == mapped[i as int]);
            assert(q.drop_last() =~= p);
            assert(q.last() == m);
            if m != '-' {
                if i > 0 && mapped[i - 1] != '-' {
                    assert(q[q.len() - 2] == mapped[i - 1]);
                    assert(p.last() == mapped[i - 1]);
                    lemma_words_nonempty(p);
                    lemma_join_extend_last(words(p), m);
                } else {
                    if i > 0 {
                        assert(q[q.len() - 2] == mapped[i - 1]);
                    }
                    lemma_join_push(words(p), seq![m]);
                }
            } else if i > 0 && mapped[i - 1] != '-' {
                assert(p.last() == mapped[i - 1]);
                lemma_words_nonempty(p);
            }
        }
        if m == '-' {
            if !last_dash {
                out.push(m);
                last_dash = true;
            }
        } else {
            out.push(m);
            last_dash = false;
        }
        i += 1;
    }
    proof {
        assert(mapped.subrange(0, n as int) =~= mapped);
    }
    if last_dash && out.len() > 0 {
        out.pop();
    }
    string_from_chars(&out)
}

/// The characters of `v`, as a string.
fn string_from_chars(v: &Vec<char>) -> (r: String)
    ensures
        r@ == v@,
{
    let mut r = String::new();
    let mut k: usize = 0;
    while k < v.len()
        invariant
            k <= v.len(),
            r@ == v@.subrange(0, k as int),
        decreases v.len() - k,
    {
        push_char(&mut r, v[k]);
        k += 1;
        assert(r@ =~= v@.subrange(0, k as int));
    }
    assert(v@.subrange(0, v.len() as int) =~= v@);
    r
}

/// Appends the characters of `s` to `out`.
fn push_all(out: &mut Vec<char>, s: &str)
    ensures
        final(out)@ == old(out)@ + s@,
{
    let n = s.unicode_len();
    let mut k: usize = 0;
    while k < n
        invariant
            n == s@.len(),
            k <= n,
            out@ == old(out)@ + s@.subrange(0, k as int),
        decreases n - k,
    {
        out.push(s.get_char(k));
        k += 1;
        assert(out@ =~= old(out)@ + s@.subrange(0, k as int));
    }
    assert(s@.subrange(0, n as int) =~= s@);
}

/// The name a measurement is stored under, without its extension: the time
/// stamp and the module's slug, joined by `_`.
pub open spec fn stem_without_label(stamp: Seq<char>, module: Seq<char>) -> Seq<char> {
    stamp + seq!['_'] + spec_slug(module)
}

/// The stored name with a label: `_` and the label's slug are added, unless
/// that slug is empty.
pub open spec fn stem_with_label(stamp: Seq<char>, module: Seq<char>, label: Seq<char>) -> Seq<char> {
    if spec_slug(label).len() > 0 {
        stem_without_label(stamp, module) + seq!['_'] + spec_slug(label)
    } else {
        stem_without_label(stamp, module)
    }
}

/// The file name stem `<stamp>_<module>[_<label>]` of a stored measurement,
/// with module and label reduced to slugs; a label whose slug is empty adds
/// nothing.
pub fn file_stem(stamp: &str, module: &str, label: Option<&str>) -> (r: String)
    ensures
        r@ == (match label {
            Some(l) => stem_with_label(stamp@, module@, l@),
            None => stem_without_label(stamp@, module@),
        }),
{
    let mut out: Vec<char> = Vec::new();
    push_all(&mut out, stamp);
    out.push('_');
    let m = slug(module);
    push_all(&mut out, m.as_str());
    assert(out@ =~= stem_without_label(stamp@, module@));
    match label {
        Some(l) => {
            let s = slug(l);
            if s.unicode_len() > 0 {
                out.push('_');
                push_all(&mut out, s.as_str());
                assert(out@ =~= stem_with_label(stamp@, module@, l@));
            }
        },
        None => {},
    }
    string_from_chars(&out)
}

} // verus!
