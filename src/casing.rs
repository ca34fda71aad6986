//! Turning a project name into a cased, joined sequence of words.

use vstd::prelude::*;
use vstd::string::*;

verus! {

/// How the letters of one word are cased.
#[derive(Clone, Copy, Debug, PartialEq, Eq, Structural)]
pub enum WordCasing {
    Preserve,
    Upper,
    Lower,
    Title,
}

/// What `str::to_lowercase` makes of a string.
pub uninterp spec fn lower_of(s: Seq<char>) -> Seq<char>;

/// What `str::to_uppercase` makes of a string.
pub uninterp spec fn upper_of(s: Seq<char>) -> Seq<char>;

/// Relies on `str::to_lowercase`: the lowercase mapping of the string, which
/// depends on its characters alone.
#[verifier::external_body]
pub(crate) fn lowercase(s: &str) -> (r: String)
    ensures
        r@ == lower_of(s@),
{
    s.to_lowercase()
}

/// Relies on `str::to_uppercase`: the uppercase mapping of the string, which
/// depends on its characters alone.
#[verifier::external_body]
fn uppercase(s: &str) -> (r: String)
    ensures
        r@ == upper_of(s@),
{
    s.to_uppercase()
}

/// The characters that separate words: those of `u8::is_ascii_whitespace`.
pub open spec fn is_word_separator(c: char) -> bool {
    c == ' ' || c == '\t' || c == '\n' || c == '\x0C' || c == '\r'
}

/// The index at which the word that covers index `i` ends.
pub open spec fn word_end(s: Seq<char>, i: int) -> int
    decreases s.len() - i,
{
    if i < 0 || i >= s.len() || is_word_separator(s[i]) {
        i
    } else {
        word_end(s, i + 1)
    }
}

proof fn lemma_word_end_bounds(s: Seq<char>, i: int)
    requires
        0 <= i <= s.len(),
    ensures
        i <= word_end(s, i) <= s.len(),
        i < s.len() && !is_word_separator(s[i]) ==> i < word_end(s, i),
        word_end(s, i) < s.len() ==> is_word_separator(s[word_end(s, i)]),
        forall|k: int| i <= k < word_end(s, i) ==> !is_word_separator(#[trigger] s[k]),
    decreases s.len() - i,
{
    if i < s.len() && !is_word_separator(s[i]) {
        lemma_word_end_bounds(s, i + 1);
    }
}

#[via_fn]
proof fn words_from_decreases(s: Seq<char>, i: int) {
    if 0 <= i < s.len() && !is_word_separator(s[i]) {
        lemma_word_end_bounds(s, i);
    }
}

/// The maximal runs of non-separator characters of `s` from index `i` on.
pub open spec fn words_from(s: Seq<char>, i: int) -> Seq<Seq<char>>
    decreases s.len() - i via words_from_decreases
{
    if i < 0 || i >= s.len() {
        seq![]
    } else if is_word_separator(s[i]) {
        words_from(s, i + 1)
    } else {
        seq![s.subrange(i, word_end(s, i))] + words_from(s, word_end(s, i))
    }
}

/// The words of `s`, in order: what `str::split_ascii_whitespace` yields.
pub open spec fn words(s: Seq<char>) -> Seq<Seq<char>> {
    words_from(s, 0)
}

/// A word in title case: its first character upper cased, the rest lower cased.
pub open spec fn title_of(w: Seq<char>) -> Seq<char> {
    let l = lower_of(w);
    if l.len() == 0 {
        l
    } else {
        upper_of(seq![l[0]]) + l.subrange(1, l.len() as int)
    }
}

/// One word under one casing.
pub open spec fn cased(w: Seq<char>, c: WordCasing) -> Seq<char> {
    match c {
        WordCasing::Preserve => w,
        WordCasing::Upper => upper_of(w),
        WordCasing::Lower => lower_of(w),
        WordCasing::Title => title_of(w),
    }
}

/// The casing of the word at index `i`.
pub open spec fn casing_at(i: int, word_casing: WordCasing, first_word_casing: Option<WordCasing>) -> WordCasing {
    if i == 0 && first_word_casing is Some {
        first_word_casing->0
    } else {
        word_casing
    }
}

/// Each word under the casing of its position.
pub open spec fn cased_words(
    ws: Seq<Seq<char>>,
    word_casing: WordCasing,
    first_word_casing: Option<WordCasing>,
) -> Seq<Seq<char>> {
    Seq::new(ws.len(), |i: int| cased(ws[i], casing_at(i, word_casing, first_word_casing)))
}

/// The words with `sep` between each two neighbours.
pub open spec fn join(ws: Seq<Seq<char>>, sep: Seq<char>) -> Seq<char>
    decreases ws.len(),
{
    if ws.len() == 0 {
        seq![]
    } else if ws.len() == 1 {
        ws[0]
    } else {
        join(ws.drop_last(), sep) + sep + ws.last()
    }
}

/// The name `s` split into words, each cased, joined by `joiner`.
pub open spec fn to_casing(
    s: Seq<char>,
    joiner: Seq<char>,
    word_casing: WordCasing,
    first_word_casing: Option<WordCasing>,
) -> Seq<char> {
    join(cased_words(words(s), word_casing, first_word_casing), joiner)
}

fn is_separator_char(c: char) -> (r: bool)
    ensures
        r == is_word_separator(c),
{
    c == ' ' || c == '\t' || c == '\n' || c == '\x0C' || c == '\r'
}

/// One word under one casing.
pub fn apply_casing(word: &str, casing: WordCasing) -> (r: String)
    ensures
        r@ == cased(word@, casing),
{
    match casing {
        WordCasing::Preserve => word.to_owned(),
        WordCasing::Upper => uppercase(word),
        WordCasing::Lower => lowercase(word),
        WordCasing::Title => {
            let lower = lowercase(word);
            let n = lower.as_str().unicode_len();
            if n == 0 {
                lower
            } else {
                let mut title = uppercase(lower.as_str().substring_char(0, 1));
                title.append(lower.as_str().substring_char(1, n));
                proof {
                    assert(lower@.subrange(0, 1) =~= seq![lower@[0]]);
                }
                title
            }
        },
    }
}

/// The words of `input`: the maximal runs of characters other than ASCII
/// whitespace, in order.
pub fn split_words(input: &str) -> (r: Vec<String>)
    ensures
        r.deep_view() == words(input@),
{
    let n = input.unicode_len();
    let ghost s = input@;
    let mut out: Vec<String> = Vec::new();
    let mut i: usize = 0;
    proof {
        assert(out.deep_view() =~= seq![]);
    }
    while i < n
        invariant
            n == s.len(),
            s == input@,
            i <= n,
            words(s) == out.deep_view() + words_from(s, i as int),
        decreases n - i,
    {
        if is_separator_char(input.get_char(i)) {
            i = i + 1;
        } else {
            let start = i;
            let mut j: usize = i + 1;
            while j < n && !is_separator_char(input.get_char(j))
                invariant
                    s == input@,
                    n == s.len(),
                    start < j <= n,
                    word_end(s, start as int) == word_end(s, j as int),
                decreases n - j,
            {
                j = j + 1;
            }
            proof {
                lemma_word_end_bounds(s, start as int);
                lemma_word_end_bounds(s, j as int);
            }
            let ghost before = out.deep_view();
            out.push(String::from_str(input.substring_char(start, j)));
            proof {
                let w = s.subrange(start as int, j as int);
                assert(words_from(s, start as int) == seq![w] + words_from(s, j as int));
                assert(out.deep_view() =~= before.push(w));
                assert(words(s) =~= out.deep_view() + words_from(s, j as int));
            }
            i = j;
        }
    }
    proof {
        assert(words(s) =~= out.deep_view());
    }
    out
}

/// The words with `joiner` between each two neighbours.
pub fn join_words(ws: &Vec<String>, joiner: &str) -> (r: String)
    ensures
        r@ == join(ws.deep_view(), joiner@),
{
    let ghost parts = ws.deep_view();
    let mut out = String::new();
    let mut i: usize = 0;
    while i < ws.len()
        invariant
            parts == ws.deep_view(),
            i <= parts.len(),
            out@ == join(parts.subrange(0, i as int), joiner@),
        decreases parts.len() - i,
    {
        if i > 0 {
            out.append(joiner);
        }
        out.append(ws[i].as_str());
        proof {
            let p = parts.subrange(0, i + 1);
            assert(p.drop_last() =~= parts.subrange(0, i as int));
            if i == 0 {
                assert(out@ =~= p[0]);
            }
        }
        i = i + 1;
    }
    proof {
        assert(parts.subrange(0, i as int) =~= parts);
    }
    out
}

/// Splits `input` into words at ASCII whitespace, cases each word (the first
/// one by `first_word_casing` where given, the others by `word_casing`) and
/// joins them with `joiner`. An input without words gives the empty string.
pub fn string_to_casing(
    input: &str,
    joiner: &str,
    word_casing: WordCasing,
    first_word_casing: Option<WordCasing>,
) -> (r: String)
    ensures
        r@ == to_casing(input@, joiner@, word_casing, first_word_casing),
{
    let ws = split_words(input);
    let ghost target = cased_words(ws.deep_view(), word_casing, first_word_casing);
    let mut cased: Vec<String> = Vec::new();
    let mut i: usize = 0;
    while i < ws.len()
        invariant
            i <= ws@.len(),
            target == cased_words(ws.deep_view(), word_casing, first_word_casing),
            cased.deep_view() =~= target.subrange(0, i as int),
        decreases ws@.len() - i,
    {
        let casing = if i == 0 && first_word_casing.is_some() {
            first_word_casing.unwrap()
        } else {
            word_casing
        };
        let w = apply_casing(ws[i].as_str(), casing);
        let ghost before = cased.deep_view();
        cased.push(w);
        proof {
            assert(cased.deep_view() =~= before.push(w@));
        }
        i = i + 1;
    }
    proof {
        assert(target.subrange(0, i as int) =~= target);
    }
    join_words(&cased, joiner)
}

/// With every word preserved and a single space as joiner, the result is the
/// input's words rejoined by single spaces: runs of whitespace collapse to
/// one space and leading or trailing whitespace goes.
pub proof fn lemma_preserve_rejoins_words(s: Seq<char>)
    ensures
        to_casing(s, " "@, WordCasing::Preserve, None) == join(words(s), " "@),
{
    assert(cased_words(words(s), WordCasing::Preserve, None) =~= words(s));
}

proof fn lemma_word_end_shift(s: Seq<char>, i: int, j: int)
    requires
        0 <= i <= j <= s.len(),
    ensures
        word_end(s, j) == i + word_end(s.subrange(i, s.len() as int), j - i),
    decreases s.len() - j,
{
    let t = s.subrange(i, s.len() as int);
    if j < s.len() {
        assert(t[j - i] == s[j]);
        if !is_word_separator(s[j]) {
            lemma_word_end_shift(s, i, j + 1);
        }
    }
}

proof fn lemma_words_from_shift(s: Seq<char>, i: int)
    requires
        0 <= i <= s.len(),
    ensures
        words_from(s, i) == words(s.subrange(i, s.len() as int)),
    decreases s.len() - i,
{
    let t = s.subrange(i, s.len() as int);
    if i < s.len() {
        assert(t[0] == s[i]);
        if is_word_separator(s[i]) {
            lemma_words_from_shift(s, i + 1);
            lemma_words_from_shift(t, 1);
            assert(t.subrange(1, t.len() as int) =~= s.subrange(i + 1, s.len() as int));
        } else {
            let e = word_end(s, i);
            lemma_word_end_bounds(s, i);
            lemma_word_end_shift(s, i, i);
            assert(word_end(t, 0) == e - i);
            lemma_words_from_shift(s, e);
            lemma_words_from_shift(t, e - i);
            assert(t.subrange(e - i, t.len() as int) =~= s.subrange(e, s.len() as int));
            assert(t.subrange(0, e - i) =~= s.subrange(i, e));
        }
    } else {
        assert(t.len() == 0);
    }
}

/// Whether `w` is a word: non-empty, without separators.
pub open spec fn is_word(w: Seq<char>) -> bool {
    w.len() > 0 && forall|k: int| 0 <= k < w.len() ==> !is_word_separator(#[trigger] w[k])
}

proof fn lemma_word_end_in_word(s: Seq<char>, w: Seq<char>, j: int)
    requires
        is_word(w),
        w.len() <= s.len(),
        s.subrange(0, w.len() as int) == w,
        w.len() == s.len() || is_word_separator(s[w.len() as int]),
        0 <= j <= w.len(),
    ensures
        word_end(s, j) == w.len(),
    decreases w.len() - j,
{
    if j < w.len() {
        assert(s[j] == w[j]);
        lemma_word_end_in_word(s, w, j + 1);
    }
}

proof fn lemma_words_of_word_then(w: Seq<char>, rest: Seq<char>)
    requires
        is_word(w),
        rest.len() == 0 || is_word_separator(rest[0]),
    ensures
        words(w + rest) == seq![w] + words(rest),
{
    let s = w + rest;
    assert(s.subrange(0, w.len() as int) =~= w);
    lemma_word_end_in_word(s, w, 0);
    assert(s[0] == w[0]);
    lemma_words_from_shift(s, w.len() as int);
    assert(s.subrange(w.len() as int, s.len() as int) =~= rest);
}

proof fn lemma_words_after_space(y: Seq<char>)
    ensures
        words(" "@ + y) == words(y),
{
    reveal_strlit(" ");
    let s = " "@ + y;
    assert(s[0] == ' ');
    lemma_words_from_shift(s, 1);
    assert(s.subrange(1, s.len() as int) =~= y);
}

proof fn lemma_join_front(ws: Seq<Seq<char>>, sep: Seq<char>)
    requires
        ws.len() >= 2,
    ensures
        join(ws, sep) == ws[0] + (sep + join(ws.drop_first(), sep)),
    decreases ws.len(),
{
    let init = ws.drop_last();
    let tail = ws.drop_first();
    if ws.len() == 2 {
        assert(init.len() == 1);
        assert(tail.len() == 1);
        assert(join(init, sep) == ws[0]);
        assert(join(tail, sep) == ws[1]);
        assert(ws[0] + sep + ws[1] =~= ws[0] + (sep + ws[1]));
    } else {
        lemma_join_front(init, sep);
        assert(init.drop_first() =~= tail.drop_last());
        assert(tail.last() == ws.last());
        assert(join(ws, sep) =~= ws[0] + (sep + join(tail, sep)));
    }
}

proof fn lemma_words_of_join(ws: Seq<Seq<char>>)
    requires
        forall|k: int| 0 <= k < ws.len() ==> is_word(#[trigger] ws[k]),
    ensures
        words(join(ws, " "@)) == ws,
    decreases ws.len(),
{
    if ws.len() == 0 {
        assert(words_from(seq![], 0) == Seq::<Seq<char>>::empty());
    } else if ws.len() == 1 {
        lemma_words_of_word_then(ws[0], seq![]);
        assert(ws[0] + seq![] =~= ws[0]);
        assert(words_from(seq![], 0) == Seq::<Seq<char>>::empty());
        assert(seq![ws[0]] + Seq::<Seq<char>>::empty() =~= ws);
    } else {
        let tail = ws.drop_first();
        lemma_join_front(ws, " "@);
        reveal_strlit(" ");
        let rest = " "@ + join(tail, " "@);
        assert(rest[0] == ' ');
        lemma_words_of_word_then(ws[0], rest);
        lemma_words_after_space(join(tail, " "@));
        assert forall|k: int| 0 <= k < tail.len() implies is_word(#[trigger] tail[k]) by {
            assert(tail[k] == ws[k + 1]);
        }
        lemma_words_of_join(tail);
        assert(seq![ws[0]] + tail =~= ws);
    }
}

proof fn lemma_words_are_words(s: Seq<char>, i: int)
    requires
        0 <= i <= s.len(),
    ensures
        forall|k: int| 0 <= k < words_from(s, i).len() ==> is_word(#[trigger] words_from(s, i)[k]),
    decreases s.len() - i,
{
    if i < s.len() {
        if is_word_separator(s[i]) {
            lemma_words_are_words(s, i + 1);
            assert(words_from(s, i) == words_from(s, i + 1));
        } else {
            let e = word_end(s, i);
            lemma_word_end_bounds(s, i);
            lemma_words_are_words(s, e);
            let w = s.subrange(i, e);
            assert(is_word(w)) by {
                assert forall|k: int| 0 <= k < w.len() implies !is_word_separator(#[trigger] w[k]) by {
                    assert(w[k] == s[i + k]);
                }
            }
            let ws = words_from(s, i);
            assert(ws == seq![w] + words_from(s, e));
            assert forall|k: int| 0 <= k < ws.len() implies is_word(#[trigger] ws[k]) by {
                if k > 0 {
                    assert(ws[k] == words_from(s, e)[k - 1]);
                }
            }
        }
    } else {
        assert(words_from(s, i).len() == 0);
    }
}

/// Normalizing whitespace is idempotent: preserving the words of an
/// already normalized name and joining them by single spaces again changes
/// nothing.
pub proof fn lemma_preserve_normalization_idempotent(s: Seq<char>)
    ensures
        to_casing(to_casing(s, " "@, WordCasing::Preserve, None), " "@, WordCasing::Preserve, None)
            == to_casing(s, " "@, WordCasing::Preserve, None),
{
    lemma_preserve_rejoins_words(s);
    let once = to_casing(s, " "@, WordCasing::Preserve, None);
    lemma_preserve_rejoins_words(once);
    lemma_words_are_words(s, 0);
    lemma_words_of_join(words(s));
}

} // verus!
