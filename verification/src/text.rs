//! Character-level helpers shared by the parsing pipeline: whitespace
//! classification, ASCII case folding, trimming, and whitespace-delimited
//! word splitting.

use vstd::prelude::*;

verus! {

/// The characters with Unicode's `White_Space` property: exactly the
/// separators recognized by `str::split_whitespace` and `str::trim`.
pub open spec fn is_ws(c: char) -> bool {
    c == ' ' || c == '\t' || c == '\n' || c == '\r' || c == '\u{b}' || c == '\u{c}'
        || c == '\u{85}' || c == '\u{a0}' || c == '\u{1680}'
        || ('\u{2000}' <= c && c <= '\u{200a}')
        || c == '\u{2028}' || c == '\u{2029}' || c == '\u{202f}' || c == '\u{205f}'
        || c == '\u{3000}'
}

pub fn is_ws_char(c: char) -> (r: bool)
    ensures
        r == is_ws(c),
{
    c == ' ' || c == '\t' || c == '\n' || c == '\r' || c == '\u{b}' || c == '\u{c}'
        || c == '\u{85}' || c == '\u{a0}' || c == '\u{1680}'
        || ('\u{2000}' <= c && c <= '\u{200a}')
        || c == '\u{2028}' || c == '\u{2029}' || c == '\u{202f}' || c == '\u{205f}'
        || c == '\u{3000}'
}

/// ASCII lower-casing of a single character; everything outside `A..Z`
/// is left as it is.
pub open spec fn lower_char(c: char) -> char {
    if 'A' <= c && c <= 'Z' {
        ((c as u8) + 0x20) as char
    } else {
        c
    }
}

pub open spec fn lower_seq(s: Seq<char>) -> Seq<char> {
    s.map_values(|c: char| lower_char(c))
}

fn lower_char_exec(c: char) -> (r: char)
    ensures
        r == lower_char(c),
{
    if 'A' <= c && c <= 'Z' {
        (((c as u8) + 0x20) as char)
    } else {
        c
    }
}

pub fn lower_chars(s: &Vec<char>) -> (r: Vec<char>)
    ensures
        r@ == lower_seq(s@),
{
    let mut out: Vec<char> = Vec::new();
    let mut i: usize = 0;
    while i < s.len()
        invariant
            i <= s.len(),
            out@ == lower_seq(s@.take(i as int)),
        decreases s.len() - i,
    {
        out.push(lower_char_exec(s[i]));
        i = i + 1;
        proof {
            assert(s@.take(i as int).map_values(|c: char| lower_char(c))
                =~= s@.take(i - 1).map_values(|c: char| lower_char(c)).push(
                lower_char(s@[i - 1])));
        }
    }
    proof {
        assert(s@.take(s@.len() as int) =~= s@);
    }
    out
}

/// Relies on `str::chars`: the characters of a string slice, in order.
#[verifier::external_body]
pub(crate) fn str_chars(s: &str) -> (r: Vec<char>)
    ensures
        r@ == s@,
{
    s.chars().collect()
}

/// Relies on `String: FromIterator<char>`: collecting characters builds
/// the string with exactly those characters.
#[verifier::external_body]
pub(crate) fn chars_to_string(v: &Vec<char>) -> (r: String)
    ensures
        r@ == v@,
{
    v.iter().collect()
}

/// Relies on `str: PartialEq`: string slices compare equal exactly when
/// their character sequences do.
#[verifier::external_body]
pub(crate) fn str_eq(a: &str, b: &str) -> (r: bool)
    ensures
        r == (a@ == b@),
{
    a == b
}

/// The input without its leading run of whitespace.
pub open spec fn drop_ws_front(s: Seq<char>) -> Seq<char>
    decreases s.len(),
{
    if s.len() == 0 {
        s
    } else if is_ws(s[0]) {
        drop_ws_front(s.skip(1))
    } else {
        s
    }
}

/// The input without its trailing run of whitespace.
pub open spec fn drop_ws_back(s: Seq<char>) -> Seq<char>
    decreases s.len(),
{
    if s.len() == 0 {
        s
    } else if is_ws(s[s.len() - 1]) {
        drop_ws_back(s.take(s.len() - 1))
    } else {
        s
    }
}

/// What `str::trim` returns: the input without leading and trailing
/// whitespace.
pub open spec fn trim_spec(s: Seq<char>) -> Seq<char> {
    drop_ws_back(drop_ws_front(s))
}

proof fn lemma_drop_ws_front_skip(s: Seq<char>, i: int)
    requires
        0 <= i <= s.len(),
        forall|k: int| 0 <= k < i ==> is_ws(s[k]),
        i == s.len() || !is_ws(s[i]),
    ensures
        drop_ws_front(s) == s.skip(i),
    decreases i,
{
    if i == 0 {
        assert(s.skip(0) =~= s);
    } else {
        assert(is_ws(s[0]));
        lemma_drop_ws_front_skip(s.skip(1), i - 1);
        assert(s.skip(1).skip(i - 1) =~= s.skip(i));
    }
}

proof fn lemma_drop_ws_back_take(s: Seq<char>, j: int)
    requires
        0 <= j <= s.len(),
        forall|k: int| j <= k < s.len() ==> is_ws(s[k]),
        j == 0 || !is_ws(s[j - 1]),
    ensures
        drop_ws_back(s) == s.take(j),
    decreases s.len() - j,
{
    if j == s.len() {
        assert(s.take(j) =~= s);
    } else {
        assert(is_ws(s[s.len() - 1]));
        lemma_drop_ws_back_take(s.take(s.len() - 1), j);
        assert(s.take(s.len() - 1).take(j) =~= s.take(j));
    }
}

/// `str::trim`, computed over the character vector.
pub fn trim_chars(s: &Vec<char>) -> (r: Vec<char>)
    ensures
        r@ == trim_spec(s@),
{
    let mut i: usize = 0;
    while i < s.len() && is_ws_char(s[i])
        invariant
            i <= s.len(),
            forall|k: int| 0 <= k < i ==> is_ws(s@[k]),
        decreases s.len() - i,
    {
        i = i + 1;
    }
    proof {
        lemma_drop_ws_front_skip(s@, i as int);
    }
    let ghost mid: Seq<char> = s@.skip(i as int);
    let mut j: usize = s.len();
    while j > i && is_ws_char(s[j - 1])
        invariant
            i <= j <= s.len(),
            forall|k: int| j <= k < s.len() ==> is_ws(s@[k]),
        decreases j,
    {
        j = j - 1;
    }
    proof {
        assert(forall|k: int| 0 <= k < mid.len() ==> mid[k] == s@[k + i]);
        lemma_drop_ws_back_take(mid, j - i);
    }
    let mut out: Vec<char> = Vec::new();
    let mut k: usize = i;
    while k < j
        invariant
            i <= k <= j <= s.len(),
            out@ == s@.subrange(i as int, k as int),
        decreases j - k,
    {
        out.push(s[k]);
        k = k + 1;
        proof {
            assert(s@.subrange(i as int, k as int)
                =~= s@.subrange(i as int, k - 1).push(s@[k - 1]));
        }
    }
    proof {
        assert(out@ =~= mid.take(j - i));
    }
    out
}

/// Index of the first whitespace character at or after `i` (or the end).
pub open spec fn word_end(s: Seq<char>, i: int) -> int
    decreases s.len() - i,
{
    if i < 0 || i >= s.len() || is_ws(s[i]) {
        i
    } else {
        word_end(s, i + 1)
    }
}

proof fn lemma_word_end_bounds(s: Seq<char>, i: int)
    requires
        0 <= i <= s.len(),
    ensures
        i <= word_end(s, i) <= s.len(),
    decreases s.len() - i,
{
    if !(i >= s.len() || is_ws(s[i])) {
        lemma_word_end_bounds(s, i + 1);
    }
}

/// The whitespace-delimited words of `s` from position `i` on: what
/// `str::split_whitespace` yields.
pub open spec fn split_from(s: Seq<char>, i: int) -> Seq<Seq<char>>
    decreases s.len() - i,
{
    if i < 0 || i >= s.len() {
        Seq::empty()
    } else if is_ws(s[i]) {
        split_from(s, i + 1)
    } else {
        let e = word_end(s, i + 1);
        if e <= i || e > s.len() {
            Seq::empty()
        } else {
            seq![s.subrange(i, e)] + split_from(s, e)
        }
    }
}

pub open spec fn split_ws(s: Seq<char>) -> Seq<Seq<char>> {
    split_from(s, 0)
}

/// The number of whitespace-separated words in `s`.
pub open spec fn word_count_of(s: Seq<char>) -> nat {
    split_ws(s).len()
}

proof fn lemma_word_end_unfold(s: Seq<char>, i: int)
    requires
        0 <= i < s.len(),
        !is_ws(s[i]),
    ensures
        word_end(s, i) == word_end(s, i + 1),
        word_end(s, i + 1) > i,
{
    lemma_word_end_bounds(s, i + 1);
}

/// The words of `s`, each as an owned string: `str::split_whitespace`
/// collected.
pub fn split_words(s: &Vec<char>) -> (r: Vec<String>)
    ensures
        r@.map_values(|w: String| w@) == split_ws(s@),
{
    let ghost total: Seq<Seq<char>> = split_ws(s@);
    let mut out: Vec<String> = Vec::new();
    let mut i: usize = 0;
    while i < s.len()
        invariant
            i <= s.len(),
            out@.map_values(|w: String| w@) + split_from(s@, i as int) == total,
        decreases s.len() - i,
    {
        if is_ws_char(s[i]) {
            i = i + 1;
        } else {
            let start = i;
            let mut word: Vec<char> = Vec::new();
            proof {
                lemma_word_end_unfold(s@, i as int);
            }
            let ghost e = word_end(s@, i as int);
            while i < s.len() && !is_ws_char(s[i])
                invariant
                    start <= i <= s.len(),
                    e == word_end(s@, i as int),
                    e == word_end(s@, start as int),
                    word@ == s@.subrange(start as int, i as int),
                decreases s.len() - i,
            {
                proof {
                    lemma_word_end_unfold(s@, i as int);
                }
                word.push(s[i]);
                i = i + 1;
                proof {
                    assert(s@.subrange(start as int, i as int)
                        =~= s@.subrange(start as int, i - 1).push(s@[i - 1]));
                }
            }
            proof {
                assert(e == i as int);
                lemma_word_end_unfold(s@, start as int);
                assert(split_from(s@, start as int)
                    == seq![s@.subrange(start as int, e)] + split_from(s@, e));
            }
            let w = chars_to_string(&word);
            out.push(w);
            proof {
                assert(out@.map_values(|w: String| w@)
                    =~= out@.drop_last().map_values(|w: String| w@).push(word@));
            }
        }
    }
    proof {
        assert(out@.map_values(|w: String| w@) + Seq::<Seq<char>>::empty()
            =~= out@.map_values(|w: String| w@));
    }
    out
}

/// The number of whitespace-separated words, without building them.
pub fn count_words(s: &Vec<char>) -> (r: usize)
    ensures
        r == word_count_of(s@),
{
    let ghost total: Seq<Seq<char>> = split_ws(s@);
    let mut count: usize = 0;
    let mut i: usize = 0;
    while i < s.len()
        invariant
            i <= s.len(),
            count <= i,
            count + split_from(s@, i as int).len() == total.len(),
        decreases s.len() - i,
    {
        if is_ws_char(s[i]) {
            i = i + 1;
        } else {
            let ghost start = i as int;
            proof {
                lemma_word_end_unfold(s@, i as int);
            }
            let ghost e = word_end(s@, i as int);
            while i < s.len() && !is_ws_char(s[i])
                invariant
                    start <= i as int <= s.len(),
                    e == word_end(s@, i as int),
                    e == word_end(s@, start),
                decreases s.len() - i,
            {
                proof {
                    lemma_word_end_unfold(s@, i as int);
                }
                i = i + 1;
            }
            proof {
                assert(e == i as int);
                lemma_word_end_unfold(s@, start);
                assert(split_from(s@, start)
                    == seq![s@.subrange(start, e)] + split_from(s@, e));
            }
            count = count + 1;
        }
    }
    count
}

} // verus!
