//! The heuristic complexity score of a source text: operators `&&`, `||`
//! and `?` plus the control-flow keywords, counted outside comments and
//! strings.

use vstd::prelude::*;

verus! {

// ---------------------------------------------------------------------------
// Character classes (std's Unicode tables)
// ---------------------------------------------------------------------------

/// Whether `c` has the Unicode `White_Space` property, which is what
/// `char::is_whitespace` reports: U+0009 to U+000D, U+0020, U+0085, U+00A0,
/// U+1680, U+2000 to U+200A, U+2028, U+2029, U+202F, U+205F and U+3000.
pub open spec fn unicode_whitespace(c: char) -> bool {
    let u = c as u32;
    ||| 0x09 <= u <= 0x0D
    ||| u == 0x20
    ||| u == 0x85
    ||| u == 0xA0
    ||| u == 0x1680
    ||| 0x2000 <= u <= 0x200A
    ||| u == 0x2028
    ||| u == 0x2029
    ||| u == 0x202F
    ||| u == 0x205F
    ||| u == 0x3000
}

/// Whether a character beyond ASCII is alphabetic or numeric, as
/// `char::is_alphanumeric` reports it.
pub uninterp spec fn unicode_alphanumeric(c: char) -> bool;

/// An ASCII letter or digit.
pub open spec fn ascii_alphanumeric(c: char) -> bool {
    let u = c as u32;
    ||| 0x30 <= u <= 0x39
    ||| 0x41 <= u <= 0x5A
    ||| 0x61 <= u <= 0x7A
}

/// Whether `c` is alphabetic or numeric: among ASCII characters exactly the
/// letters and digits; no whitespace character; beyond those,
/// `unicode_alphanumeric`.
pub open spec fn char_alphanumeric(c: char) -> bool {
    if (c as u32) < 0x80 {
        ascii_alphanumeric(c)
    } else if unicode_whitespace(c) {
        false
    } else {
        unicode_alphanumeric(c)
    }
}

/// Whether `c` is whitespace in the sense of `char::is_whitespace`.
fn is_whitespace(c: char) -> (b: bool)
    ensures
        b == unicode_whitespace(c),
{
    let u = c as u32;
    (0x09 <= u && u <= 0x0D) || u == 0x20 || u == 0x85 || u == 0xA0 || u == 0x1680 || (0x2000
        <= u && u <= 0x200A) || u == 0x2028 || u == 0x2029 || u == 0x202F || u == 0x205F || u
        == 0x3000
}

/// Calls `char::is_alphanumeric`. Believed, as its documentation gives it
/// (the Unicode `Alphabetic` property, or a numeric general category): an
/// ASCII character is alphanumeric exactly when it is a letter or a digit; no
/// `White_Space` character is alphanumeric (they are controls, spaces and
/// separators); for the other characters the result is `unicode_alphanumeric(c)`.
#[verifier::external_body]
fn is_alphanumeric(c: char) -> (b: bool)
    ensures
        b == (if (c as u32) < 0x80 {
            ascii_alphanumeric(c)
        } else if unicode_whitespace(c) {
            false
        } else {
            unicode_alphanumeric(c)
        }),
{
    c.is_alphanumeric()
}

// ---------------------------------------------------------------------------
// Specification
// ---------------------------------------------------------------------------

/// Index of the first `c` in `s`, or `s.len()` when there is none.
pub open spec fn find_char(s: Seq<char>, c: char) -> int
    decreases s.len(),
{
    if s.len() == 0 {
        0
    } else if s[0] == c {
        0
    } else {
        1 + find_char(s.skip(1), c)
    }
}

/// The first line of `s` as `str::lines` yields it: up to the first `\n`,
/// without that `\n` and without a `\r` just before it.
pub open spec fn first_line(s: Seq<char>) -> Seq<char> {
    let n = find_char(s, '\n');
    if n < s.len() && n > 0 && s[n - 1] == '\r' {
        s.take(n - 1)
    } else {
        s.take(n)
    }
}

/// What follows the first line ending of `s` (empty when `s` has none).
pub open spec fn after_first_line(s: Seq<char>) -> Seq<char> {
    let n = find_char(s, '\n');
    if n < s.len() {
        s.skip(n + 1)
    } else {
        Seq::empty()
    }
}

/// `s` without its leading whitespace.
pub open spec fn trim_start(s: Seq<char>) -> Seq<char>
    decreases s.len(),
{
    if s.len() > 0 && unicode_whitespace(s[0]) {
        trim_start(s.skip(1))
    } else {
        s
    }
}

/// `s` without its trailing whitespace.
pub open spec fn trim_end(s: Seq<char>) -> Seq<char>
    decreases s.len(),
{
    if s.len() > 0 && unicode_whitespace(s.last()) {
        trim_end(s.drop_last())
    } else {
        s
    }
}

/// `s` without leading and trailing whitespace, as `str::trim` gives it.
pub open spec fn trim(s: Seq<char>) -> Seq<char> {
    trim_end(trim_start(s))
}

/// Index of the first occurrence of the non-empty pattern `p` in `t`, or -1.
pub open spec fn find_pat(t: Seq<char>, p: Seq<char>) -> int
    decreases t.len(),
{
    if t.len() == 0 || t.len() < p.len() {
        -1
    } else if t.take(p.len() as int) == p {
        0
    } else {
        let r = find_pat(t.skip(1), p);
        if r < 0 {
            -1
        } else {
            r + 1
        }
    }
}

/// Number of non-overlapping occurrences of `p` in `t`, searched left to right
/// (what `str::matches(..).count()` gives).
pub open spec fn count_matches(t: Seq<char>, p: Seq<char>) -> nat
    decreases t.len(),
{
    if t.len() == 0 || p.len() == 0 || t.len() < p.len() {
        0
    } else if t.take(p.len() as int) == p {
        1 + count_matches(t.skip(p.len() as int), p)
    } else {
        count_matches(t.skip(1), p)
    }
}

pub open spec fn pat_and() -> Seq<char> {
    seq!['&', '&']
}

pub open spec fn pat_or() -> Seq<char> {
    seq!['|', '|']
}

pub open spec fn pat_question() -> Seq<char> {
    seq!['?']
}

pub open spec fn pat_line_comment() -> Seq<char> {
    seq!['/', '/']
}

pub open spec fn pat_block_open() -> Seq<char> {
    seq!['/', '*']
}

pub open spec fn pat_block_close() -> Seq<char> {
    seq!['*', '/']
}

/// Whether `t` is one of the keywords that count towards the score:
/// `if`, `while`, `for`, `switch`, `case`, `catch`, `match`.
pub open spec fn is_keyword(t: Seq<char>) -> bool {
    ||| t == seq!['i', 'f']
    ||| t == seq!['w', 'h', 'i', 'l', 'e']
    ||| t == seq!['f', 'o', 'r']
    ||| t == seq!['s', 'w', 'i', 't', 'c', 'h']
    ||| t == seq!['c', 'a', 's', 'e']
    ||| t == seq!['c', 'a', 't', 'c', 'h']
    ||| t == seq!['m', 'a', 't', 'c', 'h']
}

/// A character that separates tokens: neither alphanumeric nor `_`.
pub open spec fn is_separator(c: char) -> bool {
    !char_alphanumeric(c) && c != '_'
}

/// Index of the first separator in `s`, or `s.len()`.
pub open spec fn first_separator(s: Seq<char>) -> int
    decreases s.len(),
{
    if s.len() == 0 {
        0
    } else if is_separator(s[0]) {
        0
    } else {
        1 + first_separator(s.skip(1))
    }
}

/// Number of the pieces of `s`, split at every separator, that are keywords.
pub open spec fn keyword_tokens(s: Seq<char>) -> nat
    decreases s.len(),
{
    let i = first_separator(s);
    let here: nat = if is_keyword(s.take(i)) {
        1
    } else {
        0
    };
    if 0 <= i < s.len() {
        here + keyword_tokens(s.skip(i + 1))
    } else {
        here
    }
}

/// `t` cut before its first `//`.
pub open spec fn cut_line_comment(t: Seq<char>) -> Seq<char> {
    let i = find_pat(t, pat_line_comment());
    if i >= 0 {
        t.take(i)
    } else {
        t
    }
}

/// The operators and keyword tokens of a stretch of text.
pub open spec fn token_score(t: Seq<char>) -> nat {
    count_matches(t, pat_and()) + count_matches(t, pat_or()) + count_matches(t, pat_question())
        + keyword_tokens(t)
}

/// `t` without the text of its double-quoted strings, read from a state
/// inside a string (`in_str`) or not, and just after a backslash inside one
/// (`escaped`) or not. The quotes themselves stay; inside a string a
/// backslash escapes the next character; a string left open runs to the end.
pub open spec fn unquoted(t: Seq<char>, in_str: bool, escaped: bool) -> Seq<char>
    decreases t.len(),
{
    if t.len() == 0 {
        Seq::empty()
    } else if in_str {
        if escaped {
            unquoted(t.skip(1), true, false)
        } else if t[0] == '\\' {
            unquoted(t.skip(1), true, true)
        } else if t[0] == '"' {
            seq!['"'] + unquoted(t.skip(1), false, false)
        } else {
            unquoted(t.skip(1), true, false)
        }
    } else if t[0] == '"' {
        seq!['"'] + unquoted(t.skip(1), true, false)
    } else {
        seq![t[0]] + unquoted(t.skip(1), false, false)
    }
}

/// The score of one stretch of code: its operators and keyword tokens,
/// outside double-quoted strings.
pub open spec fn code_score(t: Seq<char>) -> nat {
    token_score(unquoted(t, false, false))
}

/// The score of one line, and whether a block comment is open after it,
/// given whether one was open before it.
pub open spec fn line_step(line: Seq<char>, in_block: bool) -> (nat, bool) {
    let t = trim(line);
    if in_block {
        let e = find_pat(t, pat_block_close());
        if e >= 0 {
            (code_score(cut_line_comment(t.skip(e + 2))), false)
        } else {
            (0, true)
        }
    } else {
        let s = find_pat(t, pat_block_open());
        if s >= 0 {
            (code_score(cut_line_comment(t.take(s))), true)
        } else {
            (code_score(cut_line_comment(t)), false)
        }
    }
}

/// The score of the lines of `s`, with `in_block` telling whether a block
/// comment is open before the first of them.
pub open spec fn text_score(s: Seq<char>, in_block: bool) -> nat
    decreases s.len(),
{
    if s.len() == 0 {
        0
    } else {
        proof {
            lemma_find_char_bounds(s, '\n');
        }
        let step = line_step(first_line(s), in_block);
        step.0 + text_score(after_first_line(s), step.1)
    }
}

/// The heuristic complexity of a source text.
pub open spec fn heuristic_complexity(content: Seq<char>) -> nat {
    text_score(content, false)
}

// ---------------------------------------------------------------------------
// Lemmas
// ---------------------------------------------------------------------------

pub proof fn lemma_find_char_bounds(s: Seq<char>, c: char)
    ensures
        0 <= find_char(s, c) <= s.len(),
        find_char(s, c) < s.len() ==> s[find_char(s, c)] == c,
        forall|k: int| 0 <= k < find_char(s, c) ==> s[k] != c,
    decreases s.len(),
{
    if s.len() > 0 && s[0] != c {
        lemma_find_char_bounds(s.skip(1), c);
        assert forall|k: int| 0 <= k < find_char(s, c) implies s[k] != c by {
            if k > 0 {
                assert(s[k] == s.skip(1)[k - 1]);
            }
        }
    }
}


pub proof fn lemma_first_separator_at(s: Seq<char>, j: int)
    requires
        0 <= j <= s.len(),
        forall|k: int| 0 <= k < j ==> !is_separator(s[k]),
        j == s.len() || is_separator(s[j]),
    ensures
        first_separator(s) == j,
    decreases s.len(),
{
    if s.len() > 0 && j > 0 {
        assert forall|k: int| 0 <= k < j - 1 implies !is_separator(s.skip(1)[k]) by {
            assert(s.skip(1)[k] == s[k + 1]);
        }
        lemma_first_separator_at(s.skip(1), j - 1);
    }
}

/// Number of occurrences of `c` in `s`.
pub open spec fn char_count(s: Seq<char>, c: char) -> nat
    decreases s.len(),
{
    if s.len() == 0 {
        0
    } else {
        (if s[0] == c {
            1nat
        } else {
            0nat
        }) + char_count(s.skip(1), c)
    }
}

/// Number of characters of `s` other than `&`, `|` and `?`.
pub open spec fn plain_count(s: Seq<char>) -> nat
    decreases s.len(),
{
    if s.len() == 0 {
        0
    } else {
        (if s[0] != '&' && s[0] != '|' && s[0] != '?' {
            1nat
        } else {
            0nat
        }) + plain_count(s.skip(1))
    }
}

pub proof fn lemma_counts_concat(a: Seq<char>, b: Seq<char>)
    ensures
        plain_count(a + b) == plain_count(a) + plain_count(b),
    decreases a.len(),
{
    if a.len() > 0 {
        assert((a + b).skip(1) =~= a.skip(1) + b);
        lemma_counts_concat(a.skip(1), b);
    } else {
        assert(a + b =~= b);
    }
}

pub proof fn lemma_counts_partition(s: Seq<char>)
    ensures
        char_count(s, '&') + char_count(s, '|') + char_count(s, '?') + plain_count(s) == s.len(),
    decreases s.len(),
{
    if s.len() > 0 {
        lemma_counts_partition(s.skip(1));
    }
}

pub proof fn lemma_plain_all(t: Seq<char>)
    requires
        forall|k: int| 0 <= k < t.len() ==> t[k] != '&' && t[k] != '|' && t[k] != '?',
    ensures
        plain_count(t) == t.len(),
    decreases t.len(),
{
    if t.len() > 0 {
        assert forall|k: int| 0 <= k < t.len() - 1 implies t.skip(1)[k] != '&' && t.skip(1)[k] != '|'
            && t.skip(1)[k] != '?' by {
            assert(t.skip(1)[k] == t[k + 1]);
        }
        lemma_plain_all(t.skip(1));
    }
}

pub proof fn lemma_keyword_plain(t: Seq<char>)
    requires
        is_keyword(t),
    ensures
        plain_count(t) == t.len(),
        t.len() >= 2,
{
    assert forall|k: int| 0 <= k < t.len() implies t[k] != '&' && t[k] != '|' && t[k] != '?' by {
        if t == seq!['i', 'f'] {
        } else if t == seq!['w', 'h', 'i', 'l', 'e'] {
        } else if t == seq!['f', 'o', 'r'] {
        } else if t == seq!['s', 'w', 'i', 't', 'c', 'h'] {
        } else if t == seq!['c', 'a', 's', 'e'] {
        } else if t == seq!['c', 'a', 't', 'c', 'h'] {
        } else {
        }
    }
    lemma_plain_all(t);
}

pub proof fn lemma_pair_matches_bound(t: Seq<char>, c: char)
    ensures
        count_matches(t, seq![c, c]) * 2 <= char_count(t, c),
    decreases t.len(),
{
    let p = seq![c, c];
    if t.len() == 0 || t.len() < 2 {
    } else if t.take(2) == p {
        assert(t[0] == t.take(2)[0]);
        assert(t[1] == t.take(2)[1]);
        assert(t.skip(1).skip(1) =~= t.skip(2));
        assert(t.skip(1)[0] == t[1]);
        lemma_pair_matches_bound(t.skip(2), c);
        assert(p.len() == 2);
        assert(count_matches(t, p) == 1 + count_matches(t.skip(2), p));
        assert(char_count(t, c) == 1 + char_count(t.skip(1), c));
        assert(char_count(t.skip(1), c) == 1 + char_count(t.skip(1).skip(1), c));
    } else {
        lemma_pair_matches_bound(t.skip(1), c);
        assert(count_matches(t, p) == count_matches(t.skip(1), p));
    }
}

pub proof fn lemma_single_matches_bound(t: Seq<char>, c: char)
    ensures
        count_matches(t, seq![c]) <= char_count(t, c),
    decreases t.len(),
{
    let p = seq![c];
    if t.len() == 0 {
    } else if t.take(1) == p {
        assert(t[0] == t.take(1)[0]);
        lemma_single_matches_bound(t.skip(1), c);
    } else {
        lemma_single_matches_bound(t.skip(1), c);
    }
}

pub proof fn lemma_keyword_tokens_bound(s: Seq<char>)
    ensures
        keyword_tokens(s) * 2 <= plain_count(s),
    decreases s.len(),
{
    let i = first_separator(s);
    lemma_first_separator_bounds(s);
    if is_keyword(s.take(i)) {
        lemma_keyword_plain(s.take(i));
    }
    if i < s.len() {
        lemma_keyword_tokens_bound(s.skip(i + 1));
        assert(s =~= s.take(i) + (s.subrange(i, i + 1) + s.skip(i + 1)));
        lemma_counts_concat(s.take(i), s.subrange(i, i + 1) + s.skip(i + 1));
        lemma_counts_concat(s.subrange(i, i + 1), s.skip(i + 1));
    } else {
        assert(s.take(i) =~= s);
    }
}

pub proof fn lemma_first_separator_bounds(s: Seq<char>)
    ensures
        0 <= first_separator(s) <= s.len(),
        first_separator(s) < s.len() ==> is_separator(s[first_separator(s)]),
        forall|k: int| 0 <= k < first_separator(s) ==> !is_separator(s[k]),
    decreases s.len(),
{
    if s.len() > 0 && !is_separator(s[0]) {
        lemma_first_separator_bounds(s.skip(1));
        assert forall|k: int| 0 <= k < first_separator(s) implies !is_separator(s[k]) by {
            if k > 0 {
                assert(s[k] == s.skip(1)[k - 1]);
            }
        }
    }
}

/// Leaving out strings never lengthens a text.
pub proof fn lemma_unquoted_len(t: Seq<char>, in_str: bool, escaped: bool)
    ensures
        unquoted(t, in_str, escaped).len() <= t.len(),
    decreases t.len(),
{
    if t.len() > 0 {
        lemma_unquoted_len(t.skip(1), true, false);
        lemma_unquoted_len(t.skip(1), true, true);
        lemma_unquoted_len(t.skip(1), false, false);
    }
}

/// The score of a stretch of code never exceeds its length.
pub proof fn lemma_code_score_bound(t: Seq<char>)
    ensures
        code_score(t) <= t.len(),
{
    lemma_unquoted_len(t, false, false);
    lemma_token_score_bound(unquoted(t, false, false));
}

/// The tokens of a text never exceed its length.
pub proof fn lemma_token_score_bound(t: Seq<char>)
    ensures
        token_score(t) <= t.len(),
{
    lemma_pair_matches_bound(t, '&');
    lemma_pair_matches_bound(t, '|');
    lemma_single_matches_bound(t, '?');
    lemma_keyword_tokens_bound(t);
    lemma_counts_partition(t);
    assert(pat_and() == seq!['&', '&']);
    assert(pat_or() == seq!['|', '|']);
    assert(pat_question() == seq!['?']);
}


pub proof fn lemma_trim_len(s: Seq<char>)
    ensures
        trim_start(s).len() <= s.len(),
        trim_end(s).len() <= s.len(),
        trim(s).len() <= s.len(),
    decreases s.len(),
{
    if s.len() > 0 {
        lemma_trim_len(s.skip(1));
        lemma_trim_len(s.drop_last());
    }
    lemma_trim_end_len(trim_start(s));
}

pub proof fn lemma_trim_end_len(s: Seq<char>)
    ensures
        trim_end(s).len() <= s.len(),
    decreases s.len(),
{
    if s.len() > 0 {
        lemma_trim_end_len(s.drop_last());
    }
}

pub proof fn lemma_find_pat_bounds(t: Seq<char>, p: Seq<char>)
    requires
        p.len() > 0,
    ensures
        find_pat(t, p) >= -1,
        find_pat(t, p) >= 0 ==> find_pat(t, p) + p.len() <= t.len() && t.subrange(
            find_pat(t, p),
            find_pat(t, p) + p.len(),
        ) == p,
    decreases t.len(),
{
    if t.len() == 0 || t.len() < p.len() {
    } else if t.take(p.len() as int) == p {
        assert(t.subrange(0, p.len() as int) =~= t.take(p.len() as int));
    } else {
        lemma_find_pat_bounds(t.skip(1), p);
        let r = find_pat(t.skip(1), p);
        if r >= 0 {
            assert(t.subrange(r + 1, r + 1 + p.len()) =~= t.skip(1).subrange(r, r + p.len()));
        }
    }
}

/// Whether `p` occurs in `t` at index `i`.
pub open spec fn occurs_at(t: Seq<char>, p: Seq<char>, i: int) -> bool {
    0 <= i && i + p.len() <= t.len() && t.subrange(i, i + p.len()) == p
}

pub proof fn lemma_find_pat_none(t: Seq<char>, p: Seq<char>)
    requires
        p.len() > 0,
        find_pat(t, p) < 0,
    ensures
        forall|i: int| !#[trigger] occurs_at(t, p, i),
    decreases t.len(),
{
    if t.len() == 0 || t.len() < p.len() {
    } else {
        assert(t.take(p.len() as int) != p);
        lemma_find_pat_none(t.skip(1), p);
        assert forall|i: int| !#[trigger] occurs_at(t, p, i) by {
            if i < 0 || i + p.len() > t.len() {
            } else if i == 0 {
                assert(t.subrange(0, p.len() as int) =~= t.take(p.len() as int));
            } else {
                assert(t.subrange(i, i + p.len()) =~= t.skip(1).subrange(i - 1, i - 1 + p.len()));
                assert(!occurs_at(t.skip(1), p, i - 1));
            }
        }
    }
}

pub proof fn lemma_cut_len(t: Seq<char>)
    ensures
        cut_line_comment(t).len() <= t.len(),
{
    lemma_find_pat_bounds(t, pat_line_comment());
}

pub proof fn lemma_line_step_bound(line: Seq<char>, in_block: bool)
    ensures
        line_step(line, in_block).0 <= line.len(),
{
    let t = trim(line);
    lemma_trim_len(line);
    if in_block {
        let e = find_pat(t, pat_block_close());
        lemma_find_pat_bounds(t, pat_block_close());
        if e >= 0 {
            lemma_cut_len(t.skip(e + 2));
            lemma_code_score_bound(cut_line_comment(t.skip(e + 2)));
        }
    } else {
        let s = find_pat(t, pat_block_open());
        lemma_find_pat_bounds(t, pat_block_open());
        if s >= 0 {
            lemma_cut_len(t.take(s));
            lemma_code_score_bound(cut_line_comment(t.take(s)));
        } else {
            lemma_cut_len(t);
            lemma_code_score_bound(cut_line_comment(t));
        }
    }
}

/// The score of a text never exceeds its number of characters.
pub proof fn lemma_text_score_bound(s: Seq<char>, in_block: bool)
    ensures
        text_score(s, in_block) <= s.len(),
    decreases s.len(),
{
    if s.len() > 0 {
        lemma_find_char_bounds(s, '\n');
        let step = line_step(first_line(s), in_block);
        lemma_line_step_bound(first_line(s), in_block);
        lemma_text_score_bound(after_first_line(s), step.1);
    }
}

/// The complexity score of a text never exceeds its number of characters.
pub proof fn law_complexity_bounded(content: Seq<char>)
    ensures
        heuristic_complexity(content) <= content.len(),
{
    lemma_text_score_bound(content, false);
}

// ---------------------------------------------------------------------------
// Laws over lines
// ---------------------------------------------------------------------------

/// Whether a block comment is open after the lines of `s`, given whether one
/// was open before them.
pub open spec fn block_open_after(s: Seq<char>, in_block: bool) -> bool
    decreases s.len(),
{
    if s.len() == 0 {
        in_block
    } else {
        proof {
            lemma_find_char_bounds(s, '\n');
        }
        block_open_after(after_first_line(s), line_step(first_line(s), in_block).1)
    }
}

/// `p` does not occur anywhere in `s`.
pub open spec fn lacks(s: Seq<char>, p: Seq<char>) -> bool {
    forall|i: int| !#[trigger] occurs_at(s, p, i)
}

pub proof fn lemma_find_char_concat(a: Seq<char>, b: Seq<char>, c: char)
    ensures
        find_char(a + b, c) == if find_char(a, c) < a.len() {
            find_char(a, c)
        } else {
            a.len() + find_char(b, c)
        },
    decreases a.len(),
{
    lemma_find_char_bounds(a, c);
    if a.len() == 0 {
        assert(a + b =~= b);
    } else if a[0] == c {
        assert((a + b)[0] == c);
    } else {
        assert((a + b)[0] == a[0]);
        assert((a + b).skip(1) =~= a.skip(1) + b);
        lemma_find_char_concat(a.skip(1), b, c);
    }
}

/// `trim_start(s)` is a suffix of `s`, and what it drops is whitespace.
pub proof fn lemma_trim_start_suffix(s: Seq<char>) -> (k: int)
    ensures
        0 <= k <= s.len(),
        trim_start(s) == s.skip(k),
        forall|q: int| 0 <= q < k ==> unicode_whitespace(#[trigger] s[q]),
    decreases s.len(),
{
    if s.len() > 0 && unicode_whitespace(s[0]) {
        let k1 = lemma_trim_start_suffix(s.skip(1));
        assert(s.skip(1).skip(k1) =~= s.skip(k1 + 1));
        assert forall|q: int| 0 <= q < k1 + 1 implies unicode_whitespace(#[trigger] s[q]) by {
            if q > 0 {
                assert(s[q] == s.skip(1)[q - 1]);
            }
        }
        k1 + 1
    } else {
        assert(s.skip(0) =~= s);
        0
    }
}

/// `trim_end(s)` is a prefix of `s`, and what it drops is whitespace.
pub proof fn lemma_trim_end_prefix(s: Seq<char>) -> (m: int)
    ensures
        0 <= m <= s.len(),
        trim_end(s) == s.take(m),
        forall|q: int| m <= q < s.len() ==> unicode_whitespace(#[trigger] s[q]),
    decreases s.len(),
{
    if s.len() > 0 && unicode_whitespace(s.last()) {
        let m1 = lemma_trim_end_prefix(s.drop_last());
        assert(s.drop_last().take(m1) =~= s.take(m1));
        assert forall|q: int| m1 <= q < s.len() implies unicode_whitespace(#[trigger] s[q]) by {
            if q < s.len() - 1 {
                assert(s[q] == s.drop_last()[q]);
            }
        }
        m1
    } else {
        assert(s.take(s.len() as int) =~= s);
        s.len() as int
    }
}

/// `trim(s)` is a stretch of `s`.
pub proof fn lemma_trim_within(s: Seq<char>) -> (r: (int, int))
    ensures
        0 <= r.0 <= r.1 <= s.len(),
        trim(s) == s.subrange(r.0, r.1),
{
    let k = lemma_trim_start_suffix(s);
    let m = lemma_trim_end_prefix(s.skip(k));
    assert(s.skip(k).take(m) =~= s.subrange(k, k + m));
    (k, k + m)
}

/// An occurrence in a stretch of `s` is an occurrence in `s`.
pub proof fn lemma_occurs_within(s: Seq<char>, i: int, j: int, p: Seq<char>, r: int)
    requires
        0 <= i <= j <= s.len(),
        occurs_at(s.subrange(i, j), p, r),
    ensures
        occurs_at(s, p, i + r),
{
    assert(s.subrange(i + r, i + r + p.len()) =~= s.subrange(i, j).subrange(r, r + p.len()));
}

/// A pattern missing from `s` is missing from every stretch of `s`.
pub proof fn lemma_lacks_within(s: Seq<char>, i: int, j: int, p: Seq<char>)
    requires
        0 <= i <= j <= s.len(),
        lacks(s, p),
    ensures
        lacks(s.subrange(i, j), p),
{
    assert forall|r: int| !#[trigger] occurs_at(s.subrange(i, j), p, r) by {
        if occurs_at(s.subrange(i, j), p, r) {
            lemma_occurs_within(s, i, j, p, r);
        }
    }
}

/// Whitespace pushed after `s` leaves `trim_start` as it was, or extends it.
pub proof fn lemma_trim_start_push(s: Seq<char>, w: char)
    requires
        unicode_whitespace(w),
    ensures
        trim_start(s.push(w)) == if trim_start(s).len() > 0 {
            trim_start(s).push(w)
        } else {
            Seq::<char>::empty()
        },
    decreases s.len(),
{
    if s.len() == 0 {
        assert(s.push(w).skip(1) =~= Seq::<char>::empty());
        assert(s.push(w)[0] == w);
        assert(trim_start(Seq::<char>::empty()) == Seq::<char>::empty());
        assert(trim_start(s.push(w)) == trim_start(s.push(w).skip(1)));
    } else if unicode_whitespace(s[0]) {
        assert(s.push(w)[0] == s[0]);
        assert(s.push(w).skip(1) =~= s.skip(1).push(w));
        lemma_trim_start_push(s.skip(1), w);
    } else {
        assert(s.push(w)[0] == s[0]);
    }
}

/// Whitespace pushed after `s` does not change `trim(s)`.
pub proof fn lemma_trim_push(s: Seq<char>, w: char)
    requires
        unicode_whitespace(w),
    ensures
        trim(s.push(w)) == trim(s),
{
    lemma_trim_start_push(s, w);
    if trim_start(s).len() > 0 {
        assert(trim_start(s).push(w).drop_last() =~= trim_start(s));
    }
}

/// The empty line scores nothing and keeps the block-comment state.
pub proof fn lemma_line_step_empty(in_block: bool)
    ensures
        line_step(Seq::empty(), in_block) == (0nat, in_block),
{
    let e = Seq::<char>::empty();
    assert(trim_start(e) == e);
    assert(trim(e) == e);
    assert(find_pat(e, pat_block_close()) == -1);
    assert(find_pat(e, pat_block_open()) == -1);
    assert(find_pat(e, pat_line_comment()) == -1);
    assert(cut_line_comment(e) == e);
    assert(first_separator(e) == 0);
    assert(e.take(0) =~= e);
    assert(!is_keyword(e)) by {
        assert(seq!['i', 'f'].len() == 2);
        assert(seq!['f', 'o', 'r'].len() == 3);
        assert(seq!['c', 'a', 's', 'e'].len() == 4);
        assert(seq!['w', 'h', 'i', 'l', 'e'].len() == 5);
        assert(seq!['m', 'a', 't', 'c', 'h'].len() == 5);
        assert(seq!['c', 'a', 't', 'c', 'h'].len() == 5);
        assert(seq!['s', 'w', 'i', 't', 'c', 'h'].len() == 6);
    }
    assert(keyword_tokens(e) == 0);
    assert(unquoted(e, false, false) == e);
    assert(code_score(e) == 0);
}

/// The lines of `a`, a line break, then the lines of `b`: the score is the
/// score of `a` plus the score of `b` read in the block-comment state that
/// `a` leaves.
pub proof fn lemma_text_score_split(a: Seq<char>, b: Seq<char>, in_block: bool)
    ensures
        text_score(a + seq!['\n'] + b, in_block) == text_score(a, in_block) + text_score(
            b,
            block_open_after(a, in_block),
        ),
    decreases a.len(),
{
    let r = seq!['\n'] + b;
    let x = a + seq!['\n'] + b;
    assert(x =~= a + r);
    assert(r[0] == '\n');
    assert(find_char(r, '\n') == 0);
    lemma_find_char_concat(a, r, '\n');
    lemma_find_char_bounds(a, '\n');
    let na = find_char(a, '\n');
    let n = find_char(x, '\n');
    let nb = block_open_after(a, in_block);
    if a.len() == 0 {
        assert(x =~= r);
        assert(first_line(x) =~= Seq::<char>::empty());
        assert(after_first_line(x) =~= b);
        lemma_line_step_empty(in_block);
        assert(text_score(x, in_block) == line_step(first_line(x), in_block).0 + text_score(
            after_first_line(x),
            line_step(first_line(x), in_block).1,
        ));
    } else if na < a.len() {
        assert(n == na);
        assert(x.take(n) =~= a.take(n));
        if n > 0 {
            assert(x[n - 1] == a[n - 1]);
            assert(x.take(n - 1) =~= a.take(n - 1));
        }
        assert(first_line(x) == first_line(a));
        let st = line_step(first_line(a), in_block);
        assert(after_first_line(x) =~= a.skip(n + 1) + seq!['\n'] + b);
        assert(after_first_line(a) =~= a.skip(n + 1));
        lemma_text_score_split(a.skip(n + 1), b, st.1);
        assert(text_score(a, in_block) == st.0 + text_score(a.skip(n + 1), st.1));
        assert(nb == block_open_after(a.skip(n + 1), st.1));
        assert(text_score(x, in_block) == st.0 + text_score(after_first_line(x), st.1));
    } else {
        assert(n == a.len());
        assert(first_line(a) =~= a);
        assert(after_first_line(a) =~= Seq::<char>::empty());
        assert(after_first_line(x) =~= b);
        assert(x[n - 1] == a.last());
        if a.last() == '\r' {
            assert(first_line(x) =~= a.drop_last());
            assert(a.drop_last().push('\r') =~= a);
            lemma_trim_push(a.drop_last(), '\r');
        } else {
            assert(first_line(x) =~= a);
        }
        let st = line_step(a, in_block);
        assert(line_step(first_line(x), in_block) == st);
        assert(text_score(a, in_block) == st.0 + text_score(Seq::<char>::empty(), st.1));
        assert(nb == block_open_after(Seq::<char>::empty(), st.1));
        assert(text_score(x, in_block) == st.0 + text_score(after_first_line(x), st.1));
    }
}

/// Without a block comment opener, no block comment is open after the lines.
pub proof fn lemma_block_closed_after(s: Seq<char>)
    requires
        lacks(s, pat_block_open()),
    ensures
        block_open_after(s, false) == false,
    decreases s.len(),
{
    if s.len() > 0 {
        lemma_find_char_bounds(s, '\n');
        let n = find_char(s, '\n');
        let line = first_line(s);
        let l = if n < s.len() && n > 0 && s[n - 1] == '\r' {
            n - 1
        } else {
            n
        };
        assert(line == s.subrange(0, l));
        let (i, j) = lemma_trim_within(line);
        assert(line.subrange(i, j) =~= s.subrange(i, j));
        lemma_lacks_within(s, i, j, pat_block_open());
        let t = trim(line);
        lemma_find_pat_bounds(t, pat_block_open());
        if find_pat(t, pat_block_open()) >= 0 {
            assert(occurs_at(t, pat_block_open(), find_pat(t, pat_block_open())));
        }
        if n < s.len() {
            assert(after_first_line(s) =~= s.subrange(n + 1, s.len() as int));
            lemma_lacks_within(s, n + 1, s.len() as int, pat_block_open());
        } else {
            assert(after_first_line(s) =~= Seq::<char>::empty());
        }
        lemma_block_closed_after(after_first_line(s));
    }
}

/// Without block comments, the score of a text is the sum of the scores of
/// its lines: the score of `a`, a line break, then `b`, is the score of `a`
/// plus the score of `b`.
pub proof fn law_complexity_lines_add(a: Seq<char>, b: Seq<char>)
    requires
        lacks(a, pat_block_open()),
        lacks(b, pat_block_open()),
    ensures
        heuristic_complexity(a + seq!['\n'] + b) == heuristic_complexity(a) + heuristic_complexity(
            b,
        ),
{
    lemma_text_score_split(a, b, false);
    lemma_block_closed_after(a);
}

/// Lines added after a text never lower its score: the score of `a`, a line
/// break, then `b`, is at least the score of `a`.
pub proof fn law_complexity_monotone(a: Seq<char>, b: Seq<char>)
    ensures
        heuristic_complexity(a + seq!['\n'] + b) >= heuristic_complexity(a),
{
    lemma_text_score_split(a, b, false);
}

/// A character that neither joins a token nor forms an operator.
pub open spec fn inert(c: char) -> bool {
    is_separator(c) && c != '&' && c != '|' && c != '?'
}

/// Whitespace is inert, and neither a quote nor a backslash.
pub proof fn lemma_space_inert(c: char)
    requires
        unicode_whitespace(c),
    ensures
        inert(c),
        c != '"',
        c != '\\',
{
}

pub proof fn lemma_find_pat_first(t: Seq<char>, p: Seq<char>, i: int)
    requires
        p.len() > 0,
        occurs_at(t, p, i),
        forall|q: int| 0 <= q < i ==> !#[trigger] occurs_at(t, p, q),
    ensures
        find_pat(t, p) == i,
    decreases t.len(),
{
    if i == 0 {
        assert(t.take(p.len() as int) =~= t.subrange(0, p.len() as int));
    } else {
        assert(!occurs_at(t, p, 0));
        assert(t.take(p.len() as int) =~= t.subrange(0, p.len() as int));
        assert(occurs_at(t.skip(1), p, i - 1)) by {
            assert(t.skip(1).subrange(i - 1, i - 1 + p.len()) =~= t.subrange(i, i + p.len()));
        }
        assert forall|q: int| 0 <= q < i - 1 implies !#[trigger] occurs_at(t.skip(1), p, q) by {
            if occurs_at(t.skip(1), p, q) {
                assert(t.skip(1).subrange(q, q + p.len()) =~= t.subrange(q + 1, q + 1 + p.len()));
                assert(occurs_at(t, p, q + 1));
            }
        }
        lemma_find_pat_first(t.skip(1), p, i - 1);
    }
}

pub proof fn lemma_find_pat_prefix(w: Seq<char>, p: Seq<char>, m: int)
    requires
        p.len() > 0,
        find_pat(w, p) >= 0,
        find_pat(w, p) + p.len() <= m <= w.len(),
    ensures
        find_pat(w.take(m), p) == find_pat(w, p),
    decreases w.len(),
{
    if w.take(p.len() as int) == p {
        assert(w.take(m).take(p.len() as int) =~= w.take(p.len() as int));
    } else {
        assert(w.take(m).take(p.len() as int) =~= w.take(p.len() as int));
        assert(w.take(m).skip(1) =~= w.skip(1).take(m - 1));
        lemma_find_pat_prefix(w.skip(1), p, m - 1);
    }
}

pub proof fn lemma_find_pat_extend(v: Seq<char>, z: Seq<char>, p: Seq<char>)
    requires
        p.len() > 0,
        find_pat(v, p) >= 0,
    ensures
        find_pat(v + z, p) == find_pat(v, p),
    decreases v.len(),
{
    assert((v + z).take(p.len() as int) =~= v.take(p.len() as int));
    if v.take(p.len() as int) != p {
        assert((v + z).skip(1) =~= v.skip(1) + z);
        lemma_find_pat_extend(v.skip(1), z, p);
    }
}

/// When `w` holds `//`, trimming its end does not move where the comment starts.
pub proof fn lemma_cut_trim_end(w: Seq<char>)
    requires
        find_pat(w, pat_line_comment()) >= 0,
    ensures
        cut_line_comment(trim_end(w)) == w.take(find_pat(w, pat_line_comment())),
{
    let p = pat_line_comment();
    let i = find_pat(w, p);
    lemma_find_pat_bounds(w, p);
    let m = lemma_trim_end_prefix(w);
    assert(w[i + 1] == w.subrange(i, i + 2)[1]);
    assert(!unicode_whitespace('/'));
    assert(m > i + 1);
    lemma_find_pat_prefix(w, p, m);
    assert(w.take(m).take(i) =~= w.take(i));
}

pub proof fn lemma_trim_start_concat(s: Seq<char>, r: Seq<char>)
    ensures
        trim_start(s + r) == if trim_start(s).len() > 0 {
            trim_start(s) + r
        } else {
            trim_start(r)
        },
    decreases s.len(),
{
    if s.len() == 0 {
        assert(s + r =~= r);
    } else {
        assert((s + r)[0] == s[0]);
        if unicode_whitespace(s[0]) {
            assert((s + r).skip(1) =~= s.skip(1) + r);
            lemma_trim_start_concat(s.skip(1), r);
        }
    }
}

pub proof fn lemma_matches_none(z: Seq<char>, p: Seq<char>)
    requires
        p.len() > 0,
        forall|k: int| 0 <= k < z.len() ==> #[trigger] z[k] != p[0],
    ensures
        count_matches(z, p) == 0,
    decreases z.len(),
{
    if z.len() > 0 && z.len() >= p.len() {
        assert(z.take(p.len() as int)[0] == z[0]);
        assert(z.take(p.len() as int) != p);
        assert forall|k: int| 0 <= k < z.skip(1).len() implies #[trigger] z.skip(1)[k] != p[0] by {
            assert(z.skip(1)[k] == z[k + 1]);
        }
        lemma_matches_none(z.skip(1), p);
    }
}

/// Inert characters after `q` add no match of an operator pattern.
pub proof fn lemma_matches_tail(q: Seq<char>, z: Seq<char>, p: Seq<char>)
    requires
        p.len() > 0,
        forall|k: int, j: int| 0 <= k < z.len() && 0 <= j < p.len() ==> z[k] != p[j],
    ensures
        count_matches(q + z, p) == count_matches(q, p),
    decreases q.len(),
{
    let t = q + z;
    assert forall|k: int| 0 <= k < z.len() implies #[trigger] z[k] != p[0] by {}
    if q.len() == 0 {
        assert(t =~= z);
        lemma_matches_none(z, p);
    } else if t.len() < p.len() {
    } else if t.take(p.len() as int) == p {
        if q.len() < p.len() {
            assert(t.take(p.len() as int)[q.len() as int] == z[0]);
            assert(z[0] != p[q.len() as int]);
        }
        assert(q.take(p.len() as int) =~= t.take(p.len() as int));
        assert(t.skip(p.len() as int) =~= q.skip(p.len() as int) + z);
        lemma_matches_tail(q.skip(p.len() as int), z, p);
    } else {
        assert(t.skip(1) =~= q.skip(1) + z);
        lemma_matches_tail(q.skip(1), z, p);
        if q.len() >= p.len() {
            assert(q.take(p.len() as int) =~= t.take(p.len() as int));
        }
    }
}

pub proof fn lemma_keywords_none(z: Seq<char>)
    requires
        forall|k: int| 0 <= k < z.len() ==> is_separator(#[trigger] z[k]),
    ensures
        keyword_tokens(z) == 0,
    decreases z.len(),
{
    let e = Seq::<char>::empty();
    assert(!is_keyword(e)) by {
        assert(seq!['i', 'f'].len() == 2);
        assert(seq!['f', 'o', 'r'].len() == 3);
        assert(seq!['c', 'a', 's', 'e'].len() == 4);
        assert(seq!['w', 'h', 'i', 'l', 'e'].len() == 5);
        assert(seq!['m', 'a', 't', 'c', 'h'].len() == 5);
        assert(seq!['c', 'a', 't', 'c', 'h'].len() == 5);
        assert(seq!['s', 'w', 'i', 't', 'c', 'h'].len() == 6);
    }
    assert(z.take(0) =~= e);
    if z.len() > 0 {
        assert(first_separator(z) == 0);
        assert forall|k: int| 0 <= k < z.skip(1).len() implies is_separator(#[trigger] z.skip(1)[k]) by {
            assert(z.skip(1)[k] == z[k + 1]);
        }
        lemma_keywords_none(z.skip(1));
    }
}

/// Separators after `q` add no keyword token.
pub proof fn lemma_keywords_tail(q: Seq<char>, z: Seq<char>)
    requires
        forall|k: int| 0 <= k < z.len() ==> is_separator(#[trigger] z[k]),
    ensures
        keyword_tokens(q + z) == keyword_tokens(q),
    decreases q.len(),
{
    if z.len() == 0 {
        assert(q + z =~= q);
    } else {
        let t = q + z;
        lemma_first_separator_bounds(q);
        let i = first_separator(q);
        assert forall|k: int| 0 <= k < i implies !is_separator(#[trigger] t[k]) by {
            assert(t[k] == q[k]);
        }
        if i < q.len() {
            assert(t[i] == q[i]);
            lemma_first_separator_at(t, i);
            assert(t.take(i) =~= q.take(i));
            assert(t.skip(i + 1) =~= q.skip(i + 1) + z);
            lemma_keywords_tail(q.skip(i + 1), z);
        } else {
            assert(t[i] == z[0]);
            lemma_first_separator_at(t, i);
            assert(t.take(i) =~= q.take(i));
            assert(t.skip(i + 1) =~= z.skip(1));
            assert forall|k: int| 0 <= k < z.skip(1).len() implies is_separator(#[trigger] z.skip(1)[k]) by {
                assert(z.skip(1)[k] == z[k + 1]);
            }
            lemma_keywords_none(z.skip(1));
        }
    }
}

/// Outside a string, text without quotes is kept as it is.
pub proof fn lemma_unquoted_plain(z: Seq<char>, escaped: bool)
    requires
        forall|k: int| 0 <= k < z.len() ==> #[trigger] z[k] != '"',
    ensures
        unquoted(z, false, escaped) == z,
    decreases z.len(),
{
    if z.len() > 0 {
        assert forall|k: int| 0 <= k < z.skip(1).len() implies #[trigger] z.skip(1)[k] != '"' by {
            assert(z.skip(1)[k] == z[k + 1]);
        }
        lemma_unquoted_plain(z.skip(1), false);
        assert(seq![z[0]] + z.skip(1) =~= z);
    }
}

/// Inside a string, text without quotes or backslashes is left out.
pub proof fn lemma_unquoted_hidden(z: Seq<char>, escaped: bool)
    requires
        forall|k: int| 0 <= k < z.len() ==> #[trigger] z[k] != '"' && z[k] != '\\',
    ensures
        unquoted(z, true, escaped) == Seq::<char>::empty(),
    decreases z.len(),
{
    if z.len() > 0 {
        assert forall|k: int| 0 <= k < z.skip(1).len() implies #[trigger] z.skip(1)[k] != '"'
            && z.skip(1)[k] != '\\' by {
            assert(z.skip(1)[k] == z[k + 1]);
        }
        lemma_unquoted_hidden(z.skip(1), false);
    }
}

/// Text without quotes or backslashes after `q` is either kept whole or
/// left out whole, by whether `q` ends inside a string.
pub proof fn lemma_unquoted_tail(q: Seq<char>, z: Seq<char>, in_str: bool, escaped: bool) -> (kept:
    bool)
    requires
        forall|k: int| 0 <= k < z.len() ==> #[trigger] z[k] != '"' && z[k] != '\\',
    ensures
        unquoted(q + z, in_str, escaped) == unquoted(q, in_str, escaped) + (if kept {
            z
        } else {
            Seq::<char>::empty()
        }),
    decreases q.len(),
{
    if q.len() == 0 {
        assert(q + z =~= z);
        assert(unquoted(q, in_str, escaped) == Seq::<char>::empty());
        if in_str {
            lemma_unquoted_hidden(z, escaped);
            assert(Seq::<char>::empty() + Seq::<char>::empty() =~= Seq::<char>::empty());
            false
        } else {
            assert forall|k: int| 0 <= k < z.len() implies #[trigger] z[k] != '"' by {}
            lemma_unquoted_plain(z, escaped);
            assert(Seq::<char>::empty() + z =~= z);
            true
        }
    } else {
        let t = q + z;
        assert(t[0] == q[0]);
        assert(t.skip(1) =~= q.skip(1) + z);
        let (ns, ne) = if in_str {
            if escaped {
                (true, false)
            } else if q[0] == '\\' {
                (true, true)
            } else if q[0] == '"' {
                (false, false)
            } else {
                (true, false)
            }
        } else if q[0] == '"' {
            (true, false)
        } else {
            (false, false)
        };
        let kept = lemma_unquoted_tail(q.skip(1), z, ns, ne);
        let tail = if kept {
            z
        } else {
            Seq::<char>::empty()
        };
        let u = unquoted(q.skip(1), ns, ne);
        assert(seq!['"'] + (u + tail) =~= (seq!['"'] + u) + tail);
        assert(seq![q[0]] + (u + tail) =~= (seq![q[0]] + u) + tail);
        kept
    }
}

/// Whitespace after a stretch of code does not change its score.
pub proof fn lemma_code_score_tail(q: Seq<char>, z: Seq<char>)
    requires
        forall|k: int| 0 <= k < z.len() ==> inert(#[trigger] z[k]) && z[k] != '"' && z[k] != '\\',
    ensures
        code_score(q + z) == code_score(q),
{
    let kept = lemma_unquoted_tail(q, z, false, false);
    let u = unquoted(q, false, false);
    if kept {
        lemma_token_score_tail(u, z);
    } else {
        assert(u + Seq::<char>::empty() =~= u);
    }
}

/// Inert characters after a stretch of text do not change its tokens.
pub proof fn lemma_token_score_tail(q: Seq<char>, z: Seq<char>)
    requires
        forall|k: int| 0 <= k < z.len() ==> inert(#[trigger] z[k]),
    ensures
        token_score(q + z) == token_score(q),
{
    lemma_matches_tail(q, z, pat_and());
    lemma_matches_tail(q, z, pat_or());
    lemma_matches_tail(q, z, pat_question());
    lemma_keywords_tail(q, z);
}

/// The step of a line without a block comment opener.
pub proof fn lemma_line_step_plain(y: Seq<char>)
    requires
        lacks(y, pat_block_open()),
    ensures
        line_step(y, false) == (code_score(cut_line_comment(trim(y))), false),
{
    let (i, j) = lemma_trim_within(y);
    lemma_lacks_within(y, i, j, pat_block_open());
    let t = trim(y);
    lemma_find_pat_bounds(t, pat_block_open());
    if find_pat(t, pat_block_open()) >= 0 {
        assert(occurs_at(t, pat_block_open(), find_pat(t, pat_block_open())));
    }
}

/// A text without line breaks is one line.
pub proof fn lemma_single_line(y: Seq<char>)
    requires
        forall|k: int| 0 <= k < y.len() ==> y[k] != '\n',
    ensures
        heuristic_complexity(y) == line_step(y, false).0,
{
    lemma_find_char_bounds(y, '\n');
    if y.len() == 0 {
        assert(y =~= Seq::<char>::empty());
        lemma_line_step_empty(false);
    } else {
        assert(find_char(y, '\n') == y.len());
        assert(first_line(y) =~= y);
        assert(after_first_line(y) =~= Seq::<char>::empty());
        assert(text_score(Seq::<char>::empty(), line_step(y, false).1) == 0);
        assert(text_score(y, false) == line_step(first_line(y), false).0 + text_score(
            after_first_line(y),
            line_step(first_line(y), false).1,
        ));
    }
}

/// A line comment after a line never changes its score: the score of `s`,
/// ` // `, then `t` is the score of `s`, for single lines `s` and `t` without
/// block comment openers.
pub proof fn law_complexity_trailing_comment(s: Seq<char>, t: Seq<char>)
    requires
        forall|k: int| 0 <= k < s.len() ==> s[k] != '\n',
        forall|k: int| 0 <= k < t.len() ==> t[k] != '\n',
        lacks(s, pat_block_open()),
        lacks(t, pat_block_open()),
    ensures
        heuristic_complexity(s + seq![' ', '/', '/', ' '] + t) == heuristic_complexity(s),
{
    let c = seq![' ', '/', '/', ' '];
    let x = s + c + t;
    let n = s.len();
    let bo = pat_block_open();
    let lc = pat_line_comment();
    assert forall|k: int| 0 <= k < x.len() implies x[k] != '\n' by {
        if k >= n + 4 {
            assert(x[k] == t[k - n - 4]);
        } else if k < n {
            assert(x[k] == s[k]);
        }
    }
    assert forall|r: int| !#[trigger] occurs_at(x, bo, r) by {
        if occurs_at(x, bo, r) {
            assert(x[r] == x.subrange(r, r + 2)[0]);
            assert(x[r + 1] == x.subrange(r, r + 2)[1]);
            if r + 1 < n {
                assert(x.subrange(r, r + 2) =~= s.subrange(r, r + 2));
                assert(occurs_at(s, bo, r));
            } else if r >= n + 4 {
                assert(x.subrange(r, r + 2) =~= t.subrange(r - n - 4, r - n - 2));
                assert(occurs_at(t, bo, r - n - 4));
            } else if r == n - 1 {
                assert(x[r + 1] == ' ');
            } else {
                assert(x[r] == c[r - n]);
                assert(x[r + 1] == c[r + 1 - n]);
            }
        }
    }
    lemma_single_line(x);
    lemma_single_line(s);
    lemma_line_step_plain(x);
    lemma_line_step_plain(s);
    // Where the trimmed text starts.
    let k = lemma_trim_start_suffix(s);
    let v = trim_start(s);
    assert(x =~= s + (c + t));
    lemma_trim_start_concat(s, c + t);
    let w = trim_start(x);
    lemma_find_pat_bounds(v, lc);
    if v.len() == 0 {
        assert((c + t)[0] == ' ');
        assert((c + t).skip(1) =~= seq!['/', '/', ' '] + t);
        assert((c + t).skip(1)[0] == '/');
        assert(!unicode_whitespace('/'));
        assert(trim_start(c + t) == trim_start((c + t).skip(1)));
        assert(trim_start(seq!['/', '/', ' '] + t) == seq!['/', '/', ' '] + t);
        assert(w == seq!['/', '/', ' '] + t);
        assert(w.take(2) =~= lc);
        assert(find_pat(w, lc) == 0);
        lemma_cut_trim_end(w);
        assert(w.take(0) =~= Seq::<char>::empty());
        assert(trim_end(v) == v);
        assert(find_pat(v, lc) == -1);
        assert(cut_line_comment(trim(s)) =~= Seq::<char>::empty());
    } else if find_pat(v, lc) >= 0 {
        let j = find_pat(v, lc);
        assert(w == v + (c + t));
        lemma_find_pat_extend(v, c + t, lc);
        lemma_cut_trim_end(w);
        lemma_cut_trim_end(v);
        assert(w.take(j) =~= v.take(j));
    } else {
        assert(w == v + (c + t));
        lemma_find_pat_none(v, lc);
        let vl = v.len() as int;
        assert(occurs_at(w, lc, vl + 1)) by {
            assert(w.subrange(vl + 1, vl + 3) =~= lc);
        }
        assert forall|q: int| 0 <= q < vl + 1 implies !#[trigger] occurs_at(w, lc, q) by {
            if occurs_at(w, lc, q) {
                assert(w[q] == w.subrange(q, q + 2)[0]);
                assert(w[q + 1] == w.subrange(q, q + 2)[1]);
                if q + 2 <= vl {
                    assert(w.subrange(q, q + 2) =~= v.subrange(q, q + 2));
                    assert(occurs_at(v, lc, q));
                } else if q == vl - 1 {
                    assert(w[q + 1] == ' ');
                } else {
                    assert(w[q] == ' ');
                }
            }
        }
        lemma_find_pat_first(w, lc, vl + 1);
        lemma_cut_trim_end(w);
        assert(w.take(vl + 1) =~= v.push(' '));
        let m = lemma_trim_end_prefix(v);
        lemma_find_pat_bounds(v.take(m), lc);
        if find_pat(v.take(m), lc) >= 0 {
            let r = find_pat(v.take(m), lc);
            assert(v.take(m) =~= v.subrange(0, m));
            lemma_occurs_within(v, 0, m, lc, r);
        }
        assert(cut_line_comment(trim(s)) == v.take(m));
        let z = v.skip(m).push(' ');
        assert(v.push(' ') =~= v.take(m) + z);
        assert forall|q: int| 0 <= q < z.len() implies inert(#[trigger] z[q]) by {
            if q < z.len() - 1 {
                assert(z[q] == v[m + q]);
                assert(v[m + q] == s[k + m + q]);
                lemma_space_inert(s[k + m + q]);
            } else {
                assert(z[q] == ' ');
                lemma_space_inert(' ');
            }
        }
        lemma_code_score_tail(v.take(m), z);
    }
}

/// A single word of ASCII letters, digits and `_` scores 1 exactly when it is
/// one of the counted keywords `if`, `while`, `for`, `switch`, `case`,
/// `catch` and `match`, and 0 otherwise (so `return`, `shift` or `iffy`
/// score nothing).
pub proof fn law_keywords_are_exactly(w: Seq<char>)
    requires
        forall|k: int| 0 <= k < w.len() ==> ascii_alphanumeric(#[trigger] w[k]) || w[k] == '_',
    ensures
        heuristic_complexity(w) == if w == seq!['i', 'f'] || w == seq!['w', 'h', 'i', 'l', 'e'] || w
            == seq!['f', 'o', 'r'] || w == seq!['s', 'w', 'i', 't', 'c', 'h'] || w == seq![
            'c',
            'a',
            's',
            'e',
        ] || w == seq!['c', 'a', 't', 'c', 'h'] || w == seq!['m', 'a', 't', 'c', 'h'] {
            1nat
        } else {
            0nat
        },
{
    assert forall|k: int| 0 <= k < w.len() implies w[k] != '\n' by {}
    lemma_single_line(w);
    assert forall|r: int| !#[trigger] occurs_at(w, pat_block_open(), r) by {
        if occurs_at(w, pat_block_open(), r) {
            assert(w[r] == w.subrange(r, r + 2)[0]);
        }
    }
    lemma_line_step_plain(w);
    if w.len() > 0 {
        assert(!unicode_whitespace(w[0]));
        assert(!unicode_whitespace(w.last()));
    }
    assert(trim_start(w) == w);
    assert(trim(w) == w);
    lemma_find_pat_bounds(w, pat_line_comment());
    if find_pat(w, pat_line_comment()) >= 0 {
        let r = find_pat(w, pat_line_comment());
        assert(w[r] == w.subrange(r, r + 2)[0]);
    }
    assert(cut_line_comment(w) == w);
    assert forall|k: int| 0 <= k < w.len() implies #[trigger] w[k] != '"' by {}
    lemma_unquoted_plain(w, false);
    assert forall|k: int| 0 <= k < w.len() implies #[trigger] w[k] != pat_and()[0] by {}
    assert forall|k: int| 0 <= k < w.len() implies #[trigger] w[k] != pat_or()[0] by {}
    assert forall|k: int| 0 <= k < w.len() implies #[trigger] w[k] != pat_question()[0] by {}
    lemma_matches_none(w, pat_and());
    lemma_matches_none(w, pat_or());
    lemma_matches_none(w, pat_question());
    assert forall|k: int| 0 <= k < w.len() implies !is_separator(#[trigger] w[k]) by {}
    lemma_first_separator_at(w, w.len() as int);
    assert(w.take(w.len() as int) =~= w);
}

// ---------------------------------------------------------------------------
// Implementation
// ---------------------------------------------------------------------------

/// The characters of `s`, in order.
pub(crate) fn chars_of(s: &str) -> (v: Vec<char>)
    ensures
        v@ == s@,
{
    let mut v: Vec<char> = Vec::new();
    for c in it: s.chars()
        invariant
            v@ == it.seq().take(it.index() as int),
            it.seq() == s@,
    {
        v.push(c);
    }
    v
}

/// Index of the first `c` in `v[lo..hi]`, or `hi`.
fn find_char_in(v: &Vec<char>, lo: usize, hi: usize, c: char) -> (n: usize)
    requires
        lo <= hi <= v.len(),
    ensures
        lo <= n <= hi,
        n - lo == find_char(v@.subrange(lo as int, hi as int), c),
{
    let mut i = lo;
    while i < hi
        invariant
            lo <= i <= hi <= v.len(),
            find_char(v@.subrange(lo as int, hi as int), c) == (i - lo) + find_char(
                v@.subrange(i as int, hi as int),
                c,
            ),
        decreases hi - i,
    {
        if v[i] == c {
            return i;
        }
        assert(v@.subrange(i as int, hi as int).skip(1) =~= v@.subrange(i + 1, hi as int));
        i += 1;
    }
    i
}

/// The bounds of `trim(v[lo..hi])` within `v`.
fn trim_range(v: &Vec<char>, lo: usize, hi: usize) -> (r: (usize, usize))
    requires
        lo <= hi <= v.len(),
    ensures
        lo <= r.0 <= r.1 <= hi,
        v@.subrange(r.0 as int, r.1 as int) == trim(v@.subrange(lo as int, hi as int)),
{
    let mut a = lo;
    while a < hi && is_whitespace(v[a])
        invariant
            lo <= a <= hi <= v.len(),
            trim_start(v@.subrange(lo as int, hi as int)) == trim_start(
                v@.subrange(a as int, hi as int),
            ),
        decreases hi - a,
    {
        assert(v@.subrange(a as int, hi as int).skip(1) =~= v@.subrange(a + 1, hi as int));
        a += 1;
    }
    let mut b = hi;
    while b > a && is_whitespace(v[b - 1])
        invariant
            lo <= a <= b <= hi <= v.len(),
            trim_start(v@.subrange(lo as int, hi as int)) == v@.subrange(a as int, hi as int),
            trim_end(v@.subrange(a as int, hi as int)) == trim_end(
                v@.subrange(a as int, b as int),
            ),
        decreases b - a,
    {
        assert(v@.subrange(a as int, b as int).drop_last() =~= v@.subrange(a as int, b - 1));
        b -= 1;
    }
    (a, b)
}

/// Whether `p` occurs in `v` at index `i`, within the bound `hi`.
pub(crate) fn matches_at(v: &Vec<char>, i: usize, hi: usize, p: &Vec<char>) -> (b: bool)
    requires
        i <= hi <= v.len(),
    ensures
        b == (i + p.len() <= hi && v@.subrange(i as int, i + p.len()) == p@),
{
    if p.len() > hi - i {
        return false;
    }
    let mut k: usize = 0;
    while k < p.len()
        invariant
            0 <= k <= p.len(),
            i + p.len() <= hi <= v.len(),
            forall|j: int| 0 <= j < k ==> v@[i + j] == p@[j],
        decreases p.len() - k,
    {
        if v[i + k] != p[k] {
            assert(v@.subrange(i as int, i + p.len())[k as int] == v@[i + k]);
            return false;
        }
        k += 1;
    }
    assert(v@.subrange(i as int, i + p.len()) =~= p@);
    true
}

/// Index of the first occurrence of `p` in `v[lo..hi]`, if any.
pub(crate) fn find_pat_in(v: &Vec<char>, lo: usize, hi: usize, p: &Vec<char>) -> (r: Option<usize>)
    requires
        lo <= hi <= v.len(),
        p.len() > 0,
    ensures
        match r {
            Some(k) => lo <= k && k + p.len() <= hi && find_pat(
                v@.subrange(lo as int, hi as int),
                p@,
            ) == k - lo,
            None => find_pat(v@.subrange(lo as int, hi as int), p@) == -1,
        },
{
    let mut i = lo;
    while i < hi && p.len() <= hi - i
        invariant
            lo <= i <= hi <= v.len(),
            p.len() > 0,
            find_pat(v@.subrange(lo as int, hi as int), p@) == (if find_pat(
                v@.subrange(i as int, hi as int),
                p@,
            ) < 0 {
                -1
            } else {
                find_pat(v@.subrange(i as int, hi as int), p@) + (i - lo)
            }),
        decreases hi - i,
    {
        let t = Ghost(v@.subrange(i as int, hi as int));
        assert(t@.take(p.len() as int) =~= v@.subrange(i as int, i + p.len()));
        if matches_at(v, i, hi, p) {
            return Some(i);
        }
        assert(t@.skip(1) =~= v@.subrange(i + 1, hi as int));
        i += 1;
    }
    None
}

/// Number of non-overlapping occurrences of `p` in `v[lo..hi]`.
fn count_pat_in(v: &Vec<char>, lo: usize, hi: usize, p: &Vec<char>) -> (n: usize)
    requires
        lo <= hi <= v.len(),
        p.len() > 0,
    ensures
        n == count_matches(v@.subrange(lo as int, hi as int), p@),
{
    let mut i = lo;
    let mut n: usize = 0;
    while i < hi && p.len() <= hi - i
        invariant
            lo <= i <= hi <= v.len(),
            p.len() > 0,
            n <= i - lo,
            count_matches(v@.subrange(lo as int, hi as int), p@) == n + count_matches(
                v@.subrange(i as int, hi as int),
                p@,
            ),
        decreases hi - i,
    {
        let t = Ghost(v@.subrange(i as int, hi as int));
        assert(t@.take(p.len() as int) =~= v@.subrange(i as int, i + p.len()));
        if matches_at(v, i, hi, p) {
            assert(t@.skip(p.len() as int) =~= v@.subrange(i + p.len(), hi as int));
            n += 1;
            i += p.len();
        } else {
            assert(t@.skip(1) =~= v@.subrange(i + 1, hi as int));
            i += 1;
        }
    }
    n
}

/// The patterns and keywords the score looks for, built once per text.
struct Patterns {
    and_pat: Vec<char>,
    or_pat: Vec<char>,
    question_pat: Vec<char>,
    line_comment: Vec<char>,
    block_open: Vec<char>,
    block_close: Vec<char>,
    kw_if: Vec<char>,
    kw_while: Vec<char>,
    kw_for: Vec<char>,
    kw_switch: Vec<char>,
    kw_case: Vec<char>,
    kw_catch: Vec<char>,
    kw_match: Vec<char>,
}

impl Patterns {
    spec fn wf(&self) -> bool {
        &&& self.and_pat@ == pat_and()
        &&& self.or_pat@ == pat_or()
        &&& self.question_pat@ == pat_question()
        &&& self.line_comment@ == pat_line_comment()
        &&& self.block_open@ == pat_block_open()
        &&& self.block_close@ == pat_block_close()
        &&& self.kw_if@ == seq!['i', 'f']
        &&& self.kw_while@ == seq!['w', 'h', 'i', 'l', 'e']
        &&& self.kw_for@ == seq!['f', 'o', 'r']
        &&& self.kw_switch@ == seq!['s', 'w', 'i', 't', 'c', 'h']
        &&& self.kw_case@ == seq!['c', 'a', 's', 'e']
        &&& self.kw_catch@ == seq!['c', 'a', 't', 'c', 'h']
        &&& self.kw_match@ == seq!['m', 'a', 't', 'c', 'h']
    }

    fn new() -> (p: Patterns)
        ensures
            p.wf(),
    {
        let p = Patterns {
            and_pat: vec!['&', '&'],
            or_pat: vec!['|', '|'],
            question_pat: vec!['?'],
            line_comment: vec!['/', '/'],
            block_open: vec!['/', '*'],
            block_close: vec!['*', '/'],
            kw_if: vec!['i', 'f'],
            kw_while: vec!['w', 'h', 'i', 'l', 'e'],
            kw_for: vec!['f', 'o', 'r'],
            kw_switch: vec!['s', 'w', 'i', 't', 'c', 'h'],
            kw_case: vec!['c', 'a', 's', 'e'],
            kw_catch: vec!['c', 'a', 't', 'c', 'h'],
            kw_match: vec!['m', 'a', 't', 'c', 'h'],
        };
        assert(p.and_pat@ =~= pat_and());
        assert(p.or_pat@ =~= pat_or());
        assert(p.question_pat@ =~= pat_question());
        assert(p.line_comment@ =~= pat_line_comment());
        assert(p.block_open@ =~= pat_block_open());
        assert(p.block_close@ =~= pat_block_close());
        p
    }
}

/// Whether `v[lo..hi]` is one of the counted keywords.
fn is_keyword_in(v: &Vec<char>, lo: usize, hi: usize, pats: &Patterns) -> (b: bool)
    requires
        lo <= hi <= v.len(),
        pats.wf(),
    ensures
        b == is_keyword(v@.subrange(lo as int, hi as int)),
{
    let n = hi - lo;
    assert(pats.kw_if@.len() == 2 && pats.kw_while@.len() == 5 && pats.kw_for@.len() == 3
        && pats.kw_switch@.len() == 6 && pats.kw_case@.len() == 4 && pats.kw_catch@.len() == 5
        && pats.kw_match@.len() == 5);
    assert(v@.subrange(lo as int, hi as int) =~= v@.subrange(lo as int, lo + n));
    (n == 2 && matches_at(v, lo, hi, &pats.kw_if)) || (n == 5 && matches_at(v, lo, hi, &pats.kw_while))
        || (n == 3 && matches_at(v, lo, hi, &pats.kw_for)) || (n == 6 && matches_at(
        v,
        lo,
        hi,
        &pats.kw_switch,
    )) || (n == 4 && matches_at(v, lo, hi, &pats.kw_case)) || (n == 5 && matches_at(
        v,
        lo,
        hi,
        &pats.kw_catch,
    )) || (n == 5 && matches_at(v, lo, hi, &pats.kw_match))
}

/// Number of the separator-delimited pieces of `v[lo..hi]` that are keywords.
fn keyword_tokens_in(v: &Vec<char>, lo: usize, hi: usize, pats: &Patterns) -> (n: usize)
    requires
        lo <= hi <= v.len(),
        pats.wf(),
    ensures
        n == keyword_tokens(v@.subrange(lo as int, hi as int)),
{
    let mut n: usize = 0;
    let mut start = lo;
    let mut i = lo;
    while i < hi
        invariant
            lo <= start <= i <= hi <= v.len(),
            pats.wf(),
            n <= start - lo,
            forall|k: int| start <= k < i ==> !is_separator(#[trigger] v@[k]),
            keyword_tokens(v@.subrange(lo as int, hi as int)) == n + keyword_tokens(
                v@.subrange(start as int, hi as int),
            ),
        decreases hi - i,
    {
        let c = v[i];
        if !is_alphanumeric(c) && c != '_' {
            let t = Ghost(v@.subrange(start as int, hi as int));
            assert forall|k: int| 0 <= k < i - start implies !is_separator(t@[k]) by {
                assert(t@[k] == v@[start + k]);
            }
            proof {
                lemma_first_separator_at(t@, i - start);
            }
            assert(t@.take(i - start) =~= v@.subrange(start as int, i as int));
            assert(t@.skip(i - start + 1) =~= v@.subrange(i + 1, hi as int));
            if is_keyword_in(v, start, i, pats) {
                proof {
                    lemma_keyword_plain(v@.subrange(start as int, i as int));
                }
                n += 1;
            }
            start = i + 1;
        }
        i += 1;
    }
    let t = Ghost(v@.subrange(start as int, hi as int));
    assert forall|k: int| 0 <= k < hi - start implies !is_separator(t@[k]) by {
        assert(t@[k] == v@[start + k]);
    }
    proof {
        lemma_first_separator_at(t@, hi - start);
    }
    assert(t@.take(hi - start) =~= t@);
    if is_keyword_in(v, start, hi, pats) {
        proof {
            lemma_keyword_plain(t@);
        }
        n += 1;
    }
    n
}

/// The score of the code `v[lo..hi]`.
fn token_score_in(v: &Vec<char>, lo: usize, hi: usize, pats: &Patterns) -> (n: usize)
    requires
        lo <= hi <= v.len(),
        pats.wf(),
    ensures
        n == token_score(v@.subrange(lo as int, hi as int)),
{
    proof {
        lemma_token_score_bound(v@.subrange(lo as int, hi as int));
    }
    let a = count_pat_in(v, lo, hi, &pats.and_pat);
    let o = count_pat_in(v, lo, hi, &pats.or_pat);
    let q = count_pat_in(v, lo, hi, &pats.question_pat);
    let k = keyword_tokens_in(v, lo, hi, pats);
    a + o + q + k
}


/// The characters of `v[lo..hi]` without the text of its double-quoted strings.
fn unquoted_in(v: &Vec<char>, lo: usize, hi: usize) -> (u: Vec<char>)
    requires
        lo <= hi <= v.len(),
    ensures
        u@ == unquoted(v@.subrange(lo as int, hi as int), false, false),
{
    let mut u: Vec<char> = Vec::new();
    let mut in_str = false;
    let mut escaped = false;
    let mut i = lo;
    proof {
        assert(u@ + v@.subrange(lo as int, hi as int) =~= v@.subrange(lo as int, hi as int));
    }
    while i < hi
        invariant
            lo <= i <= hi <= v.len(),
            !in_str ==> !escaped,
            u@ + unquoted(v@.subrange(i as int, hi as int), in_str, escaped) == unquoted(
                v@.subrange(lo as int, hi as int),
                false,
                false,
            ),
        decreases hi - i,
    {
        let c = v[i];
        let ghost rest = v@.subrange(i as int, hi as int);
        let ghost before = u@;
        let ghost s0 = in_str;
        let ghost e0 = escaped;
        proof {
            assert(rest[0] == c);
            assert(rest.skip(1) =~= v@.subrange(i + 1, hi as int));
            assert(rest.len() > 0);
        }
        if in_str {
            if escaped {
                escaped = false;
                assert(unquoted(rest, s0, e0) == unquoted(rest.skip(1), true, false));
            } else if c == '\\' {
                escaped = true;
                assert(unquoted(rest, s0, e0) == unquoted(rest.skip(1), true, true));
            } else if c != '"' {
                assert(unquoted(rest, s0, e0) == unquoted(rest.skip(1), true, false));
            } else {
                u.push(c);
                in_str = false;
                proof {
                    assert(unquoted(rest, s0, e0) == seq!['"'] + unquoted(rest.skip(1), false, false));
                    assert(before + (seq!['"'] + unquoted(rest.skip(1), false, false)) =~= u@
                        + unquoted(rest.skip(1), false, false));
                }
            }
        } else if c == '"' {
            u.push(c);
            in_str = true;
            proof {
                assert(unquoted(rest, s0, e0) == seq!['"'] + unquoted(rest.skip(1), true, false));
                assert(before + (seq!['"'] + unquoted(rest.skip(1), true, false)) =~= u@
                    + unquoted(rest.skip(1), true, false));
            }
        } else {
            u.push(c);
            proof {
                assert(unquoted(rest, s0, e0) == seq![c] + unquoted(rest.skip(1), false, false));
                assert(before + (seq![c] + unquoted(rest.skip(1), false, false)) =~= u@
                    + unquoted(rest.skip(1), false, false));
            }
        }
        proof {
            assert(u@ + unquoted(rest.skip(1), in_str, escaped) == before + unquoted(rest, s0, e0));
            assert(u@ + unquoted(v@.subrange(i + 1, hi as int), in_str, escaped) == unquoted(
                v@.subrange(lo as int, hi as int),
                false,
                false,
            ));
        }
        i += 1;
    }
    proof {
        assert(v@.subrange(hi as int, hi as int) =~= Seq::<char>::empty());
        assert(u@ + Seq::<char>::empty() =~= u@);
    }
    u
}

/// Score of the code `v[lo..hi]`, outside its strings (see `code_score`).
fn code_score_in(v: &Vec<char>, lo: usize, hi: usize, pats: &Patterns) -> (n: usize)
    requires
        lo <= hi <= v.len(),
        pats.wf(),
    ensures
        n == code_score(v@.subrange(lo as int, hi as int)),
{
    let u = unquoted_in(v, lo, hi);
    proof {
        assert(u@.subrange(0, u@.len() as int) =~= u@);
    }
    token_score_in(&u, 0, u.len(), pats)
}

/// Score of the line `v[lo..hi]` and whether a block comment is open after
/// it (see `line_step`).
fn line_step_in(v: &Vec<char>, lo: usize, hi: usize, in_block: bool, pats: &Patterns) -> (r: (
    usize,
    bool,
))
    requires
        lo <= hi <= v.len(),
        pats.wf(),
    ensures
        r.0 == line_step(v@.subrange(lo as int, hi as int), in_block).0,
        r.1 == line_step(v@.subrange(lo as int, hi as int), in_block).1,
{
    let (a, b) = trim_range(v, lo, hi);
    let t = Ghost(v@.subrange(a as int, b as int));
    let line_comment = &pats.line_comment;
    if in_block {
        match find_pat_in(v, a, b, &pats.block_close) {
            Some(e) => {
                let from = e + 2;
                assert(t@.skip(e - a + 2) =~= v@.subrange(from as int, b as int));
                let to = match find_pat_in(v, from, b, line_comment) {
                    Some(j) => {
                        assert(v@.subrange(from as int, b as int).take(j - from) =~= v@.subrange(
                            from as int,
                            j as int,
                        ));
                        j
                    },
                    None => b,
                };
                (code_score_in(v, from, to, pats), false)
            },
            None => (0, true),
        }
    } else {
        match find_pat_in(v, a, b, &pats.block_open) {
            Some(st) => {
                assert(t@.take(st - a) =~= v@.subrange(a as int, st as int));
                let to = match find_pat_in(v, a, st, line_comment) {
                    Some(j) => {
                        assert(v@.subrange(a as int, st as int).take(j - a) =~= v@.subrange(
                            a as int,
                            j as int,
                        ));
                        j
                    },
                    None => st,
                };
                (code_score_in(v, a, to, pats), true)
            },
            None => {
                let to = match find_pat_in(v, a, b, line_comment) {
                    Some(j) => {
                        assert(t@.take(j - a) =~= v@.subrange(a as int, j as int));
                        j
                    },
                    None => b,
                };
                (code_score_in(v, a, to, pats), false)
            },
        }
    }
}

/// The heuristic complexity of a source text: over its lines, with block
/// comments (`/* .. */`, tracked across lines) and line comments (`//`)
/// left out, and then the text inside double-quoted strings left out (a
/// backslash escapes the next character; a string left open runs to the
/// end of the line), the number of `&&`, `||` and `?` plus the number of
/// separator-delimited words that are `if`, `while`, `for`, `switch`,
/// `case`, `catch` or `match`.
pub fn calculate_heuristic_complexity(content: &str) -> (score: usize)
    ensures
        score == heuristic_complexity(content@),
{
    let v = chars_of(content);
    let pats = Patterns::new();
    let len = v.len();
    let mut pos: usize = 0;
    let mut in_block = false;
    let mut score: usize = 0;
    proof {
        lemma_text_score_bound(v@, false);
        assert(v@.subrange(0, len as int) =~= v@);
    }
    while pos < len
        invariant
            pos <= len == v.len(),
            v@ == content@,
            pats.wf(),
            heuristic_complexity(v@) == score + text_score(
                v@.subrange(pos as int, len as int),
                in_block,
            ),
            heuristic_complexity(v@) <= len,
        decreases len - pos,
    {
        let rest = Ghost(v@.subrange(pos as int, len as int));
        let n = find_char_in(&v, pos, len, '\n');
        proof {
            lemma_find_char_bounds(rest@, '\n');
        }
        let end = if n < len && n > pos && v[n - 1] == '\r' {
            n - 1
        } else {
            n
        };
        assert(first_line(rest@) =~= v@.subrange(pos as int, end as int));
        let (line_score, next_block) = line_step_in(&v, pos, end, in_block, &pats);
        if n < len {
            assert(after_first_line(rest@) =~= v@.subrange(n + 1, len as int));
            score = score + line_score;
            pos = n + 1;
        } else {
            assert(after_first_line(rest@) =~= v@.subrange(len as int, len as int));
            score = score + line_score;
            pos = len;
        }
        in_block = next_block;
    }
    score
}

} // verus!
