//! Screen output: the exact text written for partial and final results, and
//! the normalisation of recogniser text.
//!
//! Two output modes: a terminal, where a partial result is redrawn in place
//! and a final result may overwrite the line above it; and a pipe, where each
//! result is a plain line. Every line shows the text with separator spaces
//! removed and, unless the caller switches it off, Chinese numerals converted
//! to digits.
//!
//! Escape sequences: `\r` returns to the start of the line, `ESC [2K` erases
//! the line, `ESC [1A` moves the cursor up one line. A replacement line must
//! follow its final line directly, with nothing printed in between.

use vstd::prelude::*;
use crate::itn::{itn, itn_spec};
use crate::text::{chars_of, string_from_chars};

verus! {

/// An ASCII character.
pub open spec fn is_ascii_char(c: char) -> bool {
    (c as u32) < 128
}

/// A character that may belong to a word of ASCII text: ASCII, not a space.
pub open spec fn is_word_char(c: char) -> bool {
    is_ascii_char(c) && c != ' '
}

/// The position of the nearest character before position `i` of `s` that is
/// not an ASCII space.
pub open spec fn prev_non_space(s: Seq<char>, i: int) -> Option<int>
    decreases i,
{
    if i <= 0 {
        None
    } else if s[i - 1] != ' ' {
        Some(i - 1)
    } else {
        prev_non_space(s, i - 1)
    }
}

/// The position of the nearest character after position `i` of `s` that is
/// not an ASCII space.
pub open spec fn next_non_space(s: Seq<char>, i: int) -> Option<int>
    decreases s.len() - i,
{
    if i + 1 >= s.len() {
        None
    } else if s[i + 1] != ' ' {
        Some(i + 1)
    } else {
        next_non_space(s, i + 1)
    }
}

/// An ASCII word of at least two characters ends at position `p`.
pub open spec fn word_ends_at(s: Seq<char>, p: int) -> bool {
    1 <= p < s.len() && is_word_char(s[p - 1]) && is_word_char(s[p])
}

/// An ASCII word of at least two characters starts at position `q`.
pub open spec fn word_starts_at(s: Seq<char>, q: int) -> bool {
    0 <= q && q + 1 < s.len() && is_word_char(s[q]) && is_word_char(s[q + 1])
}

/// Whether the character at position `i` is shown: every character but an
/// ASCII space is; an ASCII space is shown only in a gap between two words
/// of ASCII text of at least two characters each ("divide test"). The
/// spaces the recogniser puts between Chinese characters ("今 天"), between
/// the letters it spells out one by one ("d i v i d"), next to Chinese text
/// or at either end are dropped.
pub open spec fn is_kept(s: Seq<char>, i: int) -> bool {
    s[i] != ' ' || (match prev_non_space(s, i) {
        Some(p) => word_ends_at(s, p),
        None => false,
    } && match next_non_space(s, i) {
        Some(q) => word_starts_at(s, q),
        None => false,
    })
}

/// The kept characters among the first `n` of `s`, in order.
pub open spec fn kept_prefix(s: Seq<char>, n: int) -> Seq<char>
    decreases n,
{
    if n <= 0 {
        Seq::empty()
    } else if is_kept(s, n - 1) {
        kept_prefix(s, n - 1).push(s[n - 1])
    } else {
        kept_prefix(s, n - 1)
    }
}

/// `s` with the separator spaces removed (see `is_kept`).
pub open spec fn stripped(s: Seq<char>) -> Seq<char> {
    kept_prefix(s, s.len() as int)
}

proof fn lemma_prev_over_spaces(s: Seq<char>, a: int, k: int)
    requires
        0 <= a <= k <= s.len(),
        forall|m: int| a <= m < k ==> s[m] == ' ',
    ensures
        prev_non_space(s, k) == prev_non_space(s, a),
    decreases k - a,
{
    if k > a {
        lemma_prev_over_spaces(s, a, k - 1);
    }
}

proof fn lemma_next_over_spaces(s: Seq<char>, k: int, i: int)
    requires
        0 <= k < i <= s.len(),
        forall|m: int| k < m < i ==> s[m] == ' ',
        i < s.len() ==> s[i] != ' ',
    ensures
        i < s.len() ==> next_non_space(s, k) == Some(i),
        i == s.len() ==> next_non_space(s, k) is None,
    decreases i - k,
{
    if k + 1 < i {
        lemma_next_over_spaces(s, k + 1, i);
    }
}

proof fn lemma_kept_over_spaces(s: Seq<char>, a: int, i: int, keep: bool)
    requires
        0 <= a <= i <= s.len(),
        forall|m: int| a <= m < i ==> s[m] == ' ',
        forall|m: int| a <= m < i ==> is_kept(s, m) == keep,
    ensures
        kept_prefix(s, i) == kept_prefix(s, a) + if keep {
            Seq::new((i - a) as nat, |m: int| ' ')
        } else {
            Seq::<char>::empty()
        },
    decreases i - a,
{
    if i > a {
        lemma_kept_over_spaces(s, a, i - 1, keep);
        if keep {
            assert(Seq::new((i - a) as nat, |m: int| ' ') =~= Seq::new(
                (i - 1 - a) as nat,
                |m: int| ' ',
            ).push(' '));
        }
    } else {
        if keep {
            assert(Seq::new((i - a) as nat, |m: int| ' ') =~= Seq::<char>::empty());
        }
    }
}

/// Whether the characters at `p - 1` and `p` of `chars` are both ASCII
/// non-space characters.
fn word_char_pair(chars: &Vec<char>, p: usize) -> (res: bool)
    requires
        1 <= p < chars@.len(),
    ensures
        res == (is_word_char(chars@[p - 1]) && is_word_char(chars@[p as int])),
{
    let a = chars[p - 1];
    let b = chars[p];
    (a as u32) < 128 && a != ' ' && (b as u32) < 128 && b != ' '
}

/// Removes the ASCII spaces that the streaming recogniser puts between
/// characters: every space that is not a gap between two ASCII words (see
/// `is_kept`). Other characters, the full-width space `　` and punctuation
/// included, are kept in order.
pub fn strip_display_spaces(s: &str) -> (res: String)
    ensures
        res@ == stripped(s@),
{
    let chars = chars_of(s);
    let ghost t = chars@;
    let n = chars.len();
    let mut out: Vec<char> = Vec::new();
    // Whether an ASCII word of at least two characters ends just before the
    // current run of spaces.
    let mut word_before = false;
    let mut run_start: usize = 0;
    let mut i: usize = 0;
    while i < n
        invariant
            n == t.len(),
            t == chars@,
            run_start <= i <= n,
            forall|m: int| run_start <= m < i ==> t[m] == ' ',
            out@ == kept_prefix(t, run_start as int),
            word_before == match prev_non_space(t, run_start as int) {
                Some(p) => word_ends_at(t, p),
                None => false,
            },
        decreases n - i,
    {
        let c = chars[i];
        if c == ' ' {
            i = i + 1;
        } else {
            let keep = word_before && i + 1 < n && word_char_pair(&chars, i + 1);
            proof {
                assert forall|m: int| run_start <= m < i implies is_kept(t, m) == keep by {
                    lemma_prev_over_spaces(t, run_start as int, m);
                    lemma_next_over_spaces(t, m, i as int);
                }
                lemma_kept_over_spaces(t, run_start as int, i as int, keep);
            }
            if keep {
                let mut k = run_start;
                let ghost base = out@;
                while k < i
                    invariant
                        run_start <= k <= i,
                        out@ == base + Seq::new((k - run_start) as nat, |m: int| ' '),
                    decreases i - k,
                {
                    out.push(' ');
                    k = k + 1;
                    assert(out@ =~= base + Seq::new((k - run_start) as nat, |m: int| ' '));
                }
            }
            out.push(c);
            proof {
                assert(is_kept(t, i as int));
                assert(out@ =~= kept_prefix(t, i + 1));
            }
            word_before = i >= 1 && word_char_pair(&chars, i);
            i = i + 1;
            run_start = i;
        }
    }
    proof {
        assert forall|m: int| run_start <= m < n implies is_kept(t, m) == false by {
            lemma_next_over_spaces(t, m, n as int);
        }
        lemma_kept_over_spaces(t, run_start as int, n as int, false);
        assert(out@ =~= stripped(t));
    }
    string_from_chars(out.as_slice())
}

/// Both sides of a comparison are stripped first, so a spaced streaming
/// result and an unspaced refined result compare by their characters.
pub fn normalize_for_compare(s: &str) -> (res: String)
    ensures
        res@ == stripped(s@),
{
    strip_display_spaces(s)
}

/// The text shown for a recogniser result: separator spaces removed, then,
/// unless normalisation is switched off, numerals normalised.
pub open spec fn shown(text: Seq<char>, itn_enabled: bool) -> Seq<char> {
    if itn_enabled {
        itn_spec(stripped(text))
    } else {
        stripped(text)
    }
}

/// Erase the current line: `\r ESC [2K`.
pub open spec fn erase_line() -> Seq<char> {
    seq!['\r', '\x1b', '[', '2', 'K']
}

/// Move up one line: `ESC [1A`.
pub open spec fn cursor_up() -> Seq<char> {
    seq!['\x1b', '[', '1', 'A']
}

/// The mark of a partial result: `"▌ "`.
pub open spec fn partial_mark() -> Seq<char> {
    seq!['▌', ' ']
}

/// The mark of a final result: `"✅ "`.
pub open spec fn final_mark() -> Seq<char> {
    seq!['✅', ' ']
}

/// The characters written for a partial result.
pub open spec fn partial_line_spec(text: Seq<char>, tty: bool, itn_enabled: bool) -> Seq<char> {
    if tty {
        erase_line() + partial_mark() + shown(text, itn_enabled)
    } else {
        shown(text, itn_enabled).push('\n')
    }
}

/// The characters written for a final result.
pub open spec fn final_line_spec(text: Seq<char>, tty: bool, itn_enabled: bool) -> Seq<char> {
    if tty {
        (erase_line() + final_mark() + shown(text, itn_enabled)).push('\n')
    } else {
        (seq!['\n'] + final_mark() + shown(text, itn_enabled)).push('\n')
    }
}

/// The characters written when a refined result replaces the final line just
/// written; through a pipe there is no line to overwrite, so a new line is
/// appended.
pub open spec fn final_replace_line_spec(text: Seq<char>, tty: bool, itn_enabled: bool) -> Seq<char> {
    if tty {
        (cursor_up() + erase_line() + final_mark() + shown(text, itn_enabled)).push('\n')
    } else {
        (seq!['\n'] + final_mark() + shown(text, itn_enabled)).push('\n')
    }
}

fn shown_chars(text: &str, itn_enabled: bool) -> (res: Vec<char>)
    ensures
        res@ == shown(text@, itn_enabled),
{
    let stripped = strip_display_spaces(text);
    if itn_enabled {
        let normalized = itn(stripped.as_str());
        chars_of(normalized.as_str())
    } else {
        chars_of(stripped.as_str())
    }
}

fn append(out: &mut Vec<char>, tail: &Vec<char>)
    ensures
        final(out)@ == old(out)@ + tail@,
{
    let n = tail.len();
    let mut i: usize = 0;
    while i < n
        invariant
            n == tail@.len(),
            i <= n,
            out@ == old(out)@ + tail@.take(i as int),
        decreases n - i,
    {
        out.push(tail[i]);
        i = i + 1;
        assert(tail@.take(i as int) =~= tail@.take((i - 1) as int).push(tail@[i - 1]));
    }
    assert(tail@.take(n as int) =~= tail@);
}

/// The line that shows a partial result: redrawn in place on a terminal,
/// a plain line through a pipe.
pub fn partial_line(text: &str, tty: bool, itn_enabled: bool) -> (res: String)
    ensures
        res@ == partial_line_spec(text@, tty, itn_enabled),
{
    let body = shown_chars(text, itn_enabled);
    let mut out: Vec<char> = Vec::new();
    if tty {
        out.push('\r');
        out.push('\x1b');
        out.push('[');
        out.push('2');
        out.push('K');
        out.push('▌');
        out.push(' ');
        append(&mut out, &body);
    } else {
        append(&mut out, &body);
        out.push('\n');
    }
    assert(out@ =~= partial_line_spec(text@, tty, itn_enabled));
    string_from_chars(out.as_slice())
}

/// The line that commits a final result: on a terminal it overwrites the
/// partial line and ends it; through a pipe it starts with a blank line.
pub fn final_line(text: &str, tty: bool, itn_enabled: bool) -> (res: String)
    ensures
        res@ == final_line_spec(text@, tty, itn_enabled),
{
    let body = shown_chars(text, itn_enabled);
    let mut out: Vec<char> = Vec::new();
    if tty {
        out.push('\r');
        out.push('\x1b');
        out.push('[');
        out.push('2');
        out.push('K');
    } else {
        out.push('\n');
    }
    out.push('✅');
    out.push(' ');
    append(&mut out, &body);
    out.push('\n');
    assert(out@ =~= final_line_spec(text@, tty, itn_enabled));
    string_from_chars(out.as_slice())
}

/// The line that replaces the final line just written.
pub fn final_replace_line(text: &str, tty: bool, itn_enabled: bool) -> (res: String)
    ensures
        res@ == final_replace_line_spec(text@, tty, itn_enabled),
{
    let body = shown_chars(text, itn_enabled);
    let mut out: Vec<char> = Vec::new();
    if tty {
        out.push('\x1b');
        out.push('[');
        out.push('1');
        out.push('A');
        out.push('\r');
        out.push('\x1b');
        out.push('[');
        out.push('2');
        out.push('K');
    } else {
        out.push('\n');
    }
    out.push('✅');
    out.push(' ');
    append(&mut out, &body);
    out.push('\n');
    assert(out@ =~= final_replace_line_spec(text@, tty, itn_enabled));
    string_from_chars(out.as_slice())
}

/// What every line shows of a result: the partial, final and replacement
/// lines all show the same text after their marks, and that text is the
/// space-stripped result with its numerals normalised, or left as they are
/// when normalisation is off.
pub proof fn lemma_lines_show_same_text(text: Seq<char>, tty: bool, itn_enabled: bool)
    ensures
        ({
            let body = if itn_enabled {
                itn_spec(stripped(text))
            } else {
                stripped(text)
            };
            &&& tty ==> partial_line_spec(text, tty, itn_enabled) == erase_line() + partial_mark()
                + body
            &&& !tty ==> partial_line_spec(text, tty, itn_enabled) == body.push('\n')
            &&& tty ==> final_line_spec(text, tty, itn_enabled) == (erase_line() + final_mark()
                + body).push('\n')
            &&& !tty ==> final_line_spec(text, tty, itn_enabled) == (seq!['\n'] + final_mark()
                + body).push('\n')
            &&& tty ==> final_replace_line_spec(text, tty, itn_enabled) == (cursor_up()
                + erase_line() + final_mark() + body).push('\n')
            &&& !tty ==> final_replace_line_spec(text, tty, itn_enabled) == (seq!['\n']
                + final_mark() + body).push('\n')
        }),
{
}

/// `s` with every ASCII space taken out.
pub open spec fn without_spaces(s: Seq<char>) -> Seq<char>
    decreases s.len(),
{
    if s.len() == 0 {
        Seq::empty()
    } else if s.last() == ' ' {
        without_spaces(s.drop_last())
    } else {
        without_spaces(s.drop_last()).push(s.last())
    }
}

proof fn lemma_kept_prefix_spaces(s: Seq<char>, n: int)
    requires
        0 <= n <= s.len(),
    ensures
        without_spaces(kept_prefix(s, n)) == without_spaces(s.take(n)),
        (forall|k: int| 0 <= k < s.len() - 1 ==> !(is_word_char(#[trigger] s[k]) && is_word_char(
            s[k + 1],
        ))) ==> kept_prefix(s, n) == without_spaces(s.take(n)),
    decreases n,
{
    if n > 0 {
        lemma_kept_prefix_spaces(s, n - 1);
        assert(s.take(n).drop_last() =~= s.take(n - 1));
        assert(s.take(n).last() == s[n - 1]);
        let kp = kept_prefix(s, n - 1);
        if is_kept(s, n - 1) {
            assert(kp.push(s[n - 1]).drop_last() =~= kp);
        }
        if forall|k: int| 0 <= k < s.len() - 1 ==> !(is_word_char(#[trigger] s[k]) && is_word_char(
            s[k + 1],
        )) {
            if s[n - 1] == ' ' {
                match prev_non_space(s, n - 1) {
                    Some(p) => {
                        lemma_prev_in_range(s, n - 1);
                        assert(!word_ends_at(s, p));
                    },
                    None => {},
                }
            }
        }
    } else {
        assert(s.take(0) =~= Seq::<char>::empty());
    }
}

proof fn lemma_prev_in_range(s: Seq<char>, i: int)
    requires
        0 <= i <= s.len(),
    ensures
        prev_non_space(s, i) matches Some(p) ==> 0 <= p < i && s[p] != ' ',
    decreases i,
{
    if i > 0 && s[i - 1] == ' ' {
        lemma_prev_in_range(s, i - 1);
    }
}

/// Stripping only takes out ASCII spaces: every other character is kept,
/// in order.
pub proof fn lemma_strip_keeps_other_characters(s: Seq<char>)
    ensures
        without_spaces(stripped(s)) == without_spaces(s),
{
    lemma_kept_prefix_spaces(s, s.len() as int);
    assert(s.take(s.len() as int) =~= s);
}

/// Text with no two ASCII non-space characters in a row, such as Chinese
/// text or letters spelled out one by one ("d i v i d"), loses all its
/// ASCII spaces.
pub proof fn lemma_strip_without_words(s: Seq<char>)
    requires
        forall|k: int| 0 <= k < s.len() - 1 ==> !(is_word_char(#[trigger] s[k]) && is_word_char(
            s[k + 1],
        )),
    ensures
        stripped(s) == without_spaces(s),
{
    lemma_kept_prefix_spaces(s, s.len() as int);
    assert(s.take(s.len() as int) =~= s);
}

proof fn lemma_all_kept(s: Seq<char>, n: int)
    requires
        0 <= n <= s.len(),
        forall|k: int| 0 <= k < s.len() ==> is_kept(s, k),
    ensures
        kept_prefix(s, n) == s.take(n),
    decreases n,
{
    if n > 0 {
        lemma_all_kept(s, n - 1);
        assert(s.take(n) =~= s.take(n - 1).push(s[n - 1]));
    } else {
        assert(s.take(0) =~= Seq::<char>::empty());
    }
}

/// A single space between two ASCII words of at least two characters each
/// ("divide test") is kept.
pub proof fn lemma_strip_keeps_word_gap(a: Seq<char>, b: Seq<char>)
    requires
        a.len() >= 2,
        b.len() >= 2,
        forall|k: int| 0 <= k < a.len() ==> #[trigger] a[k] != ' ',
        forall|k: int| 0 <= k < b.len() ==> #[trigger] b[k] != ' ',
        is_word_char(a[a.len() - 2]),
        is_word_char(a[a.len() - 1]),
        is_word_char(b[0]),
        is_word_char(b[1]),
    ensures
        stripped(a + seq![' '] + b) == a + seq![' '] + b,
{
    let s = a + seq![' '] + b;
    let i = a.len() as int;
    assert forall|k: int| 0 <= k < s.len() implies is_kept(s, k) by {
        if k < i {
            assert(s[k] == a[k]);
        } else if k > i {
            assert(s[k] == b[k - i - 1]);
        } else {
            assert(s[i - 1] == a[i - 1] && s[i - 2] == a[i - 2]);
            assert(s[i + 1] == b[0] && s[i + 2] == b[1]);
            assert(prev_non_space(s, i) == Some(i - 1));
            assert(next_non_space(s, i) == Some(i + 1));
        }
    }
    lemma_all_kept(s, s.len() as int);
    assert(s.take(s.len() as int) =~= s);
}

} // verus!
