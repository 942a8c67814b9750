//! ITN (inverse text normalisation): Chinese numerals to Arabic digits.
//!
//! Applied to the text shown on screen only ("二十秒" becomes "20秒"); the
//! session log and the refinement score keep the raw recogniser output.
//!
//! Covered: single digits (一..九, 两, 零/〇 and their financial forms), the
//! units 十/百/千 alone or combined ("X十Y", "X百Y", "X千Y"), the large units
//! 万/亿, compounds such as "三万二千三百四十五", and "百分之N" which becomes
//! "N%". A run of numeral characters is kept as it was when its value does
//! not fit in a `u64`, or when it holds a spoken range such as "两三" in
//! "两三个" (two or three), which names no single number.

use vstd::prelude::*;
use crate::text::{chars_of, decimal, push_decimal, string_from_chars};

verus! {

// ---------------------------------------------------------------------------
// Character classes
// ---------------------------------------------------------------------------

/// The digit value of a Chinese digit character.
pub open spec fn digit_value(c: char) -> Option<u64> {
    if c == '零' || c == '〇' {
        Some(0)
    } else if c == '一' || c == '壹' {
        Some(1)
    } else if c == '二' || c == '贰' || c == '两' {
        Some(2)
    } else if c == '三' || c == '叁' {
        Some(3)
    } else if c == '四' || c == '肆' {
        Some(4)
    } else if c == '五' || c == '伍' {
        Some(5)
    } else if c == '六' || c == '陆' {
        Some(6)
    } else if c == '七' || c == '柒' {
        Some(7)
    } else if c == '八' || c == '捌' {
        Some(8)
    } else if c == '九' || c == '玖' {
        Some(9)
    } else {
        None
    }
}

/// The value of a Chinese unit character.
pub open spec fn unit_value(c: char) -> Option<u64> {
    if c == '十' || c == '拾' {
        Some(10)
    } else if c == '百' || c == '佰' {
        Some(100)
    } else if c == '千' || c == '仟' {
        Some(1000)
    } else if c == '万' || c == '萬' {
        Some(10_000)
    } else if c == '亿' || c == '億' {
        Some(100_000_000)
    } else {
        None
    }
}

/// A character that may appear in a Chinese numeral: a digit or a unit.
pub open spec fn is_numeral_char(c: char) -> bool {
    digit_value(c) is Some || unit_value(c) is Some
}

/// Whether `c` is a Chinese digit or unit character.
pub fn is_chinese_number_char(c: char) -> (res: bool)
    ensures
        res == is_numeral_char(c),
{
    chinese_digit_value(c).is_some() || chinese_unit_value(c).is_some()
}

/// The digit value of `c`, if it is a Chinese digit.
pub fn chinese_digit_value(c: char) -> (res: Option<u64>)
    ensures
        res == digit_value(c),
{
    match c {
        '零' | '〇' => Some(0),
        '一' | '壹' => Some(1),
        '二' | '贰' | '两' => Some(2),
        '三' | '叁' => Some(3),
        '四' | '肆' => Some(4),
        '五' | '伍' => Some(5),
        '六' | '陆' => Some(6),
        '七' | '柒' => Some(7),
        '八' | '捌' => Some(8),
        '九' | '玖' => Some(9),
        _ => None,
    }
}

/// The value of `c`, if it is a Chinese unit.
pub fn chinese_unit_value(c: char) -> (res: Option<u64>)
    ensures
        res == unit_value(c),
{
    match c {
        '十' | '拾' => Some(10),
        '百' | '佰' => Some(100),
        '千' | '仟' => Some(1000),
        '万' | '萬' => Some(10_000),
        '亿' | '億' => Some(100_000_000),
        _ => None,
    }
}

// ---------------------------------------------------------------------------
// The value of a numeral
// ---------------------------------------------------------------------------

/// The state of the left-to-right reading of a numeral.
///
/// - `high`: the sections closed by 亿, already multiplied;
/// - `mid`: the sections closed by 万 since the last 亿, already multiplied;
/// - `total`: the closed low sections since the last 万 or 亿 ("三百" of
///   "三百二十");
/// - `current`: the open low section;
/// - `last_was_digit`: whether the last character was a digit.
pub struct NumeralState {
    pub high: u64,
    pub mid: u64,
    pub total: u64,
    pub current: u64,
    pub last_was_digit: bool,
}

/// The state before any character has been read.
pub open spec fn initial_state() -> NumeralState {
    NumeralState { high: 0, mid: 0, total: 0, current: 0, last_was_digit: false }
}

/// The value a high unit `u` gives to the section `sec` in front of it,
/// added to what the earlier sections of that rank hold (`acc`). An empty
/// section counts as 1, except right after another unit of the same rank,
/// which it multiplies ("万万" is 10^8).
pub open spec fn close_section(acc: nat, sec: nat, u: nat) -> nat {
    if sec == 0 {
        if acc == 0 {
            u
        } else {
            acc * u
        }
    } else {
        acc + sec * u
    }
}

/// Reads one more character; `None` when the character is not a numeral
/// character or a value leaves the range of `u64`.
///
/// - A digit right after a digit extends the open section: `current * 10 + d`
///   ("二零二六" is 2026).
/// - A digit after a unit (or at the start) closes the open section into
///   `total` and opens a new one ("三百二十" is 300 + 20).
/// - 十/百/千 multiply the open section (which counts as 1 when it is 0).
/// - 万 multiplies what was read since the last 万 or 亿 (`total + current`)
///   and adds it to `mid`; 亿 multiplies what was read since the last 亿
///   (`mid + total + current`) and adds it to `high` (see `close_section`).
pub open spec fn step(st: NumeralState, c: char) -> Option<NumeralState> {
    if let Some(d) = digit_value(c) {
        if st.last_was_digit {
            if st.current * 10 + d <= u64::MAX {
                Some(NumeralState { current: (st.current * 10 + d) as u64, ..st })
            } else {
                None
            }
        } else if st.current > 0 {
            if st.total + st.current <= u64::MAX {
                Some(
                    NumeralState {
                        total: (st.total + st.current) as u64,
                        current: d,
                        last_was_digit: true,
                        ..st
                    },
                )
            } else {
                None
            }
        } else {
            Some(NumeralState { current: d, last_was_digit: true, ..st })
        }
    } else if let Some(u) = unit_value(c) {
        if u == 10_000 {
            let m = close_section(st.mid as nat, (st.total + st.current) as nat, 10_000);
            if m <= u64::MAX {
                Some(
                    NumeralState {
                        high: st.high,
                        mid: m as u64,
                        total: 0,
                        current: 0,
                        last_was_digit: false,
                    },
                )
            } else {
                None
            }
        } else if u == 100_000_000 {
            let h = close_section(
                st.high as nat,
                (st.mid + st.total + st.current) as nat,
                100_000_000,
            );
            if h <= u64::MAX {
                Some(
                    NumeralState {
                        high: h as u64,
                        mid: 0,
                        total: 0,
                        current: 0,
                        last_was_digit: false,
                    },
                )
            } else {
                None
            }
        } else {
            let cur: nat = if st.current == 0 {
                1
            } else {
                st.current as nat
            };
            if cur * u <= u64::MAX {
                Some(
                    NumeralState {
                        current: (cur * u) as u64,
                        last_was_digit: false,
                        ..st
                    },
                )
            } else {
                None
            }
        }
    } else {
        None
    }
}

/// The state after reading all of `s`.
pub open spec fn read_all(s: Seq<char>) -> Option<NumeralState>
    decreases s.len(),
{
    if s.len() == 0 {
        Some(initial_state())
    } else {
        match read_all(s.drop_last()) {
            Some(st) => step(st, s.last()),
            None => None,
        }
    }
}

/// A spoken range starts at `k`: exactly two digits in a row whose values
/// are consecutive and not 0, such as "两三" (two or three) or "五六" of
/// "五六十".
pub open spec fn range_at(s: Seq<char>, k: int) -> bool {
    &&& 0 <= k
    &&& k + 1 < s.len()
    &&& digit_value(s[k]) is Some
    &&& digit_value(s[k + 1]) is Some
    &&& digit_value(s[k])->0 >= 1
    &&& digit_value(s[k + 1])->0 == digit_value(s[k])->0 + 1
    &&& (k == 0 || digit_value(s[k - 1]) is None)
    &&& (k + 2 == s.len() || digit_value(s[k + 2]) is None)
}

/// Whether `s` holds a spoken range.
pub open spec fn has_spoken_range(s: Seq<char>) -> bool {
    exists|k: int| range_at(s, k)
}

/// The value of the numeral `s`: `high + mid + total + current` after
/// reading all of it. `None` when `s` holds a spoken range, a non-numeral
/// character, or when the value does not fit in a `u64`.
pub open spec fn numeral_value(s: Seq<char>) -> Option<u64> {
    if has_spoken_range(s) {
        None
    } else {
        match read_all(s) {
            Some(st) => if st.high + st.mid + st.total + st.current <= u64::MAX {
                Some((st.high + st.mid + st.total + st.current) as u64)
            } else {
                None
            },
            None => None,
        }
    }
}

/// Whether `chars` holds a spoken range.
fn find_spoken_range(chars: &[char]) -> (res: bool)
    ensures
        res == has_spoken_range(chars@),
{
    let n = chars.len();
    let mut k: usize = 0;
    while k < n && k + 1 < n
        invariant
            n == chars@.len(),
            k <= n,
            forall|m: int| 0 <= m < k ==> !range_at(chars@, m),
        decreases n - k,
    {
        let first = chinese_digit_value(chars[k]);
        let second = chinese_digit_value(chars[k + 1]);
        if let (Some(a), Some(b)) = (first, second) {
            let alone_before = k == 0 || chinese_digit_value(chars[k - 1]).is_none();
            let alone_after = k + 2 == n || chinese_digit_value(chars[k + 2]).is_none();
            if a >= 1 && b == a + 1 && alone_before && alone_after {
                assert(range_at(chars@, k as int));
                return true;
            }
        }
        k = k + 1;
    }
    assert forall|m: int| !range_at(chars@, m) by {
        if 0 <= m < k {
        }
    }
    false
}

/// Closes a section by a high unit (see `close_section`); `None` when the
/// result does not fit in a `u64`.
fn close_section_checked(acc: u64, sec: u64, u: u64) -> (res: Option<u64>)
    requires
        u > 0,
    ensures
        match res {
            Some(v) => v == close_section(acc as nat, sec as nat, u as nat),
            None => close_section(acc as nat, sec as nat, u as nat) > u64::MAX,
        },
{
    if sec == 0 {
        if acc == 0 {
            Some(u)
        } else if acc > u64::MAX / u {
            proof {
                lemma_div_bound(acc as nat, u as nat);
            }
            None
        } else {
            proof {
                lemma_div_bound(acc as nat, u as nat);
            }
            Some(acc * u)
        }
    } else if sec > u64::MAX / u {
        proof {
            lemma_div_bound(sec as nat, u as nat);
        }
        None
    } else {
        proof {
            lemma_div_bound(sec as nat, u as nat);
        }
        let p = sec * u;
        if acc > u64::MAX - p {
            None
        } else {
            Some(acc + p)
        }
    }
}

/// Parses a run of Chinese numeral characters (see `numeral_value`).
pub fn parse_chinese_number(chars: &[char]) -> (res: Option<u64>)
    ensures
        res == numeral_value(chars@),
{
    if find_spoken_range(chars) {
        return None;
    }
    let mut high: u64 = 0;
    let mut mid: u64 = 0;
    let mut total: u64 = 0;
    let mut current: u64 = 0;
    let mut last_was_digit = false;
    let n = chars.len();
    let mut i: usize = 0;
    while i < n
        invariant
            n == chars@.len(),
            i <= n,
            !has_spoken_range(chars@),
            read_all(chars@.take(i as int)) == Some(
                NumeralState { high, mid, total, current, last_was_digit },
            ),
        decreases n - i,
    {
        let c = chars[i];
        proof {
            assert(chars@.take(i + 1).drop_last() =~= chars@.take(i as int));
        }
        if let Some(d) = chinese_digit_value(c) {
            if last_was_digit {
                if current > (u64::MAX - d) / 10 {
                    proof {
                        lemma_prefix_none(chars@, i as int + 1);
                    }
                    return None;
                }
                current = current * 10 + d;
            } else {
                if current > 0 {
                    if total > u64::MAX - current {
                        proof {
                            lemma_prefix_none(chars@, i as int + 1);
                        }
                        return None;
                    }
                    total = total + current;
                }
                current = d;
            }
            last_was_digit = true;
        } else if let Some(u) = chinese_unit_value(c) {
            if u == 10_000 {
                if total > u64::MAX - current {
                    proof {
                        lemma_prefix_none(chars@, i as int + 1);
                    }
                    return None;
                }
                match close_section_checked(mid, total + current, u) {
                    Some(m) => {
                        mid = m;
                    },
                    None => {
                        proof {
                            lemma_prefix_none(chars@, i as int + 1);
                        }
                        return None;
                    },
                }
                total = 0;
                current = 0;
            } else if u == 100_000_000 {
                if total > u64::MAX - current || mid > u64::MAX - (total + current) {
                    proof {
                        lemma_prefix_none(chars@, i as int + 1);
                    }
                    return None;
                }
                match close_section_checked(high, mid + total + current, u) {
                    Some(h) => {
                        high = h;
                    },
                    None => {
                        proof {
                            lemma_prefix_none(chars@, i as int + 1);
                        }
                        return None;
                    },
                }
                mid = 0;
                total = 0;
                current = 0;
            } else {
                if current == 0 {
                    current = 1;
                }
                if current > u64::MAX / u {
                    proof {
                        lemma_div_bound(current as nat, u as nat);
                        lemma_prefix_none(chars@, i as int + 1);
                    }
                    return None;
                }
                proof {
                    lemma_div_bound(current as nat, u as nat);
                }
                current = current * u;
            }
            last_was_digit = false;
        } else {
            proof {
                lemma_prefix_none(chars@, i as int + 1);
            }
            return None;
        }
        i = i + 1;
    }
    assert(chars@.take(n as int) =~= chars@);
    if high > u64::MAX - mid {
        return None;
    }
    let a = high + mid;
    if a > u64::MAX - total {
        return None;
    }
    let b = a + total;
    if b > u64::MAX - current {
        return None;
    }
    Some(b + current)
}

/// `x * u <= u64::MAX` exactly when `x <= u64::MAX / u`.
proof fn lemma_div_bound(x: nat, u: nat)
    requires
        u > 0,
    ensures
        (x * u <= u64::MAX) == (x <= u64::MAX as nat / u),
{
    let m = u64::MAX as nat;
    assert((x * u <= m) == (x <= m / u)) by (nonlinear_arith)
        requires
            u > 0,
    {
        let q = m / u;
        let r = m % u;
        assert(m == q * u + r);
        assert(r < u);
        if x <= q {
            assert(x * u <= q * u);
        } else {
            assert(x >= q + 1);
            assert(x * u >= (q + 1) * u);
        }
    };
}

/// Once the reading fails on a prefix, it fails on the whole sequence.
proof fn lemma_prefix_none(s: Seq<char>, k: int)
    requires
        0 <= k <= s.len(),
        read_all(s.take(k)) is None,
    ensures
        numeral_value(s) is None,
    decreases s.len() - k,
{
    if k == s.len() {
        assert(s.take(k) =~= s);
    } else {
        assert(s.take(k + 1).drop_last() =~= s.take(k));
        lemma_prefix_none(s, k + 1);
    }
}

// ---------------------------------------------------------------------------
// Normalisation of a whole text
// ---------------------------------------------------------------------------

/// The end of the run of numeral characters of `s` that starts at `k`.
pub open spec fn run_end(s: Seq<char>, k: int) -> int
    decreases s.len() - k,
{
    if k < 0 || k >= s.len() || !is_numeral_char(s[k]) {
        k
    } else {
        run_end(s, k + 1)
    }
}

/// Whether "百分之" starts at position `i` of `s`.
pub open spec fn percent_at(s: Seq<char>, i: int) -> bool {
    &&& 0 <= i
    &&& i + 3 <= s.len()
    &&& s[i] == '百'
    &&& s[i + 1] == '分'
    &&& s[i + 2] == '之'
}

/// The normalised text of `s` from position `i` on.
///
/// - "百分之" followed by a numeral of value `n` becomes "n%"; "百分之" not
///   followed by a parseable numeral is kept and reading resumes after it.
/// - A maximal run of numeral characters becomes the decimal digits of its
///   value, or is kept when it has no value.
/// - Every other character is kept.
pub open spec fn itn_from(s: Seq<char>, i: int) -> Seq<char>
    decreases s.len() - i, 1int,
{
    if i < 0 || i >= s.len() {
        Seq::empty()
    } else if percent_at(s, i) {
        proof {
            lemma_run_end_bounds(s, i + 3);
        }
        let j = run_end(s, i + 3);
        if j > i + 3 && numeral_value(s.subrange(i + 3, j)) is Some {
            decimal(numeral_value(s.subrange(i + 3, j))->0 as nat).push('%') + itn_from(s, j)
        } else {
            seq!['百', '分', '之'] + itn_from(s, i + 3)
        }
    } else {
        proof {
            lemma_run_end_bounds(s, i);
        }
        let j = run_end(s, i);
        if j > i {
            if numeral_value(s.subrange(i, j)) is Some {
                decimal(numeral_value(s.subrange(i, j))->0 as nat) + itn_from(s, j)
            } else {
                s.subrange(i, j) + itn_from(s, j)
            }
        } else {
            seq![s[i]] + itn_from(s, i + 1)
        }
    }
}

/// The normalised text of `s`.
pub open spec fn itn_spec(s: Seq<char>) -> Seq<char> {
    itn_from(s, 0)
}

/// The run starting at `k` ends within `s` and holds only numeral characters.
pub proof fn lemma_run_end_bounds(s: Seq<char>, k: int)
    requires
        0 <= k <= s.len(),
    ensures
        k <= run_end(s, k) <= s.len(),
        forall|m: int| k <= m < run_end(s, k) ==> is_numeral_char(#[trigger] s[m]),
        run_end(s, k) < s.len() ==> !is_numeral_char(s[run_end(s, k)]),
    decreases s.len() - k,
{
    if k < s.len() && is_numeral_char(s[k]) {
        lemma_run_end_bounds(s, k + 1);
    }
}

/// Scans the run of numeral characters of `chars` that starts at `k`.
fn scan_run(chars: &Vec<char>, k: usize) -> (j: usize)
    requires
        k <= chars@.len(),
    ensures
        j as int == run_end(chars@, k as int),
        k <= j <= chars@.len(),
{
    proof {
        lemma_run_end_bounds(chars@, k as int);
    }
    let mut j = k;
    while j < chars.len() && is_chinese_number_char(chars[j])
        invariant
            k <= j <= chars@.len(),
            run_end(chars@, j as int) == run_end(chars@, k as int),
        decreases chars@.len() - j,
    {
        j = j + 1;
    }
    j
}

/// Converts every Chinese numeral of `text` to Arabic digits (see
/// `itn_from` for the exact rules).
#[verifier::rlimit(100)]
#[verifier::spinoff_prover]
pub fn itn(text: &str) -> (res: String)
    ensures
        res@ == itn_spec(text@),
{
    let chars = chars_of(text);
    let n = chars.len();
    let mut out: Vec<char> = Vec::new();
    let mut i: usize = 0;
    while i < n
        invariant
            n == chars@.len(),
            chars@ == text@,
            i <= n,
            out@ + itn_from(chars@, i as int) == itn_spec(chars@),
        decreases n - i,
    {
        let ghost s = chars@;
        let ghost old_out = out@;
        if n - i >= 3 && chars[i] == '百' && chars[i + 1] == '分' && chars[i + 2] == '之' {
            let j = scan_run(&chars, i + 3);
            proof {
                lemma_run_end_bounds(s, i + 3);
            }
            if j > i + 3 {
                if let Some(v) = parse_chinese_number(&chars.as_slice()[i + 3..j]) {
                    push_decimal(&mut out, v);
                    out.push('%');
                    proof {
                        assert(out@ + itn_from(s, j as int) =~= old_out + itn_from(s, i as int));
                    }
                    i = j;
                    continue;
                }
            }
            out.push('百');
            out.push('分');
            out.push('之');
            proof {
                assert(out@ + itn_from(s, i + 3) =~= old_out + itn_from(s, i as int));
            }
            i = i + 3;
            continue;
        }
        let j = scan_run(&chars, i);
        if j > i {
            proof {
                lemma_run_end_bounds(s, i as int);
            }
            match parse_chinese_number(&chars.as_slice()[i..j]) {
                Some(v) => {
                    push_decimal(&mut out, v);
                },
                None => {
                    let mut k = i;
                    while k < j
                        invariant
                            i <= k <= j,
                            j <= n,
                            n == chars@.len(),
                            out@ == old_out + s.subrange(i as int, k as int),
                            s == chars@,
                        decreases j - k,
                    {
                        out.push(chars[k]);
                        k = k + 1;
                        assert(s.subrange(i as int, k as int) =~= s.subrange(
                            i as int,
                            k - 1,
                        ).push(s[k - 1]));
                    }
                },
            }
            proof {
                assert(out@ + itn_from(s, j as int) =~= old_out + itn_from(s, i as int));
            }
            i = j;
        } else {
            out.push(chars[i]);
            proof {
                assert(out@ + itn_from(s, i + 1) =~= old_out + itn_from(s, i as int));
            }
            i = i + 1;
        }
    }
    assert(out@ =~= itn_spec(text@));
    string_from_chars(out.as_slice())
}

/// Text without Chinese numeral characters is left unchanged.
pub proof fn lemma_itn_identity_without_numerals(s: Seq<char>)
    requires
        forall|k: int| 0 <= k < s.len() ==> !is_numeral_char(#[trigger] s[k]),
    ensures
        itn_spec(s) == s,
{
    lemma_itn_from_identity(s, 0);
    assert(s.subrange(0, s.len() as int) =~= s);
}

proof fn lemma_itn_from_identity(s: Seq<char>, i: int)
    requires
        0 <= i <= s.len(),
        forall|k: int| 0 <= k < s.len() ==> !is_numeral_char(#[trigger] s[k]),
    ensures
        itn_from(s, i) == s.subrange(i, s.len() as int),
    decreases s.len() - i,
{
    if i < s.len() {
        assert(!is_numeral_char(s[i]));
        assert(unit_value('百') is Some);
        lemma_itn_from_identity(s, i + 1);
        assert(seq![s[i]] + s.subrange(i + 1, s.len() as int) =~= s.subrange(i, s.len() as int));
    } else {
        assert(s.subrange(i, s.len() as int) =~= Seq::<char>::empty());
    }
}

/// Where `a` is followed by a character that is not a numeral character, the
/// run starting at `i` within `a` ends where it ends in `a`.
proof fn lemma_run_end_prefix(a: Seq<char>, s: Seq<char>, i: int)
    requires
        0 <= i <= a.len(),
        a.len() < s.len(),
        forall|m: int| 0 <= m < a.len() ==> #[trigger] s[m] == a[m],
        !is_numeral_char(s[a.len() as int]),
    ensures
        run_end(s, i) == run_end(a, i),
    decreases a.len() - i,
{
    if i < a.len() {
        assert(s[i] == a[i]);
        if is_numeral_char(a[i]) {
            lemma_run_end_prefix(a, s, i + 1);
        }
    }
}

/// Runs of `q` are the same runs within `p + q`, shifted by the length of `p`.
proof fn lemma_run_end_suffix(p: Seq<char>, q: Seq<char>, k: int)
    requires
        0 <= k <= q.len(),
    ensures
        run_end(p + q, p.len() + k) == p.len() + run_end(q, k),
    decreases q.len() - k,
{
    if k < q.len() {
        assert((p + q)[p.len() + k] == q[k]);
        if is_numeral_char(q[k]) {
            lemma_run_end_suffix(p, q, k + 1);
        }
    }
}

/// The conversion of `p + q` from a position within `q` on looks at `q`
/// alone.
proof fn lemma_itn_from_suffix(p: Seq<char>, q: Seq<char>, k: int)
    requires
        0 <= k <= q.len(),
    ensures
        itn_from(p + q, p.len() + k) == itn_from(q, k),
    decreases q.len() - k,
{
    let s = p + q;
    let i = p.len() + k;
    if k < q.len() {
        assert forall|m: int| 0 <= m < q.len() implies #[trigger] s[p.len() + m] == q[m] by {}
        if k + 3 <= q.len() {
            assert(s[i] == q[k] && s[i + 1] == q[k + 1] && s[i + 2] == q[k + 2]);
        }
        if percent_at(q, k) {
            assert(percent_at(s, i));
            lemma_run_end_suffix(p, q, k + 3);
            lemma_run_end_bounds(q, k + 3);
            let j = run_end(q, k + 3);
            assert(s.subrange(i + 3, p.len() + j) =~= q.subrange(k + 3, j));
            lemma_itn_from_suffix(p, q, j);
            lemma_itn_from_suffix(p, q, k + 3);
        } else {
            assert(!percent_at(s, i));
            lemma_run_end_suffix(p, q, k);
            lemma_run_end_bounds(q, k);
            let j = run_end(q, k);
            assert(s.subrange(i, p.len() + j) =~= q.subrange(k, j));
            if j > k {
                lemma_itn_from_suffix(p, q, j);
            } else {
                lemma_itn_from_suffix(p, q, k + 1);
            }
        }
    }
}

/// Up to the separator `c`, the conversion of `a + [c] + b` is that of `a`.
proof fn lemma_itn_from_prefix(a: Seq<char>, c: char, b: Seq<char>, i: int)
    requires
        0 <= i <= a.len(),
        !is_numeral_char(c),
        c != '分',
        c != '之',
    ensures
        itn_from(a + seq![c] + b, i) == itn_from(a, i) + itn_from(a + seq![c] + b, a.len() as int),
    decreases a.len() - i,
{
    let s = a + seq![c] + b;
    let n = a.len() as int;
    assert(s[n] == c);
    assert forall|m: int| 0 <= m < n implies #[trigger] s[m] == a[m] by {}
    if i == n {
        assert(itn_from(a, i) + itn_from(s, n) =~= itn_from(s, n));
    } else {
        if i + 3 <= n {
            assert(s[i] == a[i] && s[i + 1] == a[i + 1] && s[i + 2] == a[i + 2]);
        } else if i + 2 == n {
            assert(s[i + 2] == c);
        } else {
            assert(s[i + 1] == c);
        }
        if percent_at(a, i) {
            assert(percent_at(s, i));
            lemma_run_end_prefix(a, s, i + 3);
            lemma_run_end_bounds(a, i + 3);
            let j = run_end(a, i + 3);
            assert(s.subrange(i + 3, j) =~= a.subrange(i + 3, j));
            lemma_itn_from_prefix(a, c, b, j);
            lemma_itn_from_prefix(a, c, b, i + 3);
            if j > i + 3 && numeral_value(a.subrange(i + 3, j)) is Some {
                let d = decimal(numeral_value(a.subrange(i + 3, j))->0 as nat).push('%');
                assert(d + itn_from(s, j) =~= d + itn_from(a, j) + itn_from(s, n));
            } else {
                let d = seq!['百', '分', '之'];
                assert(d + itn_from(s, i + 3) =~= d + itn_from(a, i + 3) + itn_from(s, n));
            }
        } else {
            assert(!percent_at(s, i));
            lemma_run_end_prefix(a, s, i);
            lemma_run_end_bounds(a, i);
            let j = run_end(a, i);
            assert(s.subrange(i, j) =~= a.subrange(i, j));
            if j > i {
                lemma_itn_from_prefix(a, c, b, j);
                if numeral_value(a.subrange(i, j)) is Some {
                    let d = decimal(numeral_value(a.subrange(i, j))->0 as nat);
                    assert(d + itn_from(s, j) =~= d + itn_from(a, j) + itn_from(s, n));
                } else {
                    let d = a.subrange(i, j);
                    assert(d + itn_from(s, j) =~= d + itn_from(a, j) + itn_from(s, n));
                }
            } else {
                lemma_itn_from_prefix(a, c, b, i + 1);
                let d = seq![a[i]];
                assert(d + itn_from(s, i + 1) =~= d + itn_from(a, i + 1) + itn_from(s, n));
            }
        }
    }
}

/// A character that is neither a numeral character nor 分 or 之 splits the
/// conversion: what stands before it and what stands after it are converted
/// on their own, and the character itself is kept.
pub proof fn lemma_itn_split(a: Seq<char>, c: char, b: Seq<char>)
    requires
        !is_numeral_char(c),
        c != '分',
        c != '之',
    ensures
        itn_spec(a + seq![c] + b) == itn_spec(a) + seq![c] + itn_spec(b),
{
    let s = a + seq![c] + b;
    let n = a.len() as int;
    lemma_itn_from_prefix(a, c, b, 0);
    assert(s[n] == c);
    assert(unit_value('百') is Some);
    assert(!percent_at(s, n));
    assert(run_end(s, n) == n);
    assert(itn_from(s, n) == seq![c] + itn_from(s, n + 1));
    lemma_itn_from_suffix(a + seq![c], b, 0);
    assert(itn_spec(a) + itn_from(s, n) =~= itn_spec(a) + seq![c] + itn_spec(b));
}

/// No spoken range in a numeral whose digits never stand next to each other.
proof fn lemma_no_range_when_digits_apart(s: Seq<char>)
    requires
        forall|k: int| 0 <= k < s.len() - 1 ==> digit_value(#[trigger] s[k]) is None || digit_value(
            s[k + 1],
        ) is None,
    ensures
        !has_spoken_range(s),
{
    assert forall|k: int| !range_at(s, k) by {
        if 0 <= k < s.len() - 1 {
            assert(digit_value(s[k]) is None || digit_value(s[k + 1]) is None);
        }
    }
}

/// A digit after a unit is added to it, also when the unit opens the
/// numeral: 十 followed by the digit `d` is `10 + d` ("十五" is 15), and the
/// whole text "十d" reads as the decimal digits of `10 + d`.
pub proof fn lemma_ten_then_digit(u: char, c: char)
    requires
        unit_value(u) == Some(10u64),
        digit_value(c) is Some,
    ensures
        numeral_value(seq![u, c]) == Some((10 + digit_value(c)->0) as u64),
        itn_spec(seq![u, c]) == decimal((10 + digit_value(c)->0) as nat),
{
    let s = seq![u, c];
    let d = digit_value(c)->0;
    assert(digit_value(u) is None) by {
        assert(unit_value(u) == Some(10u64));
    }
    lemma_no_range_when_digits_apart(s);
    assert(s.drop_last() =~= seq![u]);
    assert(seq![u].drop_last() =~= Seq::<char>::empty());
    assert(read_all(Seq::<char>::empty()) == Some(initial_state()));
    assert(seq![u].last() == u);
    assert(read_all(seq![u]) == Some(
        NumeralState { high: 0, mid: 0, total: 0, current: 10, last_was_digit: false },
    ));
    assert(numeral_value(s) == Some((10 + d) as u64));
    assert(!percent_at(s, 0));
    assert(is_numeral_char(s[0]) && is_numeral_char(s[1]));
    assert(run_end(s, 2) == 2);
    assert(run_end(s, 1) == 2);
    assert(run_end(s, 0) == 2);
    assert(s.subrange(0, 2) =~= s);
    assert(itn_from(s, 2) == Seq::<char>::empty());
    assert(itn_spec(s) == decimal((10 + d) as nat) + itn_from(s, 2));
    assert(decimal((10 + d) as nat) + Seq::<char>::empty() =~= decimal((10 + d) as nat));
}

/// "a十b" with a digit `a` from 1 to 9 is `10 * a + b`: the tens are
/// multiplied, the units added.
pub proof fn lemma_tens_then_digit(a: char, u: char, c: char)
    requires
        digit_value(a) is Some,
        digit_value(a)->0 >= 1,
        unit_value(u) == Some(10u64),
        digit_value(c) is Some,
    ensures
        numeral_value(seq![a, u, c]) == Some(
            (10 * digit_value(a)->0 + digit_value(c)->0) as u64,
        ),
{
    let s = seq![a, u, c];
    let x = digit_value(a)->0;
    let d = digit_value(c)->0;
    assert(digit_value(u) is None) by {
        assert(unit_value(u) == Some(10u64));
    }
    lemma_no_range_when_digits_apart(s);
    assert(s.drop_last() =~= seq![a, u]);
    assert(seq![a, u].drop_last() =~= seq![a]);
    assert(seq![a].drop_last() =~= Seq::<char>::empty());
    assert(read_all(Seq::<char>::empty()) == Some(initial_state()));
    assert(seq![a].last() == a);
    assert(read_all(seq![a]) == Some(
        NumeralState { high: 0, mid: 0, total: 0, current: x, last_was_digit: true },
    ));
    assert(read_all(seq![a, u]) == Some(
        NumeralState {
            high: 0,
            mid: 0,
            total: 0,
            current: (10 * x) as u64,
            last_was_digit: false,
        },
    ));
}

/// A digit from 1 to 9 followed by a unit is the digit times the unit:
/// "三百" is 300, "五万" is 50000, "两亿" is 200000000.
pub proof fn lemma_digit_then_unit(a: char, u: char)
    requires
        digit_value(a) is Some,
        digit_value(a)->0 >= 1,
        unit_value(u) is Some,
    ensures
        numeral_value(seq![a, u]) == Some((digit_value(a)->0 * unit_value(u)->0) as u64),
{
    let s = seq![a, u];
    let x = digit_value(a)->0;
    let v = unit_value(u)->0;
    assert(digit_value(u) is None) by {
        assert(unit_value(u) is Some);
    }
    lemma_no_range_when_digits_apart(s);
    assert(s.drop_last() =~= seq![a]);
    assert(seq![a].drop_last() =~= Seq::<char>::empty());
    assert(read_all(Seq::<char>::empty()) == Some(initial_state()));
    assert(seq![a].last() == a);
    assert(read_all(seq![a]) == Some(
        NumeralState { high: 0, mid: 0, total: 0, current: x, last_was_digit: true },
    ));
    assert(x * v <= 9 * 100_000_000);
    assert(v == 10 || v == 100 || v == 1000 || v == 10_000 || v == 100_000_000);
}

/// "百分之" followed by a numeral of value `v` becomes "v%", and the text
/// after the numeral is converted on its own.
pub proof fn lemma_percent(n: Seq<char>, r: Seq<char>)
    requires
        n.len() > 0,
        forall|k: int| 0 <= k < n.len() ==> is_numeral_char(#[trigger] n[k]),
        numeral_value(n) is Some,
        r.len() > 0 ==> !is_numeral_char(r[0]),
    ensures
        itn_spec(seq!['百', '分', '之'] + n + r) == decimal(numeral_value(n)->0 as nat).push('%')
            + itn_spec(r),
{
    let pre = seq!['百', '分', '之'];
    let s = pre + n + r;
    let q = n + r;
    assert(s =~= pre + q);
    assert(percent_at(s, 0));
    lemma_run_end_bounds(q, 0);
    let e = run_end(q, 0);
    if e < n.len() {
        assert(q[e] == n[e]);
    }
    if e > n.len() {
        assert(is_numeral_char(q[n.len() as int]));
        assert(q[n.len() as int] == r[0]);
    }
    assert(e == n.len());
    lemma_run_end_suffix(pre, q, 0);
    assert(run_end(s, 3) == 3 + n.len());
    assert(s.subrange(3, 3 + n.len() as int) =~= n);
    lemma_itn_from_suffix(pre + n, r, 0);
    assert(itn_from(s, 3 + n.len() as int) == itn_spec(r));
}

/// The value of a string of decimal digits read position by position, most
/// significant first.
pub open spec fn positional_value(s: Seq<char>) -> nat
    decreases s.len(),
{
    if s.len() == 0 {
        0
    } else {
        positional_value(s.drop_last()) * 10 + digit_value(s.last())->0 as nat
    }
}

proof fn lemma_read_digits(s: Seq<char>)
    requires
        s.len() > 0,
        forall|k: int| 0 <= k < s.len() ==> digit_value(#[trigger] s[k]) is Some,
        positional_value(s) <= u64::MAX,
    ensures
        read_all(s) == Some(
            NumeralState {
                high: 0,
                mid: 0,
                total: 0,
                current: positional_value(s) as u64,
                last_was_digit: true,
            },
        ),
    decreases s.len(),
{
    let t = s.drop_last();
    assert(digit_value(s[s.len() - 1]) is Some);
    if s.len() == 1 {
        assert(t =~= Seq::<char>::empty());
        assert(read_all(t) == Some(initial_state()));
    } else {
        assert forall|k: int| 0 <= k < t.len() implies digit_value(#[trigger] t[k]) is Some by {
            assert(t[k] == s[k]);
        }
        lemma_read_digits(t);
    }
}

/// A string of digits that is not a spoken range reads position by
/// position ("二零二六" is 2026, "一二三四" is 1234).
pub proof fn lemma_digit_string(s: Seq<char>)
    requires
        s.len() > 0,
        forall|k: int| 0 <= k < s.len() ==> digit_value(#[trigger] s[k]) is Some,
        !has_spoken_range(s),
        positional_value(s) <= u64::MAX,
    ensures
        numeral_value(s) == Some(positional_value(s) as u64),
{
    lemma_read_digits(s);
}

/// No character of `q` is 亿 (or its financial form).
pub open spec fn without_yi(q: Seq<char>) -> bool {
    forall|k: int| 0 <= k < q.len() ==> unit_value(#[trigger] q[k]) != Some(100_000_000u64)
}

/// No character of `q` is 万 or 亿 (or their financial forms).
pub open spec fn without_high_units(q: Seq<char>) -> bool {
    &&& without_yi(q)
    &&& forall|k: int| 0 <= k < q.len() ==> unit_value(#[trigger] q[k]) != Some(10_000u64)
}

/// Reading `q` after a prefix that closed with a high unit goes as reading
/// `q` alone, with the prefix's closed sections carried along.
proof fn lemma_read_after_section(x: Seq<char>, q: Seq<char>, h: u64, m: u64)
    requires
        read_all(x) == Some(
            NumeralState { high: h, mid: m, total: 0, current: 0, last_was_digit: false },
        ),
        without_yi(q),
        m > 0 ==> without_high_units(q),
    ensures
        read_all(x + q) is Some <==> read_all(q) is Some,
        read_all(q) is Some ==> ({
            let st = read_all(q)->0;
            let su = read_all(x + q)->0;
            &&& st.high == 0
            &&& su.high == h
            &&& su.mid == m + st.mid
            &&& (without_high_units(q) ==> st.mid == 0)
            &&& su.total == st.total
            &&& su.current == st.current
            &&& su.last_was_digit == st.last_was_digit
        }),
    decreases q.len(),
{
    if q.len() == 0 {
        assert(x + q =~= x);
        assert(read_all(q) == Some(initial_state()));
    } else {
        let t = q.drop_last();
        let c = q.last();
        assert((x + q).drop_last() =~= x + t);
        assert((x + q).last() == c);
        assert(without_yi(t)) by {
            assert forall|k: int| 0 <= k < t.len() implies unit_value(#[trigger] t[k]) != Some(
                100_000_000u64,
            ) by {
                assert(t[k] == q[k]);
            }
        }
        if without_high_units(q) {
            assert(without_high_units(t)) by {
                assert forall|k: int| 0 <= k < t.len() implies unit_value(#[trigger] t[k]) != Some(
                    10_000u64,
                ) by {
                    assert(t[k] == q[k]);
                }
            }
        }
        lemma_read_after_section(x, t, h, m);
        assert(unit_value(q[q.len() - 1]) != Some(100_000_000u64));
        assert(without_high_units(q) ==> unit_value(q[q.len() - 1]) != Some(10_000u64));
    }
}

/// A unit that is not a digit separates spoken ranges: `p + [w] + q` holds
/// one only when `p` or `q` does.
proof fn lemma_range_split(p: Seq<char>, w: char, q: Seq<char>)
    requires
        digit_value(w) is None,
        !has_spoken_range(p),
        !has_spoken_range(q),
    ensures
        !has_spoken_range(p + seq![w] + q),
{
    let s = p + seq![w] + q;
    let n = p.len() as int;
    assert forall|k: int| !range_at(s, k) by {
        if range_at(s, k) {
            assert(s[n] == w);
            if k + 1 < n {
                assert(s[k] == p[k] && s[k + 1] == p[k + 1]);
                if k > 0 {
                    assert(s[k - 1] == p[k - 1]);
                }
                if k + 2 < n {
                    assert(s[k + 2] == p[k + 2]);
                }
                assert(range_at(p, k));
            } else if k + 1 == n {
            } else if k == n {
            } else {
                let j = k - n - 1;
                assert(s[k] == q[j] && s[k + 1] == q[j + 1]);
                if j > 0 {
                    assert(s[k - 1] == q[j - 1]);
                }
                if k + 2 < s.len() {
                    assert(s[k + 2] == q[j + 2]);
                }
                assert(range_at(q, j));
            }
        }
    }
}

/// 万 multiplies the section in front of it and the section after it is
/// added: "三千万" is 3000 × 10^4, "三万二千三百四十五" is 3 × 10^4 + 2345.
pub proof fn lemma_wan_section(p: Seq<char>, w: char, q: Seq<char>, a: u64, b: u64)
    requires
        unit_value(w) == Some(10_000u64),
        without_high_units(p),
        without_high_units(q),
        numeral_value(p) == Some(a),
        a >= 1,
        numeral_value(q) == Some(b),
        a * 10_000 + b <= u64::MAX,
    ensures
        numeral_value(p + seq![w] + q) == Some((a * 10_000 + b) as u64),
{
    let x = p + seq![w];
    assert(x.drop_last() =~= p);
    assert(x.last() == w);
    lemma_read_after_section(Seq::<char>::empty(), p, 0, 0);
    assert(Seq::<char>::empty() + p =~= p);
    assert(read_all(Seq::<char>::empty()) == Some(initial_state()));
    let st = read_all(p)->0;
    assert(st.high == 0 && st.mid == 0);
    assert(read_all(x) == Some(
        NumeralState {
            high: 0,
            mid: (a * 10_000) as u64,
            total: 0,
            current: 0,
            last_was_digit: false,
        },
    ));
    lemma_read_after_section(x, q, 0, (a * 10_000) as u64);
    assert(digit_value(w) is None) by {
        assert(unit_value(w) is Some);
    }
    lemma_range_split(p, w, q);
}

/// 亿 multiplies everything read since the last 亿, 万 sections included,
/// and the part after it is added: "一亿三千万" is 10^8 + 3000 × 10^4.
pub proof fn lemma_yi_section(p: Seq<char>, w: char, q: Seq<char>, a: u64, b: u64)
    requires
        unit_value(w) == Some(100_000_000u64),
        without_yi(p),
        without_yi(q),
        numeral_value(p) == Some(a),
        a >= 1,
        numeral_value(q) == Some(b),
        a * 100_000_000 + b <= u64::MAX,
    ensures
        numeral_value(p + seq![w] + q) == Some((a * 100_000_000 + b) as u64),
{
    let x = p + seq![w];
    assert(x.drop_last() =~= p);
    assert(x.last() == w);
    lemma_read_after_section(Seq::<char>::empty(), p, 0, 0);
    assert(Seq::<char>::empty() + p =~= p);
    assert(read_all(Seq::<char>::empty()) == Some(initial_state()));
    let st = read_all(p)->0;
    assert(st.high == 0);
    assert(read_all(x) == Some(
        NumeralState {
            high: (a * 100_000_000) as u64,
            mid: 0,
            total: 0,
            current: 0,
            last_was_digit: false,
        },
    ));
    lemma_read_after_section(x, q, (a * 100_000_000) as u64, 0);
    lemma_read_after_section(Seq::<char>::empty(), q, 0, 0);
    assert(Seq::<char>::empty() + q =~= q);
    assert(digit_value(w) is None) by {
        assert(unit_value(w) is Some);
    }
    lemma_range_split(p, w, q);
}

} // verus!
