//! Character-level helpers shared by the other modules: turning a `&str`
//! into its characters and back.

use vstd::prelude::*;

verus! {

broadcast use vstd::string::group_string_axioms;

/// `String::push` appends one character at the end of the string.
pub assume_specification[ String::push ](s: &mut String, ch: char)
    ensures
        final(s)@ == old(s)@.push(ch),
;

/// The characters of `s`, in order.
pub fn chars_of(s: &str) -> (res: Vec<char>)
    ensures
        res@ == s@,
{
    let mut res: Vec<char> = Vec::new();
    for c in it: s.chars()
        invariant
            it.seq() == s@,
            res@ == it.seq().take(it.index() as int),
    {
        res.push(c);
    }
    res
}

/// A `String` holding exactly the characters of `chars`.
pub fn string_from_chars(chars: &[char]) -> (res: String)
    ensures
        res@ == chars@,
{
    let mut res = String::new();
    let n = chars.len();
    let mut i: usize = 0;
    while i < n
        invariant
            n == chars@.len(),
            i <= n,
            res@ == chars@.take(i as int),
        decreases n - i,
    {
        res.push(chars[i]);
        i = i + 1;
        assert(chars@.take(i as int) =~= chars@.take((i - 1) as int).push(chars@[i - 1]));
    }
    assert(chars@.take(n as int) =~= chars@);
    res
}

/// The ASCII digit character for `d` (`0 <= d < 10`).
pub open spec fn digit_char(d: nat) -> char {
    (48 + d) as char
}

/// The decimal representation of `n`, most significant digit first,
/// without leading zeros (`0` is written as `"0"`).
pub open spec fn decimal(n: nat) -> Seq<char>
    decreases n,
{
    if n < 10 {
        seq![digit_char(n)]
    } else {
        decimal(n / 10).push(digit_char(n % 10))
    }
}

/// `decimal(n)` left-padded with `'0'` to at least `width` characters.
pub open spec fn zero_padded(n: nat, width: nat) -> Seq<char> {
    let d = decimal(n);
    if d.len() >= width {
        d
    } else {
        Seq::new((width - d.len()) as nat, |i: int| '0') + d
    }
}

fn digit_to_char(d: u64) -> (c: char)
    requires
        d < 10,
    ensures
        c == digit_char(d as nat),
{
    let b: u8 = 48u8 + d as u8;
    b as char
}

/// Appends the decimal representation of `n` to `out`.
pub fn push_decimal(out: &mut Vec<char>, n: u64)
    ensures
        final(out)@ == old(out)@ + decimal(n as nat),
    decreases n,
{
    if n >= 10 {
        push_decimal(out, n / 10);
    }
    out.push(digit_to_char(n % 10));
    proof {
        if n >= 10 {
            assert(old(out)@ + decimal(n as nat) =~= old(out)@ + decimal((n / 10) as nat) + seq![
                digit_char((n % 10) as nat),
            ]);
        } else {
            assert(decimal(n as nat) =~= seq![digit_char(n as nat)]);
        }
    }
}

/// Appends `n` in decimal, left-padded with zeros to at least `width` digits.
pub fn push_zero_padded(out: &mut Vec<char>, n: u64, width: usize)
    ensures
        final(out)@ == old(out)@ + zero_padded(n as nat, width as nat),
{
    let mut digits: Vec<char> = Vec::new();
    push_decimal(&mut digits, n);
    assert(digits@ =~= decimal(n as nat));
    let len = digits.len();
    if len < width {
        let pad = width - len;
        let mut k: usize = 0;
        let ghost start = out@;
        while k < pad
            invariant
                k <= pad,
                out@ == start + Seq::new(k as nat, |i: int| '0'),
            decreases pad - k,
        {
            out.push('0');
            k = k + 1;
            assert(out@ =~= start + Seq::new(k as nat, |i: int| '0'));
        }
    }
    let ghost before = out@;
    let mut i: usize = 0;
    while i < len
        invariant
            len == digits@.len(),
            i <= len,
            out@ == before + digits@.take(i as int),
        decreases len - i,
    {
        out.push(digits[i]);
        i = i + 1;
        assert(digits@.take(i as int) =~= digits@.take((i - 1) as int).push(digits@[i - 1]));
    }
    assert(digits@.take(len as int) =~= digits@);
    assert(out@ =~= old(out)@ + zero_padded(n as nat, width as nat));
}

// ---------------------------------------------------------------------------
// Fixed-width decimal numbers and their order
// ---------------------------------------------------------------------------

/// The order of strings: `x` comes before `y` when at the first position
/// where they differ `x` has the smaller character, or when `x` is a proper
/// prefix of `y`.
pub open spec fn lex_less(x: Seq<char>, y: Seq<char>) -> bool {
    ||| exists|k: int|
        0 <= k < x.len() && k < y.len() && #[trigger] x.take(k) == y.take(k) && (x[k] as int) < (
        y[k] as int)
    ||| (x.len() < y.len() && y.take(x.len() as int) == x)
}

/// `10^w`.
pub open spec fn pow10(w: nat) -> nat
    decreases w,
{
    if w == 0 {
        1
    } else {
        10 * pow10((w - 1) as nat)
    }
}

/// The last `w` decimal digits of `n`, most significant first.
pub open spec fn fixed_digits(n: nat, w: nat) -> Seq<char>
    decreases w,
{
    if w == 0 {
        Seq::empty()
    } else {
        fixed_digits(n / 10, (w - 1) as nat).push(digit_char(n % 10))
    }
}

proof fn lemma_fixed_digits_len(n: nat, w: nat)
    ensures
        fixed_digits(n, w).len() == w,
    decreases w,
{
    if w > 0 {
        lemma_fixed_digits_len(n / 10, (w - 1) as nat);
    }
}

proof fn lemma_fixed_digits_zero(w: nat)
    ensures
        fixed_digits(0, w) == Seq::new(w, |i: int| '0'),
    decreases w,
{
    if w > 0 {
        lemma_fixed_digits_zero((w - 1) as nat);
        assert(digit_char(0) == '0');
        assert(fixed_digits(0, w) =~= Seq::new(w, |i: int| '0'));
    }
}

/// A number below `10^w` (with `w >= 1`) written with `w` digits is its
/// zero-padded decimal representation.
proof fn lemma_zero_padded_fixed(n: nat, w: nat)
    requires
        w >= 1,
        n < pow10(w),
    ensures
        zero_padded(n, w) == fixed_digits(n, w),
        decimal(n).len() <= w,
    decreases w,
{
    if n < 10 {
        assert(decimal(n) =~= seq![digit_char(n)]);
        lemma_fixed_digits_zero((w - 1) as nat);
        assert(fixed_digits(n, w) =~= Seq::new((w - 1) as nat, |i: int| '0') + decimal(n));
        assert(zero_padded(n, w) =~= fixed_digits(n, w));
    } else {
        assert(w >= 2) by {
            if w == 1 {
                assert(pow10(0) == 1);
            }
        }
        assert(n / 10 < pow10((w - 1) as nat));
        lemma_zero_padded_fixed(n / 10, (w - 1) as nat);
        assert(zero_padded(n, w) =~= fixed_digits(n, w));
    }
}

/// Of two numbers below `10^w`, written with `w` digits, the smaller comes
/// first.
proof fn lemma_fixed_digits_less(n1: nat, n2: nat, w: nat)
    requires
        n1 < n2 < pow10(w),
    ensures
        lex_less(fixed_digits(n1, w), fixed_digits(n2, w)),
    decreases w,
{
    let x = fixed_digits(n1, w);
    let y = fixed_digits(n2, w);
    lemma_fixed_digits_len(n1, w);
    lemma_fixed_digits_len(n2, w);
    if w == 0 {
        assert(false);
    } else {
        let w1 = (w - 1) as nat;
        let p1 = fixed_digits(n1 / 10, w1);
        let p2 = fixed_digits(n2 / 10, w1);
        lemma_fixed_digits_len(n1 / 10, w1);
        lemma_fixed_digits_len(n2 / 10, w1);
        if n1 / 10 < n2 / 10 {
            lemma_fixed_digits_less(n1 / 10, n2 / 10, w1);
            let k = choose|k: int|
                0 <= k < p1.len() && k < p2.len() && #[trigger] p1.take(k) == p2.take(k) && (
                p1[k] as int) < (p2[k] as int);
            assert(x.take(k) =~= p1.take(k));
            assert(y.take(k) =~= p2.take(k));
            assert(x[k] == p1[k] && y[k] == p2[k]);
        } else {
            assert(x.take(w1 as int) =~= p1);
            assert(y.take(w1 as int) =~= p2);
            assert(x[w1 as int] == digit_char(n1 % 10));
            assert(y[w1 as int] == digit_char(n2 % 10));
            assert((digit_char(n1 % 10) as int) < (digit_char(n2 % 10) as int));
            assert(x.take(w1 as int) == y.take(w1 as int));
        }
    }
}

/// Of two numbers below `10^w` (with `w >= 1`), zero-padded to `w` digits,
/// the smaller comes first; both have exactly `w` characters.
pub proof fn lemma_zero_padded_order(n1: nat, n2: nat, w: nat)
    requires
        w >= 1,
        n1 < pow10(w),
        n2 < pow10(w),
    ensures
        zero_padded(n1, w).len() == w,
        n1 < n2 ==> lex_less(zero_padded(n1, w), zero_padded(n2, w)),
{
    lemma_zero_padded_fixed(n1, w);
    lemma_zero_padded_fixed(n2, w);
    lemma_fixed_digits_len(n1, w);
    if n1 < n2 {
        lemma_fixed_digits_less(n1, n2, w);
    }
}

/// Appending equally long parts keeps the order of equally long strings,
/// and appending to the same string keeps the order of the parts.
pub proof fn lemma_lex_less_append(x1: Seq<char>, x2: Seq<char>, f1: Seq<char>, f2: Seq<char>)
    requires
        x1.len() == x2.len(),
        f1.len() == f2.len(),
        lex_less(x1, x2) || (x1 == x2 && lex_less(f1, f2)),
    ensures
        lex_less(x1 + f1, x2 + f2),
{
    let y1 = x1 + f1;
    let y2 = x2 + f2;
    if lex_less(x1, x2) {
        let k = choose|k: int|
            0 <= k < x1.len() && k < x2.len() && #[trigger] x1.take(k) == x2.take(k) && (
            x1[k] as int) < (x2[k] as int);
        assert(y1.take(k) =~= x1.take(k));
        assert(y2.take(k) =~= x2.take(k));
        assert(y1[k] == x1[k] && y2[k] == x2[k]);
    } else {
        let n = x1.len() as int;
        let k = choose|k: int|
            0 <= k < f1.len() && k < f2.len() && #[trigger] f1.take(k) == f2.take(k) && (
            f1[k] as int) < (f2[k] as int);
        assert(y1.take(n + k) =~= x1 + f1.take(k));
        assert(y2.take(n + k) =~= x2 + f2.take(k));
        assert(y1[n + k] == f1[k] && y2[n + k] == f2[k]);
        assert(y1.take(n + k) == y2.take(n + k));
    }
}

/// The number an ASCII digit string denotes, most significant digit first.
pub open spec fn digits_denote(s: Seq<char>) -> int
    decreases s.len(),
{
    if s.len() == 0 {
        0
    } else {
        digits_denote(s.drop_last()) * 10 + (s.last() as int - 48)
    }
}

/// The decimal representation of `n` is a non-empty string of ASCII digits
/// that denotes `n`, without a leading zero unless `n` is 0.
pub proof fn lemma_decimal_denotes(n: nat)
    ensures
        decimal(n).len() > 0,
        forall|k: int| 0 <= k < decimal(n).len() ==> '0' <= #[trigger] decimal(n)[k] <= '9',
        digits_denote(decimal(n)) == n,
        n >= 10 ==> decimal(n)[0] != '0',
    decreases n,
{
    if n < 10 {
        assert(decimal(n) =~= seq![digit_char(n)]);
        assert(seq![digit_char(n)].drop_last() =~= Seq::<char>::empty());
        assert(digit_char(n) as int - 48 == n);
        assert(decimal(n).last() == digit_char(n));
        assert(digits_denote(decimal(n).drop_last()) == 0);
    } else {
        lemma_decimal_denotes(n / 10);
        let d = decimal(n);
        assert(d.drop_last() =~= decimal(n / 10));
        assert(d.last() == digit_char(n % 10));
        assert(digit_char(n % 10) as int - 48 == n % 10);
        assert(n == (n / 10) * 10 + n % 10);
        assert(digits_denote(d) == digits_denote(decimal(n / 10)) * 10 + (n % 10));
        assert forall|k: int| 0 <= k < d.len() implies '0' <= #[trigger] d[k] <= '9' by {
            if k < d.len() - 1 {
                assert(d[k] == decimal(n / 10)[k]);
            }
        }
        assert(d[0] == decimal(n / 10)[0]);
        if n / 10 < 10 {
            assert(decimal(n / 10) =~= seq![digit_char(n / 10)]);
        }
    }
}

} // verus!
