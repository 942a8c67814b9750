//! Similarity between the streaming transcript of a segment and the offline
//! refinement of the same audio, and the decision whether the refinement may
//! replace the streaming text on screen.
//!
//! The score is the product of three factors, each an exact fraction in
//! `[0, 1]`:
//! - character Jaccard (multiset): how many characters the two texts share;
//! - length ratio: penalises a refinement that is much shorter;
//! - prefix match: penalises a refinement that lost its first characters.
//!
//! Decisions: a score of at least 0.92 overrides the streaming text, at least
//! 0.40 overrides it with a warning, anything lower is rejected.
//! Both texts are compared with their separator spaces removed.

use vstd::prelude::*;
use crate::display::{normalize_for_compare, stripped};
use crate::text::chars_of;
use crate::wide::product_at_least;
use vstd::multiset::Multiset;

verus! {

broadcast use vstd::seq_lib::group_to_multiset_ensures;

/// The number of leading characters compared by the prefix factor.
pub const PREFIX_MATCH_LEN: usize = 5;

/// The threshold for `Override`, in hundredths (0.92).
pub const REFINE_HIGH_THRESHOLD: u64 = 92;

/// The threshold for `OverrideWarn`, in hundredths (0.40).
pub const REFINE_MED_THRESHOLD: u64 = 40;

/// A fraction `num / den`.
#[derive(Clone, Copy, Debug, PartialEq, Eq, Structural)]
pub struct Ratio {
    pub num: u64,
    pub den: u64,
}

/// The combined score: the product of its three factors.
#[derive(Clone, Copy, Debug, PartialEq, Eq, Structural)]
pub struct Score {
    pub jaccard: Ratio,
    pub length: Ratio,
    pub prefix: Ratio,
}

/// What to do with a refinement.
#[derive(Clone, Copy, Debug, PartialEq, Eq, Structural)]
pub enum RefineDecision {
    /// The refinement agrees with the streaming text; show it.
    Override,
    /// Partial agreement; show the refinement but log a warning.
    OverrideWarn,
    /// Too different (lost prefix, rewrite); keep the streaming text.
    Rejected,
}

impl RefineDecision {
    /// The name of the decision as written in the session log.
    pub fn as_str(&self) -> (res: &'static str)
        ensures
            *self is Override ==> res@ == "override"@,
            *self is OverrideWarn ==> res@ == "override_warn"@,
            *self is Rejected ==> res@ == "rejected"@,
    {
        match self {
            RefineDecision::Override => "override",
            RefineDecision::OverrideWarn => "override_warn",
            RefineDecision::Rejected => "rejected",
        }
    }
}

impl Ratio {
    /// A fraction in `[0, 1]` with a positive denominator.
    pub open spec fn is_unit_fraction(self) -> bool {
        0 < self.den && self.num <= self.den
    }
}

impl Score {
    /// A score whose value is the single fraction `num / den`.
    pub fn from_fraction(num: u64, den: u64) -> (res: Score)
        ensures
            res.jaccard == (Ratio { num, den }),
            res.length == (Ratio { num: 1, den: 1 }),
            res.prefix == (Ratio { num: 1, den: 1 }),
    {
        Score {
            jaccard: Ratio { num, den },
            length: Ratio { num: 1, den: 1 },
            prefix: Ratio { num: 1, den: 1 },
        }
    }

    /// The numerator of the product of the factors.
    pub open spec fn num_product(self) -> nat {
        (self.jaccard.num * self.length.num * self.prefix.num) as nat
    }

    /// The denominator of the product of the factors.
    pub open spec fn den_product(self) -> nat {
        (self.jaccard.den * self.length.den * self.prefix.den) as nat
    }

    /// The score is at least `n / d`.
    pub open spec fn at_least(self, n: nat, d: nat) -> bool {
        self.num_product() * d >= n * self.den_product()
    }

    /// The score is at most the score `other` (denominators positive).
    pub open spec fn at_most(self, other: Score) -> bool {
        self.num_product() * other.den_product() <= other.num_product() * self.den_product()
    }

    /// All three factors are fractions in `[0, 1]`.
    pub open spec fn is_well_formed(self) -> bool {
        self.jaccard.is_unit_fraction() && self.length.is_unit_fraction()
            && self.prefix.is_unit_fraction()
    }
}

// ---------------------------------------------------------------------------
// Specifications
// ---------------------------------------------------------------------------

/// The size of the multiset intersection of the characters of `x` and `y`:
/// the sum over all characters `c` of `min(count(x, c), count(y, c))`.
pub open spec fn common_chars(x: Seq<char>, y: Seq<char>) -> nat {
    x.to_multiset().intersection_with(y.to_multiset()).len()
}

/// Character Jaccard as `(numerator, denominator)`: 1 when the space-stripped
/// texts are equal (both empty included), otherwise the common characters
/// over the length of the longer text.
pub open spec fn jaccard_spec(a: Seq<char>, b: Seq<char>) -> (nat, nat) {
    let x = stripped(a);
    let y = stripped(b);
    if x == y {
        (1, 1)
    } else {
        (common_chars(x, y), vstd::math::max(x.len() as int, y.len() as int) as nat)
    }
}

/// Length ratio as `(numerator, denominator)`: the shorter character count
/// over the longer one, 1 when both are empty.
pub open spec fn length_ratio_spec(a: Seq<char>, b: Seq<char>) -> (nat, nat) {
    let la = stripped(a).len();
    let lb = stripped(b).len();
    if la == 0 && lb == 0 {
        (1, 1)
    } else {
        (vstd::math::min(la as int, lb as int) as nat, vstd::math::max(la as int, lb as int) as nat)
    }
}

/// The number of positions `i < k` where `x` and `y` hold the same character.
pub open spec fn agreeing_positions(x: Seq<char>, y: Seq<char>, k: nat) -> nat
    decreases k,
{
    if k == 0 {
        0
    } else {
        agreeing_positions(x, y, (k - 1) as nat) + if x[k - 1] == y[k - 1] {
            1nat
        } else {
            0nat
        }
    }
}

/// Prefix match as `(numerator, denominator)` over the first `n` characters:
/// 1 when both prefixes are empty, 0 when exactly one is, otherwise the
/// agreeing positions over the length of the shorter prefix.
pub open spec fn prefix_match_spec(a: Seq<char>, b: Seq<char>, n: nat) -> (nat, nat) {
    let x = stripped(a);
    let y = stripped(b);
    let pa = vstd::math::min(n as int, x.len() as int) as nat;
    let pb = vstd::math::min(n as int, y.len() as int) as nat;
    if pa == 0 && pb == 0 {
        (1, 1)
    } else if pa == 0 || pb == 0 {
        (0, 1)
    } else {
        let pair = vstd::math::min(pa as int, pb as int) as nat;
        (agreeing_positions(x, y, pair), pair)
    }
}

/// `s` is the score of the streaming text `a` against the refinement `b`.
pub open spec fn is_score_of(s: Score, a: Seq<char>, b: Seq<char>) -> bool {
    &&& ratio_is(s.jaccard, jaccard_spec(a, b))
    &&& ratio_is(s.length, length_ratio_spec(a, b))
    &&& ratio_is(s.prefix, prefix_match_spec(a, b, PREFIX_MATCH_LEN as nat))
}

/// The ratio holds exactly the pair `p`.
pub open spec fn ratio_is(r: Ratio, p: (nat, nat)) -> bool {
    r.num as nat == p.0 && r.den as nat == p.1
}

/// The decision for a score: `Override` from 0.92 on, `OverrideWarn` from
/// 0.40 on, `Rejected` below.
pub open spec fn decision_spec(s: Score) -> RefineDecision {
    if s.at_least(REFINE_HIGH_THRESHOLD as nat, 100) {
        RefineDecision::Override
    } else if s.at_least(REFINE_MED_THRESHOLD as nat, 100) {
        RefineDecision::OverrideWarn
    } else {
        RefineDecision::Rejected
    }
}

/// The rank of a decision: 2 for `Override`, 1 for `OverrideWarn`, 0 for
/// `Rejected`.
pub open spec fn decision_rank(d: RefineDecision) -> nat {
    match d {
        RefineDecision::Override => 2,
        RefineDecision::OverrideWarn => 1,
        RefineDecision::Rejected => 0,
    }
}

// ---------------------------------------------------------------------------
// The multiset intersection
// ---------------------------------------------------------------------------

proof fn lemma_to_multiset_first(s: Seq<char>)
    requires
        s.len() > 0,
    ensures
        s.to_multiset() =~= s.drop_first().to_multiset().insert(s[0]),
{
    assert(s.remove(0) =~= s.drop_first());
    assert(s.remove(0).to_multiset() =~= s.to_multiset().remove(s[0]));
    assert(s.contains(s[0]));
}

proof fn lemma_to_multiset_remove(s: Seq<char>, j: int)
    requires
        0 <= j < s.len(),
    ensures
        s.to_multiset() =~= s.remove(j).to_multiset().insert(s[j]),
{
    assert(s.remove(j).to_multiset() =~= s.to_multiset().remove(s[j]));
    assert(s.contains(s[j]));
}

proof fn lemma_intersection_insert_both(x: Multiset<char>, r: Multiset<char>, c: char)
    ensures
        x.insert(c).intersection_with(r.insert(c)).len() == x.intersection_with(r).len() + 1,
{
    broadcast use vstd::multiset::group_multiset_properties;

    assert(x.insert(c).intersection_with(r.insert(c)) =~= x.intersection_with(r).insert(c));
}

proof fn lemma_intersection_insert_absent(x: Multiset<char>, r: Multiset<char>, c: char)
    requires
        r.count(c) == 0,
    ensures
        x.insert(c).intersection_with(r).len() == x.intersection_with(r).len(),
{
    broadcast use vstd::multiset::group_multiset_properties;

    assert(x.insert(c).intersection_with(r) =~= x.intersection_with(r));
}

/// The multiset intersection is symmetric.
pub proof fn lemma_common_chars_symmetric(x: Seq<char>, y: Seq<char>)
    ensures
        common_chars(x, y) == common_chars(y, x),
{
    broadcast use vstd::multiset::group_multiset_properties;

    assert(x.to_multiset().intersection_with(y.to_multiset()) =~= y.to_multiset().intersection_with(
        x.to_multiset(),
    ));
}

fn find_char(v: &Vec<char>, c: char) -> (res: Option<usize>)
    ensures
        res matches Some(j) ==> j < v@.len() && v@[j as int] == c,
        res is None ==> !v@.contains(c),
{
    let n = v.len();
    let mut j: usize = 0;
    while j < n
        invariant
            n == v@.len(),
            j <= n,
            forall|k: int| 0 <= k < j ==> v@[k] != c,
        decreases n - j,
    {
        if v[j] == c {
            return Some(j);
        }
        j = j + 1;
    }
    None
}

/// The size of the multiset intersection of the characters of `x` and `y`.
fn count_common(x: &Vec<char>, y: &Vec<char>) -> (res: usize)
    ensures
        res == common_chars(x@, y@),
        res <= x@.len(),
        res <= y@.len(),
{
    let mut rest: Vec<char> = y.clone();
    let n = x.len();
    let mut common: usize = 0;
    let mut i: usize = 0;
    assert(x@.skip(0) =~= x@);
    while i < n
        invariant
            n == x@.len(),
            i <= n,
            common <= i,
            common + rest@.len() == y@.len(),
            common + common_chars(x@.skip(i as int), rest@) == common_chars(x@, y@),
        decreases n - i,
    {
        let c = x[i];
        let ghost xs = x@.skip(i as int);
        proof {
            lemma_to_multiset_first(xs);
            assert(xs.drop_first() =~= x@.skip(i + 1));
        }
        match find_char(&rest, c) {
            Some(j) => {
                let ghost old_rest = rest@;
                proof {
                    lemma_to_multiset_remove(old_rest, j as int);
                    lemma_intersection_insert_both(
                        x@.skip(i + 1).to_multiset(),
                        old_rest.remove(j as int).to_multiset(),
                        c,
                    );
                }
                rest.remove(j);
                common = common + 1;
            },
            None => {
                proof {
                    lemma_intersection_insert_absent(
                        x@.skip(i + 1).to_multiset(),
                        rest@.to_multiset(),
                        c,
                    );
                }
            },
        }
        i = i + 1;
    }
    proof {
        broadcast use vstd::multiset::group_multiset_properties;

        assert(x@.skip(n as int) =~= Seq::<char>::empty());
        assert(x@.skip(n as int).to_multiset() =~= Multiset::<char>::empty());
        assert(Multiset::<char>::empty().intersection_with(rest@.to_multiset())
            =~= Multiset::<char>::empty());
    }
    common
}

// ---------------------------------------------------------------------------
// The three factors
// ---------------------------------------------------------------------------

fn compare_chars(s: &str) -> (res: Vec<char>)
    ensures
        res@ == stripped(s@),
{
    let t = normalize_for_compare(s);
    chars_of(t.as_str())
}

/// Character Jaccard (multiset) of the space-stripped texts:
/// `|A ∩ B| / max(|A|, |B|)`, and exactly 1 when the texts are equal.
pub fn jaccard(a: &str, b: &str) -> (res: Ratio)
    ensures
        ratio_is(res, jaccard_spec(a@, b@)),
        res.is_unit_fraction(),
{
    let x = compare_chars(a);
    let y = compare_chars(b);
    if vec_eq(&x, &y) {
        return Ratio { num: 1, den: 1 };
    }
    let max_len = if x.len() >= y.len() {
        x.len()
    } else {
        y.len()
    };
    let common = count_common(&x, &y);
    proof {
        if x@.len() == 0 && y@.len() == 0 {
            assert(x@ =~= y@);
        }
    }
    Ratio { num: common as u64, den: max_len as u64 }
}

fn vec_eq(x: &Vec<char>, y: &Vec<char>) -> (res: bool)
    ensures
        res == (x@ == y@),
{
    if x.len() != y.len() {
        return false;
    }
    let n = x.len();
    let mut i: usize = 0;
    while i < n
        invariant
            n == x@.len(),
            n == y@.len(),
            i <= n,
            forall|k: int| 0 <= k < i ==> x@[k] == y@[k],
        decreases n - i,
    {
        if x[i] != y[i] {
            return false;
        }
        i = i + 1;
    }
    assert(x@ =~= y@);
    true
}

/// Length ratio of the space-stripped texts: `min(|A|, |B|) / max(|A|, |B|)`
/// in characters, 1 when both are empty.
pub fn length_ratio(a: &str, b: &str) -> (res: Ratio)
    ensures
        ratio_is(res, length_ratio_spec(a@, b@)),
        res.is_unit_fraction(),
{
    let la = compare_chars(a).len();
    let lb = compare_chars(b).len();
    if la == 0 && lb == 0 {
        return Ratio { num: 1, den: 1 };
    }
    if la <= lb {
        Ratio { num: la as u64, den: lb as u64 }
    } else {
        Ratio { num: lb as u64, den: la as u64 }
    }
}

/// Prefix match over the first `n` characters of the space-stripped texts:
/// the share of aligned positions holding the same character, 1 when both
/// prefixes are empty and 0 when exactly one is.
pub fn prefix_match(a: &str, b: &str, n: usize) -> (res: Ratio)
    ensures
        ratio_is(res, prefix_match_spec(a@, b@, n as nat)),
        res.is_unit_fraction(),
{
    let x = compare_chars(a);
    let y = compare_chars(b);
    let pa = if n <= x.len() {
        n
    } else {
        x.len()
    };
    let pb = if n <= y.len() {
        n
    } else {
        y.len()
    };
    if pa == 0 && pb == 0 {
        return Ratio { num: 1, den: 1 };
    }
    if pa == 0 || pb == 0 {
        return Ratio { num: 0, den: 1 };
    }
    let pair = if pa <= pb {
        pa
    } else {
        pb
    };
    let mut common: usize = 0;
    let mut i: usize = 0;
    while i < pair
        invariant
            pair <= x@.len(),
            pair <= y@.len(),
            i <= pair,
            common <= i,
            common == agreeing_positions(x@, y@, i as nat),
        decreases pair - i,
    {
        if x[i] == y[i] {
            common = common + 1;
        }
        i = i + 1;
    }
    Ratio { num: common as u64, den: pair as u64 }
}

/// The combined score of a streaming text and its refinement: character
/// Jaccard × length ratio × prefix match over `PREFIX_MATCH_LEN` characters.
pub fn combined_score(streaming: &str, refined: &str) -> (res: Score)
    ensures
        is_score_of(res, streaming@, refined@),
        res.is_well_formed(),
{
    Score {
        jaccard: jaccard(streaming, refined),
        length: length_ratio(streaming, refined),
        prefix: prefix_match(streaming, refined, PREFIX_MATCH_LEN),
    }
}

/// The decision for a score: `Override` when it is at least 0.92,
/// `OverrideWarn` when at least 0.40, `Rejected` otherwise.
pub fn refine_decision(score: Score) -> (res: RefineDecision)
    ensures
        res == decision_spec(score),
{
    let j = score.jaccard;
    let l = score.length;
    let p = score.prefix;
    if product_at_least(j.num, l.num, p.num, 100, j.den, l.den, p.den, REFINE_HIGH_THRESHOLD) {
        RefineDecision::Override
    } else if product_at_least(j.num, l.num, p.num, 100, j.den, l.den, p.den, REFINE_MED_THRESHOLD) {
        RefineDecision::OverrideWarn
    } else {
        RefineDecision::Rejected
    }
}

// ---------------------------------------------------------------------------
// Laws
// ---------------------------------------------------------------------------

/// Character Jaccard does not depend on the order of its arguments.
pub proof fn lemma_jaccard_symmetric(a: Seq<char>, b: Seq<char>)
    ensures
        jaccard_spec(a, b) == jaccard_spec(b, a),
{
    lemma_common_chars_symmetric(stripped(a), stripped(b));
}

/// Jaccard's boundary cases: two texts that are both empty (once stripped)
/// score 1, and an empty text against a non-empty one scores 0.
pub proof fn lemma_jaccard_empty_cases(a: Seq<char>, b: Seq<char>)
    ensures
        stripped(a).len() == 0 && stripped(b).len() == 0 ==> jaccard_spec(a, b) == (1nat, 1nat),
        stripped(a).len() == 0 && stripped(b).len() > 0 ==> jaccard_spec(a, b).0 == 0,
        stripped(a).len() > 0 && stripped(b).len() == 0 ==> jaccard_spec(a, b).0 == 0,
{
    broadcast use vstd::multiset::group_multiset_properties;

    let x = stripped(a);
    let y = stripped(b);
    if x.len() == 0 && y.len() == 0 {
        assert(x =~= y);
    }
    if x.len() == 0 {
        assert(x.to_multiset() =~= Multiset::<char>::empty());
        assert(x.to_multiset().intersection_with(y.to_multiset()) =~= Multiset::<char>::empty());
    }
    if y.len() == 0 {
        assert(y.to_multiset() =~= Multiset::<char>::empty());
        assert(x.to_multiset().intersection_with(y.to_multiset()) =~= Multiset::<char>::empty());
    }
}

/// The length ratio does not depend on the order of its arguments.
pub proof fn lemma_length_ratio_symmetric(a: Seq<char>, b: Seq<char>)
    ensures
        length_ratio_spec(a, b) == length_ratio_spec(b, a),
{
}

proof fn lemma_agreeing_positions_symmetric(x: Seq<char>, y: Seq<char>, k: nat)
    ensures
        agreeing_positions(x, y, k) == agreeing_positions(y, x, k),
    decreases k,
{
    if k > 0 {
        lemma_agreeing_positions_symmetric(x, y, (k - 1) as nat);
    }
}

proof fn lemma_agreeing_positions_self(x: Seq<char>, k: nat)
    ensures
        agreeing_positions(x, x, k) == k,
    decreases k,
{
    if k > 0 {
        lemma_agreeing_positions_self(x, (k - 1) as nat);
    }
}

/// The prefix match does not depend on the order of its arguments.
pub proof fn lemma_prefix_match_symmetric(a: Seq<char>, b: Seq<char>, n: nat)
    ensures
        prefix_match_spec(a, b, n) == prefix_match_spec(b, a, n),
{
    let x = stripped(a);
    let y = stripped(b);
    let pa = vstd::math::min(n as int, x.len() as int) as nat;
    let pb = vstd::math::min(n as int, y.len() as int) as nat;
    lemma_agreeing_positions_symmetric(x, y, vstd::math::min(pa as int, pb as int) as nat);
}

proof fn lemma_positive_product(a: nat, b: nat, c: nat)
    requires
        a > 0,
        b > 0,
        c > 0,
    ensures
        a * b * c > 0,
{
    assert(a * b * c > 0) by (nonlinear_arith)
        requires
            a > 0,
            b > 0,
            c > 0,
    ;
}

/// A well-formed score lies in `[0, 1]`: its numerator product is at most
/// its denominator product, which is positive.
pub proof fn lemma_score_at_most_one(s: Score)
    requires
        s.is_well_formed(),
    ensures
        s.num_product() <= s.den_product(),
        s.den_product() > 0,
{
    let (a, b, c) = (s.jaccard.num as nat, s.length.num as nat, s.prefix.num as nat);
    let (d, e, f) = (s.jaccard.den as nat, s.length.den as nat, s.prefix.den as nat);
    assert(a * b * c <= d * e * f) by (nonlinear_arith)
        requires
            a <= d,
            b <= e,
            c <= f,
    ;
    lemma_positive_product(d, e, f);
}

/// Texts that are equal once their spaces are removed score exactly 1, so
/// the refinement is shown (`Override`).
pub proof fn lemma_identical_texts_override(a: Seq<char>, b: Seq<char>, s: Score)
    requires
        stripped(a) == stripped(b),
        is_score_of(s, a, b),
    ensures
        s.num_product() == s.den_product(),
        decision_spec(s) == RefineDecision::Override,
{
    let x = stripped(a);
    let pa = vstd::math::min(PREFIX_MATCH_LEN as int, x.len() as int) as nat;
    lemma_agreeing_positions_self(x, pa);
    let (j, l, p) = (s.jaccard.num as nat, s.length.num as nat, s.prefix.num as nat);
    assert(j == s.jaccard.den && l == s.length.den && p == s.prefix.den);
    assert(l > 0 && p > 0);
    lemma_positive_product(j, l, p);
    assert(j * l * p * 100 >= 92 * (j * l * p)) by (nonlinear_arith);
}

/// When none of the compared leading positions agree (a refinement that
/// lost its beginning), the score is 0 and the refinement is `Rejected`.
pub proof fn lemma_lost_prefix_rejected(a: Seq<char>, b: Seq<char>, s: Score)
    requires
        is_score_of(s, a, b),
        s.is_well_formed(),
        prefix_match_spec(a, b, PREFIX_MATCH_LEN as nat).0 == 0,
    ensures
        s.num_product() == 0,
        decision_spec(s) == RefineDecision::Rejected,
{
    lemma_score_at_most_one(s);
    assert(s.jaccard.num * s.length.num * 0 == 0) by (nonlinear_arith);
}

/// A higher score never leads to a weaker decision.
pub proof fn lemma_decision_monotone(s: Score, t: Score)
    requires
        s.den_product() > 0,
        t.den_product() > 0,
        s.at_most(t),
    ensures
        decision_rank(decision_spec(s)) <= decision_rank(decision_spec(t)),
{
    let (sn, sd, tn, td) = (s.num_product(), s.den_product(), t.num_product(), t.den_product());
    assert forall|n: nat| #![trigger s.at_least(n, 100)] s.at_least(n, 100) implies t.at_least(
        n,
        100,
    ) by {
        assert(tn * 100 >= n * td) by (nonlinear_arith)
            requires
                sd > 0,
                td > 0,
                sn * 100 >= n * sd,
                sn * td <= tn * sd,
        {
            assert(tn * 100 * sd >= sn * 100 * td);
            assert(sn * 100 * td >= n * sd * td);
        };
    }
    assert(s.at_least(92, 100) ==> t.at_least(92, 100));
    assert(s.at_least(40, 100) ==> t.at_least(40, 100));
}

/// Scoring does not depend on which text is the streaming one: the score of
/// `a` against `b` and that of `b` against `a` are the same three fractions.
pub proof fn lemma_score_symmetric(a: Seq<char>, b: Seq<char>, s: Score, t: Score)
    requires
        is_score_of(s, a, b),
        is_score_of(t, b, a),
    ensures
        s == t,
{
    lemma_jaccard_symmetric(a, b);
    lemma_length_ratio_symmetric(a, b);
    lemma_prefix_match_symmetric(a, b, PREFIX_MATCH_LEN as nat);
}

/// The length factor of a score is the character count of the shorter
/// stripped text over that of the longer one (1 when both are empty), and
/// the Jaccard factor of two different texts is taken over the longer one's
/// count.
pub proof fn lemma_score_length_factor(a: Seq<char>, b: Seq<char>, s: Score)
    requires
        is_score_of(s, a, b),
    ensures
        stripped(a).len() <= stripped(b).len() && stripped(b).len() > 0 ==> s.length.num
            == stripped(a).len() && s.length.den == stripped(b).len(),
        stripped(b).len() < stripped(a).len() ==> s.length.num == stripped(b).len()
            && s.length.den == stripped(a).len(),
        stripped(a).len() == 0 && stripped(b).len() == 0 ==> s.length.num == 1 && s.length.den
            == 1,
        stripped(a) != stripped(b) && stripped(a).len() <= stripped(b).len() ==> s.jaccard.den
            == stripped(b).len(),
        stripped(a) != stripped(b) && stripped(b).len() < stripped(a).len() ==> s.jaccard.den
            == stripped(a).len(),
{
}

/// The decision thresholds: a score of at least 92/100 overrides, one of at
/// least 40/100 overrides with a warning, anything lower is rejected.
pub proof fn lemma_decision_thresholds(s: Score)
    ensures
        decision_spec(s) == RefineDecision::Override <==> s.num_product() * 100 >= 92
            * s.den_product(),
        decision_spec(s) == RefineDecision::OverrideWarn <==> s.num_product() * 100 < 92
            * s.den_product() && s.num_product() * 100 >= 40 * s.den_product(),
        decision_spec(s) == RefineDecision::Rejected <==> s.num_product() * 100 < 40
            * s.den_product(),
{
}

proof fn lemma_agreeing_positions_bounds(x: Seq<char>, y: Seq<char>, k: nat)
    ensures
        agreeing_positions(x, y, k) <= k,
        (forall|i: int| 0 <= i < k ==> x[i] == y[i]) ==> agreeing_positions(x, y, k) == k,
    decreases k,
{
    if k > 0 {
        lemma_agreeing_positions_bounds(x, y, (k - 1) as nat);
    }
}

/// The prefix factor compares the first `PREFIX_MATCH_LEN` characters: over
/// the shorter of the two compared prefixes it counts the positions that
/// agree; a refinement that keeps the beginning scores 1 on it, and an
/// empty text against a non-empty one scores 0.
pub proof fn lemma_score_prefix_factor(a: Seq<char>, b: Seq<char>, s: Score)
    requires
        is_score_of(s, a, b),
    ensures
        ({
            let x = stripped(a);
            let y = stripped(b);
            let k = vstd::math::min(
                PREFIX_MATCH_LEN as int,
                vstd::math::min(x.len() as int, y.len() as int),
            );
            &&& k > 0 ==> s.prefix.den == k && s.prefix.num <= k
            &&& k > 0 && (forall|i: int| 0 <= i < k ==> x[i] == y[i]) ==> s.prefix.num == k
            &&& (x.len() == 0) != (y.len() == 0) ==> s.prefix.num == 0
        }),
{
    let x = stripped(a);
    let y = stripped(b);
    let k = vstd::math::min(
        PREFIX_MATCH_LEN as int,
        vstd::math::min(x.len() as int, y.len() as int),
    );
    if k > 0 {
        lemma_agreeing_positions_bounds(x, y, k as nat);
    }
}

/// The Jaccard factor counts the characters the two texts have in common:
/// texts with no character in common score 0 on it, and texts made of the
/// same characters in another order score 1.
pub proof fn lemma_score_jaccard_factor(a: Seq<char>, b: Seq<char>, s: Score)
    requires
        is_score_of(s, a, b),
    ensures
        (forall|i: int, j: int|
            0 <= i < stripped(a).len() && 0 <= j < stripped(b).len() ==> stripped(a)[i]
                != stripped(b)[j]) && stripped(a) != stripped(b) ==> s.jaccard.num == 0,
        stripped(a).to_multiset() == stripped(b).to_multiset() ==> s.jaccard.num
            == s.jaccard.den,
{
    broadcast use vstd::multiset::group_multiset_properties;
    broadcast use vstd::seq_lib::to_multiset_len;

    let x = stripped(a);
    let y = stripped(b);
    let mx = x.to_multiset();
    let my = y.to_multiset();
    if (forall|i: int, j: int| 0 <= i < x.len() && 0 <= j < y.len() ==> x[i] != y[j]) {
        assert(mx.intersection_with(my) =~= Multiset::<char>::empty()) by {
            assert forall|v: char| #[trigger] mx.intersection_with(my).count(v) == 0 by {
                if mx.count(v) > 0 && my.count(v) > 0 {
                    assert(x.contains(v));
                    assert(y.contains(v));
                    let i = choose|i: int| 0 <= i < x.len() && x[i] == v;
                    let j = choose|j: int| 0 <= j < y.len() && y[j] == v;
                    assert(x[i] != y[j]);
                }
            }
        }
    }
    if mx == my {
        assert(mx.intersection_with(my) =~= mx);
        assert(x.len() == y.len());
    }
}

} // verus!
