use cinnabar::refine_score::{
    combined_score, jaccard, length_ratio, prefix_match, refine_decision, RefineDecision, Score,
};

#[test]
fn factors_are_symmetric() {
    let (a, b) = ("然后会议的页面", "的页面移动端");
    assert_eq!(jaccard(a, b), jaccard(b, a));
    assert_eq!(length_ratio(a, b), length_ratio(b, a));
    assert_eq!(prefix_match(a, b, 5), prefix_match(b, a, 5));
}

#[test]
fn texts_equal_up_to_spaces_are_overridden() {
    let s = combined_score("今 天 天 气", "今天天气");
    assert_eq!(refine_decision(s), RefineDecision::Override);
}

#[test]
fn lost_prefix_is_rejected() {
    let s = combined_score("然后会议的页面", "的页面会议然后");
    assert_eq!(s.prefix.num, 0);
    assert_eq!(refine_decision(s), RefineDecision::Rejected);
}

#[test]
fn decisions_grow_with_the_score() {
    let rank = |d: RefineDecision| match d {
        RefineDecision::Rejected => 0,
        RefineDecision::OverrideWarn => 1,
        RefineDecision::Override => 2,
    };
    let mut last = 0;
    for k in 0..=100u64 {
        let r = rank(refine_decision(Score::from_fraction(k, 100)));
        assert!(r >= last);
        last = r;
    }
}

#[test]
fn exact_multiset_counts() {
    // common characters: 需 要 适 配 一 端 = 6, longer text 8
    let j = jaccard("移动端需要适配一", "终端需要适配一下");
    assert_eq!((j.num, j.den), (6, 8));
    // repeated characters count by multiplicity: "aab" vs "abb" share a, b
    let j = jaccard("aab", "abb");
    assert_eq!((j.num, j.den), (2, 3));
}

#[test]
fn prefix_edge_cases() {
    let p = prefix_match("", "", 5);
    assert_eq!((p.num, p.den), (1, 1));
    let p = prefix_match("abc", "", 5);
    assert_eq!((p.num, p.den), (0, 1));
    let p = prefix_match("abcdefg", "abxdefz", 5);
    assert_eq!((p.num, p.den), (4, 5));
    let p = prefix_match("ab", "abcdef", 5);
    assert_eq!((p.num, p.den), (2, 2));
}

#[test]
fn decision_names() {
    assert_eq!(RefineDecision::Override.as_str(), "override");
    assert_eq!(RefineDecision::OverrideWarn.as_str(), "override_warn");
    assert_eq!(RefineDecision::Rejected.as_str(), "rejected");
}
