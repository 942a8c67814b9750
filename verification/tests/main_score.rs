use cinnabar::refine_score::{
    combined_score, jaccard, length_ratio, prefix_match, refine_decision, Ratio, Score,
};

fn value(r: Ratio) -> f32 {
    r.num as f32 / r.den as f32
}

fn score_value(s: Score) -> f32 {
    value(s.jaccard) * value(s.length) * value(s.prefix)
}

#[test]
fn main_jaccard_identical() {
    assert_eq!(value(jaccard("今天天气挺好的", "今天天气挺好的")), 1.0);
}

#[test]
fn main_jaccard_both_empty() {
    assert_eq!(value(jaccard("", "")), 1.0);
}

#[test]
fn main_jaccard_one_empty() {
    assert_eq!(value(jaccard("今天", "")), 0.0);
    assert_eq!(value(jaccard("", "今天")), 0.0);
}

#[test]
fn main_jaccard_trailing_addition() {
    let j = value(jaccard(
        "今天天气比较热也希望一起把业务做起",
        "今天天气比较热也希望一起把业务做起来",
    ));
    assert!(j > 0.9, "trailing补字应该高 jaccard, got {}", j);
}

#[test]
fn main_jaccard_head_loss() {
    let j = value(jaccard(
        "然后会议的页面移动端是原生的pc做了之后一旦端也要",
        "的页面移动端是原生的做了之后移动端也要做",
    ));
    assert!(j < 0.7, "head loss 应该 < 0.7, got {}", j);
}

#[test]
fn main_jaccard_structural_rewrite() {
    let j = value(jaccard("移动端需要适配一", "终端需要适配一下"));
    assert!(j > 0.7, "短文本 multiset 仍然较高, got {}", j);
}

#[test]
fn main_length_ratio_basic() {
    assert_eq!(value(length_ratio("abc", "abc")), 1.0);
    assert_eq!(value(length_ratio("", "")), 1.0);
    assert!((value(length_ratio("abcde", "abcdefghij")) - 0.5).abs() < 0.01);
    assert!(value(length_ratio("a", &"a".repeat(100))) < 0.02);
}

#[test]
fn main_prefix_match_basic() {
    assert_eq!(value(prefix_match("今天天气好", "今天天气好", 5)), 1.0);
    assert_eq!(value(prefix_match("今天天气好", "然后会议", 5)), 0.0);
    let p = value(prefix_match("今天天气好", "今天然后好", 5));
    assert!((p - 0.6).abs() < 0.01);
}

#[test]
fn main_combined_score_trailing_addition() {
    let s = score_value(combined_score(
        "今天天气比较热也希望一起把业务做起",
        "今天天气比较热也希望一起把业务做起来",
    ));
    assert!(s > 0.80, "trailing补字应该高 score, got {}", s);
}

#[test]
fn main_combined_score_head_loss() {
    let s = score_value(combined_score(
        "然后会议的页面移动端是原生的pc做了之后一旦端也要",
        "的页面移动端是原生的做了之后移动端也要做",
    ));
    assert!(s < 0.1, "head loss 应该 score ≈ 0, got {}", s);
}

#[test]
fn main_combined_score_real_session_fixture() {
    let s0 = combined_score("今天天气挺好的", "今天天气挺好的");
    assert_eq!(refine_decision(s0).as_str(), "override");

    let s3 = combined_score("而且可脱钻修改宽高", "再修改宽高了");
    assert!(score_value(s3) < 0.1, "head loss应该 score≈0, got {}", score_value(s3));
    assert_eq!(refine_decision(s3).as_str(), "rejected");

    let s4 = combined_score("看看会导致一些页面不太适合", "找的一些页面不太适合");
    assert!(score_value(s4) < 0.1, "head loss应该 score≈0, got {}", score_value(s4));
    assert_eq!(refine_decision(s4).as_str(), "rejected");
}

#[test]
fn main_refine_decision_boundaries() {
    assert_eq!(refine_decision(Score::from_fraction(92, 100)).as_str(), "override");
    assert_eq!(refine_decision(Score::from_fraction(919, 1000)).as_str(), "override_warn");
    assert_eq!(refine_decision(Score::from_fraction(40, 100)).as_str(), "override_warn");
    assert_eq!(refine_decision(Score::from_fraction(399, 1000)).as_str(), "rejected");
    assert_eq!(refine_decision(Score::from_fraction(1, 1)).as_str(), "override");
    assert_eq!(refine_decision(Score::from_fraction(0, 1)).as_str(), "rejected");
}
