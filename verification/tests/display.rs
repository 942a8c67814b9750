use cinnabar::display::{
    final_line, final_replace_line, normalize_for_compare, partial_line, strip_display_spaces,
};

#[test]
fn strip_removes_separator_spaces() {
    assert_eq!(strip_display_spaces("今 天 天"), "今天天");
    assert_eq!(strip_display_spaces("全　角"), "全　角");
    assert_eq!(strip_display_spaces("好 ， 吗 ？ "), "好，吗？");
    assert_eq!(strip_display_spaces(""), "");
    assert_eq!(normalize_for_compare("今 天"), "今天");
}

#[test]
fn strip_keeps_spaces_between_ascii_words() {
    assert_eq!(strip_display_spaces("divide test"), "divide test");
    assert_eq!(strip_display_spaces("今 天 divide test 好"), "今天divide test好");
    assert_eq!(strip_display_spaces(" ab  cd "), "ab  cd");
    assert_eq!(strip_display_spaces("test, ok"), "test, ok");
}

#[test]
fn strip_joins_spelled_out_letters() {
    assert_eq!(strip_display_spaces("d i v i d"), "divid");
    assert_eq!(strip_display_spaces(" a  b "), "ab");
    assert_eq!(normalize_for_compare("a b c"), "abc");
    assert_eq!(strip_display_spaces("今 天 d i v i d e"), "今天divide");
    assert_eq!(strip_display_spaces("x divide"), "xdivide");
}

#[test]
fn partial_line_modes() {
    assert_eq!(partial_line("二 十 秒", true, true), "\r\x1b[2K▌ 20秒");
    assert_eq!(partial_line("二 十 秒", false, true), "20秒\n");
}

#[test]
fn final_line_modes() {
    assert_eq!(final_line("今 天", true, true), "\r\x1b[2K✅ 今天\n");
    assert_eq!(final_line("今 天", false, true), "\n✅ 今天\n");
}

#[test]
fn final_replace_line_modes() {
    assert_eq!(final_replace_line("三 秒", true, true), "\x1b[1A\r\x1b[2K✅ 3秒\n");
    assert_eq!(final_replace_line("三 秒", false, true), "\n✅ 3秒\n");
}

#[test]
fn lines_without_numeral_normalisation() {
    assert_eq!(partial_line("二 十 秒", true, false), "\r\x1b[2K▌ 二十秒");
    assert_eq!(partial_line("二 十 秒", false, false), "二十秒\n");
    assert_eq!(final_line("三 秒", false, false), "\n✅ 三秒\n");
    assert_eq!(final_replace_line("三 秒", true, false), "\x1b[1A\r\x1b[2K✅ 三秒\n");
}
