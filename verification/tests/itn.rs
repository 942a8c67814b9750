use cinnabar::itn::itn;

#[test]
fn single_digits() {
    assert_eq!(itn("一"), "1");
    assert_eq!(itn("二"), "2");
    assert_eq!(itn("三"), "3");
    assert_eq!(itn("九"), "9");
    assert_eq!(itn("零"), "0");
    assert_eq!(itn("两"), "2");
}

#[test]
fn unit_alone() {
    assert_eq!(itn("十"), "10");
    assert_eq!(itn("百"), "100");
    assert_eq!(itn("千"), "1000");
}

#[test]
fn low_unit() {
    assert_eq!(itn("二十"), "20");
    assert_eq!(itn("二十三"), "23");
    assert_eq!(itn("三十七"), "37");
    assert_eq!(itn("三百二十"), "320");
    assert_eq!(itn("五百"), "500");
    assert_eq!(itn("二千三"), "2003");
}

#[test]
fn high_unit() {
    assert_eq!(itn("三万"), "30000");
    assert_eq!(itn("二十三万"), "230000");
    assert_eq!(itn("三万二千三百四十五"), "32345");
}

#[test]
fn percent() {
    assert_eq!(itn("百分之五十"), "50%");
    assert_eq!(itn("百分之五"), "5%");
    assert_eq!(itn("百分之一百"), "100%");
}

#[test]
fn mixed_text() {
    assert_eq!(itn("今天"), "今天");
    assert_eq!(itn("二十秒"), "20秒");
    assert_eq!(itn("三秒"), "3秒");
    assert_eq!(itn("二零二六年"), "2026年");
    assert_eq!(itn("OK"), "OK");
}

#[test]
fn empty() {
    assert_eq!(itn(""), "");
}

#[test]
fn unparseable_preserved() {
    let _ = itn("两三个");
}

#[test]
fn itn_percent_without_number_is_kept() {
    assert_eq!(itn("百分之"), "百分之");
    assert_eq!(itn("百分之好"), "百分之好");
}

#[test]
fn itn_large_units() {
    assert_eq!(itn("三亿"), "300000000");
    assert_eq!(itn("五萬"), "50000");
}

#[test]
fn itn_financial_forms() {
    assert_eq!(itn("壹拾贰"), "12");
    assert_eq!(itn("叁佰"), "300");
}

#[test]
fn itn_overflowing_run_is_kept() {
    // 亿亿亿 = 10^24 does not fit in 64 bits: the run stays as it was.
    assert_eq!(itn("亿亿亿年"), "亿亿亿年");
}

#[test]
fn itn_spoken_range_is_kept() {
    assert_eq!(itn("两三个"), "两三个");
    assert_eq!(itn("一两天"), "一两天");
    assert_eq!(itn("五六十人"), "五六十人");
    assert_eq!(itn("百分之五六十"), "百分之五六十");
    assert_eq!(itn("三十五六岁"), "三十五六岁");
}

#[test]
fn itn_digit_strings_are_not_ranges() {
    assert_eq!(itn("二零二六年"), "2026年");
    assert_eq!(itn("一二三四"), "1234");
    assert_eq!(itn("零一年"), "1年");
    assert_eq!(itn("三五天"), "35天");
}

#[test]
fn itn_compound_high_units() {
    assert_eq!(itn("一亿三千万"), "130000000");
    assert_eq!(itn("一亿二千万"), "120000000");
    assert_eq!(itn("三亿零五万"), "300050000");
    assert_eq!(itn("一万亿"), "1000000000000");
    assert_eq!(itn("两万万"), "200000000");
    assert_eq!(itn("万"), "10000");
    assert_eq!(itn("亿"), "100000000");
}

#[test]
fn itn_numbers_between_words() {
    assert_eq!(itn("第三十页"), "第30页");
    assert_eq!(itn("三百分之五"), "300分之5");
}

#[test]
fn itn_separator_splits_conversion() {
    let a = "二十";
    let b = "三百五十";
    let joined = format!("{}，{}", a, b);
    assert_eq!(itn(&joined), format!("{}，{}", itn(a), itn(b)));
    assert_eq!(itn(&joined), "20，350");
    assert_eq!(itn("三 万"), "3 10000");
}
