use fuzzywuzzy::fuzz::{partial_ratio, ratio, ratio_full};
use fuzzywuzzy::normalization::{FormCNormalizer, LowerCaseNormalizer, PassthroughNormalizer};
use fuzzywuzzy::segmentation::{ByteSegmenter, CodePointSegmenter, GraphemeSegmenter};

#[test]
fn ratio_unicode() {
    let list = [
        ("スマホでchance", "chance", 75),
        ("học", "hoc", 67),
        ("ρɪc", "pic", 33),
        ("quốc", "quoc", 75),
        ("trước", "truoc", 60),
        ("thực", "thuc", 75),
        ("我刚上传了一张照片到facebook", "facebook", 62),
        ("お名前.com", "com", 60),
        ("っˇωˇc", "w", 0),
        ("出会いを探すならpcmax", "pcmax", 56),
        ("化粧cas", "cas", 75),
        ("fòllòwbáck", "followback", 70),
    ];
    for (a, b, r) in list.iter() {
        assert_eq!(ratio(a, b).score(), *r);
    }
}

#[test]
fn ratio_empty_strings() {
    assert_eq!(ratio("", "").score(), 100);
    assert_eq!(ratio("", "nonempty").score(), 0);
    assert_eq!(ratio("nonempty", "").score(), 0);
}

#[test]
fn ratio_examples() {
    assert_eq!(ratio("cd", "abcd").score(), 67);
    assert_eq!(ratio("new york mets", "new york mets").score(), 100);
    assert_eq!(ratio("new york mets", "new YORK mets").score(), 69);
    assert_eq!(ratio("hello test", "hello world").score(), 57);
}

#[test]
fn ratio_with_itself() {
    for s in ["", "a", "hello world", "スマホでchance", "aaaa"] {
        assert_eq!(ratio(s, s).score(), 100);
    }
}

#[test]
fn ratio_exchanged_arguments() {
    let pairs = [
        ("cd", "abcd"),
        ("hello test", "hello world!"),
        ("fòllòwbáck", "followback!"),
        ("abc", ""),
    ];
    for (a, b) in pairs.iter() {
        assert_eq!(ratio(a, b).score(), ratio(b, a).score());
    }
}

#[test]
fn partial_ratio_examples() {
    assert_eq!(partial_ratio("", "").score(), 100);
    assert_eq!(partial_ratio("", "nonempty").score(), 0);
    assert_eq!(partial_ratio("ab", "abcd").score(), 100);
    assert_eq!(partial_ratio("bc", "abcd").score(), 100);
    assert_eq!(partial_ratio("cd", "abcd").score(), 100);
    assert_eq!(partial_ratio("ad", "abcd").score(), 50);
    assert_eq!(partial_ratio("ac", "abcd").score(), 50);
    assert_eq!(partial_ratio("hello", "hello world").score(), 100);
    assert_eq!(partial_ratio("new york mets", "the new york mets").score(), 100);
    assert_eq!(partial_ratio("the new york mets", "new york mets").score(), 100);
}

#[test]
fn partial_ratio_order_dependent() {
    assert_eq!(
        partial_ratio(
            "what about supercalifragilisticexpialidocious",
            "supercalifragilisticexpialidocious about what"
        )
        .score(),
        76
    );
    assert_eq!(
        partial_ratio(
            "supercalifragilisticexpialidocious about what",
            "what about supercalifragilisticexpialidocious"
        )
        .score(),
        86
    );
}

#[test]
fn partial_ratio_ignores_sentinel_window() {
    // The window at the end of the longer string, which only the sentinel
    // block anchors, would score 67.
    assert_eq!(partial_ratio("baa", "caccaca").score(), 33);
}

#[test]
fn ratio_full_with_normalizers() {
    assert_eq!(
        ratio_full("this STRING", "THIS string", LowerCaseNormalizer, CodePointSegmenter).score(),
        100
    );
    assert_eq!(
        ratio_full("ab", "AB", PassthroughNormalizer, CodePointSegmenter).score(),
        0
    );
    // U+00E4 against U+0061 U+0308
    assert_eq!(
        ratio_full("\u{e4}x", "a\u{308}x", PassthroughNormalizer, CodePointSegmenter).score(),
        40
    );
    assert_eq!(
        ratio_full("\u{e4}x", "a\u{308}x", FormCNormalizer, CodePointSegmenter).score(),
        100
    );
}

#[test]
fn ratio_full_with_segmenters() {
    // Bytes: "é" is two bytes, both differing from "e".
    assert_eq!(
        ratio_full("é", "e", PassthroughNormalizer, ByteSegmenter).score(),
        0
    );
    assert_eq!(
        ratio_full("aé", "ae", PassthroughNormalizer, ByteSegmenter).score(),
        40
    );
    // Graphemes: "a\u{308}" is one cluster.
    assert_eq!(
        ratio_full("a\u{308}b", "ab", PassthroughNormalizer, GraphemeSegmenter).score(),
        50
    );
    assert_eq!(
        ratio_full("a\u{308}b", "ab", PassthroughNormalizer, CodePointSegmenter).score(),
        80
    );
}
