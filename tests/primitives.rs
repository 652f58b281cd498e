use fuzzywuzzy::normalization::{
    AsciiOnlyNormalizer, ComposedNormalizer, FormCNormalizer, FormDNormalizer, FormKCNormalizer,
    FormKDNormalizer, LowerCaseNormalizer, Normalizer, NormalizerStep, PassthroughNormalizer,
    SplittingAlphanumericNormalizer, UnicodeToAsciiNormalizer, WhitespaceSplitSortedTokenNormalizer,
    CJKNormalizer,
};
use fuzzywuzzy::primitives::{find_longest_match, get_matching_blocks, simple_ratio, MatchingStreak, Score};
use fuzzywuzzy::segmentation::{
    ByteSegmenter, CodePointSegmenter, GraphemeSegmenter, Segmenter, SortedWhitespaceSegmenter,
    UnicodeWordSegmenter, WhitespaceSegmenter,
};

fn cp(s: &str) -> Vec<char> {
    s.chars().collect()
}

#[test]
fn matching_blocks_examples() {
    assert_eq!(
        get_matching_blocks(&cp("abxcd"), &cp("abcd")),
        vec![(0, 0, 2), (3, 2, 2), (5, 4, 0)]
    );
    assert_eq!(
        get_matching_blocks(&cp("abcd"), &cp("abxcd")),
        vec![(0, 0, 2), (2, 3, 2), (4, 5, 0)]
    );
    assert_eq!(
        get_matching_blocks(&cp("chance"), &cp("スマホでchance")),
        vec![(0, 4, 6), (6, 10, 0)]
    );
    assert_eq!(
        get_matching_blocks(&CodePointSegmenter.segment("किमप"), &CodePointSegmenter.segment("किमपि")),
        vec![(0, 0, 4), (4, 5, 0)]
    );
    assert_eq!(
        get_matching_blocks(&GraphemeSegmenter.segment("chance"), &GraphemeSegmenter.segment("スマホでchance")),
        vec![(0, 4, 6), (6, 10, 0)]
    );
    assert_eq!(
        get_matching_blocks(&GraphemeSegmenter.segment("किमप"), &GraphemeSegmenter.segment("किमपि")),
        vec![(0, 0, 2), (3, 3, 0)]
    );
}

#[test]
fn matching_blocks_end_with_sentinel_and_are_ordered() {
    let pairs = [("abxcd", "abcd"), ("", "abc"), ("abc", ""), ("cbbbbb", "babbcb"), ("aaab", "xbxxxx")];
    for (a, b) in pairs.iter() {
        let (a, b) = (cp(a), cp(b));
        let blocks = get_matching_blocks(&a, &b);
        assert_eq!(*blocks.last().unwrap(), (a.len(), b.len(), 0));
        for w in blocks.windows(2) {
            assert!(w[0].0 + w[0].2 <= w[1].0);
            assert!(w[0].1 + w[0].2 <= w[1].1);
            assert!(w[0].2 > 0);
        }
    }
}

#[test]
fn matching_blocks_of_equal_sequences() {
    let a = cp("hello world");
    assert_eq!(get_matching_blocks(&a, &a), vec![(0, 0, 11), (11, 11, 0)]);
    let e: Vec<char> = Vec::new();
    assert_eq!(get_matching_blocks(&e, &e), vec![(0, 0, 0)]);
}

#[test]
fn longest_match_examples() {
    let a = cp("foo bar");
    let b = cp("foo bar baz");
    let c = cp("bar baz");
    assert_eq!(
        find_longest_match(&a, &b, 0, a.len(), 0, b.len()),
        MatchingStreak { idx1: 0, idx2: 0, size: 7 }
    );
    assert_eq!(
        find_longest_match(&a, &c, 0, a.len(), 0, c.len()),
        MatchingStreak { idx1: 3, idx2: 3, size: 3 }
    );
    assert_eq!(
        find_longest_match(&c, &b, 0, c.len(), 0, b.len()),
        MatchingStreak { idx1: 0, idx2: 4, size: 7 }
    );
    assert_eq!(
        find_longest_match(&a, &b, 2, 2, 0, b.len()),
        MatchingStreak { idx1: 2, idx2: 0, size: 0 }
    );
}

#[test]
fn longest_match_with_short_second_window() {
    let a = cp("aaab");
    let b = cp("xbxxxx");
    assert_eq!(
        find_longest_match(&a, &b, 0, 3, 0, 1),
        MatchingStreak { idx1: 0, idx2: 0, size: 0 }
    );
    assert_eq!(
        find_longest_match(&a, &b, 0, 4, 0, 6),
        MatchingStreak { idx1: 3, idx2: 1, size: 1 }
    );
}

#[test]
fn simple_ratio_examples() {
    assert_eq!(simple_ratio(&cp("cd"), &cp("abcd")), 67);
    let e: Vec<char> = Vec::new();
    assert_eq!(simple_ratio(&e, &e), 100);
    assert_eq!(simple_ratio(&e, &cp("abc")), 0);
    assert_eq!(simple_ratio(&cp("abc"), &cp("abc")), 100);
    // 200 * 1 / 8 = 25; 200 * 1 / 3 rounds down to 67 from 66.7.
    assert_eq!(simple_ratio(&cp("abcd"), &cp("axyz")), 25);
    assert_eq!(simple_ratio(&cp("a"), &cp("ab")), 67);
    // 200 * 1 / 16 = 12.5 rounds up to 13.
    assert_eq!(simple_ratio(&cp("abcdefgh"), &cp("aBCDEFGH")), 13);
}

#[test]
fn score_bounds() {
    assert_eq!(Score::new(0).unwrap().score(), 0);
    assert_eq!(Score::new(100).unwrap().score(), 100);
    assert!(Score::new(101).is_none());
    assert!(Score::new(255).is_none());
}

#[test]
fn normalizer_examples() {
    assert_eq!(LowerCaseNormalizer.normalize("this STRING"), "this string");
    assert_eq!(PassthroughNormalizer.normalize("Ab c"), "Ab c");
    assert_eq!(AsciiOnlyNormalizer.normalize("äbc"), "bc");
    assert_eq!(SplittingAlphanumericNormalizer.normalize("abc!!!123"), "abc   123");
    assert_eq!(SplittingAlphanumericNormalizer.normalize("   abc123"), "   abc123");
    assert_eq!(SplittingAlphanumericNormalizer.normalize("a\u{0308}bc"), "a bc");
    assert_eq!(
        WhitespaceSplitSortedTokenNormalizer.normalize("  world hello\tbig  "),
        "big hello world"
    );
    assert_eq!(WhitespaceSplitSortedTokenNormalizer.normalize("   "), "");
    assert_eq!(FormCNormalizer.normalize("a\u{0308}"), "\u{e4}");
    assert_eq!(FormKCNormalizer.normalize("a\u{0308}"), "\u{e4}");
    assert_eq!(FormDNormalizer.normalize("\u{e4}"), "a\u{0308}");
    assert_eq!(FormKDNormalizer.normalize("\u{e4}"), "a\u{0308}");
    assert_eq!(FormKCNormalizer.normalize("\u{fb01}"), "fi");
    assert_eq!(CJKNormalizer.normalize("\u{2f800}"), "\u{4e3d}\u{fe00}");
    assert_eq!(UnicodeToAsciiNormalizer.normalize("äbc"), "abc");
    assert_eq!(UnicodeToAsciiNormalizer.normalize("a\u{0308}bc"), "abc");
    assert_eq!(UnicodeToAsciiNormalizer.normalize("किमप"), "");
}

#[test]
fn composed_normalizer_applies_in_order() {
    let n = ComposedNormalizer::with(vec![NormalizerStep::LowerCase, NormalizerStep::FormC]);
    assert_eq!(n.normalize("A\u{0308}"), "\u{e4}");
    let m = ComposedNormalizer::with(vec![
        NormalizerStep::AsciiOnly,
        NormalizerStep::SplittingAlphanumeric,
        NormalizerStep::LowerCase,
        NormalizerStep::WhitespaceSplitSortedToken,
    ]);
    assert_eq!(m.normalize("World, HELLO ä!"), "hello world");
    let empty = ComposedNormalizer::with(vec![]);
    assert_eq!(empty.normalize("Ab"), "Ab");
}

#[test]
fn segmenter_examples() {
    assert_eq!(ByteSegmenter.segment("\u{e4}"), vec![0xc3u8, 0xa4u8]);
    assert_eq!(ByteSegmenter.segment("a\u{0308}"), vec![0x61u8, 0xccu8, 0x88u8]);
    assert_eq!(CodePointSegmenter.segment("a\u{0308}"), vec!['a', '\u{0308}']);
    assert_eq!(CodePointSegmenter.segment("किमपि"), vec!['क', 'ि', 'म', 'प', 'ि']);
    assert_eq!(GraphemeSegmenter.segment("a\u{0308}"), vec!["a\u{0308}".to_string()]);
    assert_eq!(
        GraphemeSegmenter.segment("किमपि"),
        vec!["कि".to_string(), "म".to_string(), "पि".to_string()]
    );
    assert_eq!(
        WhitespaceSegmenter.segment(" b  a c "),
        vec!["b".to_string(), "a".to_string(), "c".to_string()]
    );
    assert_eq!(
        SortedWhitespaceSegmenter.segment(" b  a c "),
        vec!["a".to_string(), "b".to_string(), "c".to_string()]
    );
    assert_eq!(
        UnicodeWordSegmenter.segment("The quick"),
        vec!["The".to_string(), " ".to_string(), "quick".to_string()]
    );
}
