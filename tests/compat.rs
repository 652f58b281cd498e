use fuzzywuzzy::fuzzywuzzy_compatible::fuzz::{
    partial_token_set_ratio, partial_token_sort_ratio, qratio, token_set_ratio, token_sort_ratio,
    uqratio, uwratio, wratio,
};
use fuzzywuzzy::fuzzywuzzy_compatible::string_processing::replace_non_letters_non_numbers_with_whitespace;
use fuzzywuzzy::fuzzywuzzy_compatible::utils::{asciionly, full_process};

#[test]
fn token_sort_ratio_examples() {
    assert_eq!(token_sort_ratio("hello world", "world hello", true, true).score(), 100);
    assert_eq!(token_sort_ratio("new york mets", "the new york mets", true, true).score(), 87);
    assert_eq!(
        token_sort_ratio("    new york mets", "the new york mets   ", true, true).score(),
        87
    );
    assert_eq!(token_sort_ratio("new york mets", "new YORK mets", true, true).score(), 100);
    assert_eq!(
        token_sort_ratio(
            "what about supercalifragilisticexpialidocious",
            "supercalifragilisticexpialidocious about what",
            true,
            true
        )
        .score(),
        100
    );
    assert_eq!(
        token_sort_ratio(
            "what about supercalifragilisticexpialidociousx",
            "supercalifragilisticexpialidociousy about what",
            true,
            true
        )
        .score(),
        98
    );
}

#[test]
fn token_sort_ratio_without_processing_still_sorts() {
    assert_eq!(token_sort_ratio("hello world", "world hello", true, false).score(), 100);
    // Without processing case is kept.
    assert_eq!(token_sort_ratio("b A", "a B", false, false).score(), 33);
    assert_eq!(token_sort_ratio("b A", "a B", false, true).score(), 100);
}

#[test]
fn partial_token_sort_ratio_examples() {
    assert_eq!(partial_token_sort_ratio("hello world", "world hello", true, true).score(), 100);
    assert_eq!(
        partial_token_sort_ratio("new york mets", "the new york mets", true, true).score(),
        69
    );
    assert_eq!(
        partial_token_sort_ratio("new york mets", "new YORK mets", true, true).score(),
        100
    );
    assert_eq!(
        partial_token_sort_ratio(
            "new york mets vs atlanta braves",
            "atlanta braves vs new york mets",
            true,
            true
        )
        .score(),
        100
    );
    assert_eq!(
        partial_token_sort_ratio(
            "what about supercalifragilisticexpialidociousx",
            "supercalifragilisticexpialidociousy about what",
            true,
            true
        )
        .score(),
        98
    );
}

#[test]
fn qratio_examples() {
    assert_eq!(qratio("new york mets", "new YORK mets", true).score(), 100);
    assert_eq!(qratio("new york mets", "the new york mets", true).score(), 87);
    assert_eq!(uqratio("new york mets", "the new york mets").score(), 87);
}

#[test]
fn token_set_ratio_examples() {
    assert_eq!(token_set_ratio("hello world", "world hello", true, true), 100);
    assert_eq!(token_set_ratio("new york mets", "the new york mets", true, true), 100);
    assert_eq!(token_set_ratio("new york mets", "new YORK mets", true, true), 100);
    assert_eq!(
        token_set_ratio(
            "new york mets vs atlanta braves",
            "atlanta braves vs new york mets",
            true,
            true
        ),
        100
    );
    assert_eq!(
        token_set_ratio(
            "what about supercalifragilisticexpialidocious",
            "supercalifragilisticexpialidocious about what",
            true,
            true
        ),
        100
    );
    assert_eq!(
        token_set_ratio(
            "what about supercalifragilisticexpialidociousx",
            "supercalifragilisticexpialidociousy about what",
            true,
            true
        ),
        98
    );
}

#[test]
fn token_set_ratio_short_circuits() {
    assert_eq!(token_set_ratio("", "", true, true), 100);
    assert_eq!(token_set_ratio("", "abc", true, true), 0);
}

#[test]
fn partial_token_set_ratio_examples() {
    assert_eq!(partial_token_set_ratio("hello world", "world hello", true, true), 100);
    assert_eq!(partial_token_set_ratio("new york mets", "the new york mets", true, true), 100);
    assert_eq!(partial_token_set_ratio("new york mets", "new YORK mets", true, true), 100);
    assert_eq!(
        partial_token_set_ratio(
            "new york mets - atlanta braves",
            "atlanta braves - new york city mets",
            true,
            true
        ),
        100
    );
}

#[test]
fn wratio_examples() {
    assert_eq!(wratio("hello world", "hello world", true, true), 100);
    assert_eq!(wratio("hello world", "world hello", true, true), 95);
    assert_eq!(wratio("new york mets", "new YORK mets", true, true), 100);
    assert_eq!(wratio("new york mets", "the wonderful new york mets", true, true), 90);
    assert_eq!(
        wratio(
            "new york mets vs atlanta braves",
            "atlanta braves vs new york mets",
            true,
            true
        ),
        95
    );
}

#[test]
fn wratio_with_itself() {
    for s in ["a", "hello world", "Ça va?", "new york mets"] {
        assert_eq!(wratio(s, s, true, true), 100);
        assert_eq!(wratio(s, s, false, false), 100);
    }
}

#[test]
fn wratio_empty_after_processing() {
    assert_eq!(wratio("", "", true, true), 0);
    assert_eq!(wratio("!!!", "!!!", true, true), 0);
    assert_eq!(wratio("abc", "", true, true), 0);
    assert_eq!(wratio("", "", false, false), 0);
}

#[test]
fn wratio_length_regimes() {
    let choices = [
        ("new york mets vs chicago cubs", 86),
        ("chicago cubs vs chicago white sox", 86),
        ("philladelphia phillies vs atlanta braves", 54),
        ("braves vs mets", 57),
    ];
    for (c, r) in choices.iter() {
        assert_eq!(wratio("brave new cubs", c, true, true), *r);
    }
    // More than eight times as long: partial scores weighted by 0.6.
    assert_eq!(wratio("abc", "abc xxxxxxxxxxxxxxxxxxxxxxxx", true, true), 60);
    assert_eq!(uwratio("new york mets", "the wonderful new york mets", true), 90);
}

#[test]
fn asciionly_examples() {
    assert_eq!(asciionly("abc123"), "abc123");
    assert_eq!(asciionly("abcØØØ"), "abc");
    assert_eq!(asciionly("abcØØØकिमपि"), "abc");
    assert_eq!(asciionly("ØØØकिमपि"), "");
}

#[test]
fn full_process_examples() {
    assert_eq!(full_process("ABC What! do_ you mean? ... ", false), "abc what  do_ you mean");
    assert_eq!(full_process(" äbc ", false), "äbc");
    assert_eq!(full_process(" äbc ", true), "bc");
    assert_eq!(full_process(" a\u{0308}bc ", false), "a bc");
    assert_eq!(full_process(" a\u{0308}bc ", true), "abc");
    assert_eq!(full_process("Lorem Ipsum", false), "lorem ipsum");
    assert_eq!(full_process("C'est la vie", false), "c est la vie");
    assert_eq!(full_process("Ça va?", false), "ça va");
    assert_eq!(full_process("Cães danados", false), "cães danados");
    assert_eq!(full_process("¬Camarões assados", false), "camarões assados");
    assert_eq!(full_process("a¬4ሴ2€耀", false), "a 4ሴ2 耀");
    assert_eq!(full_process("Á", false), "á");
    assert_eq!(full_process("Lorem Ipsum", true), "lorem ipsum");
    assert_eq!(full_process("C'est la vie", true), "c est la vie");
    assert_eq!(full_process("Ça va?", true), "a va");
    assert_eq!(full_process("Cães danados", true), "ces danados");
    assert_eq!(full_process("¬Camarões assados", true), "camares assados");
    assert_eq!(full_process("a¬4ሴ2€耀", true), "a42");
    assert_eq!(full_process("Á", true), "");
}

#[test]
fn replace_non_letters_examples() {
    assert_eq!(replace_non_letters_non_numbers_with_whitespace("abc   123"), "abc   123");
    assert_eq!(replace_non_letters_non_numbers_with_whitespace("abc!!!123"), "abc   123");
    assert_eq!(replace_non_letters_non_numbers_with_whitespace("a\u{0308}bc"), "a bc");
    assert_eq!(replace_non_letters_non_numbers_with_whitespace("äbc"), "äbc");
    assert_eq!(
        replace_non_letters_non_numbers_with_whitespace("abcØØØकिमपि"),
        "abcØØØकिमपि"
    );
}

#[test]
fn token_sort_canonical_forms_empty() {
    // Both sorted forms are empty: the pair short circuit scores 100.
    assert_eq!(partial_token_sort_ratio("!!", "??", true, true).score(), 100);
    assert_eq!(token_sort_ratio("!!", "??", true, true).score(), 100);
    // Exactly one of the strings as given is empty.
    assert_eq!(token_sort_ratio("", "!!!", true, true).score(), 0);
    assert_eq!(partial_token_sort_ratio("abc", "", true, true).score(), 0);
}
