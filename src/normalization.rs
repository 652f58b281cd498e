//! Normalizers: maps from a string to the canonical form in which it is
//! compared (lower case, ASCII only, words split at other characters, sorted
//! tokens, Unicode normalization forms), and their composition.
use crate::utils::{
    chars_of, join_tokens, sort_tokens, sort_tokens_vec, split_whitespace, string_of, tokens,
    join_tokens_vec,
};
use unicode_normalization::UnicodeNormalization;
use vstd::prelude::*;

verus! {

/// What `str::to_lowercase` returns for `s`.
pub uninterp spec fn lower_of(s: Seq<char>) -> Seq<char>;

/// Whether `char::is_alphanumeric` holds of `c`.
pub uninterp spec fn alphanumeric(c: char) -> bool;

/// What the Normalization Form C of `s` is.
pub uninterp spec fn nfc_of(s: Seq<char>) -> Seq<char>;

/// What the Normalization Form KC of `s` is.
pub uninterp spec fn nfkc_of(s: Seq<char>) -> Seq<char>;

/// What the Normalization Form D of `s` is.
pub uninterp spec fn nfd_of(s: Seq<char>) -> Seq<char>;

/// What the Normalization Form KD of `s` is.
pub uninterp spec fn nfkd_of(s: Seq<char>) -> Seq<char>;

/// `s` with CJK compatibility ideographs replaced by standardized variation
/// sequences.
pub uninterp spec fn cjk_compat_of(s: Seq<char>) -> Seq<char>;

/// Relies on `str::to_lowercase`, whose result depends on the characters
/// alone.
#[verifier::external_body]
fn to_lowercase(s: &str) -> (r: String)
    ensures
        r@ == lower_of(s@),
{
    s.to_lowercase()
}

/// Relies on `char::is_alphanumeric`, whose result depends on the character
/// alone.
#[verifier::external_body]
fn is_alphanumeric(c: char) -> (r: bool)
    ensures
        r == alphanumeric(c),
{
    c.is_alphanumeric()
}

/// Relies on `UnicodeNormalization::nfc` of unicode-normalization.
#[verifier::external_body]
fn nfc(s: &str) -> (r: String)
    ensures
        r@ == nfc_of(s@),
{
    s.nfc().collect()
}

/// Relies on `UnicodeNormalization::nfkc` of unicode-normalization.
#[verifier::external_body]
fn nfkc(s: &str) -> (r: String)
    ensures
        r@ == nfkc_of(s@),
{
    s.nfkc().collect()
}

/// Relies on `UnicodeNormalization::nfd` of unicode-normalization.
#[verifier::external_body]
fn nfd(s: &str) -> (r: String)
    ensures
        r@ == nfd_of(s@),
{
    s.nfd().collect()
}

/// Relies on `UnicodeNormalization::nfkd` of unicode-normalization.
#[verifier::external_body]
fn nfkd(s: &str) -> (r: String)
    ensures
        r@ == nfkd_of(s@),
{
    s.nfkd().collect()
}

/// Relies on `UnicodeNormalization::cjk_compat_variants` of
/// unicode-normalization.
#[verifier::external_body]
fn cjk_compat_variants(s: &str) -> (r: String)
    ensures
        r@ == cjk_compat_of(s@),
{
    s.cjk_compat_variants().collect()
}

/// The code points of `s` below 128, in order.
pub open spec fn ascii_only(s: Seq<char>) -> Seq<char>
    decreases s.len(),
{
    if s.len() == 0 {
        s
    } else if (s.last() as u32) < 128 {
        ascii_only(s.drop_last()).push(s.last())
    } else {
        ascii_only(s.drop_last())
    }
}

/// A letter, a digit or `'_'`.
pub open spec fn word_char(c: char) -> bool {
    c == '_' || alphanumeric(c)
}

/// `s` with every character that is not a word character replaced by a
/// space.
pub open spec fn split_alphanumeric(s: Seq<char>) -> Seq<char> {
    s.map_values(|c: char| if word_char(c) { c } else { ' ' })
}

/// The whitespace-separated tokens of `s`, sorted and joined by single
/// spaces.
pub open spec fn sorted_token_text(s: Seq<char>) -> Seq<char> {
    join_tokens(sort_tokens(tokens(s)))
}

/// Keeps the ASCII code points.
pub fn keep_ascii(s: &[char]) -> (r: Vec<char>)
    ensures
        r@ == ascii_only(s@),
{
    let mut r: Vec<char> = Vec::new();
    let mut i: usize = 0;
    while i < s.len()
        invariant
            i <= s@.len(),
            r@ == ascii_only(s@.take(i as int)),
        decreases s@.len() - i,
    {
        assert(s@.take(i + 1).drop_last() =~= s@.take(i as int));
        assert(s@.take(i + 1).last() == s@[i as int]);
        if (s[i] as u32) < 128 {
            r.push(s[i]);
        }
        i = i + 1;
    }
    assert(s@.take(s@.len() as int) =~= s@);
    r
}

/// Replaces every character that is neither alphanumeric nor `'_'` by a
/// space.
pub fn replace_non_word(s: &[char]) -> (r: Vec<char>)
    ensures
        r@ == split_alphanumeric(s@),
{
    let mut r: Vec<char> = Vec::new();
    let mut i: usize = 0;
    while i < s.len()
        invariant
            i <= s@.len(),
            r@ == split_alphanumeric(s@.take(i as int)),
        decreases s@.len() - i,
    {
        let c = s[i];
        if c == '_' || is_alphanumeric(c) {
            r.push(c);
        } else {
            r.push(' ');
        }
        assert(split_alphanumeric(s@.take(i + 1)) =~= split_alphanumeric(s@.take(i as int)).push(
            r@.last(),
        ));
        i = i + 1;
    }
    assert(s@.take(s@.len() as int) =~= s@);
    r
}

/// The whitespace-separated tokens sorted and joined by single spaces.
pub fn sorted_token_chars(s: &[char]) -> (r: Vec<char>)
    ensures
        r@ == sorted_token_text(s@),
{
    let t = split_whitespace(s);
    let sorted = sort_tokens_vec(&t);
    join_tokens_vec(&sorted)
}

/// Lower-cases the characters.
pub fn lowercase_chars(s: &[char]) -> (r: Vec<char>)
    ensures
        r@ == lower_of(s@),
{
    let text = string_of(s);
    let lowered = to_lowercase(text.as_str());
    chars_of(lowered.as_str())
}

/// A strategy for mapping strings to a canonical value of their equivalence
/// class.
pub trait Normalizer {
    /// The canonical form of `s`.
    spec fn spec_normalize(&self, s: Seq<char>) -> Seq<char>;

    fn normalize(&self, s: &str) -> (r: String)
        ensures
            r@ == self.spec_normalize(s@),
    ;
}

/// Leaves strings as they are.
pub struct PassthroughNormalizer;

impl Normalizer for PassthroughNormalizer {
    open spec fn spec_normalize(&self, s: Seq<char>) -> Seq<char> {
        s
    }

    fn normalize(&self, s: &str) -> (r: String) {
        String::from_str(s)
    }
}

/// Lower-cases all letters.
pub struct LowerCaseNormalizer;

impl Normalizer for LowerCaseNormalizer {
    open spec fn spec_normalize(&self, s: Seq<char>) -> Seq<char> {
        lower_of(s)
    }

    fn normalize(&self, s: &str) -> (r: String) {
        to_lowercase(s)
    }
}

/// Removes the code points that are not ASCII.
pub struct AsciiOnlyNormalizer;

impl Normalizer for AsciiOnlyNormalizer {
    open spec fn spec_normalize(&self, s: Seq<char>) -> Seq<char> {
        ascii_only(s)
    }

    fn normalize(&self, s: &str) -> (r: String) {
        let c = chars_of(s);
        string_of(keep_ascii(c.as_slice()).as_slice())
    }
}

/// Replaces each character that is not a letter, a digit or `'_'` by a
/// space.
pub struct SplittingAlphanumericNormalizer;

impl Normalizer for SplittingAlphanumericNormalizer {
    open spec fn spec_normalize(&self, s: Seq<char>) -> Seq<char> {
        split_alphanumeric(s)
    }

    fn normalize(&self, s: &str) -> (r: String) {
        let c = chars_of(s);
        string_of(replace_non_word(c.as_slice()).as_slice())
    }
}

/// Splits at whitespace, sorts the tokens and joins them with single
/// spaces.
pub struct WhitespaceSplitSortedTokenNormalizer;

impl Normalizer for WhitespaceSplitSortedTokenNormalizer {
    open spec fn spec_normalize(&self, s: Seq<char>) -> Seq<char> {
        sorted_token_text(s)
    }

    fn normalize(&self, s: &str) -> (r: String) {
        let c = chars_of(s);
        string_of(sorted_token_chars(c.as_slice()).as_slice())
    }
}

/// Unicode Normalization Form C.
pub struct FormCNormalizer;

impl Normalizer for FormCNormalizer {
    open spec fn spec_normalize(&self, s: Seq<char>) -> Seq<char> {
        nfc_of(s)
    }

    fn normalize(&self, s: &str) -> (r: String) {
        nfc(s)
    }
}

/// Unicode Normalization Form KC.
pub struct FormKCNormalizer;

impl Normalizer for FormKCNormalizer {
    open spec fn spec_normalize(&self, s: Seq<char>) -> Seq<char> {
        nfkc_of(s)
    }

    fn normalize(&self, s: &str) -> (r: String) {
        nfkc(s)
    }
}

/// Unicode Normalization Form D.
pub struct FormDNormalizer;

impl Normalizer for FormDNormalizer {
    open spec fn spec_normalize(&self, s: Seq<char>) -> Seq<char> {
        nfd_of(s)
    }

    fn normalize(&self, s: &str) -> (r: String) {
        nfd(s)
    }
}

/// Unicode Normalization Form KD.
pub struct FormKDNormalizer;

impl Normalizer for FormKDNormalizer {
    open spec fn spec_normalize(&self, s: Seq<char>) -> Seq<char> {
        nfkd_of(s)
    }

    fn normalize(&self, s: &str) -> (r: String) {
        nfkd(s)
    }
}

/// Replaces CJK compatibility ideographs by standardized variation
/// sequences.
pub struct CJKNormalizer;

impl Normalizer for CJKNormalizer {
    open spec fn spec_normalize(&self, s: Seq<char>) -> Seq<char> {
        cjk_compat_of(s)
    }

    fn normalize(&self, s: &str) -> (r: String) {
        cjk_compat_variants(s)
    }
}

/// Decomposes (Form D), then removes the code points that are not ASCII.
pub struct UnicodeToAsciiNormalizer;

impl Normalizer for UnicodeToAsciiNormalizer {
    open spec fn spec_normalize(&self, s: Seq<char>) -> Seq<char> {
        ascii_only(nfd_of(s))
    }

    fn normalize(&self, s: &str) -> (r: String) {
        let d = nfd(s);
        let c = chars_of(d.as_str());
        string_of(keep_ascii(c.as_slice()).as_slice())
    }
}

/// One step of a composed normalizer.
#[derive(Clone, Copy, PartialEq, Eq, Structural, Debug)]
pub enum NormalizerStep {
    Passthrough,
    LowerCase,
    AsciiOnly,
    SplittingAlphanumeric,
    WhitespaceSplitSortedToken,
    FormC,
    FormKC,
    FormD,
    FormKD,
    CJK,
    UnicodeToAscii,
}

/// What one step does to `s`.
pub open spec fn apply_kind(k: NormalizerStep, s: Seq<char>) -> Seq<char> {
    match k {
        NormalizerStep::Passthrough => s,
        NormalizerStep::LowerCase => lower_of(s),
        NormalizerStep::AsciiOnly => ascii_only(s),
        NormalizerStep::SplittingAlphanumeric => split_alphanumeric(s),
        NormalizerStep::WhitespaceSplitSortedToken => sorted_token_text(s),
        NormalizerStep::FormC => nfc_of(s),
        NormalizerStep::FormKC => nfkc_of(s),
        NormalizerStep::FormD => nfd_of(s),
        NormalizerStep::FormKD => nfkd_of(s),
        NormalizerStep::CJK => cjk_compat_of(s),
        NormalizerStep::UnicodeToAscii => ascii_only(nfd_of(s)),
    }
}

/// The steps applied to `s` in order, the first one first.
pub open spec fn apply_all(ks: Seq<NormalizerStep>, s: Seq<char>) -> Seq<char>
    decreases ks.len(),
{
    if ks.len() == 0 {
        s
    } else {
        apply_kind(ks.last(), apply_all(ks.drop_last(), s))
    }
}

impl NormalizerStep {
    /// Applies this step.
    pub fn apply(&self, s: &str) -> (r: String)
        ensures
            r@ == apply_kind(*self, s@),
    {
        match self {
            NormalizerStep::Passthrough => PassthroughNormalizer.normalize(s),
            NormalizerStep::LowerCase => LowerCaseNormalizer.normalize(s),
            NormalizerStep::AsciiOnly => AsciiOnlyNormalizer.normalize(s),
            NormalizerStep::SplittingAlphanumeric => SplittingAlphanumericNormalizer.normalize(s),
            NormalizerStep::WhitespaceSplitSortedToken => WhitespaceSplitSortedTokenNormalizer.normalize(s),
            NormalizerStep::FormC => FormCNormalizer.normalize(s),
            NormalizerStep::FormKC => FormKCNormalizer.normalize(s),
            NormalizerStep::FormD => FormDNormalizer.normalize(s),
            NormalizerStep::FormKD => FormKDNormalizer.normalize(s),
            NormalizerStep::CJK => CJKNormalizer.normalize(s),
            NormalizerStep::UnicodeToAscii => UnicodeToAsciiNormalizer.normalize(s),
        }
    }
}

/// A sequence of normalizer steps, applied in order.
pub struct ComposedNormalizer {
    normalizers: Vec<NormalizerStep>,
}

impl View for ComposedNormalizer {
    type V = Seq<NormalizerStep>;

    closed spec fn view(&self) -> Seq<NormalizerStep> {
        self.normalizers@
    }
}

impl ComposedNormalizer {
    /// The composition of `normalizers`, the first one applied first.
    pub fn with(normalizers: Vec<NormalizerStep>) -> (r: ComposedNormalizer)
        ensures
            r@ == normalizers@,
    {
        ComposedNormalizer { normalizers }
    }
}

impl Normalizer for ComposedNormalizer {
    open spec fn spec_normalize(&self, s: Seq<char>) -> Seq<char> {
        apply_all(self@, s)
    }

    fn normalize(&self, s: &str) -> (r: String) {
        let mut current = String::from_str(s);
        let mut i: usize = 0;
        let n = self.normalizers.len();
        while i < n
            invariant
                i <= n,
                n == self@.len(),
                current@ == apply_all(self@.take(i as int), s@),
            decreases n - i,
        {
            assert(self@.take(i + 1).drop_last() =~= self@.take(i as int));
            current = self.normalizers[i].apply(current.as_str());
            i = i + 1;
        }
        assert(self@.take(n as int) =~= self@);
        current
    }
}

} // verus!
