//! Canonical form of a comment and its fingerprint.
use vstd::prelude::*;
use unicode_normalization::UnicodeNormalization;

verus! {

// ---------------------------------------------------------------------------
// Character classes
// ---------------------------------------------------------------------------

pub open spec fn in_range(c: char, lo: u32, hi: u32) -> bool {
    lo <= (c as u32) && (c as u32) <= hi
}

/// The character at distance `c - base` after `first`.
pub open spec fn offset_char(c: char, base: u32, first: char) -> char {
    (((c as u32) - base + (first as u32)) as u8) as char
}

/// The plain letter or digit that a look-alike character stands for, if it is one.
pub open spec fn confusable_of(c: char) -> Option<char> {
    if in_range(c, 0x1F170, 0x1F189) {
        Some(offset_char(c, 0x1F170, 'A'))  // negative squared capitals
    } else if in_range(c, 0x1D5D4, 0x1D5ED) {
        Some(offset_char(c, 0x1D5D4, 'A'))  // sans-serif bold capitals
    } else if in_range(c, 0x1D670, 0x1D689) {
        Some(offset_char(c, 0x1D670, 'A'))  // monospace capitals
    } else if in_range(c, 0x1D7CE, 0x1D7D6) {
        Some(offset_char(c, 0x1D7CE, '0'))  // bold digits zero to eight
    } else if c == '\u{0567}' {
        Some('t')
    } else if c == '\u{0585}' {
        Some('o')
    } else if in_range(c, 0x249C, 0x24B5) {
        Some(offset_char(c, 0x249C, 'a'))  // parenthesized small letters
    } else if in_range(c, 0x24D0, 0x24E9) {
        Some(offset_char(c, 0x24D0, 'a'))  // circled small letters
    } else {
        None
    }
}

/// `c` with a look-alike replaced by the character it imitates.
pub open spec fn unspoofed(c: char) -> char {
    match confusable_of(c) {
        Some(d) => d,
        None => c,
    }
}

pub open spec fn is_combining_mark(c: char) -> bool {
    in_range(c, 0x0300, 0x036F)
}

pub open spec fn is_ascii_alnum(c: char) -> bool {
    ('0' <= c && c <= '9') || ('A' <= c && c <= 'Z') || ('a' <= c && c <= 'z')
}

/// The Unicode White_Space property.
pub open spec fn is_white_space(c: char) -> bool {
    in_range(c, 0x09, 0x0D) || c == ' ' || c == '\u{85}' || c == '\u{A0}' || c == '\u{1680}'
        || in_range(c, 0x2000, 0x200A) || c == '\u{2028}' || c == '\u{2029}' || c == '\u{202F}'
        || c == '\u{205F}' || c == '\u{3000}'
}

/// A character that canonical decomposition maps to itself, with combining class zero:
/// ASCII, and every white-space character except EN QUAD and EM QUAD (which decompose to
/// EN SPACE and EM SPACE).
pub open spec fn decomposition_stable(c: char) -> bool {
    (c as u32) < 0x80 || (is_white_space(c) && c != '\u{2000}' && c != '\u{2001}')
}

pub open spec fn stable_text(s: Seq<char>) -> bool {
    forall|i: int| 0 <= i < s.len() ==> decomposition_stable(#[trigger] s[i])
}

pub open spec fn ascii_lower(c: char) -> char {
    if 'A' <= c && c <= 'Z' {
        (((c as u32) + 32) as u8) as char
    } else {
        c
    }
}

/// What survives the fold of decomposed text: ASCII letters and digits, and white space.
/// EN QUAD and EM QUAD never occur in decomposed text, so leaving them out changes nothing
/// there and makes every fold result a fixed point of decomposition.
pub open spec fn kept(c: char) -> bool {
    !is_combining_mark(c) && (is_ascii_alnum(c) || (is_white_space(c) && decomposition_stable(c)))
}

// ---------------------------------------------------------------------------
// The canonical form
// ---------------------------------------------------------------------------

pub open spec fn unspoof_text(s: Seq<char>) -> Seq<char> {
    Seq::new(s.len(), |i: int| unspoofed(s[i]))
}

/// Full canonical decomposition (NFD) of a text, as computed by `unicode-normalization`.
pub uninterp spec fn nfd_of(s: Seq<char>) -> Seq<char>;

pub open spec fn decomposed(s: Seq<char>) -> Seq<char> {
    if stable_text(s) {
        s
    } else {
        nfd_of(s)
    }
}

/// Drop what is not kept, and lower the case of what is.
pub open spec fn fold_spec(d: Seq<char>) -> Seq<char>
    decreases d.len(),
{
    if d.len() == 0 {
        Seq::empty()
    } else {
        let rest = fold_spec(d.drop_last());
        if kept(d.last()) {
            rest.push(ascii_lower(d.last()))
        } else {
            rest
        }
    }
}

/// The canonical form of a comment: look-alikes replaced, decomposed, folded.
pub open spec fn normalize_spec(s: Seq<char>) -> Seq<char> {
    fold_spec(decomposed(unspoof_text(s)))
}

pub open spec fn strip_white_space(s: Seq<char>) -> Seq<char>
    decreases s.len(),
{
    if s.len() == 0 {
        Seq::empty()
    } else {
        let rest = strip_white_space(s.drop_last());
        if is_white_space(s.last()) {
            rest
        } else {
            rest.push(s.last())
        }
    }
}

/// BLAKE3 digest of the UTF-8 encoding of a text, in lowercase hexadecimal.
pub uninterp spec fn blake3_hex_of(s: Seq<char>) -> Seq<char>;

/// The fingerprint of a comment: the digest of its canonical form.
pub open spec fn fingerprint_spec(s: Seq<char>) -> Seq<char> {
    blake3_hex_of(normalize_spec(s))
}

// ---------------------------------------------------------------------------
// Calls into std and outside crates
// ---------------------------------------------------------------------------

/// Relies on `str::chars`: the characters of the text, in order.
#[verifier::external_body]
pub(crate) fn chars_of(s: &str) -> (r: Vec<char>)
    ensures
        r@ == s@,
{
    s.chars().collect()
}

/// Relies on `String: FromIterator<char>`: the text made of these characters.
#[verifier::external_body]
pub(crate) fn string_of(v: &Vec<char>) -> (r: String)
    ensures
        r@ == v@,
{
    v.iter().collect()
}

/// Relies on `char::is_whitespace`: true exactly for the White_Space property.
#[verifier::external_body]
fn white_space(c: char) -> (r: bool)
    ensures
        r == is_white_space(c),
{
    c.is_whitespace()
}

/// Relies on `unicode_normalization::UnicodeNormalization::nfd` for `&str`: the canonical
/// decomposition, which leaves text made of decomposition-stable characters as it is.
#[verifier::external_body]
fn canonical_decomposition(s: &str) -> (r: String)
    ensures
        stable_text(s@) ==> r@ == s@,
        !stable_text(s@) ==> r@ == nfd_of(s@),
{
    s.nfd().collect()
}

/// Relies on `blake3::hash` and `blake3::Hash::to_hex`: 64 lowercase hexadecimal digits of
/// the digest of the text's UTF-8 bytes.
#[verifier::external_body]
fn blake3_hex(s: &str) -> (r: String)
    ensures
        r@ == blake3_hex_of(s@),
        r@.len() == 64,
{
    blake3::hash(s.as_bytes()).to_hex().to_string()
}

// ---------------------------------------------------------------------------
// Executable steps
// ---------------------------------------------------------------------------

/// The character that a look-alike stands for, or `None` for any other character.
pub fn confusable(c: char) -> (r: Option<char>)
    ensures
        r == confusable_of(c),
{
    let n = c as u32;
    if 0x1F170 <= n && n <= 0x1F189 {
        Some(((n - 0x1F170 + 0x41) as u8) as char)
    } else if 0x1D5D4 <= n && n <= 0x1D5ED {
        Some(((n - 0x1D5D4 + 0x41) as u8) as char)
    } else if 0x1D670 <= n && n <= 0x1D689 {
        Some(((n - 0x1D670 + 0x41) as u8) as char)
    } else if 0x1D7CE <= n && n <= 0x1D7D6 {
        Some(((n - 0x1D7CE + 0x30) as u8) as char)
    } else if c == '\u{0567}' {
        Some('t')
    } else if c == '\u{0585}' {
        Some('o')
    } else if 0x249C <= n && n <= 0x24B5 {
        Some(((n - 0x249C + 0x61) as u8) as char)
    } else if 0x24D0 <= n && n <= 0x24E9 {
        Some(((n - 0x24D0 + 0x61) as u8) as char)
    } else {
        None
    }
}

/// Replace every look-alike character by the plain character it imitates.
pub fn unspoof(s: &str) -> (r: String)
    ensures
        r@ == unspoof_text(s@),
{
    let cs = chars_of(s);
    let mut out: Vec<char> = Vec::new();
    let mut i: usize = 0;
    while i < cs.len()
        invariant
            cs@ == s@,
            i <= cs.len(),
            out@.len() == i,
            forall|j: int| 0 <= j < i ==> out@[j] == unspoofed(cs@[j]),
        decreases cs.len() - i,
    {
        let c = cs[i];
        match confusable(c) {
            Some(d) => out.push(d),
            None => out.push(c),
        }
        i += 1;
    }
    assert(out@ =~= unspoof_text(s@));
    string_of(&out)
}

fn combining_mark(c: char) -> (r: bool)
    ensures
        r == is_combining_mark(c),
{
    let n = c as u32;
    0x0300 <= n && n <= 0x036F
}

fn ascii_alnum(c: char) -> (r: bool)
    ensures
        r == is_ascii_alnum(c),
{
    ('0' <= c && c <= '9') || ('A' <= c && c <= 'Z') || ('a' <= c && c <= 'z')
}

pub(crate) fn lower_ascii(c: char) -> (r: char)
    ensures
        r == ascii_lower(c),
{
    if 'A' <= c && c <= 'Z' {
        (((c as u32) + 32) as u8) as char
    } else {
        c
    }
}

fn keeps(c: char) -> (r: bool)
    ensures
        r == kept(c),
{
    !combining_mark(c) && (ascii_alnum(c) || (white_space(c) && c != '\u{2000}'
        && c != '\u{2001}'))
}

/// Fold decomposed text: drop combining diacritics and everything that is neither an ASCII
/// letter or digit nor white space, then lower the case. The characters kept have no case but
/// the ASCII letters, so lowering ASCII is full lowercasing here.
pub fn fold_decomposed(d: &str) -> (r: String)
    ensures
        r@ == fold_spec(d@),
{
    let cs = chars_of(d);
    let mut out: Vec<char> = Vec::new();
    let mut i: usize = 0;
    while i < cs.len()
        invariant
            cs@ == d@,
            i <= cs.len(),
            out@ == fold_spec(cs@.take(i as int)),
        decreases cs.len() - i,
    {
        let c = cs[i];
        assert(cs@.take(i + 1).drop_last() =~= cs@.take(i as int));
        if keeps(c) {
            out.push(lower_ascii(c));
        }
        i += 1;
    }
    assert(cs@.take(cs@.len() as int) =~= cs@);
    string_of(&out)
}

/// The canonical form of a comment: look-alike characters replaced by what they imitate,
/// canonical decomposition, combining diacritics and all but ASCII letters, digits and white
/// space dropped, lower case.
pub fn normalize_fancy_text(input: &str) -> (r: String)
    ensures
        r@ == normalize_spec(input@),
{
    let plain = unspoof(input);
    let d = canonical_decomposition(plain.as_str());
    fold_decomposed(d.as_str())
}

/// The text without its white-space characters.
pub fn remove_all_whitespace(s: &str) -> (r: String)
    ensures
        r@ == strip_white_space(s@),
{
    let cs = chars_of(s);
    let mut out: Vec<char> = Vec::new();
    let mut i: usize = 0;
    while i < cs.len()
        invariant
            cs@ == s@,
            i <= cs.len(),
            out@ == strip_white_space(cs@.take(i as int)),
        decreases cs.len() - i,
    {
        let c = cs[i];
        assert(cs@.take(i + 1).drop_last() =~= cs@.take(i as int));
        if !white_space(c) {
            out.push(c);
        }
        i += 1;
    }
    assert(cs@.take(cs@.len() as int) =~= cs@);
    string_of(&out)
}

/// The fingerprint of a comment: the BLAKE3 digest of its canonical form, as 64 lowercase
/// hexadecimal digits.
pub fn hash_comment(comment: &str) -> (r: String)
    ensures
        r@ == fingerprint_spec(comment@),
        r@.len() == 64,
{
    let normalized = normalize_fancy_text(comment);
    blake3_hex(normalized.as_str())
}

// ---------------------------------------------------------------------------
// Laws
// ---------------------------------------------------------------------------

/// A character that the fold keeps and leaves as it is.
pub open spec fn canonical_char(c: char) -> bool {
    kept(c) && ascii_lower(c) == c
}

proof fn lemma_fold_canonical(d: Seq<char>)
    ensures
        forall|i: int| 0 <= i < fold_spec(d).len() ==> canonical_char(#[trigger] fold_spec(d)[i]),
    decreases d.len(),
{
    if d.len() > 0 {
        lemma_fold_canonical(d.drop_last());
        lemma_lower_canonical(d.last());
        let rest = fold_spec(d.drop_last());
        assert forall|i: int| 0 <= i < fold_spec(d).len() implies canonical_char(
            #[trigger] fold_spec(d)[i],
        ) by {
            if i < rest.len() {
                assert(fold_spec(d)[i] == rest[i]);
            }
        }
    }
}

proof fn lemma_lower_canonical(c: char)
    ensures
        kept(c) ==> canonical_char(ascii_lower(c)),
{
    if 'A' <= c && c <= 'Z' {
        let l = ascii_lower(c);
        assert('a' <= l && l <= 'z');
    }
}

proof fn lemma_fold_fixed(y: Seq<char>)
    requires
        forall|i: int| 0 <= i < y.len() ==> canonical_char(#[trigger] y[i]),
    ensures
        fold_spec(y) == y,
    decreases y.len(),
{
    if y.len() > 0 {
        lemma_fold_fixed(y.drop_last());
        assert(y.drop_last().push(y.last()) =~= y);
    }
}

proof fn lemma_fold_lowers_all(y: Seq<char>)
    requires
        forall|i: int| 0 <= i < y.len() ==> kept(#[trigger] y[i]),
    ensures
        fold_spec(y) == Seq::new(y.len(), |i: int| ascii_lower(y[i])),
    decreases y.len(),
{
    if y.len() > 0 {
        lemma_fold_lowers_all(y.drop_last());
        assert(fold_spec(y) =~= Seq::new(y.len(), |i: int| ascii_lower(y[i])));
    }
}

/// Normalizing is idempotent: the canonical form of a canonical form is itself.
pub proof fn lemma_normalize_idempotent(s: Seq<char>)
    ensures
        normalize_spec(normalize_spec(s)) == normalize_spec(s),
{
    let y = normalize_spec(s);
    lemma_fold_canonical(decomposed(unspoof_text(s)));
    assert(unspoof_text(y) =~= y);
    assert(stable_text(y));
    lemma_fold_fixed(y);
}

/// A text made only of look-alike characters normalizes to the characters they imitate,
/// in lower case.
pub proof fn lemma_confusables_fold(s: Seq<char>)
    requires
        forall|i: int| 0 <= i < s.len() ==> (#[trigger] confusable_of(s[i])) is Some,
    ensures
        normalize_spec(s) == Seq::new(s.len(), |i: int| ascii_lower(confusable_of(s[i])->0)),
{
    let u = unspoof_text(s);
    assert(stable_text(u)) by {
        assert forall|i: int| 0 <= i < u.len() implies decomposition_stable(#[trigger] u[i]) by {
            assert(confusable_of(s[i]) is Some);
        }
    }
    assert forall|i: int| 0 <= i < u.len() implies kept(#[trigger] u[i]) by {
        assert(confusable_of(s[i]) is Some);
    }
    lemma_fold_lowers_all(u);
    assert(normalize_spec(s) =~= Seq::new(s.len(), |i: int| ascii_lower(confusable_of(s[i])->0)));
}

/// Comments with the same canonical form have the same fingerprint.
pub proof fn lemma_fingerprint_determined(x: Seq<char>, y: Seq<char>)
    requires
        normalize_spec(x) == normalize_spec(y),
    ensures
        fingerprint_spec(x) == fingerprint_spec(y),
{
}

} // verus!
