//! Decoding the classifier's replies into verdicts.
use vstd::prelude::*;
use crate::model::{AnalyzeResponse, CustomError};
use crate::normalize::{ascii_lower, chars_of, lower_ascii, string_of};

verus! {

/// A JSON value; numbers are kept as their text.
pub enum Json {
    Null,
    Bool(bool),
    Number(String),
    Text(String),
    Array(Vec<Json>),
    Object(Vec<(String, Json)>),
}

/// The reply shape of the configured classifier.
#[derive(PartialEq, Eq, Structural, Clone, Copy, Debug)]
pub enum ProviderShape {
    /// `{"choices":[{"message":{"content":"..."}}]}`
    Choices,
    /// `{"candidates":[{"content":{"parts":[{"text":"..."}]}}]}`
    Candidates,
}

// ---------------------------------------------------------------------------
// Reading a JSON tree
// ---------------------------------------------------------------------------

/// The value of the first entry named `key`.
pub open spec fn entry_value(es: Seq<(String, Json)>, key: Seq<char>) -> Option<Json>
    decreases es.len(),
{
    if es.len() == 0 {
        None
    } else if es[0].0@ == key {
        Some(es[0].1)
    } else {
        entry_value(es.drop_first(), key)
    }
}

pub open spec fn member(j: Json, key: Seq<char>) -> Option<Json> {
    match j {
        Json::Object(es) => entry_value(es@, key),
        _ => None,
    }
}

pub open spec fn then_member(j: Option<Json>, key: Seq<char>) -> Option<Json> {
    match j {
        Some(v) => member(v, key),
        None => None,
    }
}

pub open spec fn first_item(j: Option<Json>) -> Option<Json> {
    match j {
        Some(Json::Array(items)) => if items@.len() > 0 {
            Some(items@[0])
        } else {
            None
        },
        _ => None,
    }
}

pub open spec fn text_of(j: Option<Json>) -> Option<Seq<char>> {
    match j {
        Some(Json::Text(s)) => Some(s@),
        _ => None,
    }
}

pub open spec fn opt_val(o: Option<&Json>) -> Option<Json> {
    match o {
        Some(v) => Some(*v),
        None => None,
    }
}

/// The answer text that a reply of the given shape carries.
pub open spec fn content_of(shape: ProviderShape, j: Json) -> Result<Seq<char>, CustomError> {
    let list_key = match shape {
        ProviderShape::Choices => "choices"@,
        ProviderShape::Candidates => "candidates"@,
    };
    match member(j, list_key) {
        Some(Json::Array(items)) => if items@.len() == 0 {
            Err(CustomError::EmptyResponse)
        } else {
            let first = items@[0];
            let text = match shape {
                ProviderShape::Choices => text_of(
                    then_member(member(first, "message"@), "content"@),
                ),
                ProviderShape::Candidates => text_of(
                    then_member(
                        first_item(then_member(member(first, "content"@), "parts"@)),
                        "text"@,
                    ),
                ),
            };
            match text {
                Some(t) => Ok(t),
                None => Err(CustomError::MissingField),
            }
        },
        _ => Err(CustomError::MissingField),
    }
}

// ---------------------------------------------------------------------------
// The answer text: "<spam flag>,<keyword>,<confidence>"
// ---------------------------------------------------------------------------

/// The pieces of a text between commas, as `str::split(',')` gives them.
pub open spec fn split_commas(s: Seq<char>) -> Seq<Seq<char>>
    decreases s.len(),
{
    if s.len() == 0 {
        seq![Seq::<char>::empty()]
    } else {
        let parts = split_commas(s.drop_last());
        if s.last() == ',' {
            parts.push(Seq::empty())
        } else {
            parts.update(parts.len() - 1, parts.last().push(s.last()))
        }
    }
}

pub open spec fn is_digit(c: char) -> bool {
    '0' <= c && c <= '9'
}

pub open spec fn all_digits(s: Seq<char>) -> bool {
    forall|i: int| 0 <= i < s.len() ==> is_digit(#[trigger] s[i])
}

pub open spec fn digits_value(s: Seq<char>) -> int
    decreases s.len(),
{
    if s.len() == 0 {
        0
    } else {
        10 * digits_value(s.drop_last()) + ((s.last() as u32) as int - 48)
    }
}

pub open spec fn has_sign(s: Seq<char>) -> bool {
    s.len() > 0 && (s[0] == '+' || s[0] == '-')
}

pub open spec fn unsigned_part(s: Seq<char>) -> Seq<char> {
    if has_sign(s) {
        s.drop_first()
    } else {
        s
    }
}

/// The value of a decimal integer literal with an optional sign.
pub open spec fn integer_value(s: Seq<char>) -> Option<int> {
    let b = unsigned_part(s);
    if b.len() > 0 && all_digits(b) {
        Some(
            if s[0] == '-' {
                -digits_value(b)
            } else {
                digits_value(b)
            },
        )
    } else {
        None
    }
}

/// The spam flag: an integer equal to 1 (spam) or 0 (not spam).
pub open spec fn spam_flag(s: Seq<char>) -> Option<bool> {
    match integer_value(s) {
        Some(v) => if v == 0 {
            Some(false)
        } else if v == 1 {
            Some(true)
        } else {
            None
        },
        None => None,
    }
}

/// The index of the first `a` or `b`, or the length when there is none.
pub open spec fn first_of(s: Seq<char>, a: char, b: char) -> int
    decreases s.len(),
{
    if s.len() == 0 {
        0
    } else if s[0] == a || s[0] == b {
        0
    } else {
        1 + first_of(s.drop_first(), a, b)
    }
}

pub open spec fn lower_text(s: Seq<char>) -> Seq<char> {
    Seq::new(s.len(), |i: int| ascii_lower(s[i]))
}

pub open spec fn is_special_float(u: Seq<char>) -> bool {
    lower_text(u) == seq!['i', 'n', 'f'] || lower_text(u) == seq!['i', 'n', 'f', 'i', 'n', 'i', 't', 'y']
        || lower_text(u) == seq!['n', 'a', 'n']
}

/// Digits with at most one decimal point, and at least one digit.
pub open spec fn is_mantissa(m: Seq<char>) -> bool {
    let d = first_of(m, '.', '.');
    if d == m.len() {
        m.len() > 0 && all_digits(m)
    } else {
        all_digits(m.take(d)) && all_digits(m.skip(d + 1)) && m.len() > 1
    }
}

/// What follows the exponent mark: digits with an optional sign.
pub open spec fn is_exponent(x: Seq<char>) -> bool {
    let b = unsigned_part(x);
    b.len() > 0 && all_digits(b)
}

/// The grammar of floating-point literals that `f64::from_str` accepts: an optional sign, then
/// `inf`, `infinity` or `nan` in any case, or a decimal number with an optional exponent.
pub open spec fn is_float_literal(s: Seq<char>) -> bool {
    let u = unsigned_part(s);
    is_special_float(u) || {
        let e = first_of(u, 'e', 'E');
        is_mantissa(u.take(e)) && (e == u.len() || is_exponent(u.skip(e + 1)))
    }
}

/// The verdict that an answer text states.
pub open spec fn verdict_of(t: Seq<char>) -> Result<(bool, Seq<char>, Seq<char>), CustomError> {
    let parts = split_commas(t);
    if parts.len() != 3 {
        Err(CustomError::MalformedContent)
    } else {
        match spam_flag(parts[0]) {
            None => Err(CustomError::InvalidSpamValue),
            Some(b) => if is_float_literal(parts[2]) {
                Ok((b, parts[1], parts[2]))
            } else {
                Err(CustomError::InvalidConfidenceValue)
            },
        }
    }
}

pub open spec fn outcome(r: Result<AnalyzeResponse, CustomError>) -> Result<
    (bool, Seq<char>, Seq<char>),
    CustomError,
> {
    match r {
        Ok(v) => Ok(v@),
        Err(e) => Err(e),
    }
}

/// The verdict that a decoded reply of the given shape states.
pub open spec fn reply_verdict(shape: ProviderShape, j: Json) -> Result<
    (bool, Seq<char>, Seq<char>),
    CustomError,
> {
    match content_of(shape, j) {
        Ok(t) => verdict_of(t),
        Err(e) => Err(e),
    }
}

/// The JSON tree of a text, as `serde_json` decodes it, or `None` where the text is not JSON.
pub uninterp spec fn json_decoded(text: Seq<char>) -> Option<Json>;

/// The verdict that a raw reply of the given shape states.
pub open spec fn payload_verdict(shape: ProviderShape, payload: Seq<char>) -> Result<
    (bool, Seq<char>, Seq<char>),
    CustomError,
> {
    match json_decoded(payload) {
        None => Err(CustomError::Decode),
        Some(j) => reply_verdict(shape, j),
    }
}

// ---------------------------------------------------------------------------
// serde_json
// ---------------------------------------------------------------------------

#[verifier::external_type_specification]
#[verifier::external_body]
pub struct ExValue(serde_json::Value);

/// Relies on `serde_json::from_str::<serde_json::Value>`: the JSON tree of the text, or an
/// error where the text is not JSON. Maps are serde_json's default sorted maps, so the tree
/// depends on the text alone.
#[verifier::external_body]
fn decode_json(text: &str) -> (r: Option<Json>)
    ensures
        r == json_decoded(text@),
{
    match serde_json::from_str::<serde_json::Value>(text) {
        Ok(v) => Some(json_tree(&v)),
        Err(_) => None,
    }
}

/// Relies on the variants of `serde_json::Value`: the same tree, one node for each node, with
/// numbers written as `serde_json::Number`'s `Display` writes them.
#[verifier::external_body]
fn json_tree(v: &serde_json::Value) -> Json {
    match v {
        serde_json::Value::Null => Json::Null,
        serde_json::Value::Bool(b) => Json::Bool(*b),
        serde_json::Value::Number(n) => Json::Number(n.to_string()),
        serde_json::Value::String(s) => Json::Text(s.clone()),
        serde_json::Value::Array(a) => Json::Array(a.iter().map(json_tree).collect()),
        serde_json::Value::Object(m) => Json::Object(
            m.iter().map(|(k, x)| (k.clone(), json_tree(x))).collect(),
        ),
    }
}

// ---------------------------------------------------------------------------
// Executable reading of a reply
// ---------------------------------------------------------------------------

/// Whether two texts are equal.
pub fn same_text(a: &str, b: &str) -> (r: bool)
    ensures
        r == (a@ == b@),
{
    let x = chars_of(a);
    let y = chars_of(b);
    if x.len() != y.len() {
        return false;
    }
    let mut i: usize = 0;
    while i < x.len()
        invariant
            x@ == a@,
            y@ == b@,
            x.len() == y.len(),
            i <= x.len(),
            forall|j: int| 0 <= j < i ==> x@[j] == y@[j],
        decreases x.len() - i,
    {
        if x[i] != y[i] {
            assert(x@[i as int] != y@[i as int]);
            return false;
        }
        i += 1;
    }
    assert(x@ =~= y@);
    true
}

/// The value of the member `key` of an object.
pub fn member_ref<'a>(j: &'a Json, key: &str) -> (r: Option<&'a Json>)
    ensures
        opt_val(r) == member(*j, key@),
{
    match j {
        Json::Object(es) => {
            let mut i: usize = 0;
            assert(es@.skip(0) =~= es@);
            while i < es.len()
                invariant
                    i <= es.len(),
                    member(*j, key@) == entry_value(es@, key@),
                    entry_value(es@, key@) == entry_value(es@.skip(i as int), key@),
                decreases es.len() - i,
            {
                assert(es@.skip(i as int).drop_first() =~= es@.skip(i + 1));
                if same_text(es[i].0.as_str(), key) {
                    let ghost rest = es@.skip(i as int);
                    assert(rest.len() > 0 && rest[0] == es@[i as int]);
                    assert(rest[0].0@ == key@);
                    assert(entry_value(rest, key@) == Some(es@[i as int].1));
                    let e = &es[i];
                    return Some(&e.1);
                }
                i += 1;
            }
            None
        },
        _ => None,
    }
}

fn then_member_ref<'a>(j: Option<&'a Json>, key: &str) -> (r: Option<&'a Json>)
    ensures
        opt_val(r) == then_member(opt_val(j), key@),
{
    match j {
        Some(v) => member_ref(v, key),
        None => None,
    }
}

fn first_item_ref<'a>(j: Option<&'a Json>) -> (r: Option<&'a Json>)
    ensures
        opt_val(r) == first_item(opt_val(j)),
{
    match j {
        Some(Json::Array(items)) => if items.len() > 0 {
            Some(&items[0])
        } else {
            None
        },
        _ => None,
    }
}

fn text_ref(j: Option<&Json>) -> (r: Option<String>)
    ensures
        match r {
            Some(s) => text_of(opt_val(j)) == Some(s@),
            None => text_of(opt_val(j)) is None,
        },
{
    match j {
        Some(Json::Text(s)) => Some(s.clone()),
        _ => None,
    }
}

/// The answer text of a decoded reply of the given shape.
pub fn extract_content(shape: ProviderShape, j: &Json) -> (r: Result<String, CustomError>)
    ensures
        match r {
            Ok(s) => content_of(shape, *j) == Ok::<Seq<char>, CustomError>(s@),
            Err(e) => content_of(shape, *j) == Err::<Seq<char>, CustomError>(e),
        },
{
    let list = match shape {
        ProviderShape::Choices => member_ref(j, "choices"),
        ProviderShape::Candidates => member_ref(j, "candidates"),
    };
    match list {
        Some(Json::Array(items)) => {
            if items.len() == 0 {
                return Err(CustomError::EmptyResponse);
            }
            let first = &items[0];
            let text = match shape {
                ProviderShape::Choices => text_ref(
                    then_member_ref(member_ref(first, "message"), "content"),
                ),
                ProviderShape::Candidates => text_ref(
                    then_member_ref(
                        first_item_ref(then_member_ref(member_ref(first, "content"), "parts")),
                        "text",
                    ),
                ),
            };
            match text {
                Some(t) => Ok(t),
                None => Err(CustomError::MissingField),
            }
        },
        _ => Err(CustomError::MissingField),
    }
}

// ---------------------------------------------------------------------------
// Executable reading of an answer text
// ---------------------------------------------------------------------------

fn copy_range(v: &Vec<char>, lo: usize, hi: usize) -> (r: Vec<char>)
    requires
        lo <= hi <= v.len(),
    ensures
        r@ == v@.subrange(lo as int, hi as int),
{
    let mut out: Vec<char> = Vec::new();
    let mut i: usize = lo;
    while i < hi
        invariant
            lo <= i <= hi,
            hi <= v.len(),
            out@ == v@.subrange(lo as int, i as int),
        decreases hi - i,
    {
        out.push(v[i]);
        i += 1;
        assert(out@ =~= v@.subrange(lo as int, i as int));
    }
    out
}

/// The three comma-separated fields of a text, or `None` where it has another number of fields.
fn three_fields(cs: &Vec<char>) -> (r: Option<(Vec<char>, Vec<char>, Vec<char>)>)
    ensures
        r is Some <==> split_commas(cs@).len() == 3,
        r matches Some(t) ==> split_commas(cs@) == seq![t.0@, t.1@, t.2@],
{
    let mut f0: Vec<char> = Vec::new();
    let mut f1: Vec<char> = Vec::new();
    let mut f2: Vec<char> = Vec::new();
    let mut k: usize = 0;
    let mut i: usize = 0;
    while i < cs.len()
        invariant
            i <= cs.len(),
            k <= i,
            split_commas(cs@.take(i as int)).len() == k + 1,
            k < 1 ==> f1@ == Seq::<char>::empty(),
            k < 2 ==> f2@ == Seq::<char>::empty(),
            k <= 2 ==> split_commas(cs@.take(i as int))[0] == f0@,
            1 <= k <= 2 ==> split_commas(cs@.take(i as int))[1] == f1@,
            k == 2 ==> split_commas(cs@.take(i as int))[2] == f2@,
        decreases cs.len() - i,
    {
        let c = cs[i];
        assert(cs@.take(i + 1).drop_last() =~= cs@.take(i as int));
        assert(cs@.take(i + 1).last() == c);
        if c == ',' {
            k += 1;
        } else if k == 0 {
            f0.push(c);
        } else if k == 1 {
            f1.push(c);
        } else if k == 2 {
            f2.push(c);
        }
        i += 1;
    }
    assert(cs@.take(cs@.len() as int) =~= cs@);
    if k == 2 {
        assert(split_commas(cs@) =~= seq![f0@, f1@, f2@]);
        Some((f0, f1, f2))
    } else {
        None
    }
}

pub open spec fn capped(v: int) -> int {
    if v >= 2 {
        2
    } else {
        v
    }
}

proof fn lemma_digits_value_nonneg(s: Seq<char>)
    requires
        all_digits(s),
    ensures
        digits_value(s) >= 0,
    decreases s.len(),
{
    if s.len() > 0 {
        assert(is_digit(s[s.len() - 1]));
        lemma_digits_value_nonneg(s.drop_last());
    }
}

/// The spam flag that a field states.
fn spam_value(f: &Vec<char>) -> (r: Option<bool>)
    ensures
        r == spam_flag(f@),
{
    let n = f.len();
    let signed = n > 0 && (f[0] == '+' || f[0] == '-');
    let negative = n > 0 && f[0] == '-';
    let start: usize = if signed {
        1
    } else {
        0
    };
    let ghost b = unsigned_part(f@);
    assert(b =~= f@.subrange(start as int, n as int));
    if start == n {
        return None;
    }
    let mut acc: u8 = 0;
    let mut i: usize = start;
    while i < n
        invariant
            start <= i <= n,
            n == f.len(),
            b == f@.subrange(start as int, n as int),
            b == unsigned_part(f@),
            all_digits(f@.subrange(start as int, i as int)),
            digits_value(f@.subrange(start as int, i as int)) >= 0,
            acc as int == capped(digits_value(f@.subrange(start as int, i as int))),
        decreases n - i,
    {
        let c = f[i];
        if !('0' <= c && c <= '9') {
            assert(b[i - start] == c);
            assert(!is_digit(b[i - start]));
            assert(!all_digits(b));
            return None;
        }
        let ghost prev = f@.subrange(start as int, i as int);
        let ghost next = f@.subrange(start as int, i + 1);
        assert(next.drop_last() =~= prev);
        assert(next.last() == c);
        let d = ((c as u32) - 48) as u8;
        if acc < 2 {
            let t = acc * 10 + d;
            acc = if t >= 2 {
                2
            } else {
                t
            };
        }
        i += 1;
        assert(all_digits(next));
    }
    proof {
        lemma_digits_value_nonneg(b);
    }
    if acc == 0 {
        Some(false)
    } else if acc == 1 && !negative {
        Some(true)
    } else {
        None
    }
}

proof fn lemma_first_of(s: Seq<char>, a: char, b: char, i: int)
    requires
        0 <= i <= s.len(),
        forall|j: int| 0 <= j < i ==> s[j] != a && s[j] != b,
        i == s.len() || s[i] == a || s[i] == b,
    ensures
        first_of(s, a, b) == i,
    decreases i,
{
    if i > 0 {
        let t = s.drop_first();
        assert forall|j: int| 0 <= j < i - 1 implies t[j] != a && t[j] != b by {
            assert(t[j] == s[j + 1]);
        }
        lemma_first_of(t, a, b, i - 1);
    }
}

fn position_of(v: &Vec<char>, a: char, b: char) -> (r: usize)
    ensures
        r as int == first_of(v@, a, b),
        r <= v.len(),
{
    let mut i: usize = 0;
    while i < v.len() && v[i] != a && v[i] != b
        invariant
            i <= v.len(),
            forall|j: int| 0 <= j < i ==> v@[j] != a && v@[j] != b,
        decreases v.len() - i,
    {
        i += 1;
    }
    proof {
        lemma_first_of(v@, a, b, i as int);
    }
    i
}

fn digits_only(v: &Vec<char>) -> (r: bool)
    ensures
        r == all_digits(v@),
{
    let mut i: usize = 0;
    while i < v.len()
        invariant
            i <= v.len(),
            forall|j: int| 0 <= j < i ==> is_digit(#[trigger] v@[j]),
        decreases v.len() - i,
    {
        if !('0' <= v[i] && v[i] <= '9') {
            assert(!is_digit(v@[i as int]));
            return false;
        }
        i += 1;
    }
    true
}

/// Whether `u`, in lower case, is `w`.
fn lower_equals(u: &Vec<char>, w: &Vec<char>) -> (r: bool)
    ensures
        r == (lower_text(u@) == w@),
{
    if u.len() != w.len() {
        assert(lower_text(u@).len() != w@.len());
        return false;
    }
    let mut i: usize = 0;
    while i < u.len()
        invariant
            u.len() == w.len(),
            i <= u.len(),
            forall|j: int| 0 <= j < i ==> ascii_lower(u@[j]) == w@[j],
        decreases u.len() - i,
    {
        if lower_ascii(u[i]) != w[i] {
            assert(lower_text(u@)[i as int] != w@[i as int]);
            return false;
        }
        i += 1;
    }
    assert(lower_text(u@) =~= w@);
    true
}

fn special_float(u: &Vec<char>) -> (r: bool)
    ensures
        r == is_special_float(u@),
{
    let mut inf: Vec<char> = Vec::new();
    inf.push('i');
    inf.push('n');
    inf.push('f');
    assert(inf@ =~= seq!['i', 'n', 'f']);
    let mut infinity: Vec<char> = Vec::new();
    infinity.push('i');
    infinity.push('n');
    infinity.push('f');
    infinity.push('i');
    infinity.push('n');
    infinity.push('i');
    infinity.push('t');
    infinity.push('y');
    assert(infinity@ =~= seq!['i', 'n', 'f', 'i', 'n', 'i', 't', 'y']);
    let mut nan: Vec<char> = Vec::new();
    nan.push('n');
    nan.push('a');
    nan.push('n');
    assert(nan@ =~= seq!['n', 'a', 'n']);
    lower_equals(u, &inf) || lower_equals(u, &infinity) || lower_equals(u, &nan)
}

fn mantissa(m: &Vec<char>) -> (r: bool)
    ensures
        r == is_mantissa(m@),
{
    let d = position_of(m, '.', '.');
    if d == m.len() {
        m.len() > 0 && digits_only(m)
    } else {
        let before = copy_range(m, 0, d);
        let after = copy_range(m, d + 1, m.len());
        assert(before@ =~= m@.take(d as int));
        assert(after@ =~= m@.skip(d + 1));
        digits_only(&before) && digits_only(&after) && m.len() > 1
    }
}

fn unsigned_copy(x: &Vec<char>) -> (r: Vec<char>)
    ensures
        r@ == unsigned_part(x@),
{
    if x.len() > 0 && (x[0] == '+' || x[0] == '-') {
        let r = copy_range(x, 1, x.len());
        assert(r@ =~= x@.drop_first());
        r
    } else {
        let r = copy_range(x, 0, x.len());
        assert(r@ =~= x@);
        r
    }
}

/// Whether a field is a floating-point literal.
fn float_literal(f: &Vec<char>) -> (r: bool)
    ensures
        r == is_float_literal(f@),
{
    let u = unsigned_copy(f);
    if special_float(&u) {
        return true;
    }
    let e = position_of(&u, 'e', 'E');
    let m = copy_range(&u, 0, e);
    assert(m@ =~= u@.take(e as int));
    if !mantissa(&m) {
        return false;
    }
    if e == u.len() {
        return true;
    }
    let x = copy_range(&u, e + 1, u.len());
    assert(x@ =~= u@.skip(e + 1));
    let b = unsigned_copy(&x);
    b.len() > 0 && digits_only(&b)
}

/// The verdict of an answer text `<spam flag>,<keyword>,<confidence>`: exactly three
/// comma-separated fields, a flag that is an integer equal to 1 or 0, and a confidence that is a
/// floating-point literal.
pub fn parse_content(text: &str) -> (r: Result<AnalyzeResponse, CustomError>)
    ensures
        outcome(r) == verdict_of(text@),
{
    let cs = chars_of(text);
    match three_fields(&cs) {
        None => Err(CustomError::MalformedContent),
        Some((flag, keyword, confidence)) => {
            match spam_value(&flag) {
                None => Err(CustomError::InvalidSpamValue),
                Some(spam) => {
                    if float_literal(&confidence) {
                        Ok(
                            AnalyzeResponse {
                                spam,
                                keyword: string_of(&keyword),
                                confidence: string_of(&confidence),
                            },
                        )
                    } else {
                        Err(CustomError::InvalidConfidenceValue)
                    }
                },
            }
        },
    }
}

/// The verdict that a decoded reply of the given shape states.
pub fn interpret_reply(shape: ProviderShape, j: &Json) -> (r: Result<AnalyzeResponse, CustomError>)
    ensures
        outcome(r) == reply_verdict(shape, *j),
{
    match extract_content(shape, j) {
        Ok(t) => parse_content(t.as_str()),
        Err(e) => Err(e),
    }
}

/// The verdict that a raw reply of the given shape states: `Decode` where it is not JSON, then
/// as `interpret_reply` says.
pub fn parse_response(shape: ProviderShape, payload: &str) -> (r: Result<
    AnalyzeResponse,
    CustomError,
>)
    ensures
        outcome(r) == payload_verdict(shape, payload@),
{
    match decode_json(payload) {
        None => Err(CustomError::Decode),
        Some(j) => interpret_reply(shape, &j),
    }
}

} // verus!
