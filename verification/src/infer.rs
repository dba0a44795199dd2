//! The value inference engine: turns a raw command-line string into a typed
//! scalar (boolean, integer, float, string) or a flat array of such scalars.
//!
//! Inference is deterministic and total, falling back to a string. The array
//! heuristic is purely syntactic: it splits on every comma of an unquoted
//! input, without understanding quotes inside individual elements.

use vstd::prelude::*;
use vstd::string::StrSliceExecFns;
use vstd::string::StringExecFns;
use crate::value::{ConfigValue, Node, values_model, lemma_values_model};
use crate::path::{split_on, split_char};
use crate::tree::segs_view;
use crate::toml_bridge::{float_value_text, parse_float_value};

verus! {

/// The whitespace that surrounding-trim removes.
pub open spec fn is_ws(c: char) -> bool {
    c == ' ' || c == '\t' || c == '\n' || c == '\r'
}

/// Drop leading whitespace.
pub open spec fn trim_front(s: Seq<char>) -> Seq<char>
    decreases s.len(),
{
    if s.len() > 0 && is_ws(s[0]) {
        trim_front(s.subrange(1, s.len() as int))
    } else {
        s
    }
}

/// Drop trailing whitespace.
pub open spec fn trim_back(s: Seq<char>) -> Seq<char>
    decreases s.len(),
{
    if s.len() > 0 && is_ws(s[s.len() - 1]) {
        trim_back(s.subrange(0, s.len() - 1))
    } else {
        s
    }
}

/// Drop surrounding whitespace.
pub open spec fn trim_spec(s: Seq<char>) -> Seq<char> {
    trim_back(trim_front(s))
}

/// Front-trim skips exactly the leading whitespace run.
proof fn lemma_trim_front_at(s: Seq<char>, a: int)
    requires
        0 <= a <= s.len(),
        forall|l: int| 0 <= l < a ==> is_ws(s[l]),
        a == s.len() || !is_ws(s[a]),
    ensures
        trim_front(s) =~= s.subrange(a, s.len() as int),
    decreases a,
{
    if a == 0 {
        assert(s.subrange(0, s.len() as int) =~= s);
    } else {
        let rest = s.subrange(1, s.len() as int);
        assert forall|l: int| 0 <= l < a - 1 implies is_ws(rest[l]) by {
            assert(rest[l] == s[l + 1]);
        }
        lemma_trim_front_at(rest, a - 1);
        assert(rest.subrange(a - 1, rest.len() as int) =~= s.subrange(a, s.len() as int));
    }
}

/// Back-trim drops exactly the trailing whitespace run.
proof fn lemma_trim_back_at(s: Seq<char>, b: int)
    requires
        0 <= b <= s.len(),
        forall|l: int| b <= l < s.len() ==> is_ws(s[l]),
        b == 0 || !is_ws(s[b - 1]),
    ensures
        trim_back(s) =~= s.subrange(0, b),
    decreases s.len() - b,
{
    if b == s.len() {
        if s.len() == 0 || !is_ws(s[s.len() - 1]) {
            assert(s.subrange(0, s.len() as int) =~= s);
        } else {
            assert(is_ws(s[s.len() - 1]) && b == s.len() && b - 1 < s.len());
            assert(!is_ws(s[b - 1]));
        }
    } else {
        let head = s.subrange(0, s.len() - 1);
        assert forall|l: int| b <= l < head.len() implies is_ws(head[l]) by {
            assert(head[l] == s[l]);
        }
        lemma_trim_back_at(head, b);
        assert(head.subrange(0, b) =~= s.subrange(0, b));
    }
}

/// Whether a character is surrounding-trimmable whitespace.
fn is_ws_char(c: char) -> (r: bool)
    ensures
        r == is_ws(c),
{
    c == ' ' || c == '\t' || c == '\n' || c == '\r'
}

/// Whitespace-trim a string, like `str::trim` on ASCII whitespace.
pub fn trim_str(s: &str) -> (r: &str)
    ensures
        r@ =~= trim_spec(s@),
{
    let n = s.unicode_len();
    let mut a: usize = 0;
    while a < n && is_ws_char(s.get_char(a))
        invariant
            n == s@.len(),
            0 <= a <= n,
            forall|l: int| 0 <= l < a ==> is_ws(s@[l]),
        decreases n - a,
    {
        a += 1;
    }
    let mut b: usize = n;
    while b > a && is_ws_char(s.get_char(b - 1))
        invariant
            n == s@.len(),
            a <= b <= n,
            forall|l: int| b <= l < n ==> is_ws(s@[l]),
            a == n || !is_ws(s@[a as int]),
        decreases b,
    {
        b -= 1;
    }
    let r = s.substring_char(a, b);
    proof {
        lemma_trim_front_at(s@, a as int);
        let f = s@.subrange(a as int, n as int);
        assert forall|l: int| b - a <= l < f.len() implies is_ws(f[l]) by {
            assert(f[l] == s@[a + l]);
        }
        if b > a {
            assert(f[b - a - 1] == s@[b - 1]);
        }
        lemma_trim_back_at(f, b - a);
        assert(f.subrange(0, b - a) =~= s@.subrange(a as int, b as int));
    }
    r
}

/// Whether text is wrapped in one matching pair of double or single
/// quotes at both ends (so it is at least two characters long).
pub open spec fn is_quoted(s: Seq<char>) -> bool {
    s.len() >= 2 && ((s[0] == '"' && s[s.len() - 1] == '"') || (s[0] == '\'' && s[s.len() - 1]
        == '\''))
}

/// Check if a string is quoted (surrounded by matching quotes).
pub fn is_quoted_string(s: &str) -> (r: bool)
    ensures
        r == is_quoted(s@),
{
    let n = s.unicode_len();
    if n < 2 {
        false
    } else {
        let first = s.get_char(0);
        let last = s.get_char(n - 1);
        (first == '"' && last == '"') || (first == '\'' && last == '\'')
    }
}

/// One layer of surrounding quotes stripped, when the text is wrapped.
pub open spec fn unquote(s: Seq<char>) -> Seq<char> {
    if is_quoted(s) {
        s.subrange(1, s.len() - 1)
    } else {
        s
    }
}

/// Case-insensitive equality of two characters, ASCII letters only.
pub open spec fn eq_ci_char(a: char, b: char) -> bool {
    a == b || (a as u32 + 32 == b as u32 && 'A' as u32 <= a as u32 && a as u32 <= 'Z' as u32) || (
    b as u32 + 32 == a as u32 && 'A' as u32 <= b as u32 && b as u32 <= 'Z' as u32)
}

/// Case-insensitive equality of two character sequences.
pub open spec fn eq_ci(s: Seq<char>, t: Seq<char>) -> bool {
    s.len() == t.len() && forall|i: int| 0 <= i < s.len() ==> eq_ci_char(s[i], t[i])
}

/// ASCII-case-insensitive string comparison.
pub fn eq_ignore_case(s: &str, t: &str) -> (r: bool)
    ensures
        r == eq_ci(s@, t@),
{
    let n = s.unicode_len();
    let m = t.unicode_len();
    if n != m {
        return false;
    }
    let mut i: usize = 0;
    while i < n
        invariant
            n == s@.len(),
            n == t@.len(),
            0 <= i <= n,
            forall|l: int| 0 <= l < i ==> eq_ci_char(s@[l], t@[l]),
        decreases n - i,
    {
        let a = s.get_char(i) as u64;
        let b = t.get_char(i) as u64;
        let same = a == b || (a + 32 == b && 65 <= a && a <= 90) || (b + 32 == a && 65 <= b && b
            <= 90);
        if !same {
            return false;
        }
        i += 1;
    }
    true
}

/// A decimal digit.
pub open spec fn is_digit(c: char) -> bool {
    48 <= c as u32 && c as u32 <= 57
}

/// The numeric value of a decimal digit.
pub open spec fn digit_val(c: char) -> int {
    c as u32 - 48
}

/// A non-empty run of decimal digits.
pub open spec fn all_digits(s: Seq<char>) -> bool {
    s.len() > 0 && forall|i: int| 0 <= i < s.len() ==> is_digit(#[trigger] s[i])
}

/// The value of a digit run, most significant first.
pub open spec fn digits_val(s: Seq<char>) -> int
    decreases s.len(),
{
    if s.len() == 0 {
        0
    } else {
        digits_val(s.subrange(0, s.len() - 1)) * 10 + digit_val(s[s.len() - 1])
    }
}

/// The value of a full integer literal: an optional sign, then digits only.
pub open spec fn int_literal_val(s: Seq<char>) -> Option<int> {
    if s.len() > 0 && (s[0] == '+' || s[0] == '-') {
        let mag = s.subrange(1, s.len() as int);
        if all_digits(mag) {
            Some(
                if s[0] == '-' {
                    -digits_val(mag)
                } else {
                    digits_val(mag)
                },
            )
        } else {
            None
        }
    } else if all_digits(s) {
        Some(digits_val(s))
    } else {
        None
    }
}

/// The canonical decimal spelling of an integer: it reads back as the
/// value, has no plus sign, a minus sign exactly for a negative value, and
/// no superfluous leading zero.
pub open spec fn int_decimal_token(tok: Seq<char>, x: int) -> bool {
    int_literal_val(tok) == Some(x) && tok.len() >= 1 && tok[0] != '+' && (x < 0 <==> tok[0] == '-')
        && (x >= 0 ==> (tok.len() > 1 ==> tok[0] != '0')) && (x < 0 ==> (tok.len() > 2 ==> tok[1]
        != '0'))
}

/// The text parsed as a 64-bit signed integer: a valid literal whose value
/// is in range, full string only.
pub open spec fn parse_i64_spec(s: Seq<char>) -> Option<int> {
    match int_literal_val(s) {
        Some(v) => if i64::MIN <= v && v <= i64::MAX {
            Some(v)
        } else {
            None
        },
        None => None,
    }
}

/// The value of a digit run is never negative.
proof fn lemma_digits_nonneg(s: Seq<char>)
    requires
        forall|i: int| 0 <= i < s.len() ==> is_digit(#[trigger] s[i]),
    ensures
        digits_val(s) >= 0,
    decreases s.len(),
{
    if s.len() > 0 {
        let head = s.subrange(0, s.len() - 1);
        assert forall|i: int| 0 <= i < head.len() implies is_digit(#[trigger] head[i]) by {
            assert(head[i] == s[i]);
        }
        lemma_digits_nonneg(head);
    }
}

/// Appending further digits never shrinks the value.
proof fn lemma_digits_prefix(s: Seq<char>, i: int)
    requires
        0 <= i <= s.len(),
        forall|l: int| 0 <= l < s.len() ==> is_digit(#[trigger] s[l]),
    ensures
        digits_val(s) >= digits_val(s.subrange(0, i)),
    decreases s.len() - i,
{
    if i == s.len() {
        assert(s.subrange(0, s.len() as int) =~= s);
    } else {
        let head = s.subrange(0, s.len() - 1);
        assert forall|l: int| 0 <= l < head.len() implies is_digit(#[trigger] head[l]) by {
            assert(head[l] == s[l]);
        }
        if i == s.len() - 1 {
            lemma_digits_nonneg(head);
            assert(digits_val(s) == digits_val(head) * 10 + digit_val(s[s.len() - 1]));
            assert(head =~= s.subrange(0, i));
        } else {
            lemma_digits_prefix(head, i);
            lemma_digits_nonneg(head);
            assert(head.subrange(0, i) =~= s.subrange(0, i));
            assert(digits_val(s) == digits_val(head) * 10 + digit_val(s[s.len() - 1]));
        }
    }
}

/// Parse the whole string as a 64-bit signed integer, as the inference
/// engine's integer stage does: optional sign, digits only, value in range.
pub fn parse_i64(s: &str) -> (r: Option<i64>)
    ensures
        match r {
            Some(v) => parse_i64_spec(s@) == Some(v as int),
            None => parse_i64_spec(s@) is None,
        },
{
    let n = s.unicode_len();
    if n == 0 {
        return None;
    }
    let c0 = s.get_char(0);
    let neg = c0 == '-';
    let has_sign = c0 == '-' || c0 == '+';
    let start: usize = if has_sign {
        1
    } else {
        0
    };
    if start == n {
        return None;
    }
    let ghost mag = s@.subrange(start as int, n as int);
    let mut acc: i128 = 0;
    let mut i: usize = start;
    while i < n
        invariant
            n == s@.len(),
            start <= i <= n,
            start < n,
            start == 1 || start == 0,
            has_sign ==> start == 1 && (s@[0] == '+' || s@[0] == '-'),
            !has_sign ==> start == 0 && !(s@[0] == '+' || s@[0] == '-'),
            neg <==> (s@[0] == '-' && has_sign),
            mag == s@.subrange(start as int, n as int),
            forall|l: int| start <= l < i ==> is_digit(#[trigger] s@[l]),
            acc == digits_val(s@.subrange(start as int, i as int)),
            0 <= acc <= 0x8000_0000_0000_0000i128,
        decreases n - i,
    {
        let x = s.get_char(i) as u32;
        if x < 48 || x > 57 {
            proof {
                assert(mag[i - start] == s@[i as int]);
            }
            return None;
        }
        let d = (x - 48) as i128;
        proof {
            let pre = s@.subrange(start as int, i as int);
            let now = s@.subrange(start as int, i as int + 1);
            assert(now.subrange(0, now.len() - 1) =~= pre);
            assert(now[now.len() - 1] == s@[i as int]);
        }
        acc = acc * 10 + d;
        i += 1;
        if acc > 0x8000_0000_0000_0000i128 {
            proof {
                let pre = s@.subrange(start as int, i as int);
                assert(pre =~= mag.subrange(0, i - start));
                if all_digits(mag) {
                    lemma_digits_prefix(mag, i - start);
                }
                if !has_sign {
                    assert(mag =~= s@);
                }
            }
            return None;
        }
    }
    proof {
        assert(mag =~= s@.subrange(start as int, n as int));
        assert forall|l: int| 0 <= l < mag.len() implies is_digit(#[trigger] mag[l]) by {
            assert(mag[l] == s@[start + l]);
        }
        if !has_sign {
            assert(mag =~= s@);
        }
    }
    if neg {
        let v = -acc;
        Some(v as i64)
    } else {
        if acc > 0x7fff_ffff_ffff_ffffi128 {
            return None;
        }
        Some(acc as i64)
    }
}

/// Whether the sequence holds the character anywhere.
pub open spec fn has_char(s: Seq<char>, c: char) -> bool {
    exists|i: int| 0 <= i < s.len() && s[i] == c
}

/// Scan for a character.
fn contains_char(s: &str, c: char) -> (r: bool)
    ensures
        r == has_char(s@, c),
{
    let n = s.unicode_len();
    let mut i: usize = 0;
    while i < n
        invariant
            n == s@.len(),
            0 <= i <= n,
            forall|l: int| 0 <= l < i ==> s@[l] != c,
        decreases n - i,
    {
        if s.get_char(i) == c {
            return true;
        }
        i += 1;
    }
    false
}

/// The single-value inference algorithm: trim, strip one layer of matching
/// quotes, then try boolean, integer, float, and fall back to string.
pub open spec fn infer_single_spec(s: Seq<char>) -> Node {
    let t = trim_spec(s);
    let u = unquote(t);
    if eq_ci(u, "true"@) {
        Node::Bool(true)
    } else if eq_ci(u, "false"@) {
        Node::Bool(false)
    } else if parse_i64_spec(u) is Some {
        Node::Int(parse_i64_spec(u)->Some_0)
    } else if float_value_text(u) is Some {
        Node::Float(u)
    } else {
        Node::Str(u)
    }
}

/// How many comma-separated parts are non-empty once trimmed.
pub open spec fn count_nonempty(parts: Seq<Seq<char>>) -> int
    decreases parts.len(),
{
    if parts.len() == 0 {
        0
    } else {
        count_nonempty(parts.subrange(0, parts.len() - 1)) + if trim_spec(
            parts[parts.len() - 1],
        ).len() > 0 {
            1int
        } else {
            0int
        }
    }
}

/// The whole inference algorithm: an unquoted input holding a comma with
/// more than one non-empty part becomes an array of its parts, each run
/// through single-value inference; anything else is a single value.
pub open spec fn infer_spec(s: Seq<char>) -> Node {
    let t = trim_spec(s);
    let parts = split_on(t, ',');
    if has_char(t, ',') && !is_quoted(t) && count_nonempty(parts) > 1 {
        Node::Arr(Seq::new(parts.len(), |i: int| infer_single_spec(parts[i])))
    } else {
        infer_single_spec(t)
    }
}

/// Infer a single value (no array detection).
pub fn infer_single(s: &str) -> (r: ConfigValue)
    ensures
        r.model() == infer_single_spec(s@),
{
    let t = trim_str(s);
    let n = t.unicode_len();
    let u: &str = if is_quoted_string(t) {
        t.substring_char(1, n - 1)
    } else {
        t
    };
    proof {
        assert(u@ =~= unquote(t@));
    }
    if eq_ignore_case(u, "true") {
        ConfigValue::Boolean(true)
    } else if eq_ignore_case(u, "false") {
        ConfigValue::Boolean(false)
    } else {
        match parse_i64(u) {
            Some(v) => ConfigValue::Integer(v),
            None => match parse_float_value(u) {
                Some(_) => ConfigValue::Float(String::from_str(u)),
                None => ConfigValue::Str(String::from_str(u)),
            },
        }
    }
}

/// Infer a typed value from a raw string: booleans, 64-bit integers, floats,
/// simple comma-separated arrays, and strings as the fallback.
pub fn infer(s: &str) -> (r: ConfigValue)
    ensures
        r.model() == infer_spec(s@),
{
    let t = trim_str(s);
    let hc = contains_char(t, ',');
    if hc && !is_quoted_string(t) {
        let parts = split_char(t, ',');
        let ghost ps = split_on(t@, ',');
        proof {
            assert(segs_view(parts@) =~~= ps);
        }
        let mut count: usize = 0;
        let mut j: usize = 0;
        while j < parts.len()
            invariant
                parts@.len() == ps.len(),
                forall|l: int| 0 <= l < ps.len() ==> (#[trigger] parts@[l]@) == ps[l],
                0 <= j <= parts@.len(),
                count <= j,
                count == count_nonempty(ps.subrange(0, j as int)),
            decreases parts@.len() - j,
        {
            let p = trim_str(parts[j].as_str());
            proof {
                assert(ps.subrange(0, j as int + 1).subrange(0, j as int) =~= ps.subrange(
                    0,
                    j as int,
                ));
                assert(ps.subrange(0, j as int + 1)[j as int] == ps[j as int]);
            }
            if p.unicode_len() > 0 {
                count += 1;
            }
            j += 1;
        }
        proof {
            assert(ps.subrange(0, ps.len() as int) =~= ps);
        }
        if count > 1 {
            let mut vals: Vec<ConfigValue> = Vec::new();
            let mut l: usize = 0;
            while l < parts.len()
                invariant
                    parts@.len() == ps.len(),
                    forall|m: int| 0 <= m < ps.len() ==> (#[trigger] parts@[m]@) == ps[m],
                    0 <= l <= parts@.len(),
                    vals@.len() == l,
                    forall|m: int|
                        0 <= m < l ==> (#[trigger] vals@[m].model()) == infer_single_spec(ps[m]),
                decreases parts@.len() - l,
            {
                let v = infer_single(parts[l].as_str());
                vals.push(v);
                l += 1;
            }
            let result = ConfigValue::Array(vals);
            proof {
                lemma_values_model(vals@);
                let target = Seq::new(ps.len(), |i: int| infer_single_spec(ps[i]));
                assert forall|i: int| 0 <= i < ps.len() implies values_model(vals@)[i]
                    == target[i] by {
                    assert(vals@[i].model() == infer_single_spec(ps[i]));
                }
                assert(values_model(vals@) =~= target);
            }
            result
        } else {
            infer_single(t)
        }
    } else {
        infer_single(t)
    }
}

} // verus!
