//! The value parser: turns the trimmed raw value field of a value card into
//! a typed scalar and its inline comment. The rules apply in strict order:
//! empty, comment-only, quoted string, boolean, parenthesized (unsupported),
//! then a token split at the first space or slash that is read as a float
//! when it holds a dot, as an integer when it holds only digits and signs,
//! and as undefined otherwise.

use vstd::prelude::*;

use crate::Error;
use crate::ErrorModel;
use crate::text::chars_to_string;
use crate::text::dec_digits;
use crate::text::digit_exec;
use crate::text::find_first;
use crate::text::spec_close;
use crate::text::spec_trim;
use crate::text::spec_unescape;
use crate::text::str_chars;
use crate::text::trim_chars;

verus! {

/// Whether `c` is a decimal digit.
pub open spec fn is_digit(c: char) -> bool {
    48 <= c as u32 && c as u32 <= 57
}

/// How many leading characters of `s` are decimal digits.
pub open spec fn leading_digit_count(s: Seq<char>) -> int
    decreases s.len(),
{
    if s.len() == 0 || !is_digit(s[0]) {
        0
    } else {
        1 + leading_digit_count(s.drop_first())
    }
}

/// The base-10 value of a digit sequence, most significant first.
pub open spec fn digits_val(s: Seq<char>) -> int
    decreases s.len(),
{
    if s.len() == 0 {
        0
    } else {
        digits_val(s.drop_last()) * 10 + (s.last() as u32 - 48)
    }
}

/// The token with one leading sign removed, when present.
pub open spec fn sign_split(s: Seq<char>) -> Seq<char> {
    if s.len() > 0 && (s[0] == '+' || s[0] == '-') {
        s.drop_first()
    } else {
        s
    }
}

/// Whether the token is a well-formed 64-bit signed integer literal: an
/// optional single sign, then at least one digit, within the i64 range.
pub open spec fn is_int_token(s: Seq<char>) -> bool {
    let neg = s.len() > 0 && s[0] == '-';
    let d = sign_split(s);
    &&& d.len() > 0
    &&& (forall|k: int| 0 <= k < d.len() ==> is_digit(d[k]))
    &&& (if neg {
        digits_val(d) <= i64::MAX as int + 1
    } else {
        digits_val(d) <= i64::MAX as int
    })
}

/// The integer value of a well-formed integer token.
pub open spec fn int_token_val(s: Seq<char>) -> int {
    let neg = s.len() > 0 && s[0] == '-';
    let d = sign_split(s);
    if neg {
        -digits_val(d)
    } else {
        digits_val(d)
    }
}

/// Whether `v` is a well-formed exponent part: `e` or `E`, an optional
/// sign, then at least one digit and nothing else.
pub open spec fn is_exponent_part(v: Seq<char>) -> bool {
    v.len() >= 2 && (v[0] == 'e' || v[0] == 'E') && {
        let w = if v[1] == '+' || v[1] == '-' {
            v.subrange(2, v.len() as int)
        } else {
            v.subrange(1, v.len() as int)
        };
        w.len() > 0 && leading_digit_count(w) == w.len()
    }
}

/// Whether the token is a well-formed decimal float literal: an optional
/// sign, digits around a mandatory dot with at least one digit in all, and
/// an optional exponent part.
pub open spec fn is_float_token(s: Seq<char>) -> bool {
    let t = sign_split(s);
    let n = leading_digit_count(t);
    n < t.len() && t[n] == '.' && {
        let u = t.subrange(n + 1, t.len() as int);
        let m = leading_digit_count(u);
        n + m >= 1 && (m == u.len() || is_exponent_part(u.subrange(m, u.len() as int)))
    }
}

/// Index of the first space or slash in `s`, or `s.len()` if none.
pub open spec fn sep_index(s: Seq<char>) -> int
    decreases s.len(),
{
    if s.len() == 0 {
        0
    } else if s[0] == ' ' || s[0] == '/' {
        0
    } else {
        1 + sep_index(s.drop_first())
    }
}

/// The inline comment of a value field: the trimmed text after the first
/// slash at or after `from`, or empty when there is none.
pub open spec fn spec_comment_from(s: Seq<char>, from: int) -> Seq<char> {
    let rest = s.subrange(from, s.len() as int);
    match find_first(rest, '/') {
        Some(k) => spec_trim(rest.subrange(k + 1, rest.len() as int), ' '),
        None => Seq::empty(),
    }
}

/// Mathematical image of a parsed value. A float is carried as its
/// validated literal token; consumers perform the decimal-to-binary read.
pub enum ValueModel {
    Undefined,
    Integer(int),
    Str(Seq<char>),
    Float(Seq<char>),
    Boolean(bool),
}

/// The parse of one trimmed value field: the typed scalar and the inline
/// comment, or an unsupported-literal failure for a parenthesized
/// (complex-number) form. The rules apply in this order, first match wins.
pub open spec fn spec_parse_value(s: Seq<char>) -> Result<(ValueModel, Seq<char>), ()> {
    if s.len() == 0 {
        Ok((ValueModel::Undefined, Seq::empty()))
    } else if s[0] == '/' {
        Ok((ValueModel::Undefined, spec_trim(s.subrange(1, s.len() as int), ' ')))
    } else if s[0] == '\'' {
        let close = spec_close(s, '\'', 1);
        let content = spec_unescape(s.subrange(1, close), '\'');
        let comment = if close < s.len() {
            spec_comment_from(s, close + 1)
        } else {
            Seq::empty()
        };
        Ok((ValueModel::Str(content), comment))
    } else if s[0] == 'T' || s[0] == 'F' {
        Ok((ValueModel::Boolean(s[0] == 'T'), spec_comment_from(s, 1)))
    } else if s[0] == '(' {
        Err(())
    } else {
        let t = sep_index(s);
        let token = s.subrange(0, t);
        let comment = spec_comment_from(s, t);
        if exists|k: int| 0 <= k < token.len() && token[k] == '.' {
            if is_float_token(token) {
                Ok((ValueModel::Float(token), comment))
            } else {
                Ok((ValueModel::Undefined, comment))
            }
        } else if forall|k: int|
            0 <= k < token.len() ==> (is_digit(token[k]) || token[k] == '+' || token[k] == '-') {
            if is_int_token(token) {
                Ok((ValueModel::Integer(int_token_val(token)), comment))
            } else {
                Ok((ValueModel::Undefined, comment))
            }
        } else {
            Ok((ValueModel::Undefined, Seq::empty()))
        }
    }
}

/// A typed scalar read from a value card.
#[derive(Debug, PartialEq, Clone)]
pub enum Value {
    /// No value, or one this parser does not read.
    Undefined,
    /// A 64-bit signed integer.
    Integer(i64),
    /// A quoted string with its quote-doubling escapes collapsed.
    Str(String),
    /// A float, carried as its validated decimal literal token.
    Float(String),
    /// `T` or `F`.
    Boolean(bool),
}

impl View for Value {
    type V = ValueModel;

    open spec fn view(&self) -> ValueModel {
        match self {
            Value::Undefined => ValueModel::Undefined,
            Value::Integer(i) => ValueModel::Integer(*i as int),
            Value::Str(s) => ValueModel::Str(s@),
            Value::Float(t) => ValueModel::Float(t@),
            Value::Boolean(b) => ValueModel::Boolean(*b),
        }
    }
}

/// If the first `i` characters are digits and character `i` (when present)
/// is not, the leading digit count is exactly `i`.
proof fn lemma_leading_digit_count_at(s: Seq<char>, i: int)
    requires
        0 <= i <= s.len(),
        forall|k: int| 0 <= k < i ==> is_digit(s[k]),
        i == s.len() || !is_digit(s[i]),
    ensures
        leading_digit_count(s) == i,
    decreases i,
{
    if i == 0 {
    } else {
        lemma_leading_digit_count_at(s.drop_first(), i - 1);
    }
}

/// If `c` does not occur before `i` and occurs at `i` (when present), the
/// first occurrence is `i`, or absent when `i` is the length.
proof fn lemma_find_first_at(s: Seq<char>, c: char, i: int)
    requires
        0 <= i <= s.len(),
        forall|k: int| 0 <= k < i ==> s[k] != c,
        i == s.len() || s[i] == c,
    ensures
        find_first(s, c) == if i < s.len() {
            Some(i)
        } else {
            None::<int>
        },
    decreases i,
{
    if i == 0 {
        if s.len() > 0 {
        }
    } else {
        lemma_find_first_at(s.drop_first(), c, i - 1);
    }
}

/// If no separator occurs before `i` and one occurs at `i` (when present),
/// the separator index is exactly `i`.
proof fn lemma_sep_index_at(s: Seq<char>, i: int)
    requires
        0 <= i <= s.len(),
        forall|k: int| 0 <= k < i ==> (s[k] != ' ' && s[k] != '/'),
        i == s.len() || s[i] == ' ' || s[i] == '/',
    ensures
        sep_index(s) == i,
    decreases i,
{
    if i == 0 {
    } else {
        lemma_sep_index_at(s.drop_first(), i - 1);
    }
}

/// The value of a digit sequence is never negative.
proof fn lemma_digits_val_nonneg(s: Seq<char>)
    requires
        forall|k: int| 0 <= k < s.len() ==> is_digit(s[k]),
    ensures
        digits_val(s) >= 0,
    decreases s.len(),
{
    if s.len() > 0 {
        lemma_digits_val_nonneg(s.drop_last());
    }
}

/// Extending a digit sequence never lowers its value.
proof fn lemma_digits_val_mono(s: Seq<char>, i: int)
    requires
        0 <= i <= s.len(),
        forall|k: int| 0 <= k < s.len() ==> is_digit(s[k]),
    ensures
        digits_val(s.subrange(0, i)) <= digits_val(s),
    decreases s.len() - i,
{
    if i == s.len() {
        assert(s.subrange(0, i) =~= s);
    } else {
        let a = s.subrange(0, i);
        let b = s.subrange(0, i + 1);
        assert(b.drop_last() =~= a);
        assert(forall|k: int| 0 <= k < a.len() ==> is_digit(a[k]));
        lemma_digits_val_nonneg(a);
        assert(digits_val(b) == digits_val(a) * 10 + (b.last() as u32 - 48));
        lemma_digits_val_mono(s, i + 1);
    }
}

/// Whether `c` is a decimal digit.
fn is_digit_char(c: char) -> (r: bool)
    ensures
        r == is_digit(c),
{
    let u = c as u32;
    48 <= u && u <= 57
}

/// A fresh vector holding `v[from..to]`.
fn chars_range(v: &Vec<char>, from: usize, to: usize) -> (r: Vec<char>)
    requires
        from <= to <= v@.len(),
    ensures
        r@ == v@.subrange(from as int, to as int),
{
    let mut r: Vec<char> = Vec::new();
    let mut i: usize = from;
    while i < to
        invariant
            from <= i <= to <= v@.len(),
            r@ == v@.subrange(from as int, i as int),
        decreases to - i,
    {
        r.push(v[i]);
        i = i + 1;
        proof {
            assert(v@.subrange(from as int, i as int) =~= v@.subrange(from as int, i - 1).push(
                v@[i - 1],
            ));
        }
    }
    r
}

/// Index at which the closing-quote scan of a quoted value stops.
fn find_close(s: &Vec<char>) -> (close: usize)
    requires
        s@.len() > 0,
        s@[0] == '\'',
    ensures
        close as int == spec_close(s@, '\'', 1),
        1 <= close <= s@.len(),
{
    let n = s.len();
    let mut i: usize = 1;
    while i < n
        invariant
            1 <= i <= n,
            n == s@.len(),
            spec_close(s@, '\'', 1) == spec_close(s@, '\'', i as int),
        decreases n - i,
    {
        if s[i] == '\'' {
            if i + 1 < n && s[i + 1] == '\'' {
                i = i + 2;
            } else {
                return i;
            }
        } else {
            i = i + 1;
        }
    }
    n
}

/// The characters of `s[from..to]` with doubled quotes collapsed.
fn unescape_chars(s: &Vec<char>, from: usize, to: usize) -> (r: Vec<char>)
    requires
        from <= to <= s@.len(),
    ensures
        r@ == spec_unescape(s@.subrange(from as int, to as int), '\''),
{
    let mut out: Vec<char> = Vec::new();
    let mut i: usize = from;
    while i < to
        invariant
            from <= i <= to <= s@.len(),
            spec_unescape(s@.subrange(from as int, to as int), '\'') == out@ + spec_unescape(
                s@.subrange(i as int, to as int),
                '\'',
            ),
        decreases to - i,
    {
        let ghost rest = s@.subrange(i as int, to as int);
        let ghost prev = out@;
        if i + 1 < to && s[i] == '\'' && s[i + 1] == '\'' {
            out.push('\'');
            i = i + 2;
            proof {
                assert(rest.skip(2) =~= s@.subrange(i as int, to as int));
                assert(spec_unescape(rest, '\'') == seq!['\''] + spec_unescape(
                    rest.skip(2),
                    '\'',
                ));
                assert(out@ =~= prev + seq!['\'']);
                assert(prev + (seq!['\''] + spec_unescape(rest.skip(2), '\'')) =~= out@
                    + spec_unescape(rest.skip(2), '\''));
            }
        } else {
            let c = s[i];
            out.push(c);
            i = i + 1;
            proof {
                assert(rest.skip(1) =~= s@.subrange(i as int, to as int));
                assert(rest[0] == c);
                if rest.len() >= 2 && rest[0] == '\'' && rest[1] == '\'' {
                    assert(s@[i as int] == '\'');
                }
                assert(spec_unescape(rest, '\'') == seq![c] + spec_unescape(rest.skip(1), '\''));
                assert(out@ =~= prev + seq![c]);
                assert(prev + (seq![c] + spec_unescape(rest.skip(1), '\'')) =~= out@
                    + spec_unescape(rest.skip(1), '\''));
            }
        }
    }
    proof {
        assert(s@.subrange(i as int, to as int) =~= Seq::<char>::empty());
        assert(out@ + Seq::<char>::empty() =~= out@);
    }
    out
}

/// Index at which the closing-quote scan of a quoted byte value stops.
fn find_close_bytes(input: &[u8]) -> (close: usize)
    requires
        input@.len() > 0,
        input@[0] == 39u8,
    ensures
        close as int == spec_close(input@, 39u8, 1),
        1 <= close <= input@.len(),
{
    let n = input.len();
    let mut i: usize = 1;
    while i < n
        invariant
            1 <= i <= n,
            n == input@.len(),
            spec_close(input@, 39u8, 1) == spec_close(input@, 39u8, i as int),
        decreases n - i,
    {
        if input[i] == 39 {
            if i + 1 < n && input[i + 1] == 39 {
                i = i + 2;
            } else {
                return i;
            }
        } else {
            i = i + 1;
        }
    }
    n
}

/// Collapse doubled quotes of the quoted value starting `input`, appending
/// the extracted text to `output`. The scan starts after the opening quote
/// and stops at the first lone quote, or at the end when none closes it.
pub fn extract_str(input: &[u8], output: &mut Vec<u8>)
    requires
        input@.len() > 0,
        input@[0] == 39u8,
    ensures
        final(output)@ == old(output)@ + spec_unescape(
            input@.subrange(1, spec_close(input@, 39u8, 1)),
            39u8,
        ),
{
    let close = find_close_bytes(input);
    let mut j: usize = 1;
    while j < close
        invariant
            1 <= j <= close <= input@.len(),
            output@ + spec_unescape(input@.subrange(j as int, close as int), 39u8)
                == old(output)@ + spec_unescape(input@.subrange(1, close as int), 39u8),
        decreases close - j,
    {
        let ghost rest = input@.subrange(j as int, close as int);
        let ghost prev = output@;
        if j + 1 < close && input[j] == 39 && input[j + 1] == 39 {
            output.push(39);
            j = j + 2;
            proof {
                assert(rest.skip(2) =~= input@.subrange(j as int, close as int));
                assert(spec_unescape(rest, 39u8) == seq![39u8] + spec_unescape(
                    rest.skip(2),
                    39u8,
                ));
                assert(output@ =~= prev + seq![39u8]);
                assert(prev + (seq![39u8] + spec_unescape(rest.skip(2), 39u8)) =~= output@
                    + spec_unescape(rest.skip(2), 39u8));
            }
        } else {
            let b = input[j];
            output.push(b);
            j = j + 1;
            proof {
                assert(rest.skip(1) =~= input@.subrange(j as int, close as int));
                assert(rest[0] == b);
                if rest.len() >= 2 && rest[0] == 39u8 && rest[1] == 39u8 {
                    assert(input@[j as int] == 39u8);
                }
                assert(spec_unescape(rest, 39u8) == seq![b] + spec_unescape(rest.skip(1), 39u8));
                assert(output@ =~= prev + seq![b]);
                assert(prev + (seq![b] + spec_unescape(rest.skip(1), 39u8)) =~= output@
                    + spec_unescape(rest.skip(1), 39u8));
            }
        }
    }
    proof {
        assert(input@.subrange(j as int, close as int) =~= Seq::<u8>::empty());
        assert(output@ + Seq::<u8>::empty() =~= output@);
    }
}

/// The inline comment found at or after `from`, as a string.
fn comment_from(s: &Vec<char>, from: usize) -> (r: String)
    requires
        from <= s@.len(),
    ensures
        r@ == spec_comment_from(s@, from as int),
{
    let n = s.len();
    let mut i: usize = from;
    while i < n && s[i] != '/'
        invariant
            from <= i <= n,
            n == s@.len(),
            forall|k: int| from <= k < i ==> s@[k] != '/',
        decreases n - i,
    {
        i = i + 1;
    }
    proof {
        let rest = s@.subrange(from as int, n as int);
        assert(forall|k: int| 0 <= k < i - from ==> rest[k] != '/');
        lemma_find_first_at(rest, '/', i - from);
    }
    if i < n {
        let t = trim_chars(s, i + 1, n);
        proof {
            let rest = s@.subrange(from as int, n as int);
            assert(rest.subrange(i - from + 1, rest.len() as int) =~= s@.subrange(
                i + 1,
                n as int,
            ));
        }
        chars_to_string(&t)
    } else {
        String::new()
    }
}

/// Index of the first space or slash in `s`, or its length.
fn find_sep(s: &Vec<char>) -> (t: usize)
    ensures
        t as int == sep_index(s@),
        t <= s@.len(),
{
    let n = s.len();
    let mut i: usize = 0;
    while i < n && s[i] != ' ' && s[i] != '/'
        invariant
            0 <= i <= n,
            n == s@.len(),
            forall|k: int| 0 <= k < i ==> (s@[k] != ' ' && s@[k] != '/'),
        decreases n - i,
    {
        i = i + 1;
    }
    proof {
        lemma_sep_index_at(s@, i as int);
    }
    i
}

/// Whether any character of `v` is a dot.
fn has_dot(v: &Vec<char>) -> (r: bool)
    ensures
        r == exists|k: int| 0 <= k < v@.len() && v@[k] == '.',
{
    let n = v.len();
    let mut i: usize = 0;
    while i < n
        invariant
            0 <= i <= n,
            n == v@.len(),
            forall|k: int| 0 <= k < i ==> v@[k] != '.',
        decreases n - i,
    {
        if v[i] == '.' {
            return true;
        }
        i = i + 1;
    }
    false
}

/// Whether every character of `v` is a digit, `+` or `-`.
fn all_int_chars(v: &Vec<char>) -> (r: bool)
    ensures
        r == forall|k: int|
            0 <= k < v@.len() ==> (is_digit(v@[k]) || v@[k] == '+' || v@[k] == '-'),
{
    let n = v.len();
    let mut i: usize = 0;
    while i < n
        invariant
            0 <= i <= n,
            n == v@.len(),
            forall|k: int| 0 <= k < i ==> (is_digit(v@[k]) || v@[k] == '+' || v@[k] == '-'),
        decreases n - i,
    {
        let c = v[i];
        if !is_digit_char(c) && c != '+' && c != '-' {
            return false;
        }
        i = i + 1;
    }
    true
}

/// Parse a token of digits and signs as an i64, or report that it is not a
/// well-formed integer literal in range.
fn parse_int_token(token: &Vec<char>) -> (r: Option<i64>)
    ensures
        match r {
            Some(v) => is_int_token(token@) && v as int == int_token_val(token@),
            None => !is_int_token(token@),
        },
{
    let n = token.len();
    let mut start: usize = 0;
    let mut neg = false;
    if n > 0 && (token[0] == '+' || token[0] == '-') {
        neg = token[0] == '-';
        start = 1;
    }
    let ghost d = sign_split(token@);
    proof {
        assert(d =~= token@.subrange(start as int, n as int));
    }
    if start == n {
        return None;
    }
    let limit: u64 = if neg {
        9223372036854775808
    } else {
        9223372036854775807
    };
    let mut mag: u64 = 0;
    let mut j: usize = start;
    while j < n
        invariant
            start <= j <= n,
            n == token@.len(),
            d == sign_split(token@),
            d =~= token@.subrange(start as int, n as int),
            forall|k: int| start <= k < j ==> is_digit(token@[k]),
            mag as int == digits_val(token@.subrange(start as int, j as int)),
            mag <= limit,
            limit == if neg {
                9223372036854775808u64
            } else {
                9223372036854775807u64
            },
            neg == (token@.len() > 0 && token@[0] == '-'),
            start == if token@.len() > 0 && (token@[0] == '+' || token@[0] == '-') {
                1int
            } else {
                0int
            },
        decreases n - j,
    {
        let c = token[j];
        let u = c as u32;
        if u < 48 || u > 57 {
            proof {
                assert(!is_digit(token@[j as int]));
                assert(d[j - start] == token@[j as int]);
            }
            return None;
        }
        let dv = (u - 48) as u64;
        if mag > (limit - dv) / 10 {
            proof {
                let pre = token@.subrange(start as int, j as int);
                let ext = token@.subrange(start as int, j + 1);
                assert(ext.drop_last() =~= pre);
                assert(ext.last() == token@[j as int]);
                assert(digits_val(ext) == digits_val(pre) * 10 + dv);
                assert(mag as int * 10 + dv as int > limit as int) by {
                    assert(mag as int >= (limit - dv) as int / 10 + 1);
                    assert(((limit - dv) as int / 10) * 10 + (limit - dv) as int % 10 == (limit
                        - dv) as int);
                };
                assert(digits_val(ext) > limit as int);
                if is_int_token(token@) {
                    assert(forall|k: int| 0 <= k < d.len() ==> is_digit(d[k]));
                    lemma_digits_val_mono(d, j + 1 - start);
                    assert(d.subrange(0, j + 1 - start) =~= ext);
                    assert(digits_val(ext) <= digits_val(d));
                    assert(digits_val(d) <= limit as int);
                    assert(false);
                }
            }
            return None;
        }
        mag = mag * 10 + dv;
        j = j + 1;
        proof {
            let pre = token@.subrange(start as int, j - 1);
            let ext = token@.subrange(start as int, j as int);
            assert(ext.drop_last() =~= pre);
            assert(ext.last() == token@[j - 1]);
        }
    }
    proof {
        assert(token@.subrange(start as int, n as int) =~= d);
        assert(forall|k: int| 0 <= k < d.len() ==> is_digit(d[k])) by {
            assert(forall|k: int| 0 <= k < d.len() ==> d[k] == token@[k + start]);
        };
        assert(digits_val(d) == mag as int);
        assert(is_int_token(token@));
    }
    if neg {
        if mag == 9223372036854775808 {
            Some(i64::MIN)
        } else {
            Some(-(mag as i64))
        }
    } else {
        Some(mag as i64)
    }
}

/// Check a dotted token against the decimal float literal grammar.
#[verifier::rlimit(50)]
fn check_float_token(token: &Vec<char>) -> (r: bool)
    ensures
        r == is_float_token(token@),
{
    let n = token.len();
    let mut i: usize = 0;
    if n > 0 && (token[0] == '+' || token[0] == '-') {
        i = 1;
    }
    let start = i;
    let ghost t = sign_split(token@);
    proof {
        assert(t =~= token@.subrange(start as int, n as int));
    }
    while i < n && is_digit_char(token[i])
        invariant
            start <= i <= n,
            n == token@.len(),
            forall|k: int| start <= k < i ==> is_digit(token@[k]),
        decreases n - i,
    {
        i = i + 1;
    }
    proof {
        assert(forall|k: int| 0 <= k < i - start ==> is_digit(t[k]));
        lemma_leading_digit_count_at(t, i - start);
    }
    let int_digits = i - start;
    if i == n {
        return false;
    }
    if token[i] != '.' {
        return false;
    }
    let dot = i;
    i = i + 1;
    let fs = i;
    let ghost u = t.subrange(dot - start + 1, t.len() as int);
    proof {
        assert(u =~= token@.subrange(fs as int, n as int));
    }
    while i < n && is_digit_char(token[i])
        invariant
            fs <= i <= n,
            n == token@.len(),
            forall|k: int| fs <= k < i ==> is_digit(token@[k]),
        decreases n - i,
    {
        i = i + 1;
    }
    proof {
        assert(forall|k: int| 0 <= k < i - fs ==> u[k] == token@[k + fs]);
        lemma_leading_digit_count_at(u, i - fs);
    }
    let frac_digits = i - fs;
    if int_digits + frac_digits == 0 {
        return false;
    }
    if i == n {
        return true;
    }
    let ghost v = u.subrange(frac_digits as int, u.len() as int);
    proof {
        assert(v =~= token@.subrange(i as int, n as int));
    }
    if token[i] != 'e' && token[i] != 'E' {
        return false;
    }
    let e0 = i;
    i = i + 1;
    if i == n {
        proof {
            assert(v.len() == 1);
        }
        return false;
    }
    if token[i] == '+' || token[i] == '-' {
        i = i + 1;
    }
    let ws = i;
    let ghost w = if v[1] == '+' || v[1] == '-' {
        v.subrange(2, v.len() as int)
    } else {
        v.subrange(1, v.len() as int)
    };
    proof {
        assert(v[1] == token@[e0 + 1]);
        assert(w =~= token@.subrange(ws as int, n as int));
    }
    if ws == n {
        return false;
    }
    while i < n && is_digit_char(token[i])
        invariant
            ws <= i <= n,
            n == token@.len(),
            forall|k: int| ws <= k < i ==> is_digit(token@[k]),
        decreases n - i,
    {
        i = i + 1;
    }
    proof {
        assert(forall|k: int| 0 <= k < i - ws ==> w[k] == token@[k + ws]);
        lemma_leading_digit_count_at(w, i - ws);
    }
    i == n
}

/// Parse one trimmed value field into its typed scalar and inline comment.
pub(crate) fn parse_value_chars(s: &Vec<char>) -> (r: Result<(Value, String), Error>)
    ensures
        match spec_parse_value(s@) {
            Ok((v, c)) => r is Ok && r->Ok_0.0@ == v && r->Ok_0.1@ == c,
            Err(_) => r is Err && r->Err_0@ == ErrorModel::UnsupportedLiteral,
        },
{
    let n = s.len();
    if n == 0 {
        return Ok((Value::Undefined, String::new()));
    }
    let c0 = s[0];
    if c0 == '/' {
        let t = trim_chars(s, 1, n);
        return Ok((Value::Undefined, chars_to_string(&t)));
    }
    if c0 == '\'' {
        let close = find_close(s);
        let content = unescape_chars(s, 1, close);
        let comment = if close < n {
            comment_from(s, close + 1)
        } else {
            String::new()
        };
        return Ok((Value::Str(chars_to_string(&content)), comment));
    }
    if c0 == 'T' || c0 == 'F' {
        return Ok((Value::Boolean(c0 == 'T'), comment_from(s, 1)));
    }
    if c0 == '(' {
        return Err(Error::UnsupportedLiteral);
    }
    let t = find_sep(s);
    let token = chars_range(s, 0, t);
    let comment = comment_from(s, t);
    if has_dot(&token) {
        if check_float_token(&token) {
            return Ok((Value::Float(chars_to_string(&token)), comment));
        }
        return Ok((Value::Undefined, comment));
    }
    if all_int_chars(&token) {
        match parse_int_token(&token) {
            Some(v) => {
                return Ok((Value::Integer(v), comment));
            },
            None => {
                return Ok((Value::Undefined, comment));
            },
        }
    }
    Ok((Value::Undefined, String::new()))
}

/// Parse one trimmed value field, as `parse_value_chars`, from a string.
pub(crate) fn parse_keyword(line: &str) -> (r: Result<(Value, String), Error>)
    ensures
        match spec_parse_value(line@) {
            Ok((v, c)) => r is Ok && r->Ok_0.0@ == v && r->Ok_0.1@ == c,
            Err(_) => r is Err && r->Err_0@ == ErrorModel::UnsupportedLiteral,
        },
{
    let chars = str_chars(line);
    parse_value_chars(&chars)
}

/// The decimal text of an integer: a sign for negatives, then digits.
pub open spec fn int_chars(i: int) -> Seq<char> {
    if i < 0 {
        seq!['-'] + dec_digits(-i)
    } else {
        dec_digits(i)
    }
}

/// The display text of a value: nothing for undefined, decimal digits for
/// an integer, the literal token for a float, the quoted string, or the
/// boolean letter.
pub open spec fn spec_value_text(v: ValueModel) -> Seq<char> {
    match v {
        ValueModel::Undefined => Seq::empty(),
        ValueModel::Integer(i) => int_chars(i),
        ValueModel::Str(s) => seq!['\''] + s + seq!['\''],
        ValueModel::Float(t) => t,
        ValueModel::Boolean(b) => if b {
            seq!['T']
        } else {
            seq!['F']
        },
    }
}

/// The decimal digits of `n`, most significant first.
fn u64_dec_chars(n: u64) -> (r: Vec<char>)
    ensures
        r@ == dec_digits(n as int),
    decreases n,
{
    if n < 10 {
        let mut v: Vec<char> = Vec::new();
        v.push(digit_exec(n as usize));
        proof {
            assert(v@ =~= seq![crate::text::digit_char(n as int)]);
        }
        v
    } else {
        let mut v = u64_dec_chars(n / 10);
        v.push(digit_exec((n % 10) as usize));
        v
    }
}

/// The decimal text of an i64.
fn int_to_text(i: i64) -> (r: String)
    ensures
        r@ == int_chars(i as int),
{
    if i < 0 {
        let mag: u64 = if i == i64::MIN {
            9223372036854775808
        } else {
            (-i) as u64
        };
        proof {
            assert(mag as int == -(i as int));
        }
        let digits = u64_dec_chars(mag);
        let ds = chars_to_string(&digits);
        let mut s = String::from_str("-");
        s.append(ds.as_str());
        proof {
            reveal_strlit("-");
            assert(s@ =~= seq!['-'] + dec_digits(-(i as int)));
        }
        s
    } else {
        let digits = u64_dec_chars(i as u64);
        chars_to_string(&digits)
    }
}

impl Value {
    /// The display text of this value, as `spec_value_text` says.
    pub fn to_text(&self) -> (r: String)
        ensures
            r@ == spec_value_text(self@),
    {
        match self {
            Value::Undefined => String::new(),
            Value::Integer(i) => int_to_text(*i),
            Value::Str(s) => {
                let mut out = String::from_str("'");
                out.append(s.as_str());
                out.append("'");
                proof {
                    reveal_strlit("'");
                    assert(out@ =~= seq!['\''] + s@ + seq!['\'']);
                }
                out
            },
            Value::Float(t) => t.clone(),
            Value::Boolean(b) => {
                let r = if *b {
                    String::from_str("T")
                } else {
                    String::from_str("F")
                };
                proof {
                    reveal_strlit("T");
                    reveal_strlit("F");
                    assert(r@ =~= spec_value_text(self@));
                }
                r
            },
        }
    }

    /// Parse the trimmed raw value field of a value card into a typed
    /// scalar, dropping the inline comment.
    pub fn from_str(value: &str) -> (r: Result<Value, Error>)
        ensures
            match spec_parse_value(value@) {
                Ok((v, _c)) => r is Ok && r->Ok_0@ == v,
                Err(_) => r is Err && r->Err_0@ == ErrorModel::UnsupportedLiteral,
            },
    {
        match parse_keyword(value) {
            Ok((v, _c)) => Ok(v),
            Err(e) => Err(e),
        }
    }

    pub fn is_undefined(&self) -> (r: bool)
        ensures
            r == (self@ is Undefined),
    {
        matches!(self, Value::Undefined)
    }

    pub fn is_float(&self) -> (r: bool)
        ensures
            r == (self@ is Float),
    {
        matches!(self, Value::Float(_))
    }

    pub fn is_boolean(&self) -> (r: bool)
        ensures
            r == (self@ is Boolean),
    {
        matches!(self, Value::Boolean(_))
    }

    pub fn is_integer(&self) -> (r: bool)
        ensures
            r == (self@ is Integer),
    {
        matches!(self, Value::Integer(_))
    }

    pub fn is_str(&self) -> (r: bool)
        ensures
            r == (self@ is Str),
    {
        matches!(self, Value::Str(_))
    }
}

} // verus!
