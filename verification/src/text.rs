//! Sequence-scanning helpers shared by the card and value parsers: trimming
//! of padding, first-occurrence search, and the quote-doubling scan used by
//! string values, each with its mathematical definition.

use vstd::prelude::*;

verus! {

/// `s` with every leading `sp` element removed.
pub open spec fn trim_start<T>(s: Seq<T>, sp: T) -> Seq<T>
    decreases s.len(),
{
    if s.len() > 0 && s[0] == sp {
        trim_start(s.drop_first(), sp)
    } else {
        s
    }
}

/// `s` with every trailing `sp` element removed.
pub open spec fn trim_end<T>(s: Seq<T>, sp: T) -> Seq<T>
    decreases s.len(),
{
    if s.len() > 0 && s.last() == sp {
        trim_end(s.drop_last(), sp)
    } else {
        s
    }
}

/// `s` with leading and trailing `sp` elements removed.
pub open spec fn spec_trim<T>(s: Seq<T>, sp: T) -> Seq<T> {
    trim_end(trim_start(s, sp), sp)
}

/// Index of the first occurrence of `c` in `s`, if any.
pub open spec fn find_first(s: Seq<char>, c: char) -> Option<int>
    decreases s.len(),
{
    if s.len() == 0 {
        None
    } else if s[0] == c {
        Some(0)
    } else {
        match find_first(s.drop_first(), c) {
            Some(k) => Some(k + 1),
            None => None,
        }
    }
}

/// Index at which the scan for a closing quote stops, starting from `i`:
/// a doubled quote is skipped, the first lone quote closes, and an
/// unterminated value stops at `s.len()`.
pub open spec fn spec_close<T>(s: Seq<T>, q: T, i: int) -> int
    decreases s.len() - i,
{
    if i < 0 || i >= s.len() {
        s.len() as int
    } else if s[i] == q {
        if i + 1 < s.len() && s[i + 1] == q {
            spec_close(s, q, i + 2)
        } else {
            i
        }
    } else {
        spec_close(s, q, i + 1)
    }
}

/// The scanned text with each doubled quote collapsed to one literal quote.
pub open spec fn spec_unescape<T>(s: Seq<T>, q: T) -> Seq<T>
    decreases s.len(),
{
    if s.len() == 0 {
        Seq::empty()
    } else if s.len() >= 2 && s[0] == q && s[1] == q {
        seq![s[0]] + spec_unescape(s.skip(2), q)
    } else {
        seq![s[0]] + spec_unescape(s.skip(1), q)
    }
}

/// If the first `i` elements of `s` are `sp` and element `i` (when present)
/// is not, then trimming the start of `s` keeps exactly the tail from `i`.
pub proof fn lemma_trim_start_at<T>(s: Seq<T>, sp: T, i: int)
    requires
        0 <= i <= s.len(),
        forall|k: int| 0 <= k < i ==> s[k] == sp,
        i == s.len() || s[i] != sp,
    ensures
        trim_start(s, sp) == s.subrange(i, s.len() as int),
    decreases i,
{
    if i == 0 {
        assert(s.subrange(0, s.len() as int) =~= s);
    } else {
        let t = s.drop_first();
        lemma_trim_start_at(t, sp, i - 1);
        assert(t.subrange(i - 1, t.len() as int) =~= s.subrange(i, s.len() as int));
    }
}

/// If every element of `s` from `j` on is `sp` and element `j - 1` (when
/// present) is not, then trimming the end of `s` keeps exactly the first `j`.
pub proof fn lemma_trim_end_at<T>(s: Seq<T>, sp: T, j: int)
    requires
        0 <= j <= s.len(),
        forall|k: int| j <= k < s.len() ==> s[k] == sp,
        j == 0 || s[j - 1] != sp,
    ensures
        trim_end(s, sp) == s.subrange(0, j),
    decreases s.len() - j,
{
    if j == s.len() {
        if s.len() > 0 && s.last() == sp {
            assert(s[s.len() - 1] != sp);
        }
        assert(s.subrange(0, s.len() as int) =~= s);
    } else {
        let t = s.drop_last();
        lemma_trim_end_at(t, sp, j);
        assert(t.subrange(0, j) =~= s.subrange(0, j));
    }
}

/// The character of a decimal digit.
pub open spec fn digit_char(d: int) -> char {
    (48 + d) as char
}

/// The decimal digits of `n`, most significant first.
pub open spec fn dec_digits(n: int) -> Seq<char>
    decreases n,
{
    if n < 10 {
        seq![digit_char(n)]
    } else {
        dec_digits(n / 10).push(digit_char(n % 10))
    }
}

/// The character of one decimal digit.
pub fn digit_exec(d: usize) -> (c: char)
    requires
        d < 10,
    ensures
        c == digit_char(d as int),
{
    ((48 + d) as u8) as char
}

/// A fresh vector holding `v[from..to]`.
pub fn bytes_range(v: &Vec<u8>, from: usize, to: usize) -> (r: Vec<u8>)
    requires
        from <= to <= v@.len(),
    ensures
        r@ == v@.subrange(from as int, to as int),
{
    let mut r: Vec<u8> = Vec::new();
    let mut i: usize = from;
    while i < to
        invariant
            from <= i <= to <= v@.len(),
            r@ == v@.subrange(from as int, i as int),
        decreases to - i,
    {
        r.push(v[i]);
        i = i + 1;
        proof {
            assert(v@.subrange(from as int, i as int) =~= v@.subrange(
                from as int,
                i - 1,
            ).push(v@[i - 1]));
        }
    }
    r
}

/// `v[from..to]` with surrounding space bytes removed.
pub fn trim_bytes(v: &Vec<u8>, from: usize, to: usize) -> (r: Vec<u8>)
    requires
        from <= to <= v@.len(),
    ensures
        r@ == spec_trim(v@.subrange(from as int, to as int), 32u8),
{
    let mut a: usize = from;
    while a < to && v[a] == 32
        invariant
            from <= a <= to <= v@.len(),
            forall|k: int| from <= k < a ==> v@[k] == 32u8,
        decreases to - a,
    {
        a = a + 1;
    }
    let mut b: usize = to;
    while b > a && v[b - 1] == 32
        invariant
            a <= b <= to <= v@.len(),
            forall|k: int| b <= k < to ==> v@[k] == 32u8,
        decreases b,
    {
        b = b - 1;
    }
    proof {
        let s = v@.subrange(from as int, to as int);
        lemma_trim_start_at(s, 32u8, a - from);
        let s1 = s.subrange(a - from, s.len() as int);
        assert(s1 =~= v@.subrange(a as int, to as int));
        lemma_trim_end_at(s1, 32u8, b - a);
        assert(s1.subrange(0, b - a) =~= v@.subrange(a as int, b as int));
    }
    bytes_range(v, a, b)
}

/// The bytes of `s`, each read as the character with the same code.
pub open spec fn chars_of(s: Seq<u8>) -> Seq<char> {
    s.map_values(|b: u8| b as char)
}

/// Each byte of `v` as the character with the same code.
pub fn bytes_to_chars(v: &Vec<u8>) -> (r: Vec<char>)
    ensures
        r@ == chars_of(v@),
{
    let mut r: Vec<char> = Vec::new();
    let mut i: usize = 0;
    while i < v.len()
        invariant
            0 <= i <= v@.len(),
            r@ == chars_of(v@.subrange(0, i as int)),
        decreases v@.len() - i,
    {
        r.push(v[i] as char);
        i = i + 1;
        proof {
            assert(chars_of(v@.subrange(0, i as int)) =~= chars_of(
                v@.subrange(0, i - 1),
            ).push(v@[i - 1] as char));
        }
    }
    proof {
        assert(v@.subrange(0, v@.len() as int) =~= v@);
    }
    r
}

/// Relies on `String`'s `FromIterator` over `char`: the collected string
/// holds exactly the given characters, in order.
#[verifier::external_body]
pub fn chars_to_string(v: &Vec<char>) -> (r: String)
    ensures
        r@ == v@,
{
    v.iter().collect()
}

/// The characters of `s` as a vector.
pub fn str_chars(s: &str) -> (r: Vec<char>)
    ensures
        r@ == s@,
{
    let n = s.unicode_len();
    let mut r: Vec<char> = Vec::new();
    let mut i: usize = 0;
    while i < n
        invariant
            0 <= i <= n,
            n == s@.len(),
            r@ == s@.subrange(0, i as int),
        decreases n - i,
    {
        r.push(s.get_char(i));
        i = i + 1;
        proof {
            assert(s@.subrange(0, i as int) =~= s@.subrange(0, i - 1).push(s@[i - 1]));
        }
    }
    proof {
        assert(s@.subrange(0, s@.len() as int) =~= s@);
    }
    r
}

/// `v[from..to]` with surrounding spaces removed.
pub fn trim_chars(v: &Vec<char>, from: usize, to: usize) -> (r: Vec<char>)
    requires
        from <= to <= v@.len(),
    ensures
        r@ == spec_trim(v@.subrange(from as int, to as int), ' '),
{
    let mut a: usize = from;
    while a < to && v[a] == ' '
        invariant
            from <= a <= to <= v@.len(),
            forall|k: int| from <= k < a ==> v@[k] == ' ',
        decreases to - a,
    {
        a = a + 1;
    }
    let mut b: usize = to;
    while b > a && v[b - 1] == ' '
        invariant
            a <= b <= to <= v@.len(),
            forall|k: int| b <= k < to ==> v@[k] == ' ',
        decreases b,
    {
        b = b - 1;
    }
    proof {
        let s = v@.subrange(from as int, to as int);
        lemma_trim_start_at(s, ' ', a - from);
        let s1 = s.subrange(a - from, s.len() as int);
        assert(s1 =~= v@.subrange(a as int, to as int));
        lemma_trim_end_at(s1, ' ', b - a);
        assert(s1.subrange(0, b - a) =~= v@.subrange(a as int, b as int));
    }
    let mut r: Vec<char> = Vec::new();
    let mut i: usize = a;
    while i < b
        invariant
            a <= i <= b <= v@.len(),
            r@ == v@.subrange(a as int, i as int),
        decreases b - i,
    {
        r.push(v[i]);
        i = i + 1;
        proof {
            assert(v@.subrange(a as int, i as int) =~= v@.subrange(a as int, i - 1).push(
                v@[i - 1],
            ));
        }
    }
    r
}

} // verus!
