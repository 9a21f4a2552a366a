//! Character-level building blocks of the format: decimal numerals, the
//! integer and float literal grammars, and string construction.

use vstd::prelude::*;

verus! {

// ---------------------------------------------------------------------------
// Digits and decimal values
// ---------------------------------------------------------------------------

pub open spec fn is_digit(c: char) -> bool {
    '0' <= c && c <= '9'
}

pub open spec fn digit_value(c: char) -> nat {
    (c as int - '0' as int) as nat
}

pub open spec fn all_digits(s: Seq<char>) -> bool {
    forall|i: int| 0 <= i < s.len() ==> is_digit(#[trigger] s[i])
}

/// The value of a sequence of decimal digits, most significant first.
pub open spec fn digits_value(s: Seq<char>) -> nat
    decreases s.len(),
{
    if s.len() == 0 {
        0
    } else {
        digits_value(s.drop_last()) * 10 + digit_value(s.last())
    }
}

/// The character of a decimal digit `d < 10`.
pub open spec fn digit_char(d: nat) -> char {
    ('0' as int + d) as char
}

/// The decimal numeral of `n`, without leading zeros.
pub open spec fn decimal(n: nat) -> Seq<char>
    decreases n,
{
    if n < 10 {
        seq![digit_char(n)]
    } else {
        decimal(n / 10).push(digit_char(n % 10))
    }
}

/// The decimal numeral of a signed integer: a `-` before the magnitude of a
/// negative number.
pub open spec fn signed_decimal(n: int) -> Seq<char> {
    if n < 0 {
        seq!['-'] + decimal((-n) as nat)
    } else {
        decimal(n as nat)
    }
}

pub proof fn lemma_digits_prefix_le(s: Seq<char>, k: int)
    requires
        all_digits(s),
        0 <= k <= s.len(),
    ensures
        digits_value(s.take(k)) <= digits_value(s),
    decreases s.len() - k,
{
    if k < s.len() {
        lemma_digits_prefix_le(s, k + 1);
        assert(s.take(k + 1).drop_last() =~= s.take(k));
        assert(digits_value(s.take(k + 1)) == digits_value(s.take(k)) * 10 + digit_value(
            s.take(k + 1).last(),
        ));
    } else {
        assert(s.take(k) =~= s);
    }
}

pub proof fn lemma_digit_char(d: nat)
    requires
        d < 10,
    ensures
        is_digit(digit_char(d)),
        digit_value(digit_char(d)) == d,
{
}

pub proof fn lemma_decimal(n: nat)
    ensures
        decimal(n).len() > 0,
        all_digits(decimal(n)),
        digits_value(decimal(n)) == n,
    decreases n,
{
    lemma_digit_char(n % 10);
    if n < 10 {
        let d = decimal(n);
        assert(d.drop_last() =~= Seq::<char>::empty());
        assert(n % 10 == n);
        assert(digits_value(d) == digits_value(d.drop_last()) * 10 + digit_value(d.last()));
    } else {
        lemma_decimal(n / 10);
        let d = decimal(n);
        assert(d.drop_last() =~= decimal(n / 10));
        assert forall|i: int| 0 <= i < d.len() implies is_digit(#[trigger] d[i]) by {
            if i < d.len() - 1 {
                assert(d[i] == decimal(n / 10)[i]);
            }
        }
        assert(d.last() == digit_char(n % 10));
        assert(digits_value(d) == digits_value(d.drop_last()) * 10 + digit_value(d.last()));
        assert(n == (n / 10) * 10 + n % 10);
    }
}

// ---------------------------------------------------------------------------
// Integer grammars: an optional sign, then one or more decimal digits
// ---------------------------------------------------------------------------

/// The length of a leading `+` or `-`, if there is one.
pub open spec fn sign_len(s: Seq<char>) -> int {
    if s.len() > 0 && (s[0] == '+' || s[0] == '-') {
        1
    } else {
        0
    }
}

/// A run of one or more digits whose value is at most `limit`.
pub open spec fn magnitude(ds: Seq<char>, limit: nat) -> Option<nat> {
    if ds.len() > 0 && all_digits(ds) && digits_value(ds) <= limit {
        Some(digits_value(ds))
    } else {
        None
    }
}

/// What `i64::from_str` gives: an optional `+` or `-` followed by digits,
/// whose value lies in the range of `i64`.
pub open spec fn spec_parse_i64(s: Seq<char>) -> Option<i64> {
    let neg = s.len() > 0 && s[0] == '-';
    let ds = s.subrange(sign_len(s), s.len() as int);
    let limit: nat = if neg { 0x8000_0000_0000_0000 } else { 0x7fff_ffff_ffff_ffff };
    match magnitude(ds, limit) {
        Some(m) => Some((if neg { -m } else { m as int }) as i64),
        None => None,
    }
}

/// What `u32::from_str` gives: an optional `+` followed by digits whose
/// value is at most `u32::MAX`.
pub open spec fn spec_parse_u32(s: Seq<char>) -> Option<u32> {
    let start: int = if s.len() > 0 && s[0] == '+' { 1 } else { 0 };
    match magnitude(s.subrange(start, s.len() as int), 0xffff_ffff) {
        Some(m) => Some(m as u32),
        None => None,
    }
}

proof fn lemma_digit_step(s: Seq<char>, start: int, i: int)
    requires
        0 <= start <= i < s.len(),
    ensures
        s.subrange(start, i + 1).drop_last() =~= s.subrange(start, i),
        s.subrange(start, i + 1).last() == s[i],
{
}

/// Reads the digits `s[start..]` as a number no greater than `limit`.
fn parse_magnitude(s: &Vec<char>, start: usize, limit: u64) -> (r: Option<u64>)
    requires
        start <= s.len(),
    ensures
        r == (match magnitude(s@.subrange(start as int, s.len() as int), limit as nat) {
            Some(m) => Some(m as u64),
            None => None::<u64>,
        }),
{
    let ghost ds = s@.subrange(start as int, s.len() as int);
    if start == s.len() {
        return None;
    }
    let mut v: u64 = 0;
    let mut i: usize = start;
    while i < s.len()
        invariant
            start <= i <= s.len(),
            start < s.len(),
            ds == s@.subrange(start as int, s.len() as int),
            all_digits(s@.subrange(start as int, i as int)),
            v as nat == digits_value(s@.subrange(start as int, i as int)),
            v <= limit,
        decreases s.len() - i,
    {
        let c = s[i];
        proof {
            lemma_digit_step(s@, start as int, i as int);
        }
        if !('0' <= c && c <= '9') {
            assert(ds[i - start] == c);
            return None;
        }
        let d: u64 = (c as u32 - '0' as u32) as u64;
        let nv: u128 = v as u128 * 10 + d as u128;
        proof {
            assert(v as u128 * 10 + d as u128 <= 0xffff_ffff_ffff_ffff * 10 + 9) by (nonlinear_arith)
                requires
                    v <= 0xffff_ffff_ffff_ffffu64,
                    d <= 9,
            ;
            assert(all_digits(s@.subrange(start as int, i + 1)));
        }
        if nv > limit as u128 {
            proof {
                assert(all_digits(ds) ==> digits_value(ds) > limit) by {
                    if all_digits(ds) {
                        lemma_digits_prefix_le(ds, i + 1 - start);
                        assert(ds.take(i + 1 - start) =~= s@.subrange(start as int, i + 1));
                    }
                }
            }
            return None;
        }
        v = nv as u64;
        i = i + 1;
    }
    assert(s@.subrange(start as int, i as int) =~= ds);
    Some(v)
}

/// Reads a signed 64-bit integer as `i64::from_str` does.
pub fn parse_i64(s: &Vec<char>) -> (r: Option<i64>)
    ensures
        r == spec_parse_i64(s@),
{
    let neg = s.len() > 0 && s[0] == '-';
    let start: usize = if s.len() > 0 && (s[0] == '+' || s[0] == '-') {
        1
    } else {
        0
    };
    let limit: u64 = if neg {
        0x8000_0000_0000_0000
    } else {
        0x7fff_ffff_ffff_ffff
    };
    match parse_magnitude(s, start, limit) {
        None => None,
        Some(m) => {
            if neg {
                if m == 0x8000_0000_0000_0000 {
                    Some(i64::MIN)
                } else {
                    Some(-(m as i64))
                }
            } else {
                Some(m as i64)
            }
        },
    }
}

/// Reads an unsigned 32-bit integer as `u32::from_str` does.
pub fn parse_u32(s: &Vec<char>) -> (r: Option<u32>)
    ensures
        r == spec_parse_u32(s@),
{
    let start: usize = if s.len() > 0 && s[0] == '+' {
        1
    } else {
        0
    };
    match parse_magnitude(s, start, 0xffff_ffff) {
        None => None,
        Some(m) => Some(m as u32),
    }
}


pub proof fn lemma_parse_signed_decimal(n: i64)
    ensures
        spec_parse_i64(signed_decimal(n as int)) == Some(n),
{
    let t = signed_decimal(n as int);
    if n < 0 {
        let m = (-(n as int)) as nat;
        lemma_decimal(m);
        assert(t.subrange(sign_len(t), t.len() as int) =~= decimal(m));
    } else {
        lemma_decimal(n as nat);
        assert(decimal(n as nat)[0] != '-' && decimal(n as nat)[0] != '+') by {
            assert(is_digit(decimal(n as nat)[0]));
        }
        assert(t.subrange(sign_len(t), t.len() as int) =~= t);
    }
}

pub proof fn lemma_parse_decimal_u32(n: u32)
    ensures
        spec_parse_u32(decimal(n as nat)) == Some(n),
{
    let t = decimal(n as nat);
    lemma_decimal(n as nat);
    assert(is_digit(t[0]));
    assert(t.subrange(0, t.len() as int) =~= t);
}

// ---------------------------------------------------------------------------
// The float grammar of `f64::from_str`
// ---------------------------------------------------------------------------
//
//   Float    ::= Sign? ( 'inf' | 'infinity' | 'nan' | Number )
//   Number   ::= ( Digit+ | Digit+ '.' Digit* | Digit* '.' Digit+ ) Exp?
//   Exp      ::= 'e' Sign? Digit+
//   Sign     ::= [+-]
//   Digit    ::= [0-9]
//
// Letters match without regard to ASCII case.

/// `s` spells a word, ignoring ASCII case: `lower` is the word in lowercase
/// letters, `upper` the same word in uppercase.
pub open spec fn ci_word(s: Seq<char>, lower: Seq<char>, upper: Seq<char>) -> bool {
    &&& s.len() == lower.len()
    &&& s.len() == upper.len()
    &&& forall|i: int| 0 <= i < s.len() ==> #[trigger] s[i] == lower[i] || s[i] == upper[i]
}

pub open spec fn is_exp_mark(c: char) -> bool {
    c == 'e' || c == 'E'
}

/// `Digit+ | Digit+ '.' Digit* | Digit* '.' Digit+`
pub open spec fn is_mantissa(m: Seq<char>) -> bool {
    ||| m.len() > 0 && all_digits(m)
    ||| exists|k: int|
        0 <= k < m.len() && #[trigger] m[k] == '.' && all_digits(m.take(k)) && all_digits(
            m.skip(k + 1),
        ) && m.len() > 1
}

/// `Sign? Digit+`, the part of an exponent after its mark.
pub open spec fn is_exp_tail(t: Seq<char>) -> bool {
    let u = t.skip(sign_len(t));
    u.len() > 0 && all_digits(u)
}

/// `Number`
pub open spec fn is_number(b: Seq<char>) -> bool {
    ||| is_mantissa(b)
    ||| exists|k: int|
        0 <= k < b.len() && is_exp_mark(#[trigger] b[k]) && is_mantissa(b.take(k)) && is_exp_tail(
            b.skip(k + 1),
        )
}

/// `Float`: the strings that `f64::from_str` accepts.
pub open spec fn is_float_literal(s: Seq<char>) -> bool {
    let b = s.skip(sign_len(s));
    ||| ci_word(b, seq!['i', 'n', 'f'], seq!['I', 'N', 'F'])
    ||| ci_word(
        b,
        seq!['i', 'n', 'f', 'i', 'n', 'i', 't', 'y'],
        seq!['I', 'N', 'F', 'I', 'N', 'I', 'T', 'Y'],
    )
    ||| ci_word(b, seq!['n', 'a', 'n'], seq!['N', 'A', 'N'])
    ||| is_number(b)
}

/// The characters that a float literal can hold.
pub open spec fn float_char(c: char) -> bool {
    is_digit(c) || c == '.' || c == '+' || c == '-' || c == 'e' || c == 'E' || c == 'i' || c
        == 'I' || c == 'n' || c == 'N' || c == 'f' || c == 'F' || c == 't' || c == 'T' || c == 'y'
        || c == 'Y' || c == 'a' || c == 'A'
}

proof fn lemma_mantissa_float_chars(m: Seq<char>)
    requires
        is_mantissa(m),
    ensures
        forall|i: int| 0 <= i < m.len() ==> float_char(#[trigger] m[i]),
{
    if !(m.len() > 0 && all_digits(m)) {
        let k = choose|k: int|
            0 <= k < m.len() && #[trigger] m[k] == '.' && all_digits(m.take(k)) && all_digits(
                m.skip(k + 1),
            ) && m.len() > 1;
        assert forall|i: int| 0 <= i < m.len() implies float_char(#[trigger] m[i]) by {
            if i < k {
                assert(m[i] == m.take(k)[i]);
            } else if i > k {
                assert(m[i] == m.skip(k + 1)[i - k - 1]);
            }
        }
    }
}

/// A float literal is not empty and holds only digits, signs, `.` and the
/// letters of an exponent, `inf`, `infinity` and `nan`.
pub proof fn lemma_float_literal_chars(s: Seq<char>)
    requires
        is_float_literal(s),
    ensures
        s.len() > 0,
        forall|i: int| 0 <= i < s.len() ==> float_char(#[trigger] s[i]),
{
    let n = sign_len(s);
    let b = s.skip(n);
    assert(forall|i: int| 0 <= i < b.len() ==> float_char(#[trigger] b[i])) by {
        if is_mantissa(b) {
            lemma_mantissa_float_chars(b);
        } else if is_number(b) {
            let k = choose|k: int|
                0 <= k < b.len() && is_exp_mark(#[trigger] b[k]) && is_mantissa(b.take(k))
                    && is_exp_tail(b.skip(k + 1));
            lemma_mantissa_float_chars(b.take(k));
            let t = b.skip(k + 1);
            let u = t.skip(sign_len(t));
            assert forall|i: int| 0 <= i < b.len() implies float_char(#[trigger] b[i]) by {
                if i < k {
                    assert(b[i] == b.take(k)[i]);
                } else if i > k {
                    if i - k - 1 >= sign_len(t) {
                        assert(b[i] == u[i - k - 1 - sign_len(t)]);
                    }
                }
            }
        }
    }
    assert(b.len() > 0) by {
        if is_mantissa(b) {
        }
    }
    assert forall|i: int| 0 <= i < s.len() implies float_char(#[trigger] s[i]) by {
        if i >= n {
            assert(s[i] == b[i - n]);
        }
    }
}

fn digits_between(s: &Vec<char>, from: usize, to: usize) -> (r: bool)
    requires
        from <= to <= s.len(),
    ensures
        r == all_digits(s@.subrange(from as int, to as int)),
{
    let mut i = from;
    while i < to
        invariant
            from <= i <= to <= s.len(),
            all_digits(s@.subrange(from as int, i as int)),
        decreases to - i,
    {
        if !('0' <= s[i] && s[i] <= '9') {
            assert(s@.subrange(from as int, to as int)[i - from] == s[i as int]);
            return false;
        }
        assert(all_digits(s@.subrange(from as int, i + 1))) by {
            assert forall|j: int| 0 <= j < i + 1 - from implies is_digit(
                #[trigger] s@.subrange(from as int, i + 1)[j],
            ) by {
                if j < i - from {
                    assert(s@.subrange(from as int, i + 1)[j] == s@.subrange(
                        from as int,
                        i as int,
                    )[j]);
                }
            }
        }
        i = i + 1;
    }
    true
}

/// The index of the first `target` in `s[from..to]`, or `to` if there is none.
fn find_char(s: &Vec<char>, from: usize, to: usize, target: char, alt: char) -> (r: usize)
    requires
        from <= to <= s.len(),
    ensures
        from <= r <= to,
        r < to ==> (s@[r as int] == target || s@[r as int] == alt),
        forall|j: int| from <= j < r ==> s@[j] != target && s@[j] != alt,
{
    let mut i = from;
    while i < to
        invariant
            from <= i <= to <= s.len(),
            forall|j: int| from <= j < i ==> s@[j] != target && s@[j] != alt,
        decreases to - i,
    {
        if s[i] == target || s[i] == alt {
            return i;
        }
        i = i + 1;
    }
    i
}

fn is_mantissa_at(s: &Vec<char>, from: usize, to: usize) -> (r: bool)
    requires
        from <= to <= s.len(),
    ensures
        r == is_mantissa(s@.subrange(from as int, to as int)),
{
    let ghost m = s@.subrange(from as int, to as int);
    let dot = find_char(s, from, to, '.', '.');
    if dot == to {
        let r = from < to && digits_between(s, from, to);
        proof {
            assert forall|k: int| 0 <= k < m.len() implies #[trigger] m[k] != '.' by {
                assert(m[k] == s@[from + k]);
            }
        }
        r
    } else {
        let before = digits_between(s, from, dot);
        let after = digits_between(s, dot + 1, to);
        let r = before && after && to - from > 1;
        proof {
            let k = dot - from;
            assert(m[k] == '.');
            assert(m.take(k) =~= s@.subrange(from as int, dot as int));
            assert(m.skip(k + 1) =~= s@.subrange(dot + 1, to as int));
            assert(!all_digits(m)) by {
                assert(!is_digit(m[k]));
            }
            assert forall|k2: int|
                0 <= k2 < m.len() && #[trigger] m[k2] == '.' && all_digits(m.take(k2))
                    && all_digits(m.skip(k2 + 1)) implies k2 == k by {
                if k2 > k {
                    assert(m.take(k2)[k] == '.');
                } else if k2 < k {
                    assert(m[k2] == s@[from + k2]);
                }
            }
        }
        r
    }
}

fn is_exp_tail_at(s: &Vec<char>, from: usize, to: usize) -> (r: bool)
    requires
        from <= to <= s.len(),
    ensures
        r == is_exp_tail(s@.subrange(from as int, to as int)),
{
    let ghost t = s@.subrange(from as int, to as int);
    let start = if from < to && (s[from] == '+' || s[from] == '-') {
        from + 1
    } else {
        from
    };
    assert(t.skip(sign_len(t)) =~= s@.subrange(start as int, to as int));
    start < to && digits_between(s, start, to)
}

fn is_number_at(s: &Vec<char>, from: usize) -> (r: bool)
    requires
        from <= s.len(),
    ensures
        r == is_number(s@.subrange(from as int, s.len() as int)),
{
    let ghost b = s@.subrange(from as int, s.len() as int);
    let to = s.len();
    let e = find_char(s, from, to, 'e', 'E');
    if e == to {
        let r = is_mantissa_at(s, from, to);
        proof {
            assert forall|k: int| 0 <= k < b.len() implies !is_exp_mark(#[trigger] b[k]) by {
                assert(b[k] == s@[from + k]);
            }
        }
        r
    } else {
        let m = is_mantissa_at(s, from, e);
        let t = is_exp_tail_at(s, e + 1, to);
        proof {
            let k = e - from;
            assert(is_exp_mark(b[k]));
            assert(b.take(k) =~= s@.subrange(from as int, e as int));
            assert(b.skip(k + 1) =~= s@.subrange(e + 1, to as int));
            assert(!is_mantissa(b)) by {
                assert(!is_digit(b[k]));
                assert(b[k] != '.');
                if exists|k2: int|
                    0 <= k2 < b.len() && #[trigger] b[k2] == '.' && all_digits(b.take(k2))
                        && all_digits(b.skip(k2 + 1)) && b.len() > 1 {
                    let k2 = choose|k2: int|
                        0 <= k2 < b.len() && #[trigger] b[k2] == '.' && all_digits(b.take(k2))
                            && all_digits(b.skip(k2 + 1)) && b.len() > 1;
                    if k < k2 {
                        assert(b.take(k2)[k] == b[k]);
                    } else {
                        assert(b.skip(k2 + 1)[k - k2 - 1] == b[k]);
                    }
                }
                if b.len() > 0 && all_digits(b) {
                    assert(is_digit(b[k]));
                }
            }
            assert forall|k2: int|
                0 <= k2 < b.len() && is_exp_mark(#[trigger] b[k2]) && is_mantissa(b.take(k2))
                    && is_exp_tail(b.skip(k2 + 1)) implies k2 == k by {
                if k2 > k {
                    let pre = b.take(k2);
                    assert(pre[k] == b[k]);
                    assert(!is_digit(pre[k]) && pre[k] != '.');
                    if exists|k3: int|
                        0 <= k3 < pre.len() && #[trigger] pre[k3] == '.' && all_digits(
                            pre.take(k3),
                        ) && all_digits(pre.skip(k3 + 1)) && pre.len() > 1 {
                        let k3 = choose|k3: int|
                            0 <= k3 < pre.len() && #[trigger] pre[k3] == '.' && all_digits(
                                pre.take(k3),
                            ) && all_digits(pre.skip(k3 + 1)) && pre.len() > 1;
                        if k < k3 {
                            assert(pre.take(k3)[k] == pre[k]);
                        } else {
                            assert(pre.skip(k3 + 1)[k - k3 - 1] == pre[k]);
                        }
                    }
                    if pre.len() > 0 && all_digits(pre) {
                        assert(is_digit(pre[k]));
                    }
                } else if k2 < k {
                    assert(b[k2] == s@[from + k2]);
                }
            }
        }
        m && t
    }
}

fn ci_word_at(s: &Vec<char>, from: usize, lower: &Vec<char>, upper: &Vec<char>) -> (r: bool)
    requires
        from <= s.len(),
        lower.len() == upper.len(),
    ensures
        r == ci_word(s@.subrange(from as int, s.len() as int), lower@, upper@),
{
    let ghost b = s@.subrange(from as int, s.len() as int);
    if s.len() - from != lower.len() {
        return false;
    }
    let mut i: usize = 0;
    while i < lower.len()
        invariant
            from + lower.len() == s.len(),
            lower.len() == upper.len(),
            b == s@.subrange(from as int, s.len() as int),
            0 <= i <= lower.len(),
            forall|j: int| 0 <= j < i ==> #[trigger] b[j] == lower@[j] || b[j] == upper@[j],
        decreases lower.len() - i,
    {
        let c = s[from + i];
        assert(b[i as int] == c);
        if !(c == lower[i] || c == upper[i]) {
            return false;
        }
        i = i + 1;
    }
    true
}

/// Tells whether `s` is a float literal that `f64::from_str` accepts.
pub fn is_float_text(s: &Vec<char>) -> (r: bool)
    ensures
        r == is_float_literal(s@),
{
    let from: usize = if s.len() > 0 && (s[0] == '+' || s[0] == '-') {
        1
    } else {
        0
    };
    proof {
        assert(s@.skip(sign_len(s@)) =~= s@.subrange(from as int, s.len() as int));
    }
    let inf = vec!['i', 'n', 'f'];
    let inf_u = vec!['I', 'N', 'F'];
    let infinity = vec!['i', 'n', 'f', 'i', 'n', 'i', 't', 'y'];
    let infinity_u = vec!['I', 'N', 'F', 'I', 'N', 'I', 'T', 'Y'];
    let nan = vec!['n', 'a', 'n'];
    let nan_u = vec!['N', 'A', 'N'];
    proof {
        assert(inf@ =~= seq!['i', 'n', 'f']);
        assert(inf_u@ =~= seq!['I', 'N', 'F']);
        assert(infinity@ =~= seq!['i', 'n', 'f', 'i', 'n', 'i', 't', 'y']);
        assert(infinity_u@ =~= seq!['I', 'N', 'F', 'I', 'N', 'I', 'T', 'Y']);
        assert(nan@ =~= seq!['n', 'a', 'n']);
        assert(nan_u@ =~= seq!['N', 'A', 'N']);
    }
    ci_word_at(s, from, &inf, &inf_u) || ci_word_at(s, from, &infinity, &infinity_u) || ci_word_at(
        s,
        from,
        &nan,
        &nan_u,
    ) || is_number_at(s, from)
}

// ---------------------------------------------------------------------------
// Building strings
// ---------------------------------------------------------------------------

/// `String::push`: appends one character.
#[verifier::external_body]
pub(crate) fn push_char(s: &mut String, c: char)
    ensures
        final(s)@ == old(s)@.push(c),
{
    s.push(c);
}

/// Appends a string slice.
pub(crate) fn push_str(s: &mut String, t: &str)
    ensures
        final(s)@ == old(s)@ + t@,
{
    s.append(t);
}

/// Appends the decimal numeral of `n`.
pub fn push_decimal(s: &mut String, n: u64)
    ensures
        final(s)@ == old(s)@ + decimal(n as nat),
    decreases n,
{
    if n >= 10 {
        push_decimal(s, n / 10);
    }
    let d = n % 10;
    let c = ((d as u8) + 48) as char;
    assert(c == digit_char(d as nat));
    push_char(s, c);
    assert(s@ =~= old(s)@ + decimal(n as nat));
}

/// Appends the decimal numeral of a signed integer.
pub fn push_signed_decimal(s: &mut String, n: i64)
    ensures
        final(s)@ == old(s)@ + signed_decimal(n as int),
{
    if n < 0 {
        push_char(s, '-');
        let m: u64 = if n == i64::MIN {
            0x8000_0000_0000_0000
        } else {
            (-n) as u64
        };
        push_decimal(s, m);
        assert(s@ =~= old(s)@ + signed_decimal(n as int));
    } else {
        push_decimal(s, n as u64);
    }
}

/// The characters of bytes read one by one, each byte taken as the
/// character with the same code point.
pub open spec fn latin1(bytes: Seq<u8>) -> Seq<char> {
    bytes.map_values(|b: u8| b as char)
}

/// Makes a `String` whose characters are `bytes` taken one by one.
pub fn latin1_string(bytes: &Vec<u8>) -> (r: String)
    ensures
        r@ == latin1(bytes@),
{
    let mut r = String::new();
    let mut i: usize = 0;
    while i < bytes.len()
        invariant
            0 <= i <= bytes.len(),
            r@ =~= latin1(bytes@.take(i as int)),
        decreases bytes.len() - i,
    {
        push_char(&mut r, bytes[i] as char);
        i = i + 1;
        assert(r@ =~= latin1(bytes@.take(i as int)));
    }
    assert(bytes@.take(i as int) =~= bytes@);
    r
}

/// The characters of a string, in order.
pub fn chars_of(s: &String) -> (v: Vec<char>)
    ensures
        v@ == s@,
{
    let mut v: Vec<char> = Vec::new();
    for c in it: s.chars()
        invariant
            v@ == it.seq().take(it.index() as int),
            it.seq() == s@,
    {
        v.push(c);
    }
    v
}

} // verus!
