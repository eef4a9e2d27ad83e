//! Byte-string helpers shared by the parsers, the catalog and the query
//! layer: ASCII case folding, whitespace trimming, decimal parsing and the
//! SQL-style `LIKE` pattern matcher (`%`, `_`, ASCII case-insensitive).

use vstd::prelude::*;

verus! {

/// ASCII whitespace, the bytes `str::trim` removes from ASCII text.
pub open spec fn is_ws(b: u8) -> bool {
    b == 32 || (9 <= b && b <= 13)
}

pub open spec fn ascii_lower(b: u8) -> u8 {
    if 65 <= b && b <= 90 {
        (b + 32) as u8
    } else {
        b
    }
}

pub open spec fn lower_seq(s: Seq<u8>) -> Seq<u8> {
    s.map_values(|b: u8| ascii_lower(b))
}

pub fn byte_is_ws(b: u8) -> (r: bool)
    ensures
        r == is_ws(b),
{
    b == 32 || (9 <= b && b <= 13)
}

pub fn byte_lower(b: u8) -> (r: u8)
    ensures
        r == ascii_lower(b),
{
    if 65 <= b && b <= 90 {
        b + 32
    } else {
        b
    }
}

pub fn to_lower(s: &[u8]) -> (r: Vec<u8>)
    ensures
        r@ == lower_seq(s@),
{
    let mut r: Vec<u8> = Vec::new();
    let mut i: usize = 0;
    while i < s.len()
        invariant
            i <= s.len(),
            r@ == lower_seq(s@.take(i as int)),
        decreases s.len() - i,
    {
        r.push(byte_lower(s[i]));
        proof {
            assert(lower_seq(s@.take(i + 1)) =~= lower_seq(s@.take(i as int)).push(
                ascii_lower(s@[i as int]),
            ));
        }
        i += 1;
    }
    proof {
        assert(s@.take(s@.len() as int) =~= s@);
    }
    r
}

pub open spec fn trim_start_spec(s: Seq<u8>) -> Seq<u8>
    decreases s.len(),
{
    if s.len() > 0 && is_ws(s[0]) {
        trim_start_spec(s.skip(1))
    } else {
        s
    }
}

pub open spec fn trim_end_spec(s: Seq<u8>) -> Seq<u8>
    decreases s.len(),
{
    if s.len() > 0 && is_ws(s.last()) {
        trim_end_spec(s.drop_last())
    } else {
        s
    }
}

/// The byte string with leading and trailing ASCII whitespace removed.
pub open spec fn trim_spec(s: Seq<u8>) -> Seq<u8> {
    trim_end_spec(trim_start_spec(s))
}

proof fn lemma_trim_start_skip(s: Seq<u8>, a: int)
    requires
        0 <= a <= s.len(),
        forall|k: int| 0 <= k < a ==> is_ws(#[trigger] s[k]),
    ensures
        trim_start_spec(s) == trim_start_spec(s.skip(a)),
    decreases a,
{
    if a > 0 {
        assert(s.skip(1).skip(a - 1) =~= s.skip(a));
        lemma_trim_start_skip(s.skip(1), a - 1);
    } else {
        assert(s.skip(0) =~= s);
    }
}

proof fn lemma_trim_end_take(s: Seq<u8>, b: int)
    requires
        0 <= b <= s.len(),
        forall|k: int| b <= k < s.len() ==> is_ws(#[trigger] s[k]),
    ensures
        trim_end_spec(s) == trim_end_spec(s.take(b)),
    decreases s.len() - b,
{
    if b < s.len() {
        assert(s.drop_last().take(b) =~= s.take(b));
        lemma_trim_end_take(s.drop_last(), b);
    } else {
        assert(s.take(s.len() as int) =~= s);
    }
}

pub fn trim_bytes(s: &[u8]) -> (r: Vec<u8>)
    ensures
        r@ == trim_spec(s@),
{
    let mut a: usize = 0;
    while a < s.len() && byte_is_ws(s[a])
        invariant
            a <= s.len(),
            forall|k: int| 0 <= k < a ==> is_ws(#[trigger] s@[k]),
        decreases s.len() - a,
    {
        a += 1;
    }
    proof {
        lemma_trim_start_skip(s@, a as int);
        if a < s.len() {
            assert(!is_ws(s@.skip(a as int)[0]));
        }
        assert(trim_start_spec(s@) == s@.skip(a as int));
    }
    let mut b: usize = s.len();
    while b > a && byte_is_ws(s[b - 1])
        invariant
            a <= b <= s.len(),
            forall|k: int| b <= k < s.len() ==> is_ws(#[trigger] s@[k]),
        decreases b,
    {
        b -= 1;
    }
    let ghost t = s@.skip(a as int);
    proof {
        assert(forall|k: int| b - a <= k < t.len() ==> is_ws(#[trigger] t[k]));
        lemma_trim_end_take(t, b - a);
        if b > a {
            assert(!is_ws(t.take(b - a).last()));
        }
        assert(trim_end_spec(t) == t.take(b - a));
    }
    let mut r: Vec<u8> = Vec::new();
    let mut i: usize = a;
    while i < b
        invariant
            a <= i <= b <= s.len(),
            r@ =~= s@.subrange(a as int, i as int),
        decreases b - i,
    {
        r.push(s[i]);
        i += 1;
    }
    proof {
        assert(s@.subrange(a as int, b as int) =~= t.take(b - a));
    }
    r
}

pub open spec fn is_digit(b: u8) -> bool {
    48 <= b && b <= 57
}

pub open spec fn all_digits(s: Seq<u8>) -> bool {
    forall|k: int| 0 <= k < s.len() ==> is_digit(#[trigger] s[k])
}

/// Value of a run of decimal digit bytes, most significant first.
pub open spec fn dec_val(s: Seq<u8>) -> int
    decreases s.len(),
{
    if s.len() == 0 {
        0
    } else {
        dec_val(s.drop_last()) * 10 + (s.last() - 48)
    }
}

/// The digit part of a decimal literal with an optional sign byte.
pub open spec fn int_digits(s: Seq<u8>) -> Seq<u8> {
    if s.len() > 0 && (s[0] == 43 || s[0] == 45) {
        s.skip(1)
    } else {
        s
    }
}

pub open spec fn int_sign(s: Seq<u8>) -> int {
    if s.len() > 0 && s[0] == 45 {
        -1
    } else {
        1
    }
}

/// The byte strings `i64::from_str` accepts: an optional sign, one or more
/// digits, value within range.
pub open spec fn is_i64_bytes(s: Seq<u8>) -> bool {
    &&& int_digits(s).len() > 0
    &&& all_digits(int_digits(s))
    &&& i64::MIN <= int_sign(s) * dec_val(int_digits(s)) <= i64::MAX
}

pub open spec fn i64_bytes_val(s: Seq<u8>) -> int {
    int_sign(s) * dec_val(int_digits(s))
}

proof fn lemma_dec_val_nonneg(s: Seq<u8>)
    requires
        all_digits(s),
    ensures
        dec_val(s) >= 0,
    decreases s.len(),
{
    if s.len() > 0 {
        assert(all_digits(s.drop_last()));
        lemma_dec_val_nonneg(s.drop_last());
    }
}

/// Appending digits never decreases the value, and appending at least one
/// digit multiplies it by at least ten.
proof fn lemma_dec_val_extend(s: Seq<u8>, t: Seq<u8>)
    requires
        all_digits(s),
        all_digits(t),
    ensures
        dec_val(s + t) >= dec_val(s),
        t.len() > 0 ==> dec_val(s + t) >= dec_val(s) * 10,
    decreases t.len(),
{
    lemma_dec_val_nonneg(s);
    if t.len() == 0 {
        assert(s + t =~= s);
    } else {
        assert((s + t).drop_last() =~= s + t.drop_last());
        assert(all_digits(t.drop_last()));
        lemma_dec_val_extend(s, t.drop_last());
        assert(dec_val(s + t) == dec_val(s + t.drop_last()) * 10 + ((s + t).last() - 48));
    }
}

/// Parses a decimal `i64` exactly as `i64::from_str` does: `None` on an
/// empty digit part, a stray byte, or overflow.
pub fn parse_i64(s: &[u8]) -> (r: Option<i64>)
    ensures
        is_i64_bytes(s@) ==> r == Some(i64_bytes_val(s@) as i64),
        !is_i64_bytes(s@) ==> r is None,
{
    if s.len() == 0 {
        return None;
    }
    let neg: bool = s[0] == 45;
    let start: usize = if s[0] == 43 || s[0] == 45 {
        1
    } else {
        0
    };
    let ghost digits = int_digits(s@);
    proof {
        assert(digits =~= s@.skip(start as int));
    }
    if start == s.len() {
        return None;
    }
    // acc stays equal to the negated value of the digits read so far, so
    // that i64::MIN can be reached without overflow.
    let mut acc: i64 = 0;
    let mut i: usize = start;
    while i < s.len()
        invariant
            start <= i <= s.len(),
            start <= 1,
            digits == int_digits(s@),
            digits == s@.skip(start as int),
            neg == (int_sign(s@) == -1),
            all_digits(s@.subrange(start as int, i as int)),
            acc == -dec_val(s@.subrange(start as int, i as int)),
            acc <= 0,
        decreases s.len() - i,
    {
        let ghost pre = s@.subrange(start as int, i as int);
        let b = s[i];
        if !(48 <= b && b <= 57) {
            proof {
                assert(digits[i - start] == s@[i as int]);
                assert(!is_digit(digits[i - start]));
                assert(!all_digits(digits));
            }
            return None;
        }
        let ghost pre1 = s@.subrange(start as int, i + 1);
        proof {
            assert(pre1.drop_last() =~= pre);
            assert(pre1.last() == s@[i as int]);
            assert(all_digits(pre1));
        }
        let d = (b - 48) as i64;
        let acc10 = match acc.checked_mul(10) {
            Some(v) => v,
            None => {
                proof {
                    assert(digits =~= s@.subrange(start as int, s@.len() as int));
                    lemma_parse_overflow(s@, start as int, i as int, 10 * dec_val(pre));
                }
                return None;
            },
        };
        acc = match acc10.checked_sub(d) {
            Some(v) => v,
            None => {
                proof {
                    assert(digits =~= s@.subrange(start as int, s@.len() as int));
                    lemma_parse_overflow(s@, start as int, i as int, dec_val(pre1));
                }
                return None;
            },
        };
        i += 1;
    }
    proof {
        assert(s@.subrange(start as int, s@.len() as int) =~= digits);
    }
    if neg {
        Some(acc)
    } else {
        match (0i64).checked_sub(acc) {
            Some(v) => Some(v),
            None => {
                proof {
                    lemma_dec_val_nonneg(digits);
                }
                None
            },
        }
    }
}

/// If the value of some prefix of the digit part already exceeds `i64::MAX`,
/// the whole literal is out of range for either sign.
proof fn lemma_parse_overflow(s: Seq<u8>, start: int, i: int, lo: int)
    requires
        0 <= start <= i < s.len(),
        int_digits(s) == s.subrange(start, s.len() as int),
        all_digits(s.subrange(start, i + 1)),
        lo > i64::MAX as int + 1,
        lo <= dec_val(s.subrange(start, i + 1)),
    ensures
        !is_i64_bytes(s),
{
    let digits = s.subrange(start, s.len() as int);
    if all_digits(digits) {
        let pre1 = s.subrange(start, i + 1);
        let rest = s.subrange(i + 1, s.len() as int);
        assert(digits =~= pre1 + rest);
        assert(all_digits(rest)) by {
            assert(forall|k: int|
                0 <= k < rest.len() ==> #[trigger] rest[k] == digits[k + (i + 1 - start)]);
        }
        lemma_dec_val_extend(pre1, rest);
        assert(dec_val(digits) >= dec_val(pre1));
        assert(dec_val(digits) > i64::MAX as int + 1);
        if int_sign(s) == -1 {
            assert(-dec_val(digits) < i64::MIN as int);
        }
    }
}

/// The byte strings `u32::from_str` accepts: an optional `+`, one or more
/// digits, value within range.
pub open spec fn is_u32_bytes(s: Seq<u8>) -> bool {
    &&& int_sign(s) == 1
    &&& int_digits(s).len() > 0
    &&& all_digits(int_digits(s))
    &&& dec_val(int_digits(s)) <= u32::MAX
}

pub open spec fn u32_bytes_val(s: Seq<u8>) -> int {
    dec_val(int_digits(s))
}

pub proof fn lemma_u32_val_bounds(s: Seq<u8>)
    ensures
        is_u32_bytes(s) ==> 0 <= u32_bytes_val(s) <= u32::MAX,
{
    if is_u32_bytes(s) {
        lemma_dec_val_nonneg(int_digits(s));
    }
}

/// Parses a decimal `u32` exactly as `u32::from_str` does.
pub fn parse_u32(s: &[u8]) -> (r: Option<u32>)
    ensures
        is_u32_bytes(s@) ==> r == Some(u32_bytes_val(s@) as u32),
        !is_u32_bytes(s@) ==> r is None,
{
    if s.len() == 0 {
        return None;
    }
    if s[0] == 45 {
        return None;
    }
    let start: usize = if s[0] == 43 {
        1
    } else {
        0
    };
    let ghost digits = int_digits(s@);
    proof {
        assert(digits =~= s@.skip(start as int));
    }
    if start == s.len() {
        return None;
    }
    let mut acc: u64 = 0;
    let mut i: usize = start;
    while i < s.len()
        invariant
            start <= i <= s.len(),
            start <= 1,
            digits == int_digits(s@),
            digits == s@.skip(start as int),
            all_digits(s@.subrange(start as int, i as int)),
            acc == dec_val(s@.subrange(start as int, i as int)),
            acc <= u32::MAX,
        decreases s.len() - i,
    {
        let ghost pre = s@.subrange(start as int, i as int);
        let b = s[i];
        if !(48 <= b && b <= 57) {
            proof {
                assert(digits[i - start] == s@[i as int]);
                assert(!is_digit(digits[i - start]));
                assert(!all_digits(digits));
            }
            return None;
        }
        let ghost pre1 = s@.subrange(start as int, i + 1);
        proof {
            assert(pre1.drop_last() =~= pre);
            assert(pre1.last() == s@[i as int]);
            assert(all_digits(pre1));
        }
        acc = acc * 10 + ((b - 48) as u64);
        i += 1;
        if acc > u32::MAX as u64 {
            proof {
                if all_digits(digits) {
                    let rest = s@.subrange(i as int, s@.len() as int);
                    assert(digits =~= pre1 + rest);
                    assert(all_digits(rest)) by {
                        assert(forall|k: int|
                            0 <= k < rest.len() ==> #[trigger] rest[k] == digits[k + (i
                                - start)]);
                    }
                    lemma_dec_val_extend(pre1, rest);
                }
            }
            return None;
        }
    }
    proof {
        assert(s@.subrange(start as int, s@.len() as int) =~= digits);
    }
    Some(acc as u32)
}

/// SQL `LIKE` with `%` (any run) and `_` (any byte), ASCII case-insensitive.
pub open spec fn like_spec(p: Seq<u8>, t: Seq<u8>) -> bool
    decreases p.len() + t.len(),
{
    if p.len() == 0 {
        t.len() == 0
    } else if p[0] == 37 {
        like_spec(p.skip(1), t) || (t.len() > 0 && like_spec(p, t.skip(1)))
    } else if p[0] == 95 {
        t.len() > 0 && like_spec(p.skip(1), t.skip(1))
    } else {
        t.len() > 0 && ascii_lower(p[0]) == ascii_lower(t[0]) && like_spec(p.skip(1), t.skip(1))
    }
}

fn like_at(p: &[u8], t: &[u8], i: usize, j: usize) -> (r: bool)
    requires
        i <= p.len(),
        j <= t.len(),
    ensures
        r == like_spec(p@.skip(i as int), t@.skip(j as int)),
    decreases (p.len() - i) + (t.len() - j),
{
    let ghost ps = p@.skip(i as int);
    let ghost ts = t@.skip(j as int);
    if i == p.len() {
        j == t.len()
    } else if p[i] == 37 {
        proof {
            assert(ps[0] == p@[i as int]);
            assert(ps.skip(1) =~= p@.skip(i + 1));
        }
        if like_at(p, t, i + 1, j) {
            true
        } else if j < t.len() {
            proof {
                assert(ts.skip(1) =~= t@.skip(j + 1));
            }
            like_at(p, t, i, j + 1)
        } else {
            false
        }
    } else {
        proof {
            assert(ps[0] == p@[i as int]);
            assert(ps.skip(1) =~= p@.skip(i + 1));
            if j < t.len() {
                assert(ts[0] == t@[j as int]);
                assert(ts.skip(1) =~= t@.skip(j + 1));
            }
        }
        if j == t.len() {
            false
        } else if p[i] == 95 {
            like_at(p, t, i + 1, j + 1)
        } else {
            byte_lower(p[i]) == byte_lower(t[j]) && like_at(p, t, i + 1, j + 1)
        }
    }
}

pub fn like_match(p: &[u8], t: &[u8]) -> (r: bool)
    ensures
        r == like_spec(p@, t@),
{
    proof {
        assert(p@.skip(0) =~= p@);
        assert(t@.skip(0) =~= t@);
    }
    like_at(p, t, 0, 0)
}

/// Splitting folded over a prefix of `s`: finished fields and the field
/// being built.
pub open spec fn split_run(s: Seq<u8>, sep: u8, n: int) -> (Seq<Seq<u8>>, Seq<u8>)
    decreases n,
{
    if n <= 0 {
        (Seq::empty(), Seq::empty())
    } else {
        let r = split_run(s, sep, n - 1);
        if s[n - 1] == sep {
            (r.0.push(r.1), Seq::empty())
        } else {
            (r.0, r.1.push(s[n - 1]))
        }
    }
}

/// The fields of `s` between occurrences of `sep`, as `str::split` yields
/// them: an empty input gives one empty field.
pub open spec fn split_spec(s: Seq<u8>, sep: u8) -> Seq<Seq<u8>> {
    let r = split_run(s, sep, s.len() as int);
    r.0.push(r.1)
}

pub fn split_bytes(s: &[u8], sep: u8) -> (r: Vec<Vec<u8>>)
    ensures
        r.deep_view() == split_spec(s@, sep),
{
    let mut parts: Vec<Vec<u8>> = Vec::new();
    let mut cur: Vec<u8> = Vec::new();
    let mut i: usize = 0;
    while i < s.len()
        invariant
            i <= s.len(),
            parts.deep_view() == split_run(s@, sep, i as int).0,
            cur@ == split_run(s@, sep, i as int).1,
        decreases s.len() - i,
    {
        let ghost st = split_run(s@, sep, i as int);
        if s[i] == sep {
            let ghost pdv = parts.deep_view();
            parts.push(cur);
            proof {
                assert(parts.deep_view() =~~= pdv.push(st.1));
            }
            cur = Vec::new();
        } else {
            cur.push(s[i]);
        }
        i += 1;
    }
    let ghost pdv = parts.deep_view();
    let ghost cdv = cur@;
    parts.push(cur);
    proof {
        assert(parts.deep_view() =~~= pdv.push(cdv));
    }
    parts
}

/// Index of the first occurrence of `sep` in `s`, or `s.len()`.
pub open spec fn sep_idx(s: Seq<u8>, sep: u8) -> int
    decreases s.len(),
{
    if s.len() == 0 {
        0
    } else if s[0] == sep {
        0
    } else {
        1 + sep_idx(s.skip(1), sep)
    }
}

proof fn lemma_sep_idx_at(s: Seq<u8>, sep: u8, i: int)
    requires
        0 <= i <= s.len(),
        forall|k: int| 0 <= k < i ==> s[k] != sep,
        i == s.len() || s[i] == sep,
    ensures
        sep_idx(s, sep) == i,
    decreases i,
{
    if i > 0 {
        if i < s.len() {
            assert(s.skip(1)[i - 1] == s[i]);
        }
        assert(forall|k: int| 0 <= k < i - 1 ==> s.skip(1)[k] == s[k + 1] && s[k + 1] != sep);
        lemma_sep_idx_at(s.skip(1), sep, i - 1);
    }
}

/// Index of the first occurrence of `sep`, or the length when absent.
pub fn find_sep(s: &[u8], sep: u8) -> (r: usize)
    ensures
        r == sep_idx(s@, sep),
        r <= s.len(),
{
    let mut i: usize = 0;
    while i < s.len()
        invariant
            i <= s.len(),
            forall|k: int| 0 <= k < i ==> s@[k] != sep,
        decreases s.len() - i,
    {
        if s[i] == sep {
            proof {
                lemma_sep_idx_at(s@, sep, i as int);
            }
            return i;
        }
        i += 1;
    }
    proof {
        lemma_sep_idx_at(s@, sep, s@.len() as int);
    }
    i
}

/// Decimal digits of a nonnegative number, most significant first.
pub open spec fn dec_repr(n: int) -> Seq<u8>
    decreases n,
{
    if n < 10 {
        seq![(48 + if n >= 0 {
            n
        } else {
            0
        }) as u8]
    } else {
        dec_repr(n / 10).push((48 + n % 10) as u8)
    }
}

/// Digits of a number with a leading `-` where it is negative.
pub open spec fn dec_repr_int(n: int) -> Seq<u8> {
    if n < 0 {
        seq![45u8] + dec_repr(-n)
    } else {
        dec_repr(n)
    }
}

pub fn u64_to_dec(n: u64) -> (r: Vec<u8>)
    ensures
        r@ == dec_repr(n as int),
    decreases n,
{
    if n < 10 {
        let mut v: Vec<u8> = Vec::new();
        v.push(48 + (n as u8));
        proof {
            assert(v@ =~= dec_repr(n as int));
        }
        v
    } else {
        let mut v = u64_to_dec(n / 10);
        v.push(48 + ((n % 10) as u8));
        v
    }
}

pub fn i64_to_dec(n: i64) -> (r: Vec<u8>)
    ensures
        r@ == dec_repr_int(n as int),
{
    if n >= 0 {
        u64_to_dec(n as u64)
    } else {
        let m: u64 = ((-(n + 1)) as u64) + 1;
        let mut v: Vec<u8> = Vec::new();
        v.push(45);
        let ds = u64_to_dec(m);
        let mut i: usize = 0;
        while i < ds.len()
            invariant
                i <= ds.len(),
                v@ =~= seq![45u8] + ds@.take(i as int),
            decreases ds.len() - i,
        {
            v.push(ds[i]);
            i += 1;
        }
        proof {
            assert(ds@.take(ds@.len() as int) =~= ds@);
            assert(v@ =~= dec_repr_int(n as int));
        }
        v
    }
}

pub fn clone_bytes(s: &[u8]) -> (r: Vec<u8>)
    ensures
        r@ == s@,
{
    let mut r: Vec<u8> = Vec::new();
    let mut i: usize = 0;
    while i < s.len()
        invariant
            i <= s.len(),
            r@ =~= s@.take(i as int),
        decreases s.len() - i,
    {
        r.push(s[i]);
        i += 1;
    }
    proof {
        assert(s@.take(s@.len() as int) =~= s@);
    }
    r
}

/// Case-insensitive lexicographic order on byte strings: a proper prefix
/// sorts first.
pub open spec fn lex_lt(a: Seq<u8>, b: Seq<u8>) -> bool
    decreases a.len(),
{
    if b.len() == 0 {
        false
    } else if a.len() == 0 {
        true
    } else if ascii_lower(a[0]) != ascii_lower(b[0]) {
        ascii_lower(a[0]) < ascii_lower(b[0])
    } else {
        lex_lt(a.skip(1), b.skip(1))
    }
}

fn lex_lt_at(a: &[u8], b: &[u8], i: usize) -> (r: bool)
    requires
        i <= a.len(),
        i <= b.len(),
    ensures
        r == lex_lt(a@.skip(i as int), b@.skip(i as int)),
    decreases a.len() - i,
{
    proof {
        if i < a.len() {
            assert(a@.skip(i as int)[0] == a@[i as int]);
            assert(a@.skip(i as int).skip(1) =~= a@.skip(i + 1));
        }
        if i < b.len() {
            assert(b@.skip(i as int)[0] == b@[i as int]);
            assert(b@.skip(i as int).skip(1) =~= b@.skip(i + 1));
        }
    }
    if i == b.len() {
        false
    } else if i == a.len() {
        true
    } else if byte_lower(a[i]) != byte_lower(b[i]) {
        byte_lower(a[i]) < byte_lower(b[i])
    } else {
        lex_lt_at(a, b, i + 1)
    }
}

pub fn lex_less(a: &[u8], b: &[u8]) -> (r: bool)
    ensures
        r == lex_lt(a@, b@),
{
    proof {
        assert(a@.skip(0) =~= a@);
        assert(b@.skip(0) =~= b@);
    }
    lex_lt_at(a, b, 0)
}

pub fn bytes_eq(a: &[u8], b: &[u8]) -> (r: bool)
    ensures
        r == (a@ == b@),
{
    if a.len() != b.len() {
        proof {
            assert(a@ != b@);
        }
        return false;
    }
    let mut i: usize = 0;
    while i < a.len()
        invariant
            i <= a.len(),
            a.len() == b.len(),
            forall|k: int| 0 <= k < i ==> a@[k] == b@[k],
        decreases a.len() - i,
    {
        if a[i] != b[i] {
            return false;
        }
        i += 1;
    }
    proof {
        assert(a@ =~= b@);
    }
    true
}

} // verus!
