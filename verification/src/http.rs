//! HTTP request-line and query-string parsing for the connection server,
//! and response assembly. A request is parsed once its header bytes end in
//! an empty line; the query string decodes `+` as space and `%HH` as the
//! byte `0xHH`, and later values win for a repeated key.

use vstd::prelude::*;

use crate::text;

verus! {

pub open spec fn is_hex_digit(b: u8) -> bool {
    (48 <= b && b <= 57) || (97 <= b && b <= 102) || (65 <= b && b <= 70)
}

pub open spec fn hex_val(b: u8) -> int {
    if 48 <= b && b <= 57 {
        b - 48
    } else if 97 <= b && b <= 102 {
        b - 97 + 10
    } else if 65 <= b && b <= 70 {
        b - 65 + 10
    } else {
        0
    }
}

/// URL decoding: `%HH` with two hex digits is the byte `0xHH`, `+` is a
/// space, anything else stands for itself. A `%` without two hex digits
/// after it stands for itself.
pub open spec fn decode_spec(s: Seq<u8>) -> Seq<u8>
    decreases s.len(),
{
    if s.len() == 0 {
        Seq::empty()
    } else if s[0] == 37 && s.len() >= 3 && is_hex_digit(s[1]) && is_hex_digit(s[2]) {
        seq![(hex_val(s[1]) * 16 + hex_val(s[2])) as u8] + decode_spec(s.skip(3))
    } else if s[0] == 43 {
        seq![32u8] + decode_spec(s.skip(1))
    } else {
        seq![s[0]] + decode_spec(s.skip(1))
    }
}

fn byte_is_hex(b: u8) -> (r: bool)
    ensures
        r == is_hex_digit(b),
{
    (48 <= b && b <= 57) || (97 <= b && b <= 102) || (65 <= b && b <= 70)
}

fn byte_hex_val(b: u8) -> (r: u8)
    requires
        is_hex_digit(b),
    ensures
        r == hex_val(b),
        r < 16,
{
    if 48 <= b && b <= 57 {
        b - 48
    } else if 97 <= b && b <= 102 {
        b - 97 + 10
    } else {
        b - 65 + 10
    }
}

pub fn decode_url(s: &[u8]) -> (r: Vec<u8>)
    ensures
        r@ == decode_spec(s@),
{
    let mut r: Vec<u8> = Vec::new();
    let mut i: usize = 0;
    proof {
        assert(s@.skip(0) =~= s@);
        assert(Seq::<u8>::empty() + decode_spec(s@) =~= decode_spec(s@));
    }
    while i < s.len()
        invariant
            i <= s.len(),
            decode_spec(s@) == r@ + decode_spec(s@.skip(i as int)),
        decreases s.len() - i,
    {
        let ghost rest = s@.skip(i as int);
        proof {
            assert(rest[0] == s@[i as int]);
            assert(rest.skip(1) =~= s@.skip(i + 1));
            if s@.len() - i >= 3 {
                assert(rest[1] == s@[i + 1]);
                assert(rest[2] == s@[i + 2]);
                assert(rest.skip(3) =~= s@.skip(i + 3));
            }
        }
        if s[i] == 37 && s.len() - i >= 3 && byte_is_hex(s[i + 1]) && byte_is_hex(s[i + 2]) {
            let b = byte_hex_val(s[i + 1]) * 16 + byte_hex_val(s[i + 2]);
            r.push(b);
            proof {
                assert(r@ + decode_spec(s@.skip(i + 3)) =~= decode_spec(s@));
            }
            i += 3;
        } else if s[i] == 43 {
            r.push(32);
            proof {
                assert(r@ + decode_spec(s@.skip(i + 1)) =~= decode_spec(s@));
            }
            i += 1;
        } else {
            r.push(s[i]);
            proof {
                assert(r@ + decode_spec(s@.skip(i + 1)) =~= decode_spec(s@));
            }
            i += 1;
        }
    }
    proof {
        assert(decode_spec(s@.skip(s@.len() as int)) =~= Seq::<u8>::empty());
        assert(r@ + Seq::<u8>::empty() =~= r@);
    }
    r
}

/// A byte URL-encoding never decodes ambiguously: letters, digits and
/// `- _ . ~` stand for themselves, a space becomes `+`, every other byte
/// becomes `%HH` with upper-case hex digits.
pub open spec fn is_plain_byte(b: u8) -> bool {
    (48 <= b && b <= 57) || (65 <= b && b <= 90) || (97 <= b && b <= 122) || b == 45 || b == 95
        || b == 46 || b == 126
}

pub open spec fn hex_digit_of(v: int) -> u8 {
    if v < 10 {
        (48 + v) as u8
    } else {
        (65 + (v - 10)) as u8
    }
}

pub open spec fn encode_spec(s: Seq<u8>) -> Seq<u8>
    decreases s.len(),
{
    if s.len() == 0 {
        Seq::empty()
    } else {
        let b = s[0];
        let enc = if is_plain_byte(b) {
            seq![b]
        } else if b == 32 {
            seq![43u8]
        } else {
            seq![37u8, hex_digit_of((b as int) / 16), hex_digit_of((b as int) % 16)]
        };
        enc + encode_spec(s.skip(1))
    }
}

pub fn encode_url(s: &[u8]) -> (r: Vec<u8>)
    ensures
        r@ == encode_spec(s@),
{
    let mut r: Vec<u8> = Vec::new();
    let mut i: usize = 0;
    proof {
        assert(s@.skip(0) =~= s@);
        assert(Seq::<u8>::empty() + encode_spec(s@) =~= encode_spec(s@));
    }
    while i < s.len()
        invariant
            i <= s.len(),
            encode_spec(s@) == r@ + encode_spec(s@.skip(i as int)),
        decreases s.len() - i,
    {
        let ghost rest = s@.skip(i as int);
        proof {
            assert(rest[0] == s@[i as int]);
            assert(rest.skip(1) =~= s@.skip(i + 1));
        }
        let b = s[i];
        if (48 <= b && b <= 57) || (65 <= b && b <= 90) || (97 <= b && b <= 122) || b == 45 || b
            == 95 || b == 46 || b == 126 {
            r.push(b);
        } else if b == 32 {
            r.push(43);
        } else {
            r.push(37);
            let hi = b / 16;
            let lo = b % 16;
            r.push(if hi < 10 {
                48 + hi
            } else {
                65 + (hi - 10)
            });
            r.push(if lo < 10 {
                48 + lo
            } else {
                65 + (lo - 10)
            });
        }
        proof {
            assert(r@ + encode_spec(s@.skip(i + 1)) =~= encode_spec(s@));
        }
        i += 1;
    }
    proof {
        assert(encode_spec(s@.skip(s@.len() as int)) =~= Seq::<u8>::empty());
        assert(r@ + Seq::<u8>::empty() =~= r@);
    }
    r
}

/// Decoding inverts encoding, byte for byte.
pub proof fn lemma_decode_encode(s: Seq<u8>)
    ensures
        decode_spec(encode_spec(s)) == s,
    decreases s.len(),
{
    if s.len() == 0 {
        assert(decode_spec(encode_spec(s)) =~= s);
    } else {
        let b = s[0];
        let e = encode_spec(s);
        let etail = encode_spec(s.skip(1));
        lemma_decode_encode(s.skip(1));
        if is_plain_byte(b) {
            assert(e == seq![b] + etail);
            assert(e[0] == b && b != 37 && b != 43);
            assert(e.skip(1) =~= etail);
            assert(decode_spec(e) =~= seq![b] + decode_spec(etail));
            assert(decode_spec(e) =~= s);
        } else if b == 32 {
            assert(e == seq![43u8] + etail);
            assert(e[0] == 43);
            assert(e.skip(1) =~= etail);
            assert(decode_spec(e) =~= seq![32u8] + decode_spec(etail));
            assert(decode_spec(e) =~= s);
        } else {
            let hi = hex_digit_of((b as int) / 16);
            let lo = hex_digit_of((b as int) % 16);
            assert(e == seq![37u8, hi, lo] + etail);
            assert(e[0] == 37 && e[1] == hi && e[2] == lo);
            assert(is_hex_digit(hi) && is_hex_digit(lo));
            assert(hex_val(hi) == b / 16 && hex_val(lo) == b % 16);
            assert(e.skip(3) =~= etail);
            assert((hex_val(e[1]) * 16 + hex_val(e[2])) as u8 == b);
            assert(decode_spec(e) =~= seq![b] + decode_spec(etail));
            assert(decode_spec(e) =~= s);
        }
    }
}

/// The key/value map of a query string: fields split on `&`, each field
/// split once on `=` (a field without `=` has an empty value), key and
/// value URL-decoded, later fields overwriting earlier ones.
pub open spec fn field_key(f: Seq<u8>) -> Seq<u8> {
    decode_spec(f.take(text::sep_idx(f, 61)))
}

pub open spec fn field_value(f: Seq<u8>) -> Seq<u8> {
    if text::sep_idx(f, 61) < f.len() {
        decode_spec(f.skip(text::sep_idx(f, 61) + 1))
    } else {
        Seq::empty()
    }
}

pub open spec fn query_map_run(fields: Seq<Seq<u8>>, n: int) -> Map<Seq<u8>, Seq<u8>>
    decreases n,
{
    if n <= 0 {
        Map::empty()
    } else {
        query_map_run(fields, n - 1).insert(field_key(fields[n - 1]), field_value(fields[n - 1]))
    }
}

pub open spec fn query_map_spec(s: Seq<u8>) -> Map<Seq<u8>, Seq<u8>> {
    let fields = text::split_spec(s, 38);
    query_map_run(fields, fields.len() as int)
}

/// Decoded key/value pairs of a query string; keys are unique and hold the
/// last value given for them.
pub struct HttpQuery {
    pairs: Vec<(Vec<u8>, Vec<u8>)>,
}

impl View for HttpQuery {
    type V = Map<Seq<u8>, Seq<u8>>;

    closed spec fn view(&self) -> Map<Seq<u8>, Seq<u8>> {
        pairs_map(self.pairs.deep_view())
    }
}

pub open spec fn pairs_map(ps: Seq<(Seq<u8>, Seq<u8>)>) -> Map<Seq<u8>, Seq<u8>>
    decreases ps.len(),
{
    if ps.len() == 0 {
        Map::empty()
    } else {
        pairs_map(ps.drop_last()).insert(ps.last().0, ps.last().1)
    }
}

/// No two entries share a key, so the map holds exactly the pairs.
pub open spec fn pairs_unique(ps: Seq<(Seq<u8>, Seq<u8>)>) -> bool {
    forall|i: int, j: int| 0 <= i < j < ps.len() ==> ps[i].0 != ps[j].0
}

proof fn lemma_pairs_map_props(ps: Seq<(Seq<u8>, Seq<u8>)>)
    requires
        pairs_unique(ps),
    ensures
        forall|k: Seq<u8>|
            #[trigger] pairs_map(ps).contains_key(k) <==> (exists|i: int|
                0 <= i < ps.len() && ps[i].0 == k),
        forall|i: int|
            0 <= i < ps.len() ==> pairs_map(ps).contains_key(#[trigger] ps[i].0) && pairs_map(ps)[
                ps[i].0
            ] == ps[i].1,
    decreases ps.len(),
{
    if ps.len() > 0 {
        let pre = ps.drop_last();
        assert(pairs_unique(pre));
        lemma_pairs_map_props(pre);
        assert(forall|i: int| 0 <= i < ps.len() - 1 ==> pre[i] == ps[i]);
        assert forall|k: Seq<u8>| #[trigger]
            pairs_map(ps).contains_key(k) implies (exists|i: int|
            0 <= i < ps.len() && ps[i].0 == k) by {
            if k == ps.last().0 {
                assert(ps[ps.len() - 1].0 == k);
            } else {
                assert(pairs_map(pre).contains_key(k));
            }
        }
        assert forall|i: int| 0 <= i < ps.len() implies pairs_map(ps).contains_key(
            #[trigger] ps[i].0,
        ) && pairs_map(ps)[ps[i].0] == ps[i].1 by {
            if i < ps.len() - 1 {
                assert(ps[i].0 != ps.last().0);
                assert(pairs_map(pre).contains_key(ps[i].0));
            }
        }
    }
}

impl HttpQuery {
    #[verifier::type_invariant]
    spec fn wf(&self) -> bool {
        pairs_unique(self.pairs.deep_view())
    }

    /// Parses a query string; splitting on `&` always yields at least one
    /// field, so the empty string gives a map with one empty key.
    pub fn from(s: &[u8]) -> (r: HttpQuery)
        ensures
            r@ == query_map_spec(s@),
    {
        let fields = text::split_bytes(s, 38);
        let ghost fs = text::split_spec(s@, 38);
        let mut pairs: Vec<(Vec<u8>, Vec<u8>)> = Vec::new();
        let mut i: usize = 0;
        proof {
            assert(pairs_map(pairs.deep_view()) =~= query_map_run(fs, 0));
        }
        while i < fields.len()
            invariant
                i <= fields.len(),
                fields.deep_view() == fs,
                pairs_unique(pairs.deep_view()),
                pairs_map(pairs.deep_view()) == query_map_run(fs, i as int),
            decreases fields.len() - i,
        {
            proof {
                assert(fields@[i as int].deep_view() =~= fields@[i as int]@);
                assert(fields@[i as int]@ == fs[i as int]);
            }
            let field = &fields[i];
            let eq = text::find_sep(field, 61);
            let key_raw = slice_range(field, 0, eq);
            let key = decode_url(&key_raw);
            let value = if eq < field.len() {
                let value_raw = slice_range(field, eq + 1, field.len());
                decode_url(&value_raw)
            } else {
                Vec::new()
            };
            proof {
                assert(field@.subrange(0, text::sep_idx(field@, 61)) =~= field@.take(
                    text::sep_idx(field@, 61),
                ));
                if eq < field.len() {
                    assert(field@.subrange(text::sep_idx(field@, 61) + 1, field@.len() as int)
                        =~= field@.skip(text::sep_idx(field@, 61) + 1));
                }
                assert(key@ == field_key(fs[i as int]));
                assert(value@ == field_value(fs[i as int]));
            }
            insert_pair(&mut pairs, &key, &value);
            i += 1;
        }
        HttpQuery { pairs }
    }

    /// The decoded value stored for `key`, if one is present.
    pub fn get_str(&self, key: &[u8]) -> (r: Option<&Vec<u8>>)
        ensures
            r is Some <==> self@.contains_key(key@),
            r is Some ==> r->0@ == self@[key@],
    {
        proof {
            use_type_invariant(&*self);
            lemma_pairs_map_props(self.pairs.deep_view());
        }
        let ghost ps = self.pairs.deep_view();
        let mut i: usize = 0;
        while i < self.pairs.len()
            invariant
                i <= self.pairs.len(),
                ps == self.pairs.deep_view(),
                pairs_unique(ps),
                forall|k: int| 0 <= k < i ==> ps[k].0 != key@,
                forall|kk: Seq<u8>|
                    #[trigger] pairs_map(ps).contains_key(kk) <==> (exists|n: int|
                        0 <= n < ps.len() && ps[n].0 == kk),
                forall|n: int|
                    0 <= n < ps.len() ==> pairs_map(ps).contains_key(#[trigger] ps[n].0)
                        && pairs_map(ps)[ps[n].0] == ps[n].1,
            decreases self.pairs.len() - i,
        {
            proof {
                assert(self.pairs@[i as int].deep_view() == ps[i as int]);
                assert(self.pairs@[i as int].deep_view().0 =~= self.pairs@[i as int].0@);
                assert(self.pairs@[i as int].deep_view().1 =~= self.pairs@[i as int].1@);
            }
            if text::bytes_eq(&self.pairs[i].0, key) {
                proof {
                    assert(ps[i as int].0 == key@);
                    assert(pairs_map(ps)[key@] == ps[i as int].1);
                }
                return Some(&self.pairs[i].1);
            }
            i += 1;
        }
        None
    }

    /// The value for `key` read as a decimal integer, where it is one.
    pub fn get_i64(&self, key: &[u8]) -> (r: Option<i64>)
        ensures
            r == spec_get_i64(self@, key@),
    {
        match self.get_str(key) {
            Some(v) => text::parse_i64(v.as_slice()),
            None => None,
        }
    }
}

/// What `get_i64` yields: the parsed value of the entry, where present and
/// a well-formed decimal.
pub open spec fn spec_get_i64(m: Map<Seq<u8>, Seq<u8>>, key: Seq<u8>) -> Option<i64> {
    if m.contains_key(key) && text::is_i64_bytes(m[key]) {
        Some(text::i64_bytes_val(m[key]) as i64)
    } else {
        None
    }
}

pub(crate) fn insert_pair(pairs: &mut Vec<(Vec<u8>, Vec<u8>)>, key: &[u8], value: &[u8])
    requires
        pairs_unique(old(pairs).deep_view()),
    ensures
        pairs_unique(final(pairs).deep_view()),
        pairs_map(final(pairs).deep_view()) == pairs_map(old(pairs).deep_view()).insert(
            key@,
            value@,
        ),
{
    let ghost ps0 = pairs.deep_view();
    let mut i: usize = 0;
    while i < pairs.len()
        invariant
            i <= pairs.len(),
            pairs.deep_view() == ps0,
            ps0 == old(pairs).deep_view(),
            pairs_unique(ps0),
            forall|k: int| 0 <= k < i ==> ps0[k].0 != key@,
        decreases pairs.len() - i,
    {
        proof {
            assert(pairs@[i as int].deep_view() == ps0[i as int]);
            assert(pairs@[i as int].deep_view().0 =~= pairs@[i as int].0@);
            assert(pairs@[i as int].deep_view().1 =~= pairs@[i as int].1@);
        }
        if text::bytes_eq(&pairs[i].0, key) {
            let ghost kv = key@;
            let ghost vv = value@;
            let kc = text::clone_bytes(key);
            let vc = text::clone_bytes(value);
            pairs.set(i, (kc, vc));
            proof {
                let ps1 = pairs.deep_view();
                assert(ps1 =~~= ps0.update(i as int, (ps0[i as int].0, vv)));
                lemma_pairs_map_update(ps0, i as int, vv);
                assert(ps0[i as int].0 == kv);
                assert(ps1 == ps0.update(i as int, (ps0[i as int].0, vv)));
                assert(pairs_map(ps1) == pairs_map(ps0).insert(kv, vv));
                assert(pairs_unique(ps1));
                assert(pairs.deep_view() == ps1);
            }
            return ;
        }
        i += 1;
    }
    let ghost kv = key@;
    let ghost vv = value@;
    let kc = text::clone_bytes(key);
    let vc = text::clone_bytes(value);
    pairs.push((kc, vc));
    proof {
        let ps1 = pairs.deep_view();
        assert(ps1 =~~= ps0.push((kv, vv)));
        assert(ps1.drop_last() =~= ps0);
        assert(ps1.last() == (kv, vv));
        assert(pairs_map(ps1) == pairs_map(ps0).insert(kv, vv));
        assert(pairs_unique(ps1));
    }
}

proof fn lemma_pairs_map_update(ps: Seq<(Seq<u8>, Seq<u8>)>, i: int, v: Seq<u8>)
    requires
        pairs_unique(ps),
        0 <= i < ps.len(),
    ensures
        pairs_map(ps.update(i, (ps[i].0, v))) == pairs_map(ps).insert(ps[i].0, v),
    decreases ps.len(),
{
    let ps1 = ps.update(i, (ps[i].0, v));
    if i == ps.len() - 1 {
        assert(ps1.drop_last() =~= ps.drop_last());
        assert(ps1.last() == (ps[i].0, v));
        assert(pairs_map(ps1) =~= pairs_map(ps).insert(ps[i].0, v));
    } else {
        assert(ps1.drop_last() =~= ps.drop_last().update(i, (ps[i].0, v)));
        assert(pairs_unique(ps.drop_last()));
        assert(ps.drop_last()[i] == ps[i]);
        lemma_pairs_map_update(ps.drop_last(), i, v);
        assert(ps1.last() == ps.last());
        assert(ps[i].0 != ps.last().0);
        assert(pairs_map(ps1) == pairs_map(ps.drop_last()).insert(ps[i].0, v).insert(
            ps.last().0,
            ps.last().1,
        ));
        assert(pairs_map(ps.drop_last()).insert(ps[i].0, v).insert(ps.last().0, ps.last().1)
            =~= pairs_map(ps.drop_last()).insert(ps.last().0, ps.last().1).insert(ps[i].0, v));
        assert(pairs_map(ps).insert(ps[i].0, v) == pairs_map(ps.drop_last()).insert(
            ps.last().0,
            ps.last().1,
        ).insert(ps[i].0, v));
    }
}

/// The header bytes end with an empty line (`\r\n\r\n`).
pub open spec fn complete_header_spec(s: Seq<u8>) -> bool {
    s.len() >= 4 && s[s.len() - 1] == 10 && s[s.len() - 2] == 13 && s[s.len() - 3] == 10 && s[s.len()
        - 4] == 13
}

pub fn is_complete_header(buf: &[u8]) -> (r: bool)
    ensures
        r == complete_header_spec(buf@),
{
    buf.len() >= 4 && buf[buf.len() - 1] == 10 && buf[buf.len() - 2] == 13 && buf[buf.len() - 3]
        == 10 && buf[buf.len() - 4] == 13
}

/// Index of the first `\r\n`, or the length when there is none.
pub open spec fn crlf_idx(s: Seq<u8>) -> int
    decreases s.len(),
{
    if s.len() < 2 {
        s.len() as int
    } else if s[0] == 13 && s[1] == 10 {
        0
    } else {
        1 + crlf_idx(s.skip(1))
    }
}

proof fn lemma_crlf_idx_at(s: Seq<u8>, i: int)
    requires
        0 <= i <= s.len(),
        forall|k: int| 0 <= k < i ==> !(#[trigger] s[k] == 13 && k + 1 < s.len() && s[k + 1] == 10),
        i + 1 < s.len() ==> s[i] == 13 && s[i + 1] == 10,
        i == s.len() || i + 1 < s.len(),
    ensures
        crlf_idx(s) == i,
    decreases i,
{
    if i > 0 {
        if i + 1 < s.len() {
            assert(s.skip(1)[i - 1] == s[i]);
            assert(s.skip(1)[i] == s[i + 1]);
        }
        assert forall|k: int| 0 <= k < i - 1 implies !(#[trigger] s.skip(1)[k] == 13 && k + 1
            < s.skip(1).len() && s.skip(1)[k + 1] == 10) by {
            assert(s.skip(1)[k] == s[k + 1]);
            if k + 1 < s.skip(1).len() {
                assert(s.skip(1)[k + 1] == s[k + 2]);
            }
        }
        lemma_crlf_idx_at(s.skip(1), i - 1);
    }
}

fn find_crlf(s: &[u8]) -> (r: usize)
    ensures
        r == crlf_idx(s@),
        r <= s.len(),
{
    if s.len() < 2 {
        return s.len();
    }
    let mut i: usize = 0;
    while i < s.len() - 1
        invariant
            s.len() >= 2,
            i <= s.len(),
            forall|k: int| 0 <= k < i ==> !(#[trigger] s@[k] == 13 && k + 1 < s@.len() && s@[k + 1] == 10),
        decreases s.len() - i,
    {
        if s[i] == 13 && s[i + 1] == 10 {
            proof {
                lemma_crlf_idx_at(s@, i as int);
            }
            return i;
        }
        i += 1;
    }
    proof {
        assert(forall|k: int|
            0 <= k < s@.len() ==> !(#[trigger] s@[k] == 13 && k + 1 < s@.len() && s@[k + 1]
                == 10));
        lemma_crlf_idx_at(s@, s@.len() as int);
    }
    s.len()
}

/// A parsed request line: the raw target, the path part before `?`, and
/// the decoded query parameters after it.
pub struct HttpRequest {
    full_path: Vec<u8>,
    path: Vec<u8>,
    query: HttpQuery,
}

#[verifier::ext_equal]
pub struct HttpRequestV {
    pub full_path: Seq<u8>,
    pub path: Seq<u8>,
    pub query: Map<Seq<u8>, Seq<u8>>,
}

impl View for HttpRequest {
    type V = HttpRequestV;

    closed spec fn view(&self) -> HttpRequestV {
        HttpRequestV { full_path: self.full_path@, path: self.path@, query: self.query@ }
    }
}

impl HttpRequest {
    pub fn full_path(&self) -> (r: &Vec<u8>)
        ensures
            r@ == self@.full_path,
    {
        &self.full_path
    }

    pub fn path(&self) -> (r: &Vec<u8>)
        ensures
            r@ == self@.path,
    {
        &self.path
    }

    pub fn query(&self) -> (r: &HttpQuery)
        ensures
            r@ == self@.query,
    {
        &self.query
    }
}

/// The first header line, up to the first `\r\n`.
pub open spec fn request_line(s: Seq<u8>) -> Seq<u8> {
    s.take(crlf_idx(s))
}

/// The request line has exactly three space-separated parts.
pub open spec fn request_line_ok(s: Seq<u8>) -> bool {
    text::split_spec(request_line(s), 32).len() == 3
}

/// The raw request target: the second part of the request line.
pub open spec fn request_target(s: Seq<u8>) -> Seq<u8> {
    text::split_spec(request_line(s), 32)[1]
}

pub open spec fn target_path(t: Seq<u8>) -> Seq<u8> {
    t.take(text::sep_idx(t, 63))
}

pub open spec fn target_query(t: Seq<u8>) -> Seq<u8> {
    if text::sep_idx(t, 63) < t.len() {
        t.skip(text::sep_idx(t, 63) + 1)
    } else {
        Seq::empty()
    }
}

/// Parses request headers once they are complete. `Ok(None)` until the
/// empty line arrives; `Err` when the request line does not have exactly
/// three parts; otherwise the target, its path and its decoded query.
/// Parsing is deliberately byte-level: paths and query values are raw
/// bytes throughout the catalog, so no UTF-8 validity is demanded of the
/// header text.
pub fn parse_request_headers(buf: &[u8]) -> (r: Result<Option<HttpRequest>, HttpError>)
    ensures
        !complete_header_spec(buf@) <==> (r is Ok && r->Ok_0 is None),
        complete_header_spec(buf@) && !request_line_ok(buf@) <==> r is Err,
        r is Ok && r->Ok_0 is Some ==> {
            let req = r->Ok_0->0;
            &&& req@.full_path == request_target(buf@)
            &&& req@.path == target_path(request_target(buf@))
            &&& req@.query == query_map_spec(target_query(request_target(buf@)))
        },
{
    if !is_complete_header(buf) {
        return Ok(None);
    }
    let line_end = find_crlf(buf);
    let line = slice_range(buf, 0, line_end);
    let parts = text::split_bytes(&line, 32);
    proof {
        assert(line@ =~= request_line(buf@));
    }
    if parts.len() != 3 {
        return Err(HttpError::new(400, b_invalid_headers()));
    }
    proof {
        assert(parts@[1].deep_view() =~= parts@[1]@);
        assert(parts@[1]@ == request_target(buf@));
    }
    let full_path = text::clone_bytes(&parts[1]);
    let qmark = text::find_sep(&full_path, 63);
    let path = slice_range(&full_path, 0, qmark);
    let query = if qmark < full_path.len() {
        let qs = slice_range(&full_path, qmark + 1, full_path.len());
        HttpQuery::from(&qs)
    } else {
        HttpQuery::from(&[])
    };
    proof {
        let t = request_target(buf@);
        assert(path@ =~= target_path(t));
        if text::sep_idx(t, 63) < t.len() {
            assert(full_path@.subrange(text::sep_idx(t, 63) + 1, t.len() as int) =~= target_query(
                t,
            ));
        } else {
            assert(Seq::<u8>::empty() =~= target_query(t));
        }
    }
    Ok(Some(HttpRequest { full_path, path, query }))
}

fn b_invalid_headers() -> (r: Vec<u8>)
    ensures
        r@ == msg_invalid_headers(),
{
    let mut v: Vec<u8> = Vec::new();
    v.push(104);
    v.push(116);
    v.push(116);
    v.push(112);
    v.push(32);
    v.push(104);
    v.push(101);
    v.push(97);
    v.push(100);
    v.push(101);
    v.push(114);
    v.push(115);
    v.push(32);
    v.push(105);
    v.push(110);
    v.push(118);
    v.push(97);
    v.push(108);
    v.push(105);
    v.push(100);
    proof {
        assert(v@ =~= msg_invalid_headers());
    }
    v
}

/// `http headers invalid` as bytes.
pub open spec fn msg_invalid_headers() -> Seq<u8> {
    seq![
        104u8, 116u8, 116u8, 112u8, 32u8, 104u8, 101u8, 97u8, 100u8, 101u8, 114u8, 115u8, 32u8,
        105u8, 110u8, 118u8, 97u8, 108u8, 105u8, 100u8,
    ]
}

/// An HTTP-level failure: a status code and a short description.
#[derive(Debug)]
pub struct HttpError {
    code: i32,
    description: Vec<u8>,
}

#[verifier::ext_equal]
pub struct HttpErrorV {
    pub code: i32,
    pub description: Seq<u8>,
}

impl View for HttpError {
    type V = HttpErrorV;

    closed spec fn view(&self) -> HttpErrorV {
        HttpErrorV { code: self.code, description: self.description@ }
    }
}

impl HttpError {
    pub fn new(code: i32, description: Vec<u8>) -> (r: HttpError)
        ensures
            r@.code == code,
            r@.description == description@,
    {
        HttpError { code, description }
    }

    /// `code` and description joined by one space, as status text.
    pub fn to_string(&self) -> (r: Vec<u8>)
        ensures
            r@ == text::dec_repr_int(self@.code as int) + seq![32u8] + self@.description,
    {
        let mut r = text::i64_to_dec(self.code as i64);
        r.push(32);
        let mut i: usize = 0;
        while i < self.description.len()
            invariant
                i <= self.description.len(),
                r@ =~= text::dec_repr_int(self@.code as int) + seq![32u8]
                    + self.description@.take(i as int),
            decreases self.description.len() - i,
        {
            r.push(self.description[i]);
            i += 1;
        }
        proof {
            assert(self.description@.take(self.description@.len() as int) =~= self.description@);
        }
        r
    }
}

/// Encoding emits no field or pair separator.
proof fn lemma_encode_no_seps(s: Seq<u8>)
    ensures
        forall|i: int|
            0 <= i < encode_spec(s).len() ==> #[trigger] encode_spec(s)[i] != 38 && encode_spec(
                s,
            )[i] != 61,
    decreases s.len(),
{
    if s.len() > 0 {
        lemma_encode_no_seps(s.skip(1));
        let b = s[0];
        let enc = if is_plain_byte(b) {
            seq![b]
        } else if b == 32 {
            seq![43u8]
        } else {
            seq![37u8, hex_digit_of((b as int) / 16), hex_digit_of((b as int) % 16)]
        };
        assert(encode_spec(s) == enc + encode_spec(s.skip(1)));
        assert(forall|i: int| 0 <= i < enc.len() ==> #[trigger] enc[i] != 38 && enc[i] != 61);
    }
}

/// A byte string without the separator splits into itself alone.
proof fn lemma_split_no_sep(s: Seq<u8>, sep: u8, n: int)
    requires
        0 <= n <= s.len(),
        forall|i: int| 0 <= i < s.len() ==> s[i] != sep,
    ensures
        text::split_run(s, sep, n).0 =~= Seq::<Seq<u8>>::empty(),
        text::split_run(s, sep, n).1 =~= s.take(n),
    decreases n,
{
    if n > 0 {
        lemma_split_no_sep(s, sep, n - 1);
        assert(s.take(n).drop_last() =~= s.take(n - 1));
    }
}

/// The first separator of `a + sep + b` stands right after `a` when `a`
/// holds none.
proof fn lemma_sep_idx_concat(a: Seq<u8>, b: Seq<u8>, sep: u8)
    requires
        forall|i: int| 0 <= i < a.len() ==> a[i] != sep,
    ensures
        text::sep_idx(a + seq![sep] + b, sep) == a.len(),
    decreases a.len(),
{
    let s = a + seq![sep] + b;
    if a.len() == 0 {
        assert(s[0] == sep);
    } else {
        assert(s[0] == a[0]);
        assert(s.skip(1) =~= a.skip(1) + seq![sep] + b);
        assert(forall|i: int| 0 <= i < a.skip(1).len() ==> #[trigger] a.skip(1)[i] != sep);
        lemma_sep_idx_concat(a.skip(1), b, sep);
    }
}

/// Parsing inverts encoding through the whole query string: one encoded
/// `key=value` pair parses to exactly that key and that value.
pub proof fn lemma_query_round_trip(key: Seq<u8>, value: Seq<u8>)
    ensures
        query_map_spec(encode_spec(key) + seq![61u8] + encode_spec(value)) == Map::<
            Seq<u8>,
            Seq<u8>,
        >::empty().insert(key, value),
{
    let ek = encode_spec(key);
    let ev = encode_spec(value);
    let s = ek + seq![61u8] + ev;
    lemma_encode_no_seps(key);
    lemma_encode_no_seps(value);
    assert(forall|i: int| 0 <= i < s.len() ==> #[trigger] s[i] != 38) by {
        assert(forall|i: int| 0 <= i < ek.len() ==> #[trigger] s[i] == ek[i]);
        assert(s[ek.len() as int] == 61);
        assert(forall|i: int|
            ek.len() + 1 <= i < s.len() ==> #[trigger] s[i] == ev[i - (ek.len() + 1)]);
    }
    lemma_split_no_sep(s, 38, s.len() as int);
    let fields = text::split_spec(s, 38);
    assert(s.take(s.len() as int) =~= s);
    assert(fields =~= seq![s]);
    lemma_sep_idx_concat(ek, ev, 61);
    assert(text::sep_idx(s, 61) == ek.len());
    assert(field_key(s) == key) by {
        assert(s.take(ek.len() as int) =~= ek);
        lemma_decode_encode(key);
    }
    assert(field_value(s) == value) by {
        assert(s.skip(ek.len() as int + 1) =~= ev);
        lemma_decode_encode(value);
    }
    assert(fields.len() == 1);
    assert(fields[0] == s);
    assert(query_map_run(fields, 1) == query_map_run(fields, 0).insert(
        field_key(fields[0]),
        field_value(fields[0]),
    ));
    assert(query_map_run(fields, 0) == Map::<Seq<u8>, Seq<u8>>::empty());
    assert(query_map_spec(s) =~= Map::<Seq<u8>, Seq<u8>>::empty().insert(key, value));
}

/// A slice copied out as a fresh vector.
fn slice_range(s: &[u8], from: usize, to: usize) -> (r: Vec<u8>)
    requires
        from <= to <= s.len(),
    ensures
        r@ == s@.subrange(from as int, to as int),
{
    let mut r: Vec<u8> = Vec::new();
    let mut i: usize = from;
    while i < to
        invariant
            from <= i <= to <= s.len(),
            r@ =~= s@.subrange(from as int, i as int),
        decreases to - i,
    {
        r.push(s[i]);
        i += 1;
    }
    r
}

} // verus!
