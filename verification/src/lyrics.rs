//! Parsing a lyrics page: the text between the lyric-box markers carries
//! its characters as numeric `&#N;` entities, with `<br />` tags as line
//! breaks; every other tag and byte carries nothing. The decoded
//! characters come out UTF-8 encoded.

use vstd::prelude::*;

use crate::text;

verus! {

/// A fetched lyrics result: the text, the providing service and the page
/// it came from.
pub struct Lyrics {
    pub lyrics: Vec<u8>,
    pub provider: Vec<u8>,
    pub source: Vec<u8>,
}

/// The pattern stands at position `i`.
pub open spec fn is_match_at(s: Seq<u8>, pat: Seq<u8>, i: int) -> bool {
    0 <= i && i + pat.len() <= s.len() && s.subrange(i, i + pat.len()) == pat
}

/// Whether the pattern stands at one position.
fn match_at(s: &[u8], pat: &[u8], i: usize) -> (r: bool)
    requires
        i + pat@.len() <= s@.len(),
    ensures
        r == is_match_at(s@, pat@, i as int),
{
    let n = s.len();
    proof {
        assert(s@.len() == n as int);
    }
    let ghost sub = s@.subrange(i as int, i + pat@.len());
    let mut j: usize = 0;
    while j < pat.len()
        invariant
            i + pat@.len() <= s@.len(),
            s@.len() <= usize::MAX,
            j <= pat@.len(),
            sub == s@.subrange(i as int, i + pat@.len()),
            forall|k: int| 0 <= k < j ==> sub[k] == pat@[k],
        decreases pat.len() - j,
    {
        proof {
            assert(sub[j as int] == s@[i + j]);
        }
        if s[i + j] != pat[j] {
            proof {
                assert(sub[j as int] != pat@[j as int]);
                if is_match_at(s@, pat@, i as int) {
                    assert(sub == pat@);
                    assert(false);
                }
            }
            return false;
        }
        j += 1;
    }
    proof {
        assert(sub =~= pat@);
    }
    true
}

/// Scans for the first occurrence of a pattern.
fn find_sub(s: &[u8], pat: &[u8]) -> (r: Option<usize>)
    requires
        pat@.len() > 0,
    ensures
        r is Some ==> is_match_at(s@, pat@, r->0 as int) && (forall|k: int|
            0 <= k < r->0 as int ==> !is_match_at(s@, pat@, k)),
        r is None ==> forall|k: int| 0 <= k ==> !is_match_at(s@, pat@, k),
{
    if s.len() < pat.len() {
        return None;
    }
    let n = s.len();
    proof {
        assert(s@.len() == n as int);
    }
    let mut i: usize = 0;
    while i <= s.len() - pat.len()
        invariant
            pat@.len() > 0,
            pat@.len() <= s@.len(),
            s@.len() <= usize::MAX,
            i <= s@.len(),
            forall|k: int| 0 <= k < i ==> !is_match_at(s@, pat@, k),
        decreases s.len() - i,
    {
        if match_at(s, pat, i) {
            return Some(i);
        }
        i += 1;
    }
    None
}

/// `<div class='lyricbox'>` as bytes.
pub open spec fn begin_marker() -> Seq<u8> {
    seq![
        60u8, 100u8, 105u8, 118u8, 32u8, 99u8, 108u8, 97u8, 115u8, 115u8, 61u8, 39u8, 108u8,
        121u8, 114u8, 105u8, 99u8, 98u8, 111u8, 120u8, 39u8, 62u8,
    ]
}

/// `<div class='lyricsbreak'>` as bytes.
pub open spec fn end_marker() -> Seq<u8> {
    seq![
        60u8, 100u8, 105u8, 118u8, 32u8, 99u8, 108u8, 97u8, 115u8, 115u8, 61u8, 39u8, 108u8,
        121u8, 114u8, 105u8, 99u8, 115u8, 98u8, 114u8, 101u8, 97u8, 107u8, 39u8, 62u8,
    ]
}

fn begin_marker_exec() -> (r: Vec<u8>)
    ensures
        r@ == begin_marker(),
{
    let mut v: Vec<u8> = Vec::new();
    v.push(60);
    v.push(100);
    v.push(105);
    v.push(118);
    v.push(32);
    v.push(99);
    v.push(108);
    v.push(97);
    v.push(115);
    v.push(115);
    v.push(61);
    v.push(39);
    v.push(108);
    v.push(121);
    v.push(114);
    v.push(105);
    v.push(99);
    v.push(98);
    v.push(111);
    v.push(120);
    v.push(39);
    v.push(62);
    proof {
        assert(v@ =~= begin_marker());
    }
    v
}

fn end_marker_exec() -> (r: Vec<u8>)
    ensures
        r@ == end_marker(),
{
    let mut v: Vec<u8> = Vec::new();
    v.push(60);
    v.push(100);
    v.push(105);
    v.push(118);
    v.push(32);
    v.push(99);
    v.push(108);
    v.push(97);
    v.push(115);
    v.push(115);
    v.push(61);
    v.push(39);
    v.push(108);
    v.push(121);
    v.push(114);
    v.push(105);
    v.push(99);
    v.push(115);
    v.push(98);
    v.push(114);
    v.push(101);
    v.push(97);
    v.push(107);
    v.push(39);
    v.push(62);
    proof {
        assert(v@ =~= end_marker());
    }
    v
}

/// A Unicode scalar value, as `char::from_u32` accepts them.
pub open spec fn is_scalar(cp: u32) -> bool {
    cp < 0xD800 || (0xE000 <= cp && cp <= 0x10FFFF)
}

/// The UTF-8 encoding of one scalar value.
pub open spec fn utf8_of(cp: u32) -> Seq<u8> {
    if cp < 0x80 {
        seq![cp as u8]
    } else if cp < 0x800 {
        seq![(0xC0 | (cp >> 6)) as u8, (0x80 | (cp & 0x3F)) as u8]
    } else if cp < 0x10000 {
        seq![
            (0xE0 | (cp >> 12)) as u8,
            (0x80 | ((cp >> 6) & 0x3F)) as u8,
            (0x80 | (cp & 0x3F)) as u8,
        ]
    } else {
        seq![
            (0xF0 | (cp >> 18)) as u8,
            (0x80 | ((cp >> 12) & 0x3F)) as u8,
            (0x80 | ((cp >> 6) & 0x3F)) as u8,
            (0x80 | (cp & 0x3F)) as u8,
        ]
    }
}

fn push_utf8(out: &mut Vec<u8>, cp: u32)
    ensures
        final(out)@ == old(out)@ + utf8_of(cp),
{
    if cp < 0x80 {
        out.push(cp as u8);
        proof {
            assert(out@ =~= old(out)@ + utf8_of(cp));
        }
    } else if cp < 0x800 {
        out.push((0xC0 | (cp >> 6)) as u8);
        out.push((0x80 | (cp & 0x3F)) as u8);
        proof {
            assert(out@ =~= old(out)@ + utf8_of(cp));
        }
    } else if cp < 0x10000 {
        out.push((0xE0 | (cp >> 12)) as u8);
        out.push((0x80 | ((cp >> 6) & 0x3F)) as u8);
        out.push((0x80 | (cp & 0x3F)) as u8);
        proof {
            assert(out@ =~= old(out)@ + utf8_of(cp));
        }
    } else {
        out.push((0xF0 | (cp >> 18)) as u8);
        out.push((0x80 | ((cp >> 12) & 0x3F)) as u8);
        out.push((0x80 | ((cp >> 6) & 0x3F)) as u8);
        out.push((0x80 | (cp & 0x3F)) as u8);
        proof {
            assert(out@ =~= old(out)@ + utf8_of(cp));
        }
    }
}

/// `<br />` as bytes.
pub open spec fn br_tag() -> Seq<u8> {
    seq![60u8, 98u8, 114u8, 32u8, 47u8, 62u8]
}

/// What the decoder is in the middle of: plain text, an `&` that may
/// open an entity, the digits of an entity, or the bytes of a tag.
pub enum DecodeMode {
    Text,
    Amp,
    Ent(Seq<u8>),
    Tag(Seq<u8>),
}

/// Decoder state: the bytes emitted so far and the current mode.
pub struct DecodeSt {
    pub out: Seq<u8>,
    pub mode: DecodeMode,
}

/// What an entity's digits emit: the scalar's UTF-8, or nothing for an
/// out-of-range or malformed number.
pub open spec fn ent_emit(digits: Seq<u8>) -> Seq<u8> {
    if text::is_u32_bytes(digits) && is_scalar(text::u32_bytes_val(digits) as u32) {
        utf8_of(text::u32_bytes_val(digits) as u32)
    } else {
        Seq::empty()
    }
}

/// One byte of decoding.
pub open spec fn decode_step(st: DecodeSt, b: u8) -> DecodeSt {
    match st.mode {
        DecodeMode::Text => {
            if b == 38 {
                DecodeSt { mode: DecodeMode::Amp, ..st }
            } else if b == 60 {
                DecodeSt { mode: DecodeMode::Tag(seq![60u8]), ..st }
            } else {
                st
            }
        },
        DecodeMode::Amp => {
            if b == 35 {
                DecodeSt { mode: DecodeMode::Ent(Seq::empty()), ..st }
            } else if b == 38 {
                DecodeSt { mode: DecodeMode::Amp, ..st }
            } else if b == 60 {
                DecodeSt { mode: DecodeMode::Tag(seq![60u8]), ..st }
            } else {
                DecodeSt { mode: DecodeMode::Text, ..st }
            }
        },
        DecodeMode::Ent(digits) => {
            if b == 59 {
                DecodeSt { out: st.out + ent_emit(digits), mode: DecodeMode::Text }
            } else {
                DecodeSt { mode: DecodeMode::Ent(digits.push(b)), ..st }
            }
        },
        DecodeMode::Tag(t) => {
            if b == 62 {
                let tag = t.push(62);
                DecodeSt {
                    out: if tag == br_tag() {
                        st.out + seq![10u8]
                    } else {
                        st.out
                    },
                    mode: DecodeMode::Text,
                }
            } else {
                DecodeSt { mode: DecodeMode::Tag(t.push(b)), ..st }
            }
        },
    }
}

pub open spec fn decode_run(s: Seq<u8>, n: int) -> DecodeSt
    decreases n,
{
    if n <= 0 {
        DecodeSt { out: Seq::empty(), mode: DecodeMode::Text }
    } else {
        decode_step(decode_run(s, n - 1), s[n - 1])
    }
}

/// A dangling entity at the end still emits; a dangling tag does not.
pub open spec fn decode_finish(st: DecodeSt) -> Seq<u8> {
    match st.mode {
        DecodeMode::Ent(digits) => st.out + ent_emit(digits),
        _ => st.out,
    }
}

pub open spec fn decode_spec(s: Seq<u8>) -> Seq<u8> {
    decode_finish(decode_run(s, s.len() as int))
}

/// The lyric text of a page: the slice between the first box marker and
/// the first break marker decoded, or nothing when either marker is
/// missing or the break comes first.
pub open spec fn lyrics_spec(body: Seq<u8>) -> Option<Seq<u8>> {
    if !(exists|i: int| is_match_at(body, begin_marker(), i)) || !(exists|i: int|
        is_match_at(body, end_marker(), i)) {
        None
    } else {
        let b = choose|b: int|
            is_match_at(body, begin_marker(), b) && (forall|k: int|
                0 <= k < b ==> !is_match_at(body, begin_marker(), k));
        let e = choose|e: int|
            is_match_at(body, end_marker(), e) && (forall|k: int|
                0 <= k < e ==> !is_match_at(body, end_marker(), k));
        if e < b + begin_marker().len() {
            None
        } else {
            Some(decode_spec(body.subrange(b + begin_marker().len(), e)))
        }
    }
}

/// Extracts and decodes the lyric text of one page.
#[verifier::rlimit(80)]
pub fn parse_lyricwiki_lyrics(body: &[u8]) -> (r: Option<Vec<u8>>)
    ensures
        r is Some <==> lyrics_spec(body@) is Some,
        r is Some ==> r->0@ == lyrics_spec(body@)->0,
{
    let begin = begin_marker_exec();
    let endm = end_marker_exec();
    let b = match find_sub(body, &begin) {
        Some(b) => b,
        None => {
            return None;
        },
    };
    let e = match find_sub(body, &endm) {
        Some(e) => e,
        None => {
            return None;
        },
    };
    proof {
        let bs = choose|bs: int|
            is_match_at(body@, begin_marker(), bs) && (forall|k: int|
                0 <= k < bs ==> !is_match_at(body@, begin_marker(), k));
        if bs != b as int {
            assert(false);
        }
        let es = choose|es: int|
            is_match_at(body@, end_marker(), es) && (forall|k: int|
                0 <= k < es ==> !is_match_at(body@, end_marker(), k));
        if es != e as int {
            assert(false);
        }
    }
    proof {
        assert(b + begin_marker().len() <= body@.len());
        assert(body@.len() == body.len() as int);
    }
    if e < b + begin.len() {
        return None;
    }
    let start = b + begin.len();
    let ghost boxed = body@.subrange(start as int, e as int);
    let mut out: Vec<u8> = Vec::new();
    let mut digits: Vec<u8> = Vec::new();
    let mut tag: Vec<u8> = Vec::new();
    // 0: text, 1: after `&`, 2: in an entity, 3: in a tag
    let mut mode: u8 = 0;
    let mut i: usize = start;
    while i < e
        invariant
            start <= i <= e <= body@.len(),
            boxed == body@.subrange(start as int, e as int),
            out@ == decode_run(boxed, i - start).out,
            mode <= 3,
            mode == 0 ==> decode_run(boxed, i - start).mode is Text,
            mode == 1 ==> decode_run(boxed, i - start).mode is Amp,
            mode == 2 ==> decode_run(boxed, i - start).mode == DecodeMode::Ent(digits@),
            mode == 3 ==> decode_run(boxed, i - start).mode == DecodeMode::Tag(tag@),
        decreases e - i,
    {
        let ghost st = decode_run(boxed, i - start);
        let byte = body[i];
        proof {
            assert(boxed[i - start] == body@[i as int]);
            assert(decode_run(boxed, i - start + 1) == decode_step(st, byte));
        }
        if mode == 0 {
            if byte == 38 {
                mode = 1;
            } else if byte == 60 {
                mode = 3;
                tag = Vec::new();
                tag.push(60);
                proof {
                    assert(tag@ =~= seq![60u8]);
                }
            }
        } else if mode == 1 {
            if byte == 35 {
                mode = 2;
                digits = Vec::new();
                proof {
                    assert(digits@ =~= Seq::<u8>::empty());
                }
            } else if byte == 38 {
                mode = 1;
            } else if byte == 60 {
                mode = 3;
                tag = Vec::new();
                tag.push(60);
                proof {
                    assert(tag@ =~= seq![60u8]);
                }
            } else {
                mode = 0;
            }
        } else if mode == 2 {
            if byte == 59 {
                match text::parse_u32(&digits) {
                    Some(cp) => {
                        if cp < 0xD800 || (0xE000 <= cp && cp <= 0x10FFFF) {
                            proof {
                                text::lemma_u32_val_bounds(digits@);
                            }
                            push_utf8(&mut out, cp);
                        }
                    },
                    None => {},
                }
                proof {
                    assert(out@ =~= st.out + ent_emit(digits@));
                }
                mode = 0;
            } else {
                digits.push(byte);
            }
        } else {
            if byte == 62 {
                tag.push(62);
                let mut is_br = tag.len() == 6;
                if is_br {
                    is_br = tag[0] == 60 && tag[1] == 98 && tag[2] == 114 && tag[3] == 32
                        && tag[4] == 47 && tag[5] == 62;
                }
                proof {
                    if is_br {
                        assert(tag@ =~= br_tag());
                    } else {
                        assert(tag@ != br_tag()) by {
                            if tag@ == br_tag() {
                                assert(tag@.len() == 6);
                                assert(tag@[0] == 60 && tag@[1] == 98 && tag@[2] == 114
                                    && tag@[3] == 32 && tag@[4] == 47 && tag@[5] == 62);
                            }
                        }
                    }
                }
                if is_br {
                    out.push(10);
                    proof {
                        assert(out@ =~= st.out + seq![10u8]);
                    }
                }
                mode = 0;
            } else {
                tag.push(byte);
            }
        }
        i += 1;
    }
    if mode == 2 {
        match text::parse_u32(&digits) {
            Some(cp) => {
                if cp < 0xD800 || (0xE000 <= cp && cp <= 0x10FFFF) {
                    proof {
                        text::lemma_u32_val_bounds(digits@);
                    }
                    push_utf8(&mut out, cp);
                }
            },
            None => {},
        }
        proof {
            assert(out@ =~= decode_finish(decode_run(boxed, boxed.len() as int)));
        }
    }
    proof {
        assert(boxed.len() == e - start);
        assert(out@ == decode_spec(boxed));
        assert(lyrics_spec(body@) is Some);
        assert(lyrics_spec(body@)->0 == decode_spec(boxed));
    }
    Some(out)
}

} // verus!
