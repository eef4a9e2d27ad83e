//! The cover-thumbnail pipeline: decode an image from bytes, scale it to
//! a bounding box when a size cap asks for less than the original, and
//! encode the result as JPEG at quality 70, cached under
//! `image:{id}_{size}`. The decoding, scaling and encoding are the image
//! library's; their results are named, and everything that decides — when
//! to scale, what key to cache under, when the cached bytes are served —
//! is verified against those names.

use vstd::prelude::*;

use crate::cache;
use crate::text;

verus! {

#[verifier::external_type_specification]
#[verifier::external_body]
pub struct ExDynamicImage(image::DynamicImage);

/// Whether the image library can decode these bytes at all; a function of
/// the bytes alone.
pub uninterp spec fn decode_ok(data: Seq<u8>) -> bool;

/// The pixel width the bytes decode to.
pub uninterp spec fn decoded_width(data: Seq<u8>) -> u32;

/// The pixel height the bytes decode to.
pub uninterp spec fn decoded_height(data: Seq<u8>) -> u32;

/// The JPEG (quality 70) encoding of the decoded bytes, scaled to fit a
/// bounding box when one was applied; a function of the source bytes and
/// the applied box alone.
pub uninterp spec fn jpeg70_of(data: Seq<u8>, resized: Option<u32>) -> Seq<u8>;

/// Whether that encoding succeeds. The encoder writes to memory and
/// refuses only over-large pixel dimensions, so success too is a function
/// of the source bytes and the applied box alone.
pub uninterp spec fn jpeg70_ok(data: Seq<u8>, resized: Option<u32>) -> bool;

/// A decoded image, remembering the bytes it came from and the bounding
/// box applied to it.
pub struct Decoded {
    img: image::DynamicImage,
    src: Ghost<Seq<u8>>,
    resized_to: Ghost<Option<u32>>,
}

impl Decoded {
    pub closed spec fn spec_src(&self) -> Seq<u8> {
        self.src@
    }

    pub closed spec fn spec_resized_to(&self) -> Option<u32> {
        self.resized_to@
    }
}

/// Relies on image::load_from_memory: whether bytes decode depends on
/// the bytes alone.
#[verifier::external_body]
fn decode_raw(data: &[u8]) -> (r: Option<image::DynamicImage>)
    ensures
        r is Some <==> decode_ok(data@),
{
    match image::load_from_memory(data) {
        Ok(img) => Some(img),
        Err(_) => None,
    }
}

fn decode_image(data: &[u8]) -> (r: Option<Decoded>)
    ensures
        r is Some <==> decode_ok(data@),
        r is Some ==> r->0.spec_src() == data@ && r->0.spec_resized_to() is None,
{
    match decode_raw(data) {
        Some(img) => Some(
            Decoded { img, src: Ghost(data@), resized_to: Ghost(None) },
        ),
        None => None,
    }
}

/// Relies on image::GenericImageView::dimensions: an unscaled image keeps
/// the decoded pixel sizes.
#[verifier::external_body]
fn dimensions_of(d: &Decoded) -> (r: (u32, u32))
    ensures
        d.spec_resized_to() is None ==> r == (
            decoded_width(d.spec_src()),
            decoded_height(d.spec_src()),
        ),
{
    let (w, h) = image::GenericImageView::dimensions(&d.img);
    (w, h)
}

/// Relies on image::DynamicImage::resize: scaling to a bounding box with
/// the Lanczos3 filter, aspect ratio kept.
#[verifier::external_body]
fn resize_raw(img: &image::DynamicImage, size: u32) -> (r: image::DynamicImage)
{
    img.resize(size, size, image::imageops::FilterType::Lanczos3)
}

fn resize_image(d: &Decoded, size: u32) -> (r: Decoded)
    ensures
        r.spec_src() == d.spec_src(),
        r.spec_resized_to() == Some(size),
{
    Decoded {
        img: resize_raw(&d.img, size),
        src: Ghost(d.spec_src()),
        resized_to: Ghost(Some(size)),
    }
}

/// Relies on image::DynamicImage::write_with_encoder with a quality-70
/// JPEG encoder: the encoder writes to an in-memory buffer and fails only
/// on the format's pixel-dimension limit, so both the output and success
/// depend on the decoded source and the applied box alone.
#[verifier::external_body]
fn encode_jpeg70(d: &Decoded) -> (r: Option<Vec<u8>>)
    ensures
        r is Some <==> jpeg70_ok(d.spec_src(), d.spec_resized_to()),
        r is Some ==> r->0@ == jpeg70_of(d.spec_src(), d.spec_resized_to()),
{
    let mut out: Vec<u8> = Vec::new();
    let enc = image::codecs::jpeg::JpegEncoder::new_with_quality(
        std::io::Cursor::new(&mut out),
        70,
    );
    match d.img.write_with_encoder(enc) {
        Ok(_) => Some(out),
        Err(_) => None,
    }
}

/// The bounding box a size cap applies to these bytes: none when the cap
/// is zero or at least as large as both sides, else the cap itself.
pub open spec fn applied_box(data: Seq<u8>, size: i64) -> Option<u32> {
    if size == 0 || size >= vstd::math::max(
        decoded_width(data) as int,
        decoded_height(data) as int,
    ) {
        None
    } else {
        Some(size as u32)
    }
}

/// The thumbnail served for these bytes under a size cap: the decoded
/// image re-encoded as it is when the cap is zero or at least as large as
/// both sides, else scaled to fit the cap first. Succeeds exactly when
/// the bytes decode and the chosen encoding succeeds.
pub fn render_thumbnail(data: &[u8], size: i64) -> (r: Option<Vec<u8>>)
    ensures
        0 <= size && decode_ok(data@) ==> (r is Some <==> jpeg70_ok(data@, applied_box(data@, size))),
        !decode_ok(data@) ==> r is None,
        r is Some ==> r->0@ == jpeg70_of(data@, applied_box(data@, size)),
        r is Some ==> decode_ok(data@) && 0 <= size,
{
    if size < 0 {
        return None;
    }
    let d = match decode_image(data) {
        Some(d) => d,
        None => {
            return None;
        },
    };
    let (w, h) = dimensions_of(&d);
    let maxdim: u32 = if w > h {
        w
    } else {
        h
    };
    if size > 0 && (size as u64) < (maxdim as u64) {
        let d2 = resize_image(&d, size as u32);
        encode_jpeg70(&d2)
    } else {
        encode_jpeg70(&d)
    }
}

/// `image:{id}_{size}`, the cache key of one thumbnail.
pub open spec fn cache_key_spec(image_id: i64, size: i64) -> Seq<u8> {
    seq![105u8, 109u8, 97u8, 103u8, 101u8, 58u8] + text::dec_repr_int(image_id as int) + seq![95u8]
        + text::dec_repr_int(size as int)
}

pub fn thumbnail_cache_key(image_id: i64, size: i64) -> (r: Vec<u8>)
    ensures
        r@ == cache_key_spec(image_id, size),
{
    let mut v: Vec<u8> = Vec::new();
    v.push(105);
    v.push(109);
    v.push(97);
    v.push(103);
    v.push(101);
    v.push(58);
    let ghost pre = v@;
    proof {
        assert(pre =~= seq![105u8, 109u8, 97u8, 103u8, 101u8, 58u8]);
    }
    let id_part = text::i64_to_dec(image_id);
    let mut i: usize = 0;
    while i < id_part.len()
        invariant
            i <= id_part.len(),
            v@ =~= pre + id_part@.take(i as int),
            pre == seq![105u8, 109u8, 97u8, 103u8, 101u8, 58u8],
            id_part@ == text::dec_repr_int(image_id as int),
        decreases id_part.len() - i,
    {
        v.push(id_part[i]);
        i += 1;
    }
    v.push(95);
    let ghost pre2 = v@;
    proof {
        assert(id_part@.take(id_part@.len() as int) =~= id_part@);
        assert(pre2 =~= pre + id_part@ + seq![95u8]);
    }
    let sz_part = text::i64_to_dec(size);
    let mut i: usize = 0;
    while i < sz_part.len()
        invariant
            i <= sz_part.len(),
            v@ =~= pre2 + sz_part@.take(i as int),
            pre2 == seq![105u8, 109u8, 97u8, 103u8, 101u8, 58u8] + text::dec_repr_int(
                image_id as int,
            ) + seq![95u8],
            sz_part@ == text::dec_repr_int(size as int),
        decreases sz_part.len() - i,
    {
        v.push(sz_part[i]);
        i += 1;
    }
    proof {
        assert(sz_part@.take(sz_part@.len() as int) =~= sz_part@);
        assert(v@ =~= cache_key_spec(image_id, size));
    }
    v
}

/// Renders one thumbnail and stores it in the cache under its key; what
/// the caller serves afterwards is exactly what later cache reads of the
/// same key return.
pub fn render_and_cache(
    c: &mut cache::Cache,
    image_id: i64,
    size: i64,
    data: &[u8],
    now: i64,
) -> (r: Option<Vec<u8>>)
    requires
        old(c).wf(),
    ensures
        final(c).wf(),
        final(c).spec_enabled() == old(c).spec_enabled(),
        final(c).spec_max_size() == old(c).spec_max_size(),
        0 <= size && decode_ok(data@) ==> (r is Some <==> jpeg70_ok(
            data@,
            applied_box(data@, size),
        )),
        !decode_ok(data@) ==> r is None,
        r is None ==> final(c)@ == old(c)@,
        r is Some ==> r->0@ == jpeg70_of(data@, applied_box(data@, size)),
        r is Some && old(c).spec_enabled() ==> final(c)@ == cache::evict_spec(
            cache::upsert_spec(
                old(c)@,
                (cache::CacheEntryV {
                    key: cache_key_spec(image_id, size),
                    value: r->0@,
                    last_access: now,
                }),
            ),
            old(c).spec_max_size() as int,
        ),
{
    let blob = match render_thumbnail(data, size) {
        Some(b) => b,
        None => {
            return None;
        },
    };
    let key = thumbnail_cache_key(image_id, size);
    c.set_blob(&key, &blob, now);
    Some(blob)
}

} // verus!
