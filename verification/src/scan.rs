//! The scan pipeline: reconciling the catalog with a snapshot of the
//! filesystem trees. The caller walks the real filesystem, probes media
//! files and reads cue sheets, and hands the results in as plain values;
//! everything that decides — node creation and deletion, directory merge,
//! extension dispatch, cue reconciliation, artist and album resolution —
//! runs here against the catalog.

use vstd::prelude::*;

use crate::cue;
use crate::index::{
    child_of, has_child, has_node, inv, node_of, Image, Index, IndexError, Node, NodeType, Track,
};
use crate::text;

verus! {

/// A probed logical track: container indices, tag text and duration in
/// milliseconds.
pub struct MediaTrackInfo {
    pub stream_index: i64,
    pub track_index: Option<i64>,
    pub number: i64,
    pub title: Vec<u8>,
    pub artist: Vec<u8>,
    pub album: Vec<u8>,
    pub album_artist: Option<Vec<u8>>,
    pub duration_ms: i64,
}

/// A probed embedded image.
pub struct MediaImageInfo {
    pub stream_index: i64,
    pub description: Vec<u8>,
    pub width: i64,
    pub height: i64,
}

/// What probing one media file yields.
pub struct MediaInfo {
    pub tracks: Vec<MediaTrackInfo>,
    pub images: Vec<MediaImageInfo>,
}

/// A snapshot of one directory: its modified stamp and entries.
pub struct FsDir {
    pub modified: i64,
    pub entries: Vec<FsEntry>,
}

pub struct FsEntry {
    pub name: Vec<u8>,
    pub item: FsItem,
}

pub enum FsItem {
    Dir(FsDir),
    File(FsFile),
    Other(i64),
}

/// A snapshot of one file: its modified stamp and whatever data the
/// walker loaded for it, matching what `file_kind` asks for its name.
pub struct FsFile {
    pub modified: i64,
    pub data: FileData,
}

pub enum FileData {
    Cue(Vec<u8>),
    Media(Option<MediaInfo>),
    ImageDims(Option<(i64, i64)>),
    Missing,
}

/// Counts of rows the scan inserted.
pub struct ScanStat {
    pub tracks: i32,
    pub images: i32,
}

impl ScanStat {
    pub fn new() -> (r: ScanStat)
        ensures
            r.tracks == 0 && r.images == 0,
    {
        ScanStat { tracks: 0, images: 0 }
    }

    /// Accumulates another count, saturating at `i32::MAX`.
    pub fn add(&mut self, other: &ScanStat)
        requires
            old(self).tracks >= 0,
            old(self).images >= 0,
            other.tracks >= 0,
            other.images >= 0,
        ensures
            final(self).tracks == old(self).tracks as int + other.tracks as int
                || final(self).tracks == i32::MAX,
            final(self).images == old(self).images as int + other.images as int
                || final(self).images == i32::MAX,
            final(self).tracks == old(self).tracks as int + other.tracks as int || old(
                self,
            ).tracks as int + other.tracks as int >= i32::MAX,
            final(self).images == old(self).images as int + other.images as int || old(
                self,
            ).images as int + other.images as int >= i32::MAX,
            final(self).tracks >= 0,
            final(self).images >= 0,
    {
        self.tracks = if other.tracks < i32::MAX - self.tracks {
            self.tracks + other.tracks
        } else {
            i32::MAX
        };
        self.images = if other.images < i32::MAX - self.images {
            self.images + other.images
        } else {
            i32::MAX
        };
    }

    /// Whether anything was inserted.
    pub fn changed(&self) -> (r: bool)
        ensures
            r == (self.tracks > 0 || self.images > 0),
    {
        self.tracks > 0 || self.images > 0
    }
}

/// Position after the last `.` of a name, or 0 when there is none or it
/// starts the name, as `Path::extension` sees it.
pub open spec fn ext_start(name: Seq<u8>) -> int
    decreases name.len(),
{
    if name.len() == 0 {
        0
    } else if name.last() == 46 {
        name.len() - 1
    } else {
        ext_start(name.drop_last())
    }
}

/// The lower-cased extension of a file name, where it has one.
pub open spec fn ext_spec(name: Seq<u8>) -> Option<Seq<u8>> {
    let d = ext_start(name);
    if d <= 0 {
        None
    } else {
        Some(text::lower_seq(name.skip(d + 1)))
    }
}

/// The file-name stem before the extension dot, the whole name without one.
pub open spec fn stem_spec(name: Seq<u8>) -> Seq<u8> {
    let d = ext_start(name);
    if d <= 0 {
        name
    } else {
        name.take(d)
    }
}

proof fn lemma_ext_start(name: Seq<u8>, d: int)
    requires
        0 <= d <= name.len(),
        forall|k: int| d <= k < name.len() ==> name[k] != 46,
        d > 0 ==> name[d - 1] == 46,
    ensures
        d > 0 ==> ext_start(name) == d - 1,
        d == 0 ==> ext_start(name) == 0,
    decreases name.len(),
{
    if name.len() > 0 {
        if d == name.len() {
        } else {
            assert(name.last() != 46);
            assert(forall|k: int| d <= k < name.drop_last().len() ==> name.drop_last()[k] == name[k]);
            lemma_ext_start(name.drop_last(), d);
        }
    }
}

fn find_ext_start(name: &[u8]) -> (r: usize)
    ensures
        r == ext_start(name@),
        name@.len() > 0 ==> r < name@.len(),
        name@.len() == 0 ==> r == 0,
{
    let mut i: usize = name.len();
    while i > 0
        invariant
            i <= name.len(),
            forall|k: int| i <= k < name@.len() ==> name@[k] != 46,
        decreases i,
    {
        if name[i - 1] == 46 {
            proof {
                lemma_ext_start(name@, i as int);
            }
            return i - 1;
        }
        i -= 1;
    }
    proof {
        lemma_ext_start(name@, 0);
    }
    0
}

/// The lower-cased extension, or `None` for names without one.
pub fn extension_of(name: &[u8]) -> (r: Option<Vec<u8>>)
    ensures
        r is Some <==> ext_spec(name@) is Some,
        r is Some ==> r->0@ == ext_spec(name@)->0,
{
    let d = find_ext_start(name);
    if d == 0 {
        None
    } else if d >= name.len() {
        proof {
            assert(false);
        }
        None
    } else {
        let mut raw: Vec<u8> = Vec::new();
        let mut i: usize = d + 1;
        while i < name.len()
            invariant
                d + 1 <= i <= name.len(),
                raw@ =~= name@.subrange(d + 1, i as int),
            decreases name.len() - i,
        {
            raw.push(name[i]);
            i += 1;
        }
        proof {
            assert(raw@ =~= name@.skip(d + 1));
        }
        Some(text::to_lower(&raw))
    }
}

/// The stem used as a standalone image's description.
pub fn stem_of(name: &[u8]) -> (r: Vec<u8>)
    ensures
        r@ == stem_spec(name@),
{
    let d = find_ext_start(name);
    if d == 0 {
        text::clone_bytes(name)
    } else {
        let mut raw: Vec<u8> = Vec::new();
        let mut i: usize = 0;
        while i < d
            invariant
                i <= d <= name.len(),
                raw@ =~= name@.subrange(0, i as int),
            decreases d - i,
        {
            raw.push(name[i]);
            i += 1;
        }
        proof {
            assert(raw@ =~= name@.take(d as int));
        }
        raw
    }
}

#[derive(Clone, Copy, Debug, PartialEq, Eq, Structural)]
pub enum FileKind {
    Cue,
    CoverImage,
    Audio,
}

/// `cue` as extension bytes.
pub open spec fn ext_cue() -> Seq<u8> {
    seq![99u8, 117u8, 101u8]
}

/// The extensions handled as standalone images.
pub open spec fn image_exts() -> Seq<Seq<u8>> {
    seq![
        seq![106u8, 112u8, 103u8],
        seq![106u8, 112u8, 101u8, 103u8],
        seq![112u8, 110u8, 103u8],
        seq![103u8, 105u8, 102u8],
        seq![119u8, 101u8, 98u8, 112u8],
        seq![116u8, 105u8, 102u8],
        seq![116u8, 105u8, 102u8, 102u8],
        seq![116u8, 103u8, 97u8],
        seq![98u8, 109u8, 112u8],
        seq![105u8, 99u8, 111u8],
        seq![104u8, 100u8, 114u8],
        seq![112u8, 98u8, 109u8],
        seq![112u8, 97u8, 109u8],
        seq![112u8, 112u8, 109u8],
        seq![112u8, 103u8, 109u8],
    ]
}

/// How a lower-cased extension dispatches: `cue` to the cue handler, the
/// known image extensions to the image handler, anything else is tried as
/// audio.
pub open spec fn file_kind_spec(ext: Seq<u8>) -> FileKind {
    if ext == ext_cue() {
        FileKind::Cue
    } else if exists|i: int| 0 <= i < image_exts().len() && image_exts()[i] == ext {
        FileKind::CoverImage
    } else {
        FileKind::Audio
    }
}

fn ext_eq_lit3(e: &[u8], a: u8, b: u8, c: u8) -> (r: bool)
    ensures
        r == (e@ =~= seq![a, b, c]),
{
    let r = e.len() == 3 && e[0] == a && e[1] == b && e[2] == c;
    proof {
        if r {
            assert(e@ =~= seq![a, b, c]);
        }
    }
    r
}

fn ext_eq_lit4(e: &[u8], a: u8, b: u8, c: u8, d: u8) -> (r: bool)
    ensures
        r == (e@ =~= seq![a, b, c, d]),
{
    let r = e.len() == 4 && e[0] == a && e[1] == b && e[2] == c && e[3] == d;
    proof {
        if r {
            assert(e@ =~= seq![a, b, c, d]);
        }
    }
    r
}

/// Dispatches a lower-cased extension.
pub fn file_kind(ext: &[u8]) -> (r: FileKind)
    ensures
        r == file_kind_spec(ext@),
{
    if ext_eq_lit3(ext, 99, 117, 101) {
        return FileKind::Cue;
    }
    let is_img = ext_eq_lit3(ext, 106, 112, 103) || ext_eq_lit4(ext, 106, 112, 101, 103)
        || ext_eq_lit3(ext, 112, 110, 103) || ext_eq_lit3(ext, 103, 105, 102) || ext_eq_lit4(
        ext,
        119,
        101,
        98,
        112,
    ) || ext_eq_lit3(ext, 116, 105, 102) || ext_eq_lit4(ext, 116, 105, 102, 102) || ext_eq_lit3(
        ext,
        116,
        103,
        97,
    ) || ext_eq_lit3(ext, 98, 109, 112) || ext_eq_lit3(ext, 105, 99, 111) || ext_eq_lit3(
        ext,
        104,
        100,
        114,
    ) || ext_eq_lit3(ext, 112, 98, 109) || ext_eq_lit3(ext, 112, 97, 109) || ext_eq_lit3(
        ext,
        112,
        112,
        109,
    ) || ext_eq_lit3(ext, 112, 103, 109);
    if is_img {
        proof {
            assert(exists|i: int| 0 <= i < image_exts().len() && image_exts()[i] == ext@) by {
                if ext@ =~= image_exts()[0] {
                } else if ext@ =~= image_exts()[1] {
                } else if ext@ =~= image_exts()[2] {
                } else if ext@ =~= image_exts()[3] {
                } else if ext@ =~= image_exts()[4] {
                } else if ext@ =~= image_exts()[5] {
                } else if ext@ =~= image_exts()[6] {
                } else if ext@ =~= image_exts()[7] {
                } else if ext@ =~= image_exts()[8] {
                } else if ext@ =~= image_exts()[9] {
                } else if ext@ =~= image_exts()[10] {
                } else if ext@ =~= image_exts()[11] {
                } else if ext@ =~= image_exts()[12] {
                } else if ext@ =~= image_exts()[13] {
                } else {
                    assert(ext@ =~= image_exts()[14]);
                }
            }
        }
        FileKind::CoverImage
    } else {
        proof {
            assert(ext@ != ext_cue());
            assert forall|i: int| 0 <= i < image_exts().len() implies image_exts()[i] != ext@ by {
                if image_exts()[i] == ext@ {
                    assert(false);
                }
            }
        }
        FileKind::Audio
    }
}

/// The start of each cue track in milliseconds, from frames of 1/75 s.
pub open spec fn frames_to_ms(frames: u64) -> int {
    (frames * 1000) / 75
}

/// The lengths of cue tracks, computed back to front: each track ends
/// where the next begins, and the last ends at the master's length.
pub open spec fn cue_length_ms(starts: Seq<i64>, master_len_ms: i64, i: int) -> int {
    if i == starts.len() - 1 {
        master_len_ms - starts[i]
    } else {
        starts[i + 1] - starts[i]
    }
}

/// The image row a standalone image file yields.
pub open spec fn standalone_image_row(
    v: crate::index::IndexV,
    node_id: i64,
    name: Seq<u8>,
    w: i64,
    h: i64,
) -> crate::index::ImageV {
    crate::index::ImageV {
        image_id: v.next_image_id,
        node_id,
        stream_index: None,
        description: stem_spec(name),
        width: w,
        height: h,
    }
}

/// Handles one standalone image file: the file name's stem becomes the
/// description; unreadable dimensions insert nothing.
pub fn process_image_file(
    index: &mut Index,
    node_id: i64,
    name: &[u8],
    dims: Option<(i64, i64)>,
) -> (r: Result<ScanStat, IndexError>)
    requires
        inv(old(index)@),
    ensures
        inv(final(index)@),
        dims is None ==> r is Ok && final(index)@ == old(index)@ && r->Ok_0.tracks == 0
            && r->Ok_0.images == 0,
        dims is Some && r is Ok ==> r->Ok_0.tracks == 0 && r->Ok_0.images == 1 && final(index)@
            == (crate::index::IndexV {
            images: old(index)@.images.push(
                standalone_image_row(old(index)@, node_id, name@, (dims->0).0, (dims->0).1),
            ),
            next_image_id: (old(index)@.next_image_id + 1) as i64,
            ..old(index)@
        }),
        r is Err <==> dims is Some && crate::index::create_image_err(old(index)@, node_id) is Some,
        r is Err ==> final(index)@ == old(index)@ && Some(r->Err_0)
            == crate::index::create_image_err(old(index)@, node_id),
{
    let (w, h) = match dims {
        Some(d) => d,
        None => {
            return Ok(ScanStat { tracks: 0, images: 0 });
        },
    };
    let row = Image {
        image_id: 0,
        node_id,
        stream_index: None,
        description: stem_of(name),
        width: w,
        height: h,
    };
    match index.create_image(&row) {
        Ok(_) => {
            proof {
                assert((crate::index::ImageV { image_id: old(index)@.next_image_id, ..row@ })
                    =~= standalone_image_row(old(index)@, node_id, name@, w, h));
            }
            Ok(ScanStat { tracks: 0, images: 1 })
        },
        Err(e) => Err(e),
    }
}

/// Resolves an artist by exact name, creating one if absent.
fn resolve_artist(index: &mut Index, name: &[u8]) -> (r: Result<i64, IndexError>)
    requires
        inv(old(index)@),
    ensures
        inv(final(index)@),
        final(index)@.nodes == old(index)@.nodes,
        final(index)@.tracks == old(index)@.tracks,
        final(index)@.images == old(index)@.images,
        final(index)@.albums == old(index)@.albums,
        final(index)@.album_images == old(index)@.album_images,
        final(index)@.lyrics == old(index)@.lyrics,
        final(index)@.patterns == old(index)@.patterns,
        final(index)@.next_image_id == old(index)@.next_image_id,
        final(index)@.next_track_id == old(index)@.next_track_id,
        final(index)@.next_node_id == old(index)@.next_node_id,
        final(index)@.next_album_id == old(index)@.next_album_id,
        final(index)@.next_artist_id as int <= old(index)@.next_artist_id as int + 1,
        forall|id: i64|
            crate::index::has_artist(old(index)@.artists, id) ==> crate::index::has_artist(
                final(index)@.artists,
                id,
            ),
        r is Ok ==> crate::index::has_artist(final(index)@.artists, r->Ok_0),
        r is Err <==> old(index)@.next_artist_id == i64::MAX && !(exists|i: int|
            0 <= i < old(index)@.artists.len() && (#[trigger] old(index)@.artists[i]).name
                == name@),
        r is Err ==> final(index)@ == old(index)@ && r->Err_0 == IndexError::Full,
    {
    match index.artist_by_name(name) {
        Some(a) => {
            proof {
                let i = choose|i: int|
                    0 <= i < index@.artists.len() && index@.artists[i].name == name@ && a@
                        == index@.artists[i] && (forall|k: int|
                        0 <= k < i ==> index@.artists[k].name != name@);
                crate::index::lemma_artist_at(index@.artists, i);
            }
            Ok(a.artist_id)
        },
        None => {
            match index.create_artist(name) {
                Ok(a) => {
                    proof {
                        crate::index::lemma_artist_at(
                            index@.artists,
                            index@.artists.len() - 1,
                        );
                        assert forall|id: i64|
                            crate::index::has_artist(old(index)@.artists, id) implies crate::index::has_artist(
                            index@.artists,
                            id,
                        ) by {
                            let i = choose|i: int|
                                0 <= i < old(index)@.artists.len()
                                    && old(index)@.artists[i].artist_id == id;
                            assert(index@.artists[i].artist_id == id);
                        }
                    }
                    Ok(a.artist_id)
                },
                Err(e) => Err(e),
            }
        },
    }
}

/// Resolves the album a track should join, creating one if absent.
fn resolve_album(index: &mut Index, node_id: i64, name: &[u8]) -> (r: Result<i64, IndexError>)
    requires
        inv(old(index)@),
    ensures
        inv(final(index)@),
        final(index)@.nodes == old(index)@.nodes,
        final(index)@.tracks == old(index)@.tracks,
        final(index)@.images == old(index)@.images,
        final(index)@.artists == old(index)@.artists,
        final(index)@.album_images == old(index)@.album_images,
        final(index)@.lyrics == old(index)@.lyrics,
        final(index)@.patterns == old(index)@.patterns,
        final(index)@.next_image_id == old(index)@.next_image_id,
        final(index)@.next_track_id == old(index)@.next_track_id,
        final(index)@.next_artist_id == old(index)@.next_artist_id,
        final(index)@.next_node_id == old(index)@.next_node_id,
        final(index)@.next_album_id as int <= old(index)@.next_album_id as int + 1,
        forall|id: i64|
            crate::index::has_album(old(index)@.albums, id) ==> crate::index::has_album(
                final(index)@.albums,
                id,
            ),
        r is Ok ==> crate::index::has_album(final(index)@.albums, r->Ok_0),
        r is Err ==> final(index)@ == old(index)@ && r->Err_0 == IndexError::Full
            && old(index)@.next_album_id == i64::MAX,
{
    match index.find_album(node_id, name) {
        Some(a) => {
            proof {
                if exists|i: int|
                    0 <= i < index@.albums.len() && crate::index::album_dir_match(
                        index@,
                        #[trigger] index@.albums[i],
                        node_id,
                        name@,
                    ) {
                    let i = choose|i: int|
                        0 <= i < index@.albums.len() && crate::index::album_dir_match(
                            index@,
                            #[trigger] index@.albums[i],
                            node_id,
                            name@,
                        ) && a@ == index@.albums[i] && (forall|k: int|
                            0 <= k < i ==> !crate::index::album_dir_match(
                                index@,
                                #[trigger] index@.albums[k],
                                node_id,
                                name@,
                            ));
                    crate::index::lemma_album_at(index@.albums, i);
                } else {
                    let i = choose|i: int|
                        0 <= i < index@.albums.len() && crate::index::album_unused_match(
                            index@,
                            #[trigger] index@.albums[i],
                            name@,
                        ) && a@ == index@.albums[i] && (forall|k: int|
                            0 <= k < i ==> !crate::index::album_unused_match(
                                index@,
                                #[trigger] index@.albums[k],
                                name@,
                            ));
                    crate::index::lemma_album_at(index@.albums, i);
                }
            }
            Ok(a.album_id)
        },
        None => {
            match index.create_album(name) {
                Ok(a) => {
                    proof {
                        crate::index::lemma_album_at(index@.albums, index@.albums.len() - 1);
                        assert forall|id: i64|
                            crate::index::has_album(old(index)@.albums, id) implies crate::index::has_album(
                            index@.albums,
                            id,
                        ) by {
                            let i = choose|i: int|
                                0 <= i < old(index)@.albums.len()
                                    && old(index)@.albums[i].album_id == id;
                            assert(index@.albums[i].album_id == id);
                        }
                    }
                    Ok(a.album_id)
                },
                Err(e) => Err(e),
            }
        },
    }
}

/// Handles one audio file: every probed track is stored with its tags
/// trimmed and its artist and album resolved, then every embedded image.
/// A file with no tracks inserts only its images.
pub fn process_audio_file(index: &mut Index, node_id: i64, info: &MediaInfo) -> (r: Result<
    ScanStat,
    IndexError,
>)
    requires
        inv(old(index)@),
    ensures
        inv(final(index)@),
        final(index)@.nodes == old(index)@.nodes,
        final(index)@.patterns == old(index)@.patterns,
        final(index)@.lyrics == old(index)@.lyrics,
        final(index)@.album_images == old(index)@.album_images,
        r is Ok ==> (r->Ok_0.tracks == info.tracks@.len() || r->Ok_0.tracks == i32::MAX) && (
        r->Ok_0.images == info.images@.len() || r->Ok_0.images == i32::MAX),
        r is Ok && info.tracks@.len() < i32::MAX ==> r->Ok_0.tracks == info.tracks@.len(),
        r is Ok && info.images@.len() < i32::MAX ==> r->Ok_0.images == info.images@.len(),
        has_node(old(index)@.nodes, node_id) && old(index)@.next_track_id as int
            + info.tracks@.len() <= i64::MAX && old(index)@.next_artist_id as int + 2
            * info.tracks@.len() <= i64::MAX && old(index)@.next_album_id as int
            + info.tracks@.len() <= i64::MAX && old(index)@.next_image_id as int
            + info.images@.len() <= i64::MAX ==> r is Ok,
        r is Ok ==> final(index)@.tracks.len() == old(index)@.tracks.len() + info.tracks@.len(),
        r is Ok ==> forall|k: int|
            0 <= k < old(index)@.tracks.len() ==> #[trigger] final(index)@.tracks[k] == old(
                index,
            )@.tracks[k],
        r is Ok ==> forall|k: int|
            0 <= k < info.tracks@.len()
                ==> {
                let t = #[trigger] final(index)@.tracks[old(index)@.tracks.len() + k];
                let it = info.tracks@[k];
                &&& t.node_id == node_id
                &&& t.stream_index == it.stream_index
                &&& t.track_index == it.track_index
                &&& t.start is None
                &&& t.number == it.number
                &&& t.title == text::trim_spec(it.title@)
                &&& t.artist_name == text::trim_spec(it.artist@)
                &&& t.album_name == text::trim_spec(it.album@)
                &&& t.length == it.duration_ms
            },
        info.tracks@.len() == 0 && r is Ok ==> final(index)@.tracks == old(index)@.tracks
            && final(index)@.artists == old(index)@.artists && final(index)@.albums == old(
            index,
        )@.albums,
        r is Ok ==> final(index)@.images.len() == old(index)@.images.len() + info.images@.len(),
        r is Ok ==> forall|k: int|
            0 <= k < old(index)@.images.len() ==> #[trigger] final(index)@.images[k] == old(
                index,
            )@.images[k],
        r is Ok ==> forall|k: int|
            0 <= k < info.images@.len()
                ==> {
                let im = #[trigger] final(index)@.images[old(index)@.images.len() + k];
                let ii = info.images@[k];
                &&& im.node_id == node_id
                &&& im.stream_index == Some(ii.stream_index)
                &&& im.description == ii.description@
                &&& im.width == ii.width
                &&& im.height == ii.height
            },
{
    let ghost v0 = index@;
    let mut stat = ScanStat { tracks: 0, images: 0 };
    let mut k: usize = 0;
    while k < info.tracks.len()
        invariant
            inv(index@),
            v0 == old(index)@,
            k <= info.tracks@.len(),
            stat.tracks == k as int || stat.tracks == i32::MAX,
            k < i32::MAX ==> stat.tracks == k as int,
            stat.tracks >= 0,
            stat.images == 0,
            index@.nodes == v0.nodes,
            index@.patterns == v0.patterns,
            index@.lyrics == v0.lyrics,
            index@.album_images == v0.album_images,
            index@.images == v0.images,
            index@.next_image_id == v0.next_image_id,
            index@.next_track_id as int == v0.next_track_id as int + k,
            index@.next_artist_id as int <= v0.next_artist_id as int + 2 * k,
            index@.next_album_id as int <= v0.next_album_id as int + k,
            index@.tracks.len() == v0.tracks.len() + k,
            k == 0 ==> index@.artists == v0.artists && index@.albums == v0.albums
                && index@.tracks == v0.tracks,
            forall|j: int|
                0 <= j < v0.tracks.len() ==> #[trigger] index@.tracks[j] == v0.tracks[j],
            forall|j: int|
                0 <= j < k
                    ==> {
                    let t = #[trigger] index@.tracks[v0.tracks.len() + j];
                    let it = info.tracks@[j];
                    &&& t.node_id == node_id
                    &&& t.stream_index == it.stream_index
                    &&& t.track_index == it.track_index
                    &&& t.start is None
                    &&& t.number == it.number
                    &&& t.title == text::trim_spec(it.title@)
                    &&& t.artist_name == text::trim_spec(it.artist@)
                    &&& t.album_name == text::trim_spec(it.album@)
                    &&& t.length == it.duration_ms
                },
        decreases info.tracks@.len() - k,
    {
        proof {
            assert(info.tracks@[k as int] == info.tracks@[k as int]);
        }
        let it = &info.tracks[k];
        let artist_name = text::trim_bytes(&it.artist);
        let album_name = text::trim_bytes(&it.album);
        let artist_id = match resolve_artist(index, &artist_name) {
            Ok(id) => id,
            Err(e) => {
                return Err(e);
            },
        };
        let album_id = match resolve_album(index, node_id, &album_name) {
            Ok(id) => id,
            Err(e) => {
                return Err(e);
            },
        };
        let (aa_id, aa_name) = match &it.album_artist {
            Some(an) => {
                let an_t = text::trim_bytes(an);
                let id = match resolve_artist(index, &an_t) {
                    Ok(id) => id,
                    Err(e) => {
                        return Err(e);
                    },
                };
                (Some(id), Some(an_t))
            },
            None => (None, None),
        };
        let row = Track {
            track_id: 0,
            node_id,
            stream_index: it.stream_index,
            track_index: it.track_index,
            start: None,
            number: it.number,
            title: text::trim_bytes(&it.title),
            artist_id,
            artist_name,
            album_id,
            album_name,
            album_artist_id: aa_id,
            album_artist_name: aa_name,
            length: it.duration_ms,
        };
        match index.create_track(&row) {
            Ok(_) => {},
            Err(e) => {
                return Err(e);
            },
        }
        if stat.tracks < i32::MAX {
            stat.tracks = stat.tracks + 1;
        }
        k += 1;
    }
    let ghost vmid = index@;
    let ghost tn = info.tracks@.len() as int;
    let mut k: usize = 0;
    while k < info.images.len()
        invariant
            inv(index@),
            v0 == old(index)@,
            vmid.images == v0.images,
            k <= info.images@.len(),
            stat.images == k as int || stat.images == i32::MAX,
            k < i32::MAX ==> stat.images == k as int,
            stat.images >= 0,
            stat.tracks == tn || stat.tracks == i32::MAX,
            tn < i32::MAX ==> stat.tracks == tn,
            tn == info.tracks@.len() as int,
            index@.next_image_id as int == v0.next_image_id as int + k,
            index@.nodes == v0.nodes,
            index@.patterns == v0.patterns,
            index@.lyrics == v0.lyrics,
            index@.album_images == v0.album_images,
            index@.tracks == vmid.tracks,
            index@.artists == vmid.artists,
            index@.albums == vmid.albums,
            vmid.tracks.len() == v0.tracks.len() + info.tracks@.len(),
            forall|j: int|
                0 <= j < v0.tracks.len() ==> #[trigger] vmid.tracks[j] == v0.tracks[j],
            forall|j: int|
                0 <= j < info.tracks@.len()
                    ==> {
                    let t = #[trigger] vmid.tracks[v0.tracks.len() + j];
                    let it = info.tracks@[j];
                    &&& t.node_id == node_id
                    &&& t.stream_index == it.stream_index
                    &&& t.track_index == it.track_index
                    &&& t.start is None
                    &&& t.number == it.number
                    &&& t.title == text::trim_spec(it.title@)
                    &&& t.artist_name == text::trim_spec(it.artist@)
                    &&& t.album_name == text::trim_spec(it.album@)
                    &&& t.length == it.duration_ms
                },
            info.tracks@.len() == 0 ==> vmid.tracks == v0.tracks && vmid.artists == v0.artists
                && vmid.albums == v0.albums,
            index@.images.len() == v0.images.len() + k,
            forall|j: int|
                0 <= j < v0.images.len() ==> #[trigger] index@.images[j] == v0.images[j],
            forall|j: int|
                0 <= j < k
                    ==> {
                    let im = #[trigger] index@.images[v0.images.len() + j];
                    let ii = info.images@[j];
                    &&& im.node_id == node_id
                    &&& im.stream_index == Some(ii.stream_index)
                    &&& im.description == ii.description@
                    &&& im.width == ii.width
                    &&& im.height == ii.height
                },
        decreases info.images@.len() - k,
    {
        let ii = &info.images[k];
        let row = Image {
            image_id: 0,
            node_id,
            stream_index: Some(ii.stream_index),
            description: text::clone_bytes(&ii.description),
            width: ii.width,
            height: ii.height,
        };
        match index.create_image(&row) {
            Ok(_) => {},
            Err(e) => {
                return Err(e);
            },
        }
        if stat.images < i32::MAX {
            stat.images = stat.images + 1;
        }
        k += 1;
    }
    Ok(stat)
}

/// A node can only have ancestors with ids no larger than its own.
proof fn lemma_ancestor_le(ns: Seq<crate::index::NodeV>, id: i64, target: i64)
    requires
        crate::index::has_ancestor(ns, id, target),
    ensures
        target <= id,
    decreases id,
{
    if id != target {
        let p = node_of(ns, id).parent_id->0;
        lemma_ancestor_le(ns, p, target);
    }
}

/// What the catalog should hold after resolving one filesystem object
/// that had no usable row: the fresh node appended with a zero stamp.
pub open spec fn prepare_created_spec(
    v: crate::index::IndexV,
    kind: NodeType,
    pid: Option<i64>,
    name: Seq<u8>,
) -> crate::index::IndexV {
    crate::index::IndexV {
        nodes: v.nodes.push(crate::index::new_node_row(v, kind, pid, name, 0)),
        next_node_id: (v.next_node_id + 1) as i64,
        ..v
    }
}

/// Resolves the catalog node for one filesystem object: an existing child
/// row of the right kind is reused; one of the wrong kind is deleted with
/// its subtree and recreated; a missing one is created.
pub fn prepare_node(
    index: &mut Index,
    parent: Option<&Node>,
    name: &[u8],
    kind: NodeType,
) -> (r: Result<Node, IndexError>)
    requires
        inv(old(index)@),
    ensures
        inv(final(index)@),
        final(index)@.patterns == old(index)@.patterns,
        r is Ok ==> {
            let n = r->Ok_0;
            &&& n@.node_type == kind
            &&& has_node(final(index)@.nodes, n@.node_id)
            &&& node_of(final(index)@.nodes, n@.node_id) == n@
            &&& n@.name == name@
            &&& n@.parent_id == (match parent {
                Some(p) => Some(p@.node_id),
                None => None,
            })
        },
        (match old(index)@ {
            v0 => has_child(
                v0.nodes,
                match parent {
                    Some(p) => Some(p@.node_id),
                    None => None,
                },
                name@,
            ) && child_of(
                v0.nodes,
                match parent {
                    Some(p) => Some(p@.node_id),
                    None => None,
                },
                name@,
            ).node_type == kind
        }) ==> final(index)@ == old(index)@ && r is Ok && r->Ok_0@ == child_of(
            old(index)@.nodes,
            match parent {
                Some(p) => Some(p@.node_id),
                None => None,
            },
            name@,
        ),
        ({
            let pid = match parent {
                Some(p) => Some(p@.node_id),
                None => None,
            };
            &&& (!has_child(old(index)@.nodes, pid, name@) && r is Ok ==> final(index)@
                == prepare_created_spec(old(index)@, kind, pid, name@))
            &&& (!has_child(old(index)@.nodes, pid, name@) && r is Err ==> final(index)@ == old(
                index,
            )@)
            &&& (has_child(old(index)@.nodes, pid, name@) && child_of(
                old(index)@.nodes,
                pid,
                name@,
            ).node_type != kind && r is Ok ==> final(index)@ == prepare_created_spec(
                crate::index::delete_node_spec(
                    old(index)@,
                    child_of(old(index)@.nodes, pid, name@).node_id,
                ),
                kind,
                pid,
                name@,
            ))
            &&& (has_child(old(index)@.nodes, pid, name@) && child_of(
                old(index)@.nodes,
                pid,
                name@,
            ).node_type != kind && r is Err ==> final(index)@ == crate::index::delete_node_spec(
                old(index)@,
                child_of(old(index)@.nodes, pid, name@).node_id,
            ))
        }),
{
    let pid: Option<i64> = match parent {
        Some(p) => Some(p.node_id),
        None => None,
    };
    match index.node_by_name(pid, name) {
        Some(n) => {
            if n.node_type.to_i64() == kind.to_i64() {
                proof {
                    assert(n@ == child_of(index@.nodes, pid, name@));
                    let i = choose|i: int|
                        0 <= i < index@.nodes.len() && index@.nodes[i].parent_id == pid
                            && index@.nodes[i].name == name@;
                    crate::index::lemma_node_at(index@.nodes, i);
                    assert(n@.node_type == kind);
                }
                Ok(n)
            } else {
                index.delete_node(n.node_id);
                match index.create_node(kind, pid, name, 0) {
                    Ok(created) => {
                        proof {
                            crate::index::lemma_node_at(
                                index@.nodes,
                                index@.nodes.len() - 1,
                            );
                        }
                        Ok(created)
                    },
                    Err(e) => Err(e),
                }
            }
        },
        None => {
            match index.create_node(kind, pid, name, 0) {
                Ok(created) => {
                    proof {
                        crate::index::lemma_node_at(index@.nodes, index@.nodes.len() - 1);
                    }
                    Ok(created)
                },
                Err(e) => Err(e),
            }
        },
    }
}

/// The first snapshot entry with this name, if any.
fn find_entry<'a>(dir: &'a FsDir, name: &[u8]) -> (r: Option<&'a FsEntry>)
    ensures
        r is Some ==> exists|i: int|
            0 <= i < dir.entries@.len() && *r->0 == dir.entries@[i] && dir.entries@[i].name@
                == name@,
{
    let mut i: usize = 0;
    while i < dir.entries.len()
        invariant
            i <= dir.entries@.len(),
        decreases dir.entries@.len() - i,
    {
        if text::bytes_eq(&dir.entries[i].name, name) {
            proof {
                assert(dir.entries@[i as int].name@ == name@);
            }
            return Some(&dir.entries[i]);
        }
        i += 1;
    }
    None
}

/// Linking a sibling to its master and then stamping it leaves a row
/// findable by name with the master and the stamp set, and leaves the
/// track and image tables alone.
proof fn cue_file_final_shape(
    v_master: crate::index::IndexV,
    v_tracks: crate::index::IndexV,
    v_final: crate::index::IndexV,
    sib: crate::index::NodeV,
    cid: i64,
    m: i64,
)
    requires
        inv(v_tracks),
        inv(v_final),
        has_node(v_master.nodes, sib.node_id),
        node_of(v_master.nodes, sib.node_id) == (crate::index::NodeV {
            master_id: Some(cid),
            ..sib
        }),
        v_tracks.nodes == v_master.nodes,
        v_tracks.images == v_master.images,
        v_final == (crate::index::IndexV {
            nodes: v_tracks.nodes.update(
                crate::index::node_idx(v_tracks.nodes, sib.node_id),
                (crate::index::NodeV {
                    modified: m,
                    ..node_of(v_tracks.nodes, sib.node_id)
                }),
            ),
            ..v_tracks
        }),
    ensures
        has_child(v_final.nodes, sib.parent_id, sib.name),
        child_of(v_final.nodes, sib.parent_id, sib.name) == (crate::index::NodeV {
            master_id: Some(cid),
            modified: m,
            ..sib
        }),
        v_final.tracks == v_tracks.tracks,
        v_final.images == v_tracks.images,
{
    let mrow = crate::index::NodeV { master_id: Some(cid), ..sib };
    assert(has_node(v_tracks.nodes, sib.node_id));
    assert(node_of(v_tracks.nodes, sib.node_id) == mrow);
    let i2 = crate::index::node_idx(v_tracks.nodes, sib.node_id);
    assert(0 <= i2 < v_tracks.nodes.len() && v_tracks.nodes[i2].node_id == sib.node_id);
    let frow = crate::index::NodeV { modified: m, ..mrow };
    assert(v_final.nodes == v_tracks.nodes.update(i2, frow));
    crate::index::lemma_update_node(v_tracks.nodes, i2, frow);
    assert(has_node(v_final.nodes, sib.node_id));
    assert(node_of(v_final.nodes, sib.node_id) == frow);
    let i3 = crate::index::node_idx(v_final.nodes, sib.node_id);
    assert(0 <= i3 < v_final.nodes.len() && v_final.nodes[i3].node_id == sib.node_id);
    assert(v_final.nodes[i3] == frow) by {
        crate::index::lemma_node_at(v_final.nodes, i3);
    }
    crate::index::lemma_child_at(v_final.nodes, i3);
    assert(frow =~= (crate::index::NodeV { master_id: Some(cid), modified: m, ..sib }));
}

/// The cue starts of one section in milliseconds, or nothing when one
/// overflows the representable range.
fn compute_cue_starts(file: &cue::File) -> (r: Option<Vec<i64>>)
    ensures
        r is Some <==> starts_ok(file.tracks.deep_view()),
        r is Some ==> {
            let tracksv = file.tracks.deep_view();
            &&& r->0@.len() == tracksv.len()
            &&& (forall|k: int|
                0 <= k < tracksv.len() ==> frames_to_ms((#[trigger] tracksv[k]).start)
                    <= i64::MAX && r->0@[k] == frames_to_ms(tracksv[k].start) as i64)
        },
{
    let ghost tracksv = file.tracks.deep_view();
    let mut starts: Vec<i64> = Vec::new();
    let mut ti: usize = 0;
    while ti < file.tracks.len()
        invariant
            ti <= file.tracks@.len(),
            tracksv == file.tracks.deep_view(),
            starts@.len() == ti as int,
            forall|k: int|
                0 <= k < ti ==> (#[trigger] tracksv[k].start) * 1000 <= u64::MAX && frames_to_ms(
                    tracksv[k].start,
                ) <= i64::MAX && starts@[k] == frames_to_ms(tracksv[k].start) as i64,
        decreases file.tracks@.len() - ti,
    {
        proof {
            assert(file.tracks@[ti as int]@ == tracksv[ti as int]);
        }
        let fr = file.tracks[ti].start;
        match fr.checked_mul(1000) {
            Some(x) => {
                let ms = x / 75;
                if ms > i64::MAX as u64 {
                    proof {
                        assert(frames_to_ms(tracksv[ti as int].start) > i64::MAX);
                        assert(!starts_ok(tracksv));
                    }
                    return None;
                }
                starts.push(ms as i64);
            },
            None => {
                proof {
                    assert((tracksv[ti as int].start) * 1000 > u64::MAX);
                    assert(!starts_ok(tracksv));
                }
                return None;
            },
        }
        ti += 1;
    }
    Some(starts)
}

/// Resolves a cue `FILE`'s referenced sibling as a catalog file node,
/// clears its rows and marks its content as owned by the cue node. `None`
/// when the sibling cannot be prepared or the master link is refused.
#[verifier::rlimit(100)]
fn link_cue_sibling(
    index: &mut Index,
    parent: &Node,
    cue_node: &Node,
    path: &[u8],
) -> (r: Option<Node>)
    requires
        inv(old(index)@),
    ensures
        inv(final(index)@),
        final(index)@.patterns == old(index)@.patterns,
        r is Some ==> {
            let v1 = final(index)@;
            let sib = r->0@;
            &&& sib.node_type == NodeType::File
            &&& sib.name == path@
            &&& sib.parent_id == Some(parent@.node_id)
            &&& has_node(v1.nodes, sib.node_id)
            &&& node_of(v1.nodes, sib.node_id) == (crate::index::NodeV {
                master_id: Some(cue_node@.node_id),
                ..sib
            })
            &&& (forall|k: int|
                0 <= k < v1.tracks.len() ==> (#[trigger] v1.tracks[k]).node_id != sib.node_id)
            &&& (forall|k: int|
                0 <= k < v1.images.len() ==> (#[trigger] v1.images[k]).node_id != sib.node_id)
        },
{
    let sibling = match prepare_node(index, Some(parent), path, NodeType::File) {
        Ok(n) => n,
        Err(_) => {
            return None;
        },
    };
    let ghost v_prep = index@;
    index.clear_node(sibling.node_id);
    let ghost v_clear = index@;
    match index.set_node_master(sibling.node_id, cue_node.node_id) {
        Ok(_) => {},
        Err(_) => {
            return None;
        },
    }
    let ghost v_master = index@;
    let ghost sid = sibling@.node_id;
    proof {
        assert(has_node(v_clear.nodes, sid)) by {
            assert(v_clear.nodes == v_prep.nodes);
        }
        assert(node_of(v_clear.nodes, sid) == sibling@) by {
            assert(v_clear.nodes == v_prep.nodes);
        }
        assert(forall|k: int|
            0 <= k < v_clear.tracks.len() ==> (#[trigger] v_clear.tracks[k]).node_id != sid) by {
            assert forall|k: int| 0 <= k < v_clear.tracks.len() implies (
            #[trigger] v_clear.tracks[k]).node_id != sid by {
                v_prep.tracks.lemma_filter_pred(|t: crate::index::TrackV| t.node_id != sid, k);
            }
        }
        assert(forall|k: int|
            0 <= k < v_clear.images.len() ==> (#[trigger] v_clear.images[k]).node_id != sid) by {
            assert forall|k: int| 0 <= k < v_clear.images.len() implies (
            #[trigger] v_clear.images[k]).node_id != sid by {
                v_prep.images.lemma_filter_pred(|im: crate::index::ImageV| im.node_id != sid, k);
            }
        }
        assert(v_master == (crate::index::IndexV {
            nodes: v_clear.nodes.update(
                crate::index::node_idx(v_clear.nodes, sid),
                (crate::index::NodeV {
                    master_id: Some(cue_node@.node_id),
                    ..node_of(v_clear.nodes, sid)
                }),
            ),
            ..v_clear
        }));
        assert(v_clear.nodes[crate::index::node_idx(v_clear.nodes, sid)].node_id == sid);
        crate::index::lemma_update_node(
            v_clear.nodes,
            crate::index::node_idx(v_clear.nodes, sid),
            (crate::index::NodeV {
                master_id: Some(cue_node@.node_id),
                ..node_of(v_clear.nodes, sid)
            }),
        );
        assert(has_node(v_master.nodes, sid));
        assert(node_of(v_master.nodes, sid) == (crate::index::NodeV {
            master_id: Some(cue_node@.node_id),
            ..sibling@
        }));
        assert(v_master.tracks == v_clear.tracks);
        assert(v_master.images == v_clear.images);
    }
    Some(sibling)
}

/// The cue starts of one `FILE` section all fit the millisecond range.
pub open spec fn starts_ok(tracks: Seq<cue::TrackV>) -> bool {
    forall|k: int|
        0 <= k < tracks.len() ==> (#[trigger] tracks[k].start) * 1000 <= u64::MAX
            && frames_to_ms(tracks[k].start) <= i64::MAX
}

/// A difference clamped to zero when it leaves the representable range.
pub open spec fn sub_or_zero(a: int, b: int) -> int {
    if i64::MIN <= a - b && a - b <= i64::MAX {
        a - b
    } else {
        0
    }
}

/// The length of cue track `k` of `n`: up to the next start, the last up
/// to the master's probed length.
pub open spec fn cue_track_len(tracks: Seq<cue::TrackV>, dur_ms: i64, k: int) -> int {
    if k + 1 < tracks.len() {
        sub_or_zero(frames_to_ms(tracks[k + 1].start), frames_to_ms(tracks[k].start))
    } else {
        sub_or_zero(dur_ms as int, frames_to_ms(tracks[k].start))
    }
}

/// Inserts the virtual tracks of one cue `FILE` section onto a cleared
/// sibling: one row per cue track, starts in milliseconds, lengths up to
/// the next start (the last up to the master's probed length), tags
/// trimmed, album named after the disc, and the disc performer as album
/// artist when nonempty.
#[verifier::rlimit(100)]
fn insert_cue_tracks(
    index: &mut Index,
    sibling: &Node,
    disc_title: &[u8],
    disc_performer: &[u8],
    file: &cue::File,
    starts: &Vec<i64>,
    info: &MediaInfo,
) -> (r: Result<(), IndexError>)
    requires
        inv(old(index)@),
        info.tracks@.len() > 0,
        starts@.len() == file.tracks@.len(),
        forall|k: int|
            0 <= k < file.tracks.deep_view().len() ==> frames_to_ms(
                (#[trigger] file.tracks.deep_view()[k]).start,
            ) <= i64::MAX && starts@[k] == frames_to_ms(file.tracks.deep_view()[k].start) as i64,
    ensures
        inv(final(index)@),
        final(index)@.patterns == old(index)@.patterns,
        final(index)@.nodes == old(index)@.nodes,
        final(index)@.images == old(index)@.images,
        r is Ok ==> {
            let n = file.tracks@.len() as int;
            let v1 = final(index)@;
            &&& v1.tracks.len() == old(index)@.tracks.len() + n
            &&& (forall|k: int|
                0 <= k < old(index)@.tracks.len() ==> #[trigger] v1.tracks[k] == old(
                    index,
                )@.tracks[k])
            &&& (forall|k: int|
                0 <= k < n
                    ==> {
                    let t = #[trigger] v1.tracks[old(index)@.tracks.len() + k];
                    let ct = file.tracks.deep_view()[k];
                    &&& t.node_id == sibling@.node_id
                    &&& t.stream_index == info.tracks@[0].stream_index
                    &&& t.track_index == info.tracks@[0].track_index
                    &&& t.start == Some(frames_to_ms(ct.start) as i64)
                    &&& t.number == ct.number as i64
                    &&& t.title == text::trim_spec(ct.title)
                    &&& t.artist_name == text::trim_spec(ct.performer)
                    &&& t.album_name == disc_title@
                    &&& t.album_artist_name == (if disc_performer@.len() > 0 {
                        Some(disc_performer@)
                    } else {
                        None
                    })
                    &&& t.length == cue_track_len(
                        file.tracks.deep_view(),
                        info.tracks@[0].duration_ms,
                        k,
                    )
                })
        },
{
    let ghost v_master = old(index)@;
    let ghost tracksv = file.tracks.deep_view();
    let ghost sid = sibling@.node_id;
    let file_track = &info.tracks[0];
    let mut inserted: usize = 0;
    while inserted < file.tracks.len()
        invariant
            inv(index@),
            tracksv == file.tracks.deep_view(),
            tracksv.len() == file.tracks@.len(),
            info.tracks@.len() > 0,
            *file_track == info.tracks@[0],
            starts@.len() == tracksv.len(),
            forall|k: int|
                0 <= k < tracksv.len() ==> frames_to_ms(tracksv[k].start) <= i64::MAX
                    && #[trigger] starts@[k] == frames_to_ms(tracksv[k].start) as i64,
            inserted <= tracksv.len(),
            index@.patterns == v_master.patterns,
            v_master == old(index)@,
            index@.nodes == v_master.nodes,
            index@.images == v_master.images,
            index@.tracks.len() == v_master.tracks.len() + inserted,
            forall|k: int|
                0 <= k < v_master.tracks.len() ==> #[trigger] index@.tracks[k]
                    == v_master.tracks[k],
            sid == sibling@.node_id,
            forall|k: int|
                0 <= k < inserted
                    ==> {
                    let t = #[trigger] index@.tracks[v_master.tracks.len() + k];
                    let ct = tracksv[k];
                    &&& t.node_id == sid
                    &&& t.stream_index == info.tracks@[0].stream_index
                    &&& t.track_index == info.tracks@[0].track_index
                    &&& t.start == Some(frames_to_ms(ct.start) as i64)
                    &&& t.number == ct.number as i64
                    &&& t.title == text::trim_spec(ct.title)
                    &&& t.artist_name == text::trim_spec(ct.performer)
                    &&& t.album_name == disc_title@
                    &&& t.album_artist_name == (if disc_performer@.len() > 0 {
                        Some(disc_performer@)
                    } else {
                        None
                    })
                    &&& t.length == cue_track_len(tracksv, info.tracks@[0].duration_ms, k)
                },
        decreases file.tracks@.len() - inserted,
    {
        let ti = inserted;
        proof {
            assert(file.tracks@[ti as int]@ == tracksv[ti as int]);
        }
        let ct = &file.tracks[ti];
        let start_ms = starts[ti];
        let length_ms: i64 = if ti + 1 < starts.len() {
            match starts[ti + 1].checked_sub(start_ms) {
                Some(d) => d,
                None => 0,
            }
        } else {
            match file_track.duration_ms.checked_sub(start_ms) {
                Some(d) => d,
                None => 0,
            }
        };
        let artist_name = text::trim_bytes(&ct.performer);
        let album_name = text::clone_bytes(disc_title);
        let artist_id = match resolve_artist(index, &artist_name) {
            Ok(id) => id,
            Err(e) => {
                return Err(e);
            },
        };
        let album_id = match resolve_album(index, sibling.node_id, &album_name) {
            Ok(id) => id,
            Err(e) => {
                return Err(e);
            },
        };
        let (aa_id, aa_name) = if disc_performer.len() > 0 {
            let id = match resolve_artist(index, disc_performer) {
                Ok(id) => id,
                Err(e) => {
                    return Err(e);
                },
            };
            (Some(id), Some(text::clone_bytes(disc_performer)))
        } else {
            (None, None)
        };
        let row = Track {
            track_id: 0,
            node_id: sibling.node_id,
            stream_index: file_track.stream_index,
            track_index: file_track.track_index,
            start: Some(start_ms),
            number: ct.number as i64,
            title: text::trim_bytes(&ct.title),
            artist_id,
            artist_name,
            album_id,
            album_name,
            album_artist_id: aa_id,
            album_artist_name: aa_name,
            length: length_ms,
        };
        match index.create_track(&row) {
            Ok(_) => {},
            Err(e) => {
                return Err(e);
            },
        }
        inserted += 1;
    }
    Ok(())
}

/// Applies one `FILE` section of a cue sheet: resolves the referenced
/// sibling as a catalog file node, replaces its tracks and images by the
/// cue's virtual tracks, marks its content as owned by the cue node and
/// stamps it with the probed time. `Ok(None)` means the section was
/// skipped (the sibling could not be prepared, a start overflowed, or the
/// master link was refused); `Ok(Some(n))` that all `n` virtual tracks
/// were stored.
#[verifier::rlimit(100)]
pub fn apply_cue_file(
    index: &mut Index,
    parent: &Node,
    cue_node: &Node,
    disc_title: &[u8],
    disc_performer: &[u8],
    file: &cue::File,
    sib_modified: i64,
    info: &MediaInfo,
) -> (r: Result<Option<usize>, IndexError>)
    requires
        inv(old(index)@),
        file.tracks@.len() > 0,
        info.tracks@.len() > 0,
    ensures
        inv(final(index)@),
        final(index)@.patterns == old(index)@.patterns,
        r is Ok && r->Ok_0 is Some ==> {
            let n = file.tracks@.len() as int;
            let v1 = final(index)@;
            &&& r->Ok_0->0 == n
            &&& has_child(v1.nodes, Some(parent@.node_id), file.path@)
            &&& {
                let srow = child_of(v1.nodes, Some(parent@.node_id), file.path@);
                &&& srow.node_type == NodeType::File
                &&& srow.master_id == Some(cue_node@.node_id)
                &&& srow.modified == sib_modified
                &&& v1.tracks.len() >= n
                &&& (forall|k: int|
                    0 <= k < n
                        ==> {
                        let t = #[trigger] v1.tracks[v1.tracks.len() - n + k];
                        let ct = file.tracks.deep_view()[k];
                        &&& t.node_id == srow.node_id
                        &&& t.stream_index == info.tracks@[0].stream_index
                        &&& t.track_index == info.tracks@[0].track_index
                        &&& t.start == Some(frames_to_ms(ct.start) as i64)
                        &&& t.number == ct.number as i64
                        &&& t.title == text::trim_spec(ct.title)
                        &&& t.artist_name == text::trim_spec(ct.performer)
                        &&& t.album_name == disc_title@
                        &&& t.album_artist_name == (if disc_performer@.len() > 0 {
                            Some(disc_performer@)
                        } else {
                            None
                        })
                        &&& t.length == cue_track_len(
                            file.tracks.deep_view(),
                            info.tracks@[0].duration_ms,
                            k,
                        )
                    })
                &&& (forall|k: int|
                    0 <= k < v1.tracks.len() - n ==> (#[trigger] v1.tracks[k]).node_id
                        != srow.node_id)
                &&& (forall|k: int|
                    0 <= k < v1.images.len() ==> (#[trigger] v1.images[k]).node_id
                        != srow.node_id)
            }
        },
        !starts_ok(file.tracks.deep_view()) ==> r is Ok && r->Ok_0 is None,
{
    let ghost tracksv = file.tracks.deep_view();
    let starts = match compute_cue_starts(file) {
        Some(v) => v,
        None => {
            return Ok(None);
        },
    };
    let sibling = match link_cue_sibling(index, parent, cue_node, &file.path) {
        Some(n) => n,
        None => {
            return Ok(None);
        },
    };
    let ghost v_master = index@;
    let ghost sid = sibling@.node_id;
    match insert_cue_tracks(
        index,
        &sibling,
        disc_title,
        disc_performer,
        file,
        &starts,
        info,
    ) {
        Ok(_) => {},
        Err(e) => {
            return Err(e);
        },
    }
    let ghost v_tracks = index@;
    index.set_node_modified(sibling.node_id, sib_modified);
    proof {
        assert(has_node(v_tracks.nodes, sibling@.node_id)) by {
            assert(v_tracks.nodes == v_master.nodes);
        }
        cue_file_final_shape(
            v_master,
            v_tracks,
            index@,
            sibling@,
            cue_node@.node_id,
            sib_modified,
        );
        let v1 = index@;
        let n = tracksv.len() as int;
        assert(v1.tracks == v_tracks.tracks && v1.images == v_tracks.images);
        assert(v1.tracks.len() == v_master.tracks.len() + n);
        assert(forall|k: int|
            0 <= k < v1.tracks.len() - n ==> (#[trigger] v1.tracks[k]).node_id != sid);
        assert(forall|k: int|
            0 <= k < v1.images.len() ==> (#[trigger] v1.images[k]).node_id != sid);
        let srow = child_of(v1.nodes, sibling@.parent_id, sibling@.name);
        assert(srow.node_id == sid && srow.node_type == NodeType::File && srow.master_id == Some(
            cue_node@.node_id,
        ) && srow.modified == sib_modified);
    }
    Ok(Some(file.tracks.len()))
}

/// Handles one cue sheet: for each `FILE` whose referenced sibling can be
/// resolved and probed, the sibling's rows are replaced by the cue's
/// virtual tracks and its content marked as owned by the cue node. A
/// sheet with no `FILE` entries writes nothing.
pub fn process_cue_file(
    index: &mut Index,
    parent: &Node,
    cue_node: &Node,
    cue_text: &[u8],
    dir: &FsDir,
) -> (r: Result<ScanStat, IndexError>)
    requires
        inv(old(index)@),
    ensures
        inv(final(index)@),
        final(index)@.patterns == old(index)@.patterns,
        cue::cue_spec(cue_text@).files.len() == 0 ==> r is Ok && final(index)@ == old(index)@
            && r->Ok_0.tracks == 0 && r->Ok_0.images == 0,
        r is Ok ==> r->Ok_0.tracks >= 0 && r->Ok_0.images == 0,
{
    let sheet = cue::parse_cue(cue_text);
    let mut stat = ScanStat { tracks: 0, images: 0 };
    if sheet.files.len() == 0 {
        return Ok(stat);
    }
    let disc_title = text::trim_bytes(&sheet.title);
    let disc_performer = text::trim_bytes(&sheet.performer);
    let mut fi: usize = 0;
    proof {
        assert(sheet@.files.len() == sheet.files@.len());
    }
    while fi < sheet.files.len()
        invariant
            inv(index@),
            stat.tracks >= 0,
            stat.images == 0,
            index@.patterns == old(index)@.patterns,
            cue::cue_spec(cue_text@).files.len() != 0,
        decreases sheet.files@.len() - fi,
    {
        let file = &sheet.files[fi];
        fi += 1;
        if file.tracks.len() == 0 {
            continue ;
        }
        let entry = match find_entry(dir, &file.path) {
            Some(e) => e,
            None => {
                continue ;
            },
        };
        let (sib_modified, info) = match &entry.item {
            FsItem::File(f) => {
                match &f.data {
                    FileData::Media(Some(m)) => (f.modified, m),
                    _ => {
                        continue ;
                    },
                }
            },
            _ => {
                continue ;
            },
        };
        if info.tracks.len() == 0 {
            continue ;
        }
        match apply_cue_file(
            index,
            parent,
            cue_node,
            &disc_title,
            &disc_performer,
            file,
            sib_modified,
            info,
        ) {
            Ok(Some(n)) => {
                let add = if n as u64 > i32::MAX as u64 {
                    i32::MAX
                } else {
                    n as i32
                };
                stat.add(&ScanStat { tracks: add, images: 0 });
            },
            Ok(None) => {},
            Err(e) => {
                return Err(e);
            },
        }
    }
    Ok(stat)
}

/// The catalog kind a snapshot item resolves to.
pub open spec fn item_kind(item: FsItem) -> NodeType {
    match item {
        FsItem::Dir(_) => NodeType::Directory,
        FsItem::File(_) => NodeType::File,
        FsItem::Other(_) => NodeType::Other,
    }
}

/// The snapshot item's modified stamp.
pub open spec fn item_modified(item: FsItem) -> i64 {
    match item {
        FsItem::Dir(d) => d.modified,
        FsItem::File(f) => f.modified,
        FsItem::Other(m) => m,
    }
}

/// The catalog with one node's modified stamp rewritten.
pub open spec fn stamped_spec(v: crate::index::IndexV, id: i64, m: i64) -> crate::index::IndexV {
    crate::index::IndexV {
        nodes: v.nodes.update(
            crate::index::node_idx(v.nodes, id),
            (crate::index::NodeV { modified: m, ..node_of(v.nodes, id) }),
        ),
        ..v
    }
}

/// Scans one snapshot item against the catalog: directories are merged
/// with their catalog children (known children first, then new names, and
/// children gone from the snapshot deleted), changed files are cleared and
/// re-read through the extension dispatch, and a changed directory ends
/// with the album reconciliation and a fresh modified stamp.
pub fn scan_item(
    index: &mut Index,
    parent: Option<&Node>,
    dir: Option<&FsDir>,
    name: &[u8],
    item: &FsItem,
) -> (r: Result<ScanStat, IndexError>)
    requires
        inv(old(index)@),
    ensures
        inv(final(index)@),
        final(index)@.patterns == old(index)@.patterns,
        r is Ok ==> r->Ok_0.tracks >= 0 && r->Ok_0.images >= 0,
        ({
            // a known, unchanged file or plain entry is left untouched; a
            // changed file whose content a master owns gets only a fresh
            // stamp
            let pid = match parent {
                Some(p) => Some(p@.node_id),
                None => None,
            };
            let v0 = old(index)@;
            let known = has_child(v0.nodes, pid, name@) && child_of(v0.nodes, pid, name@).node_type
                == item_kind(*item);
            let row = child_of(v0.nodes, pid, name@);
            &&& (known && item_kind(*item) == NodeType::File && row.modified == item_modified(
                *item,
            ) ==> r is Ok && final(index)@ == v0 && r->Ok_0.tracks == 0 && r->Ok_0.images == 0)
            &&& (known && item_kind(*item) == NodeType::File && row.modified != item_modified(
                *item,
            ) && row.master_id is Some ==> r is Ok && final(index)@ == stamped_spec(
                v0,
                row.node_id,
                item_modified(*item),
            ) && r->Ok_0.tracks == 0 && r->Ok_0.images == 0)
            &&& (known && item_kind(*item) == NodeType::Other && row.modified == item_modified(
                *item,
            ) ==> r is Ok && final(index)@ == v0 && r->Ok_0.tracks == 0 && r->Ok_0.images == 0)
            &&& (known && item_kind(*item) == NodeType::Other && row.modified != item_modified(
                *item,
            ) ==> r is Ok && final(index)@ == stamped_spec(v0, row.node_id, item_modified(*item))
                && r->Ok_0.tracks == 0 && r->Ok_0.images == 0)
        }),
    decreases *item,
{
    let kind = match item {
        FsItem::Dir(_) => NodeType::Directory,
        FsItem::File(_) => NodeType::File,
        FsItem::Other(_) => NodeType::Other,
    };
    let fs_modified = match item {
        FsItem::Dir(d) => d.modified,
        FsItem::File(f) => f.modified,
        FsItem::Other(m) => *m,
    };
    let node = match prepare_node(index, parent, name, kind) {
        Ok(n) => n,
        Err(e) => {
            return Err(e);
        },
    };
    let mut stat = ScanStat { tracks: 0, images: 0 };
    match item {
        FsItem::Dir(d) => {
            let dir_changed = node.modified != d.modified;
            let children = index.nodes_by_parent(Some(node.node_id));
            let mut known: Vec<bool> = vec_false(d.entries.len());
            let mut ci: usize = 0;
            while ci < children.len()
                invariant
                    inv(index@),
                    index@.patterns == old(index)@.patterns,
                    known@.len() == d.entries@.len(),
                    stat.tracks >= 0,
                    stat.images >= 0,
                    *item == FsItem::Dir(*d),
                decreases children@.len() - ci,
            {
                let child = &children[ci];
                ci += 1;
                let mut found = false;
                let mut ei: usize = 0;
                while ei < d.entries.len()
                    invariant
                        known@.len() == d.entries@.len(),
                        ei <= d.entries@.len(),
                    decreases d.entries@.len() - ei,
                {
                    if text::bytes_eq(&d.entries[ei].name, &child.name) {
                        found = true;
                        known.set(ei, true);
                        break ;
                    }
                    ei += 1;
                }
                if found {
                    let sub_name = text::clone_bytes(&child.name);
                    let mut ei: usize = 0;
                    while ei < d.entries.len()
                        invariant
                            inv(index@),
                            index@.patterns == old(index)@.patterns,
                            stat.tracks >= 0,
                            stat.images >= 0,
                            *item == FsItem::Dir(*d),
                        decreases d.entries@.len() - ei,
                    {
                        if text::bytes_eq(&d.entries[ei].name, &sub_name) {
                            proof {
                                broadcast use vstd::seq::axiom_seq_index_decreases;

                                assert(*d == (*item)->Dir_0);
                                assert(decreases_to!(*item => (*item)->Dir_0));
                                assert(*d == (*item)->Dir_0);
                            assert(decreases_to!(*item => (*item)->Dir_0));
                            assert(decreases_to!(*item => *d));
                                assert(decreases_to!(*d => d.entries@));
                                assert(decreases_to!(d.entries@ => d.entries@[ei as int]));
                                assert(decreases_to!(d.entries@[ei as int] => d.entries@[ei as int].item));
                                assert(decreases_to!(*item => d.entries@[ei as int].item));
                            }
                            match scan_item(
                                index,
                                Some(&node),
                                Some(d),
                                &sub_name,
                                &d.entries[ei].item,
                            ) {
                                Ok(s) => {
                                    stat.add(&s);
                                },
                                Err(_) => {},
                            }
                            break ;
                        }
                        ei += 1;
                    }
                } else {
                    index.delete_node(child.node_id);
                }
            }
            if dir_changed {
                let mut ei: usize = 0;
                while ei < d.entries.len()
                    invariant
                        inv(index@),
                        index@.patterns == old(index)@.patterns,
                        known@.len() == d.entries@.len(),
                        ei <= d.entries@.len(),
                        stat.tracks >= 0,
                        stat.images >= 0,
                        *item == FsItem::Dir(*d),
                    decreases d.entries@.len() - ei,
                {
                    if !known[ei] {
                        proof {
                            broadcast use vstd::seq::axiom_seq_index_decreases;

                            assert(*d == (*item)->Dir_0);
                            assert(decreases_to!(*item => (*item)->Dir_0));
                            assert(decreases_to!(*item => *d));
                            assert(decreases_to!(*d => d.entries@));
                            assert(decreases_to!(d.entries@ => d.entries@[ei as int]));
                            assert(decreases_to!(d.entries@[ei as int] => d.entries@[ei as int].item));
                            assert(decreases_to!(*item => d.entries@[ei as int].item));
                        }
                        match scan_item(
                            index,
                            Some(&node),
                            Some(d),
                            &d.entries[ei].name,
                            &d.entries[ei].item,
                        ) {
                            Ok(s) => {
                                stat.add(&s);
                            },
                            Err(_) => {},
                        }
                    }
                    ei += 1;
                }
            }
            if stat.changed() {
                index.process_node_updates(node.node_id);
            }
            if node.modified != d.modified {
                index.set_node_modified(node.node_id, d.modified);
            }
        },
        FsItem::File(f) => {
            if node.modified != f.modified {
                if node.master_id.is_none() {
                    index.clear_node(node.node_id);
                    match extension_of(name) {
                        Some(ext) => {
                            match file_kind(&ext) {
                                FileKind::Cue => {
                                    match (&f.data, parent, dir) {
                                        (FileData::Cue(tx), Some(p), Some(dd)) => {
                                            match process_cue_file(index, p, &node, tx, dd) {
                                                Ok(s) => {
                                                    stat.add(&s);
                                                },
                                                Err(e) => {
                                                    return Err(e);
                                                },
                                            }
                                        },
                                        _ => {},
                                    }
                                },
                                FileKind::CoverImage => {
                                    match &f.data {
                                        FileData::ImageDims(dims) => {
                                            match process_image_file(
                                                index,
                                                node.node_id,
                                                name,
                                                *dims,
                                            ) {
                                                Ok(s) => {
                                                    stat.add(&s);
                                                },
                                                Err(e) => {
                                                    return Err(e);
                                                },
                                            }
                                        },
                                        _ => {},
                                    }
                                },
                                FileKind::Audio => {
                                    match &f.data {
                                        FileData::Media(Some(info)) => {
                                            match process_audio_file(
                                                index,
                                                node.node_id,
                                                info,
                                            ) {
                                                Ok(s) => {
                                                    stat.add(&s);
                                                },
                                                Err(e) => {
                                                    return Err(e);
                                                },
                                            }
                                        },
                                        _ => {},
                                    }
                                },
                            }
                        },
                        None => {},
                    }
                    index.set_node_modified(node.node_id, f.modified);
                } else {
                    index.set_node_modified(node.node_id, f.modified);
                }
            }
        },
        FsItem::Other(m) => {
            if node.modified != *m {
                index.set_node_modified(node.node_id, *m);
            }
        },
    }
    Ok(stat)
}

fn vec_false(n: usize) -> (r: Vec<bool>)
    ensures
        r@.len() == n,
{
    let mut v: Vec<bool> = Vec::new();
    let mut i: usize = 0;
    while i < n
        invariant
            v@.len() == i as int,
            i <= n,
        decreases n - i,
    {
        v.push(false);
        i += 1;
    }
    v
}

/// Installs the seed cover patterns and scans every root in order. The
/// caller supplies one snapshot directory per root.
pub fn scan_roots(index: &mut Index, roots: &Vec<(Vec<u8>, FsDir)>, patterns: Vec<Vec<u8>>) -> (r:
    ScanStat)
    requires
        inv(old(index)@),
    ensures
        inv(final(index)@),
        final(index)@.patterns == patterns.deep_view(),
        r.tracks >= 0 && r.images >= 0,
{
    let ghost pv = patterns.deep_view();
    index.set_album_image_patterns(patterns);
    let mut stat = ScanStat { tracks: 0, images: 0 };
    let mut i: usize = 0;
    while i < roots.len()
        invariant
            inv(index@),
            index@.patterns == pv,
            pv == patterns.deep_view(),
            stat.tracks >= 0,
            stat.images >= 0,
        decreases roots@.len() - i,
    {
        match scan_root(index, &roots[i].0, &roots[i].1) {
            Ok(s) => {
                stat.add(&s);
            },
            Err(_) => {},
        }
        i += 1;
    }
    stat
}

/// A configured root whose filesystem path can no longer be read: its
/// catalog node and everything under it are removed, and the root is
/// otherwise left alone.
pub fn remove_missing_root(index: &mut Index, root_name: &[u8])
    requires
        inv(old(index)@),
    ensures
        inv(final(index)@),
        !has_child(old(index)@.nodes, None, root_name@) ==> final(index)@ == old(index)@,
        has_child(old(index)@.nodes, None, root_name@) ==> final(index)@
            == crate::index::delete_node_spec(
            old(index)@,
            child_of(old(index)@.nodes, None, root_name@).node_id,
        ),
{
    match index.node_by_name(None, root_name) {
        Some(n) => {
            index.delete_node(n.node_id);
        },
        None => {},
    }
}

/// Scans one named root directory.
pub fn scan_root(index: &mut Index, root_name: &[u8], dir: &FsDir) -> (r: Result<
    ScanStat,
    IndexError,
>)
    requires
        inv(old(index)@),
    ensures
        inv(final(index)@),
        final(index)@.patterns == old(index)@.patterns,
        r is Ok ==> r->Ok_0.tracks >= 0 && r->Ok_0.images >= 0,
{
    let node = match prepare_node(index, None, root_name, NodeType::Directory) {
        Ok(n) => n,
        Err(e) => {
            return Err(e);
        },
    };
    let mut stat = ScanStat { tracks: 0, images: 0 };
    let dir_changed = node.modified != dir.modified;
    let children = index.nodes_by_parent(Some(node.node_id));
    let mut known: Vec<bool> = vec_false(dir.entries.len());
    let mut ci: usize = 0;
    while ci < children.len()
        invariant
            inv(index@),
            index@.patterns == old(index)@.patterns,
            known@.len() == dir.entries@.len(),
            stat.tracks >= 0,
            stat.images >= 0,
        decreases children@.len() - ci,
    {
        let child = &children[ci];
        ci += 1;
        let mut found_at: Option<usize> = None;
        let mut ei: usize = 0;
        while ei < dir.entries.len()
            invariant
                known@.len() == dir.entries@.len(),
                ei <= dir.entries@.len(),
                found_at is Some ==> found_at->0 < dir.entries@.len(),
            decreases dir.entries@.len() - ei,
        {
            if text::bytes_eq(&dir.entries[ei].name, &child.name) {
                found_at = Some(ei);
                known.set(ei, true);
                break ;
            }
            ei += 1;
        }
        match found_at {
            Some(ei) => {
                match scan_item(
                    index,
                    Some(&node),
                    Some(dir),
                    &dir.entries[ei].name,
                    &dir.entries[ei].item,
                ) {
                    Ok(s) => {
                        stat.add(&s);
                    },
                    Err(_) => {},
                }
            },
            None => {
                index.delete_node(child.node_id);
            },
        }
    }
    if dir_changed {
        let mut ei: usize = 0;
        while ei < dir.entries.len()
            invariant
                inv(index@),
                index@.patterns == old(index)@.patterns,
                known@.len() == dir.entries@.len(),
                ei <= dir.entries@.len(),
                stat.tracks >= 0,
                stat.images >= 0,
            decreases dir.entries@.len() - ei,
        {
            if !known[ei] {
                match scan_item(
                    index,
                    Some(&node),
                    Some(dir),
                    &dir.entries[ei].name,
                    &dir.entries[ei].item,
                ) {
                    Ok(s) => {
                        stat.add(&s);
                    },
                    Err(_) => {},
                }
            }
            ei += 1;
        }
    }
    if stat.changed() {
        index.process_node_updates(node.node_id);
    }
    if node.modified != dir.modified {
        index.set_node_modified(node.node_id, dir.modified);
    }
    Ok(stat)
}

} // verus!
