//! The relational catalog: nodes observed on the filesystem, their tracks
//! and images, albums, artists, album/cover links and per-track lyrics.
//! All rows live in one `Index` value; every operation keeps the catalog
//! invariant `inv`: unique ids, referential integrity (a track's artist and
//! album exist, a virtual track's node has a master), and the path law
//! (a node's path is its parent's path, `/`, and its name).

use vstd::prelude::*;

use crate::text;

verus! {

#[derive(Clone, Copy, Debug, PartialEq, Eq, Structural)]
pub enum NodeType {
    Other,
    Directory,
    File,
}

impl NodeType {
    /// The stored integer form: directories are 1, files 2, anything
    /// else 0.
    pub fn from_i64(v: i64) -> (r: NodeType)
        ensures
            r == spec_node_type_from_i64(v),
    {
        match v {
            1 => NodeType::Directory,
            2 => NodeType::File,
            _ => NodeType::Other,
        }
    }

    pub fn to_i64(self) -> (r: i64)
        ensures
            r == spec_node_type_to_i64(self),
    {
        match self {
            NodeType::Other => 0,
            NodeType::Directory => 1,
            NodeType::File => 2,
        }
    }
}

pub open spec fn spec_node_type_from_i64(v: i64) -> NodeType {
    if v == 1 {
        NodeType::Directory
    } else if v == 2 {
        NodeType::File
    } else {
        NodeType::Other
    }
}

pub open spec fn spec_node_type_to_i64(t: NodeType) -> i64 {
    match t {
        NodeType::Other => 0,
        NodeType::Directory => 1,
        NodeType::File => 2,
    }
}

/// A filesystem object observed under a root. `name` is the last path
/// component and `path` the full catalog path, both raw bytes; `master_id`
/// links a cue-described audio file to the cue node that owns its content.
pub struct Node {
    pub node_id: i64,
    pub node_type: NodeType,
    pub parent_id: Option<i64>,
    pub master_id: Option<i64>,
    pub name: Vec<u8>,
    pub path: Vec<u8>,
    pub modified: i64,
}

#[verifier::ext_equal]
pub struct NodeV {
    pub node_id: i64,
    pub node_type: NodeType,
    pub parent_id: Option<i64>,
    pub master_id: Option<i64>,
    pub name: Seq<u8>,
    pub path: Seq<u8>,
    pub modified: i64,
}

impl View for Node {
    type V = NodeV;

    open spec fn view(&self) -> NodeV {
        NodeV {
            node_id: self.node_id,
            node_type: self.node_type,
            parent_id: self.parent_id,
            master_id: self.master_id,
            name: self.name@,
            path: self.path@,
            modified: self.modified,
        }
    }
}

impl DeepView for Node {
    type V = NodeV;

    open spec fn deep_view(&self) -> NodeV {
        self.view()
    }
}

/// A playable unit. `start` is set only for virtual tracks cut out of a
/// cue-described master; `start` and `length` are milliseconds.
pub struct Track {
    pub track_id: i64,
    pub node_id: i64,
    pub stream_index: i64,
    pub track_index: Option<i64>,
    pub start: Option<i64>,
    pub number: i64,
    pub title: Vec<u8>,
    pub artist_id: i64,
    pub artist_name: Vec<u8>,
    pub album_id: i64,
    pub album_name: Vec<u8>,
    pub album_artist_id: Option<i64>,
    pub album_artist_name: Option<Vec<u8>>,
    pub length: i64,
}

#[verifier::ext_equal]
pub struct TrackV {
    pub track_id: i64,
    pub node_id: i64,
    pub stream_index: i64,
    pub track_index: Option<i64>,
    pub start: Option<i64>,
    pub number: i64,
    pub title: Seq<u8>,
    pub artist_id: i64,
    pub artist_name: Seq<u8>,
    pub album_id: i64,
    pub album_name: Seq<u8>,
    pub album_artist_id: Option<i64>,
    pub album_artist_name: Option<Seq<u8>>,
    pub length: i64,
}

pub open spec fn opt_bytes_view(v: Option<Vec<u8>>) -> Option<Seq<u8>> {
    match v {
        Some(b) => Some(b@),
        None => None,
    }
}

impl View for Track {
    type V = TrackV;

    open spec fn view(&self) -> TrackV {
        TrackV {
            track_id: self.track_id,
            node_id: self.node_id,
            stream_index: self.stream_index,
            track_index: self.track_index,
            start: self.start,
            number: self.number,
            title: self.title@,
            artist_id: self.artist_id,
            artist_name: self.artist_name@,
            album_id: self.album_id,
            album_name: self.album_name@,
            album_artist_id: self.album_artist_id,
            album_artist_name: opt_bytes_view(self.album_artist_name),
            length: self.length,
        }
    }
}

impl DeepView for Track {
    type V = TrackV;

    open spec fn deep_view(&self) -> TrackV {
        self.view()
    }
}

/// A cover image, standalone (`stream_index` null) or embedded in an
/// audio container.
pub struct Image {
    pub image_id: i64,
    pub node_id: i64,
    pub stream_index: Option<i64>,
    pub description: Vec<u8>,
    pub width: i64,
    pub height: i64,
}

#[verifier::ext_equal]
pub struct ImageV {
    pub image_id: i64,
    pub node_id: i64,
    pub stream_index: Option<i64>,
    pub description: Seq<u8>,
    pub width: i64,
    pub height: i64,
}

impl View for Image {
    type V = ImageV;

    open spec fn view(&self) -> ImageV {
        ImageV {
            image_id: self.image_id,
            node_id: self.node_id,
            stream_index: self.stream_index,
            description: self.description@,
            width: self.width,
            height: self.height,
        }
    }
}

impl DeepView for Image {
    type V = ImageV;

    open spec fn deep_view(&self) -> ImageV {
        self.view()
    }
}

pub struct Artist {
    pub artist_id: i64,
    pub name: Vec<u8>,
}

#[verifier::ext_equal]
pub struct ArtistV {
    pub artist_id: i64,
    pub name: Seq<u8>,
}

impl View for Artist {
    type V = ArtistV;

    open spec fn view(&self) -> ArtistV {
        ArtistV { artist_id: self.artist_id, name: self.name@ }
    }
}

impl DeepView for Artist {
    type V = ArtistV;

    open spec fn deep_view(&self) -> ArtistV {
        self.view()
    }
}

/// An album; `artist_id`/`artist_name` and the representative `image_id`
/// are derived from its tracks after each directory scan.
pub struct Album {
    pub album_id: i64,
    pub name: Vec<u8>,
    pub artist_id: Option<i64>,
    pub artist_name: Option<Vec<u8>>,
    pub image_id: Option<i64>,
}

#[verifier::ext_equal]
pub struct AlbumV {
    pub album_id: i64,
    pub name: Seq<u8>,
    pub artist_id: Option<i64>,
    pub artist_name: Option<Seq<u8>>,
    pub image_id: Option<i64>,
}

impl View for Album {
    type V = AlbumV;

    open spec fn view(&self) -> AlbumV {
        AlbumV {
            album_id: self.album_id,
            name: self.name@,
            artist_id: self.artist_id,
            artist_name: opt_bytes_view(self.artist_name),
            image_id: self.image_id,
        }
    }
}

impl DeepView for Album {
    type V = AlbumV;

    open spec fn deep_view(&self) -> AlbumV {
        self.view()
    }
}

pub struct TrackLyrics {
    pub track_id: i64,
    pub lyrics: Option<Vec<u8>>,
    pub provider: Option<Vec<u8>>,
    pub source: Option<Vec<u8>>,
    pub modified: i64,
}

#[verifier::ext_equal]
pub struct TrackLyricsV {
    pub track_id: i64,
    pub lyrics: Option<Seq<u8>>,
    pub provider: Option<Seq<u8>>,
    pub source: Option<Seq<u8>>,
    pub modified: i64,
}

impl View for TrackLyrics {
    type V = TrackLyricsV;

    open spec fn view(&self) -> TrackLyricsV {
        TrackLyricsV {
            track_id: self.track_id,
            lyrics: opt_bytes_view(self.lyrics),
            provider: opt_bytes_view(self.provider),
            source: opt_bytes_view(self.source),
            modified: self.modified,
        }
    }
}

impl DeepView for TrackLyrics {
    type V = TrackLyricsV;

    open spec fn deep_view(&self) -> TrackLyricsV {
        self.view()
    }
}

/// The whole catalog as mathematical sequences, with the next free id of
/// each id-carrying table.
#[verifier::ext_equal]
pub struct IndexV {
    pub nodes: Seq<NodeV>,
    pub tracks: Seq<TrackV>,
    pub images: Seq<ImageV>,
    pub artists: Seq<ArtistV>,
    pub albums: Seq<AlbumV>,
    pub album_images: Seq<(i64, i64)>,
    pub patterns: Seq<Seq<u8>>,
    pub lyrics: Seq<TrackLyricsV>,
    pub next_node_id: i64,
    pub next_track_id: i64,
    pub next_image_id: i64,
    pub next_artist_id: i64,
    pub next_album_id: i64,
}

pub open spec fn has_node(ns: Seq<NodeV>, id: i64) -> bool {
    exists|i: int| 0 <= i < ns.len() && ns[i].node_id == id
}

/// The position of the node with this id, where it exists.
pub open spec fn node_idx(ns: Seq<NodeV>, id: i64) -> int {
    choose|i: int| 0 <= i < ns.len() && ns[i].node_id == id
}

pub open spec fn node_of(ns: Seq<NodeV>, id: i64) -> NodeV {
    ns[node_idx(ns, id)]
}

pub open spec fn has_track(ts: Seq<TrackV>, id: i64) -> bool {
    exists|i: int| 0 <= i < ts.len() && ts[i].track_id == id
}

pub open spec fn track_of(ts: Seq<TrackV>, id: i64) -> TrackV {
    ts[choose|i: int| 0 <= i < ts.len() && ts[i].track_id == id]
}

pub open spec fn has_image(ims: Seq<ImageV>, id: i64) -> bool {
    exists|i: int| 0 <= i < ims.len() && ims[i].image_id == id
}

pub open spec fn image_of(ims: Seq<ImageV>, id: i64) -> ImageV {
    ims[choose|i: int| 0 <= i < ims.len() && ims[i].image_id == id]
}

pub open spec fn has_artist(ars: Seq<ArtistV>, id: i64) -> bool {
    exists|i: int| 0 <= i < ars.len() && ars[i].artist_id == id
}

pub open spec fn artist_of(ars: Seq<ArtistV>, id: i64) -> ArtistV {
    ars[choose|i: int| 0 <= i < ars.len() && ars[i].artist_id == id]
}

pub open spec fn has_album(als: Seq<AlbumV>, id: i64) -> bool {
    exists|i: int| 0 <= i < als.len() && als[i].album_id == id
}

pub open spec fn album_of(als: Seq<AlbumV>, id: i64) -> AlbumV {
    als[choose|i: int| 0 <= i < als.len() && als[i].album_id == id]
}

/// The path separator in catalog paths.
pub open spec fn path_sep() -> Seq<u8> {
    seq![47u8]
}

pub open spec fn node_ok(v: IndexV, n: NodeV) -> bool {
    &&& 1 <= n.node_id < v.next_node_id
    &&& match n.parent_id {
        Some(p) => {
            &&& has_node(v.nodes, p)
            &&& p < n.node_id
            &&& node_of(v.nodes, p).node_type == NodeType::Directory
            &&& n.path == node_of(v.nodes, p).path + path_sep() + n.name
        },
        None => n.path == n.name,
    }
    &&& match n.master_id {
        Some(m) => has_node(v.nodes, m) && n.node_type == NodeType::File,
        None => true,
    }
}

pub open spec fn track_ok(v: IndexV, t: TrackV) -> bool {
    &&& 1 <= t.track_id < v.next_track_id
    &&& has_node(v.nodes, t.node_id)
    &&& has_artist(v.artists, t.artist_id)
    &&& has_album(v.albums, t.album_id)
    &&& match t.album_artist_id {
        Some(a) => has_artist(v.artists, a),
        None => true,
    }
    &&& (t.album_artist_id is Some <==> t.album_artist_name is Some)
    &&& t.start is Some ==> node_of(v.nodes, t.node_id).master_id is Some
}

pub open spec fn image_ok(v: IndexV, im: ImageV) -> bool {
    &&& 1 <= im.image_id < v.next_image_id
    &&& has_node(v.nodes, im.node_id)
}

pub open spec fn album_ok(v: IndexV, a: AlbumV) -> bool {
    &&& 1 <= a.album_id < v.next_album_id
    &&& match a.artist_id {
        Some(ar) => has_artist(v.artists, ar),
        None => true,
    }
    &&& match a.image_id {
        Some(im) => has_image(v.images, im),
        None => true,
    }
}

/// The catalog invariant: every operation preserves it.
pub open spec fn inv(v: IndexV) -> bool {
    &&& forall|i: int, j: int|
        0 <= i < j < v.nodes.len() ==> v.nodes[i].node_id != v.nodes[j].node_id
    &&& forall|i: int, j: int|
        0 <= i < j < v.tracks.len() ==> v.tracks[i].track_id != v.tracks[j].track_id
    &&& forall|i: int, j: int|
        0 <= i < j < v.images.len() ==> v.images[i].image_id != v.images[j].image_id
    &&& forall|i: int, j: int|
        0 <= i < j < v.artists.len() ==> v.artists[i].artist_id != v.artists[j].artist_id
    &&& forall|i: int, j: int|
        0 <= i < j < v.albums.len() ==> v.albums[i].album_id != v.albums[j].album_id
    &&& forall|i: int, j: int|
        0 <= i < j < v.lyrics.len() ==> v.lyrics[i].track_id != v.lyrics[j].track_id
    &&& forall|i: int, j: int|
        0 <= i < j < v.album_images.len() ==> v.album_images[i] != v.album_images[j]
    &&& forall|i: int, j: int|
        0 <= i < j < v.nodes.len() ==> !(v.nodes[i].parent_id == v.nodes[j].parent_id
            && v.nodes[i].name == v.nodes[j].name)
    &&& forall|i: int| 0 <= i < v.nodes.len() ==> node_ok(v, #[trigger] v.nodes[i])
    &&& forall|i: int| 0 <= i < v.tracks.len() ==> track_ok(v, #[trigger] v.tracks[i])
    &&& forall|i: int| 0 <= i < v.images.len() ==> image_ok(v, #[trigger] v.images[i])
    &&& forall|i: int|
        0 <= i < v.artists.len() ==> 1 <= #[trigger] v.artists[i].artist_id < v.next_artist_id
    &&& forall|i: int| 0 <= i < v.albums.len() ==> album_ok(v, #[trigger] v.albums[i])
    &&& forall|i: int|
        0 <= i < v.album_images.len() ==> has_album(v.albums, #[trigger] v.album_images[i].0)
            && has_image(v.images, v.album_images[i].1)
    &&& forall|i: int| 0 <= i < v.lyrics.len() ==> has_track(v.tracks, #[trigger] v.lyrics[i].track_id)
    &&& 1 <= v.next_node_id
    &&& 1 <= v.next_track_id
    &&& 1 <= v.next_image_id
    &&& 1 <= v.next_artist_id
    &&& 1 <= v.next_album_id
}

/// Storage failure: a referenced row is missing, a uniqueness rule would
/// break, or an id space is exhausted.
#[derive(Clone, Copy, Debug, PartialEq, Eq, Structural)]
pub enum IndexError {
    Constraint,
    Full,
}

/// The in-memory catalog.
pub struct Index {
    nodes: Vec<Node>,
    tracks: Vec<Track>,
    images: Vec<Image>,
    artists: Vec<Artist>,
    albums: Vec<Album>,
    album_images: Vec<(i64, i64)>,
    patterns: Vec<Vec<u8>>,
    lyrics: Vec<TrackLyrics>,
    next_node_id: i64,
    next_track_id: i64,
    next_image_id: i64,
    next_artist_id: i64,
    next_album_id: i64,
}

impl View for Index {
    type V = IndexV;

    closed spec fn view(&self) -> IndexV {
        IndexV {
            nodes: self.nodes.deep_view(),
            tracks: self.tracks.deep_view(),
            images: self.images.deep_view(),
            artists: self.artists.deep_view(),
            albums: self.albums.deep_view(),
            album_images: self.album_images.deep_view(),
            patterns: self.patterns.deep_view(),
            lyrics: self.lyrics.deep_view(),
            next_node_id: self.next_node_id,
            next_track_id: self.next_track_id,
            next_image_id: self.next_image_id,
            next_artist_id: self.next_artist_id,
            next_album_id: self.next_album_id,
        }
    }
}

impl Index {
    /// An empty catalog.
    pub fn new() -> (r: Index)
        ensures
            inv(r@),
            r@.nodes =~= Seq::<NodeV>::empty(),
            r@.tracks =~= Seq::<TrackV>::empty(),
            r@.images =~= Seq::<ImageV>::empty(),
            r@.artists =~= Seq::<ArtistV>::empty(),
            r@.albums =~= Seq::<AlbumV>::empty(),
            r@.album_images =~= Seq::<(i64, i64)>::empty(),
            r@.patterns =~= Seq::<Seq<u8>>::empty(),
            r@.lyrics =~= Seq::<TrackLyricsV>::empty(),
    {
        Index {
            nodes: Vec::new(),
            tracks: Vec::new(),
            images: Vec::new(),
            artists: Vec::new(),
            albums: Vec::new(),
            album_images: Vec::new(),
            patterns: Vec::new(),
            lyrics: Vec::new(),
            next_node_id: 1,
            next_track_id: 1,
            next_image_id: 1,
            next_artist_id: 1,
            next_album_id: 1,
        }
    }
}

fn clone_opt_bytes(v: &Option<Vec<u8>>) -> (r: Option<Vec<u8>>)
    ensures
        opt_bytes_view(r) == opt_bytes_view(*v),
{
    match v {
        Some(b) => Some(text::clone_bytes(b)),
        None => None,
    }
}

pub(crate) fn copy_node(n: &Node) -> (r: Node)
    ensures
        r@ == n@,
{
    Node {
        node_id: n.node_id,
        node_type: n.node_type,
        parent_id: n.parent_id,
        master_id: n.master_id,
        name: text::clone_bytes(&n.name),
        path: text::clone_bytes(&n.path),
        modified: n.modified,
    }
}

pub(crate) fn copy_track(t: &Track) -> (r: Track)
    ensures
        r@ == t@,
{
    Track {
        track_id: t.track_id,
        node_id: t.node_id,
        stream_index: t.stream_index,
        track_index: t.track_index,
        start: t.start,
        number: t.number,
        title: text::clone_bytes(&t.title),
        artist_id: t.artist_id,
        artist_name: text::clone_bytes(&t.artist_name),
        album_id: t.album_id,
        album_name: text::clone_bytes(&t.album_name),
        album_artist_id: t.album_artist_id,
        album_artist_name: clone_opt_bytes(&t.album_artist_name),
        length: t.length,
    }
}

pub(crate) fn copy_image_row(im: &Image) -> (r: Image)
    ensures
        r@ == im@,
{
    Image {
        image_id: im.image_id,
        node_id: im.node_id,
        stream_index: im.stream_index,
        description: text::clone_bytes(&im.description),
        width: im.width,
        height: im.height,
    }
}

fn copy_artist(a: &Artist) -> (r: Artist)
    ensures
        r@ == a@,
{
    Artist { artist_id: a.artist_id, name: text::clone_bytes(&a.name) }
}

pub(crate) fn copy_album_row(a: &Album) -> (r: Album)
    ensures
        r@ == a@,
{
    Album {
        album_id: a.album_id,
        name: text::clone_bytes(&a.name),
        artist_id: a.artist_id,
        artist_name: clone_opt_bytes(&a.artist_name),
        image_id: a.image_id,
    }
}

fn copy_lyrics(l: &TrackLyrics) -> (r: TrackLyrics)
    ensures
        r@ == l@,
{
    TrackLyrics {
        track_id: l.track_id,
        lyrics: clone_opt_bytes(&l.lyrics),
        provider: clone_opt_bytes(&l.provider),
        source: clone_opt_bytes(&l.source),
        modified: l.modified,
    }
}

fn opt_i64_eq(a: Option<i64>, b: Option<i64>) -> (r: bool)
    ensures
        r == (a == b),
{
    match (a, b) {
        (Some(x), Some(y)) => x == y,
        (None, None) => true,
        _ => false,
    }
}

/// Some node has this parent and name.
pub open spec fn has_child(ns: Seq<NodeV>, parent_id: Option<i64>, name: Seq<u8>) -> bool {
    exists|i: int| 0 <= i < ns.len() && ns[i].parent_id == parent_id && ns[i].name == name
}

pub open spec fn child_of(ns: Seq<NodeV>, parent_id: Option<i64>, name: Seq<u8>) -> NodeV {
    ns[choose|i: int| 0 <= i < ns.len() && ns[i].parent_id == parent_id && ns[i].name == name]
}

/// With sibling names unique, the row found at an index is the row
/// `child_of` picks.
pub proof fn lemma_child_at(ns: Seq<NodeV>, i: int)
    requires
        forall|a: int, b: int|
            0 <= a < b < ns.len() ==> !(ns[a].parent_id == ns[b].parent_id && ns[a].name
                == ns[b].name),
        0 <= i < ns.len(),
    ensures
        has_child(ns, ns[i].parent_id, ns[i].name),
        child_of(ns, ns[i].parent_id, ns[i].name) == ns[i],
{
    assert(has_child(ns, ns[i].parent_id, ns[i].name));
    let j = choose|j: int|
        0 <= j < ns.len() && ns[j].parent_id == ns[i].parent_id && ns[j].name == ns[i].name;
    if i != j {
        assert(false);
    }
}

impl Index {
    /// The node with this id, if any.
    pub fn node(&self, node_id: i64) -> (r: Option<Node>)
        requires
            inv(self@),
        ensures
            r is Some <==> has_node(self@.nodes, node_id),
            r is Some ==> r->0@ == node_of(self@.nodes, node_id),
    {
        let mut i: usize = 0;
        while i < self.nodes.len()
            invariant
                inv(self@),
                i <= self.nodes.len(),
                forall|k: int| 0 <= k < i ==> self@.nodes[k].node_id != node_id,
            decreases self.nodes.len() - i,
        {
            proof {
                assert(self.nodes@[i as int]@ == self@.nodes[i as int]);
            }
            if self.nodes[i].node_id == node_id {
                proof {
                    lemma_node_at(self@.nodes, i as int);
                }
                return Some(copy_node(&self.nodes[i]));
            }
            i += 1;
        }
        None
    }

    /// The track with this id, if any.
    pub fn track(&self, track_id: i64) -> (r: Option<Track>)
        requires
            inv(self@),
        ensures
            r is Some <==> has_track(self@.tracks, track_id),
            r is Some ==> r->0@ == track_of(self@.tracks, track_id),
    {
        let mut i: usize = 0;
        while i < self.tracks.len()
            invariant
                inv(self@),
                i <= self.tracks.len(),
                forall|k: int| 0 <= k < i ==> self@.tracks[k].track_id != track_id,
            decreases self.tracks.len() - i,
        {
            proof {
                assert(self.tracks@[i as int]@ == self@.tracks[i as int]);
            }
            if self.tracks[i].track_id == track_id {
                proof {
                    lemma_track_at(self@.tracks, i as int);
                }
                return Some(copy_track(&self.tracks[i]));
            }
            i += 1;
        }
        None
    }

    /// The image with this id, if any.
    pub fn image(&self, image_id: i64) -> (r: Option<Image>)
        requires
            inv(self@),
        ensures
            r is Some <==> has_image(self@.images, image_id),
            r is Some ==> r->0@ == image_of(self@.images, image_id),
    {
        let mut i: usize = 0;
        while i < self.images.len()
            invariant
                inv(self@),
                i <= self.images.len(),
                forall|k: int| 0 <= k < i ==> self@.images[k].image_id != image_id,
            decreases self.images.len() - i,
        {
            proof {
                assert(self.images@[i as int]@ == self@.images[i as int]);
            }
            if self.images[i].image_id == image_id {
                proof {
                    lemma_image_at(self@.images, i as int);
                }
                return Some(copy_image_row(&self.images[i]));
            }
            i += 1;
        }
        None
    }

    /// The artist with this id, if any.
    pub fn artist(&self, artist_id: i64) -> (r: Option<Artist>)
        requires
            inv(self@),
        ensures
            r is Some <==> has_artist(self@.artists, artist_id),
            r is Some ==> r->0@ == artist_of(self@.artists, artist_id),
    {
        let mut i: usize = 0;
        while i < self.artists.len()
            invariant
                inv(self@),
                i <= self.artists.len(),
                forall|k: int| 0 <= k < i ==> self@.artists[k].artist_id != artist_id,
            decreases self.artists.len() - i,
        {
            proof {
                assert(self.artists@[i as int]@ == self@.artists[i as int]);
            }
            if self.artists[i].artist_id == artist_id {
                proof {
                    lemma_artist_at(self@.artists, i as int);
                }
                return Some(copy_artist(&self.artists[i]));
            }
            i += 1;
        }
        None
    }

    /// The album with this id, if any.
    pub fn album(&self, album_id: i64) -> (r: Option<Album>)
        requires
            inv(self@),
        ensures
            r is Some <==> has_album(self@.albums, album_id),
            r is Some ==> r->0@ == album_of(self@.albums, album_id),
    {
        let mut i: usize = 0;
        while i < self.albums.len()
            invariant
                inv(self@),
                i <= self.albums.len(),
                forall|k: int| 0 <= k < i ==> self@.albums[k].album_id != album_id,
            decreases self.albums.len() - i,
        {
            proof {
                assert(self.albums@[i as int]@ == self@.albums[i as int]);
            }
            if self.albums[i].album_id == album_id {
                proof {
                    lemma_album_at(self@.albums, i as int);
                }
                return Some(copy_album_row(&self.albums[i]));
            }
            i += 1;
        }
        None
    }

    /// The child of `parent_id` (or root entry, for `None`) with this name.
    pub fn node_by_name(&self, parent_id: Option<i64>, name: &[u8]) -> (r: Option<Node>)
        requires
            inv(self@),
        ensures
            r is Some <==> has_child(self@.nodes, parent_id, name@),
            r is Some ==> r->0@ == child_of(self@.nodes, parent_id, name@),
    {
        let mut i: usize = 0;
        while i < self.nodes.len()
            invariant
                inv(self@),
                i <= self.nodes.len(),
                forall|k: int|
                    0 <= k < i ==> !(self@.nodes[k].parent_id == parent_id && self@.nodes[k].name
                        == name@),
            decreases self.nodes.len() - i,
        {
            proof {
                assert(self.nodes@[i as int]@ == self@.nodes[i as int]);
            }
            if opt_i64_eq(self.nodes[i].parent_id, parent_id) && text::bytes_eq(
                &self.nodes[i].name,
                name,
            ) {
                proof {
                    lemma_child_at(self@.nodes, i as int);
                }
                return Some(copy_node(&self.nodes[i]));
            }
            i += 1;
        }
        None
    }

    /// The first node with this full path, in table order.
    pub fn node_by_path(&self, path: &[u8]) -> (r: Option<Node>)
        requires
            inv(self@),
        ensures
            r is Some <==> (exists|i: int|
                0 <= i < self@.nodes.len() && self@.nodes[i].path == path@),
            r is Some ==> (exists|i: int|
                0 <= i < self@.nodes.len() && self@.nodes[i].path == path@ && r->0@
                    == self@.nodes[i]),
    {
        let mut i: usize = 0;
        while i < self.nodes.len()
            invariant
                inv(self@),
                i <= self.nodes.len(),
                forall|k: int| 0 <= k < i ==> self@.nodes[k].path != path@,
            decreases self.nodes.len() - i,
        {
            proof {
                assert(self.nodes@[i as int]@ == self@.nodes[i as int]);
            }
            if text::bytes_eq(&self.nodes[i].path, path) {
                return Some(copy_node(&self.nodes[i]));
            }
            i += 1;
        }
        None
    }

    /// The first artist with exactly this name, in table order.
    pub fn artist_by_name(&self, name: &[u8]) -> (r: Option<Artist>)
        requires
            inv(self@),
        ensures
            r is Some <==> (exists|i: int|
                0 <= i < self@.artists.len() && self@.artists[i].name == name@),
            r is Some ==> (exists|i: int|
                0 <= i < self@.artists.len() && self@.artists[i].name == name@ && r->0@
                    == self@.artists[i] && (forall|k: int|
                    0 <= k < i ==> self@.artists[k].name != name@)),
    {
        let mut i: usize = 0;
        while i < self.artists.len()
            invariant
                inv(self@),
                i <= self.artists.len(),
                forall|k: int| 0 <= k < i ==> self@.artists[k].name != name@,
            decreases self.artists.len() - i,
        {
            proof {
                assert(self.artists@[i as int]@ == self@.artists[i as int]);
            }
            if text::bytes_eq(&self.artists[i].name, name) {
                return Some(copy_artist(&self.artists[i]));
            }
            i += 1;
        }
        None
    }

    /// All nodes with this parent (root entries for `None`), in table
    /// order.
    pub fn nodes_by_parent(&self, parent_id: Option<i64>) -> (r: Vec<Node>)
        requires
            inv(self@),
        ensures
            r.deep_view() == self@.nodes.filter(|n: NodeV| n.parent_id == parent_id),
    {
        let mut out: Vec<Node> = Vec::new();
        let mut i: usize = 0;
        proof {
            assert(self@.nodes.take(0).filter(|n: NodeV| n.parent_id == parent_id)
                =~= Seq::<NodeV>::empty());
        }
        while i < self.nodes.len()
            invariant
                inv(self@),
                i <= self.nodes.len(),
                out.deep_view() == self@.nodes.take(i as int).filter(
                    |n: NodeV| n.parent_id == parent_id,
                ),
            decreases self.nodes.len() - i,
        {
            proof {
                assert(self.nodes@[i as int]@ == self@.nodes[i as int]);
                assert(self@.nodes.take(i + 1).drop_last() =~= self@.nodes.take(i as int));
                assert(self@.nodes.take(i + 1).last() == self@.nodes[i as int]);
                reveal_with_fuel(Seq::filter, 2);
            }
            if opt_i64_eq(self.nodes[i].parent_id, parent_id) {
                let ghost odv = out.deep_view();
                out.push(copy_node(&self.nodes[i]));
                proof {
                    assert(out.deep_view() =~= odv.push(self@.nodes[i as int]));
                }
            }
            i += 1;
        }
        proof {
            assert(self@.nodes.take(self@.nodes.len() as int) =~= self@.nodes);
        }
        out
    }
}

/// Why `create_node` refuses: id space exhausted, a missing or non-directory
/// parent, or a sibling with the same name.
pub open spec fn create_node_err(v: IndexV, parent_id: Option<i64>, name: Seq<u8>) -> Option<
    IndexError,
> {
    if v.next_node_id == i64::MAX {
        Some(IndexError::Full)
    } else if match parent_id {
        Some(p) => !(has_node(v.nodes, p) && node_of(v.nodes, p).node_type == NodeType::Directory),
        None => false,
    } {
        Some(IndexError::Constraint)
    } else if has_child(v.nodes, parent_id, name) {
        Some(IndexError::Constraint)
    } else {
        None
    }
}

/// The row a successful `create_node` appends: a fresh id, no master, and
/// the path derived from the parent.
pub open spec fn new_node_row(
    v: IndexV,
    node_type: NodeType,
    parent_id: Option<i64>,
    name: Seq<u8>,
    modified: i64,
) -> NodeV {
    NodeV {
        node_id: v.next_node_id,
        node_type,
        parent_id,
        master_id: None,
        name,
        path: match parent_id {
            Some(p) => node_of(v.nodes, p).path + path_sep() + name,
            None => name,
        },
        modified,
    }
}

impl Index {
    /// Creates a node under `parent_id` and returns the stored row; the
    /// path is the parent's path, `/`, and the name.
    pub fn create_node(
        &mut self,
        node_type: NodeType,
        parent_id: Option<i64>,
        name: &[u8],
        modified: i64,
    ) -> (r: Result<Node, IndexError>)
        requires
            inv(old(self)@),
        ensures
            inv(final(self)@),
            r is Err ==> final(self)@ == old(self)@ && Some(r->Err_0) == create_node_err(
                old(self)@,
                parent_id,
                name@,
            ),
            r is Ok ==> create_node_err(old(self)@, parent_id, name@) is None,
            r is Ok ==> r->Ok_0@ == new_node_row(old(self)@, node_type, parent_id, name@, modified),
            r is Ok ==> final(self)@ == (IndexV {
                nodes: old(self)@.nodes.push(
                    new_node_row(old(self)@, node_type, parent_id, name@, modified),
                ),
                next_node_id: (old(self)@.next_node_id + 1) as i64,
                ..old(self)@
            }),
    {
        let ghost v0 = self@;
        if self.next_node_id == i64::MAX {
            return Err(IndexError::Full);
        }
        let path: Vec<u8> = match parent_id {
            Some(p) => {
                match self.node(p) {
                    Some(parent) => {
                        if !matches!(parent.node_type, NodeType::Directory) {
                            return Err(IndexError::Constraint);
                        }
                        let mut path = parent.path;
                        path.push(47);
                        let mut i: usize = 0;
                        while i < name.len()
                            invariant
                                i <= name.len(),
                                path@ =~= node_of(v0.nodes, parent_id->0).path + path_sep()
                                    + name@.take(i as int),
                                parent_id is Some,
                            decreases name.len() - i,
                        {
                            path.push(name[i]);
                            i += 1;
                        }
                        proof {
                            assert(name@.take(name@.len() as int) =~= name@);
                        }
                        path
                    },
                    None => {
                        return Err(IndexError::Constraint);
                    },
                }
            },
            None => text::clone_bytes(name),
        };
        if self.node_by_name(parent_id, name).is_some() {
            return Err(IndexError::Constraint);
        }
        let row = Node {
            node_id: self.next_node_id,
            node_type,
            parent_id,
            master_id: None,
            name: text::clone_bytes(name),
            path,
            modified,
        };
        let result = copy_node(&row);
        let ghost rowv = new_node_row(v0, node_type, parent_id, name@, modified);
        proof {
            assert(row@ =~= rowv);
        }
        self.nodes.push(row);
        self.next_node_id = self.next_node_id + 1;
        proof {
            let v1 = self@;
            assert(v1 =~= (IndexV {
                nodes: v0.nodes.push(rowv),
                next_node_id: (v0.next_node_id + 1) as i64,
                ..v0
            })) by {
                assert(v1.nodes =~= v0.nodes.push(rowv));
            }
            assert(forall|a: int| 0 <= a < v0.nodes.len() ==> (#[trigger] v0.nodes[a]).node_id != rowv.node_id);
            lemma_push_node(v0.nodes, rowv);
            assert(inv(v1)) by {
                assert(forall|i: int|
                    0 <= i < v1.tracks.len() ==> track_ok(v1, #[trigger] v1.tracks[i])) by {
                    assert(forall|i: int|
                        0 <= i < v0.tracks.len() ==> track_ok(v0, #[trigger] v0.tracks[i]));
                }
                assert(forall|i: int|
                    0 <= i < v1.images.len() ==> image_ok(v1, #[trigger] v1.images[i])) by {
                    assert(forall|i: int|
                        0 <= i < v0.images.len() ==> image_ok(v0, #[trigger] v0.images[i]));
                }
                assert(forall|i: int|
                    0 <= i < v1.albums.len() ==> album_ok(v1, #[trigger] v1.albums[i])) by {
                    assert(forall|i: int|
                        0 <= i < v0.albums.len() ==> album_ok(v0, #[trigger] v0.albums[i]));
                }
                assert(forall|i: int| 0 <= i < v1.nodes.len() ==> node_ok(v1, #[trigger] v1.nodes[i]))
                    by {
                    assert(forall|i: int|
                        0 <= i < v0.nodes.len() ==> node_ok(v0, #[trigger] v0.nodes[i])
                            && v1.nodes[i] == v0.nodes[i]);
                    assert(node_ok(v1, rowv));
                }
                assert(forall|i: int, j: int|
                    0 <= i < j < v1.nodes.len() ==> !(v1.nodes[i].parent_id
                        == v1.nodes[j].parent_id && v1.nodes[i].name == v1.nodes[j].name)) by {
                    assert(!has_child(v0.nodes, parent_id, name@));
                }
            }
        }
        Ok(result)
    }

    /// Creates an artist with this name and returns the stored row.
    pub fn create_artist(&mut self, name: &[u8]) -> (r: Result<Artist, IndexError>)
        requires
            inv(old(self)@),
        ensures
            inv(final(self)@),
            r is Err ==> final(self)@ == old(self)@ && r->Err_0 == IndexError::Full,
            r is Err <==> old(self)@.next_artist_id == i64::MAX,
            r is Ok ==> r->Ok_0@ == (ArtistV {
                artist_id: old(self)@.next_artist_id,
                name: name@,
            }),
            r is Ok ==> final(self)@ == (IndexV {
                artists: old(self)@.artists.push(
                    ArtistV { artist_id: old(self)@.next_artist_id, name: name@ },
                ),
                next_artist_id: (old(self)@.next_artist_id + 1) as i64,
                ..old(self)@
            }),
    {
        let ghost v0 = self@;
        if self.next_artist_id == i64::MAX {
            return Err(IndexError::Full);
        }
        let row = Artist { artist_id: self.next_artist_id, name: text::clone_bytes(name) };
        let result = copy_artist(&row);
        let ghost rowv = ArtistV { artist_id: v0.next_artist_id, name: name@ };
        self.artists.push(row);
        self.next_artist_id = self.next_artist_id + 1;
        proof {
            let v1 = self@;
            assert(v1 =~= (IndexV {
                artists: v0.artists.push(rowv),
                next_artist_id: (v0.next_artist_id + 1) as i64,
                ..v0
            })) by {
                assert(v1.artists =~= v0.artists.push(rowv));
            }
            assert(forall|a: int| 0 <= a < v0.artists.len() ==> (#[trigger] v0.artists[a]).artist_id != rowv.artist_id);
            lemma_push_artist(v0.artists, rowv);
            assert(inv(v1)) by {
                assert(forall|i: int|
                    0 <= i < v1.tracks.len() ==> track_ok(v1, #[trigger] v1.tracks[i])) by {
                    assert(forall|i: int|
                        0 <= i < v0.tracks.len() ==> track_ok(v0, #[trigger] v0.tracks[i]));
                }
                assert(forall|i: int|
                    0 <= i < v1.images.len() ==> image_ok(v1, #[trigger] v1.images[i])) by {
                    assert(forall|i: int|
                        0 <= i < v0.images.len() ==> image_ok(v0, #[trigger] v0.images[i]));
                }
                assert(forall|i: int|
                    0 <= i < v1.albums.len() ==> album_ok(v1, #[trigger] v1.albums[i])) by {
                    assert(forall|i: int|
                        0 <= i < v0.albums.len() ==> album_ok(v0, #[trigger] v0.albums[i]));
                }
                assert(forall|i: int| 0 <= i < v1.nodes.len() ==> node_ok(v1, #[trigger] v1.nodes[i]))
                    by {
                    assert(forall|i: int|
                        0 <= i < v0.nodes.len() ==> node_ok(v0, #[trigger] v0.nodes[i]));
                }
            }
        }
        Ok(result)
    }

    /// Creates an album with this name; its artist and image start unset.
    pub fn create_album(&mut self, name: &[u8]) -> (r: Result<Album, IndexError>)
        requires
            inv(old(self)@),
        ensures
            inv(final(self)@),
            r is Err ==> final(self)@ == old(self)@ && r->Err_0 == IndexError::Full,
            r is Err <==> old(self)@.next_album_id == i64::MAX,
            r is Ok ==> r->Ok_0@ == (AlbumV {
                album_id: old(self)@.next_album_id,
                name: name@,
                artist_id: None,
                artist_name: None,
                image_id: None,
            }),
            r is Ok ==> final(self)@ == (IndexV {
                albums: old(self)@.albums.push(
                    AlbumV {
                        album_id: old(self)@.next_album_id,
                        name: name@,
                        artist_id: None,
                        artist_name: None,
                        image_id: None,
                    },
                ),
                next_album_id: (old(self)@.next_album_id + 1) as i64,
                ..old(self)@
            }),
    {
        let ghost v0 = self@;
        if self.next_album_id == i64::MAX {
            return Err(IndexError::Full);
        }
        let row = Album {
            album_id: self.next_album_id,
            name: text::clone_bytes(name),
            artist_id: None,
            artist_name: None,
            image_id: None,
        };
        let result = copy_album_row(&row);
        let ghost rowv = AlbumV {
            album_id: v0.next_album_id,
            name: name@,
            artist_id: None,
            artist_name: None,
            image_id: None,
        };
        self.albums.push(row);
        self.next_album_id = self.next_album_id + 1;
        proof {
            let v1 = self@;
            assert(v1 =~= (IndexV {
                albums: v0.albums.push(rowv),
                next_album_id: (v0.next_album_id + 1) as i64,
                ..v0
            })) by {
                assert(v1.albums =~= v0.albums.push(rowv));
            }
            assert(forall|a: int| 0 <= a < v0.albums.len() ==> (#[trigger] v0.albums[a]).album_id != rowv.album_id);
            lemma_push_album(v0.albums, rowv);
            assert(inv(v1)) by {
                assert(forall|i: int|
                    0 <= i < v1.tracks.len() ==> track_ok(v1, #[trigger] v1.tracks[i])) by {
                    assert(forall|i: int|
                        0 <= i < v0.tracks.len() ==> track_ok(v0, #[trigger] v0.tracks[i]));
                }
                assert(forall|i: int|
                    0 <= i < v1.images.len() ==> image_ok(v1, #[trigger] v1.images[i])) by {
                    assert(forall|i: int|
                        0 <= i < v0.images.len() ==> image_ok(v0, #[trigger] v0.images[i]));
                }
                assert(forall|i: int|
                    0 <= i < v1.albums.len() ==> album_ok(v1, #[trigger] v1.albums[i])) by {
                    assert(forall|i: int|
                        0 <= i < v0.albums.len() ==> album_ok(v0, #[trigger] v0.albums[i]));
                    assert(album_ok(v1, rowv));
                }
                assert(forall|i: int| 0 <= i < v1.nodes.len() ==> node_ok(v1, #[trigger] v1.nodes[i]))
                    by {
                    assert(forall|i: int|
                        0 <= i < v0.nodes.len() ==> node_ok(v0, #[trigger] v0.nodes[i]));
                }
            }
        }
        Ok(result)
    }
}

/// Why `create_image` refuses: id space exhausted or a missing node.
pub open spec fn create_image_err(v: IndexV, node_id: i64) -> Option<IndexError> {
    if v.next_image_id == i64::MAX {
        Some(IndexError::Full)
    } else if !has_node(v.nodes, node_id) {
        Some(IndexError::Constraint)
    } else {
        None
    }
}

/// Why `create_track` refuses: id space exhausted, a missing node, artist
/// or album, or a start offset on a node without a master.
pub open spec fn create_track_err(v: IndexV, t: TrackV) -> Option<IndexError> {
    if v.next_track_id == i64::MAX {
        Some(IndexError::Full)
    } else if !has_node(v.nodes, t.node_id) || !has_artist(v.artists, t.artist_id) || !has_album(
        v.albums,
        t.album_id,
    ) || (match t.album_artist_id {
        Some(a) => !has_artist(v.artists, a),
        None => false,
    }) || ((t.album_artist_id is Some) != (t.album_artist_name is Some)) || (t.start is Some
        && node_of(v.nodes, t.node_id).master_id is None) {
        Some(IndexError::Constraint)
    } else {
        None
    }
}

impl Index {
    /// Stores an image row for `image.node_id`; the given `image_id` is
    /// ignored and a fresh one assigned.
    pub fn create_image(&mut self, image: &Image) -> (r: Result<Image, IndexError>)
        requires
            inv(old(self)@),
        ensures
            inv(final(self)@),
            r is Err ==> final(self)@ == old(self)@ && Some(r->Err_0) == create_image_err(
                old(self)@,
                image@.node_id,
            ),
            r is Ok ==> create_image_err(old(self)@, image@.node_id) is None,
            r is Ok ==> r->Ok_0@ == (ImageV { image_id: old(self)@.next_image_id, ..image@ }),
            r is Ok ==> final(self)@ == (IndexV {
                images: old(self)@.images.push(
                    ImageV { image_id: old(self)@.next_image_id, ..image@ },
                ),
                next_image_id: (old(self)@.next_image_id + 1) as i64,
                ..old(self)@
            }),
    {
        let ghost v0 = self@;
        if self.next_image_id == i64::MAX {
            return Err(IndexError::Full);
        }
        if self.node(image.node_id).is_none() {
            return Err(IndexError::Constraint);
        }
        let mut row = copy_image_row(image);
        row.image_id = self.next_image_id;
        let result = copy_image_row(&row);
        let ghost rowv = ImageV { image_id: v0.next_image_id, ..image@ };
        proof {
            assert(row@ =~= rowv);
        }
        self.images.push(row);
        self.next_image_id = self.next_image_id + 1;
        proof {
            let v1 = self@;
            assert(v1 =~= (IndexV {
                images: v0.images.push(rowv),
                next_image_id: (v0.next_image_id + 1) as i64,
                ..v0
            })) by {
                assert(v1.images =~= v0.images.push(rowv));
            }
            assert(forall|a: int|
                0 <= a < v0.images.len() ==> (#[trigger] v0.images[a]).image_id != rowv.image_id);
            lemma_push_image(v0.images, rowv);
            assert(inv(v1)) by {
                assert(forall|i: int|
                    0 <= i < v1.tracks.len() ==> track_ok(v1, #[trigger] v1.tracks[i])) by {
                    assert(forall|i: int|
                        0 <= i < v0.tracks.len() ==> track_ok(v0, #[trigger] v0.tracks[i]));
                }
                assert(forall|i: int|
                    0 <= i < v1.images.len() ==> image_ok(v1, #[trigger] v1.images[i])) by {
                    assert(forall|i: int|
                        0 <= i < v0.images.len() ==> image_ok(v0, #[trigger] v0.images[i]));
                    assert(image_ok(v1, rowv));
                }
                assert(forall|i: int|
                    0 <= i < v1.albums.len() ==> album_ok(v1, #[trigger] v1.albums[i])) by {
                    assert(forall|i: int|
                        0 <= i < v0.albums.len() ==> album_ok(v0, #[trigger] v0.albums[i]));
                }
                assert(forall|i: int| 0 <= i < v1.nodes.len() ==> node_ok(v1, #[trigger] v1.nodes[i]))
                    by {
                    assert(forall|i: int|
                        0 <= i < v0.nodes.len() ==> node_ok(v0, #[trigger] v0.nodes[i]));
                }
            }
        }
        Ok(result)
    }

    /// Stores a track row; the given `track_id` is ignored and a fresh one
    /// assigned. The node, artist and album referred to must exist, and a
    /// track with a start offset needs a node owned by a master.
    pub fn create_track(&mut self, track: &Track) -> (r: Result<Track, IndexError>)
        requires
            inv(old(self)@),
        ensures
            inv(final(self)@),
            r is Err ==> final(self)@ == old(self)@ && Some(r->Err_0) == create_track_err(
                old(self)@,
                track@,
            ),
            r is Ok ==> create_track_err(old(self)@, track@) is None,
            r is Ok ==> r->Ok_0@ == (TrackV { track_id: old(self)@.next_track_id, ..track@ }),
            r is Ok ==> final(self)@ == (IndexV {
                tracks: old(self)@.tracks.push(
                    TrackV { track_id: old(self)@.next_track_id, ..track@ },
                ),
                next_track_id: (old(self)@.next_track_id + 1) as i64,
                ..old(self)@
            }),
    {
        let ghost v0 = self@;
        if self.next_track_id == i64::MAX {
            return Err(IndexError::Full);
        }
        let node = match self.node(track.node_id) {
            Some(n) => n,
            None => {
                return Err(IndexError::Constraint);
            },
        };
        if self.artist(track.artist_id).is_none() {
            return Err(IndexError::Constraint);
        }
        if self.album(track.album_id).is_none() {
            return Err(IndexError::Constraint);
        }
        if let Some(aa) = track.album_artist_id {
            if self.artist(aa).is_none() {
                return Err(IndexError::Constraint);
            }
        }
        if track.album_artist_id.is_some() != track.album_artist_name.is_some() {
            return Err(IndexError::Constraint);
        }
        if track.start.is_some() && node.master_id.is_none() {
            return Err(IndexError::Constraint);
        }
        let mut row = copy_track(track);
        row.track_id = self.next_track_id;
        let result = copy_track(&row);
        let ghost rowv = TrackV { track_id: v0.next_track_id, ..track@ };
        proof {
            assert(row@ =~= rowv);
        }
        self.tracks.push(row);
        self.next_track_id = self.next_track_id + 1;
        proof {
            let v1 = self@;
            assert(v1 =~= (IndexV {
                tracks: v0.tracks.push(rowv),
                next_track_id: (v0.next_track_id + 1) as i64,
                ..v0
            })) by {
                assert(v1.tracks =~= v0.tracks.push(rowv));
            }
            assert(forall|a: int|
                0 <= a < v0.tracks.len() ==> (#[trigger] v0.tracks[a]).track_id != rowv.track_id);
            lemma_push_track(v0.tracks, rowv);
            assert(inv(v1)) by {
                assert(forall|i: int|
                    0 <= i < v1.tracks.len() ==> track_ok(v1, #[trigger] v1.tracks[i])) by {
                    assert(forall|i: int|
                        0 <= i < v0.tracks.len() ==> track_ok(v0, #[trigger] v0.tracks[i]));
                    assert(track_ok(v1, rowv));
                }
                assert(forall|i: int|
                    0 <= i < v1.images.len() ==> image_ok(v1, #[trigger] v1.images[i])) by {
                    assert(forall|i: int|
                        0 <= i < v0.images.len() ==> image_ok(v0, #[trigger] v0.images[i]));
                }
                assert(forall|i: int|
                    0 <= i < v1.albums.len() ==> album_ok(v1, #[trigger] v1.albums[i])) by {
                    assert(forall|i: int|
                        0 <= i < v0.albums.len() ==> album_ok(v0, #[trigger] v0.albums[i]));
                }
                assert(forall|i: int| 0 <= i < v1.nodes.len() ==> node_ok(v1, #[trigger] v1.nodes[i]))
                    by {
                    assert(forall|i: int|
                        0 <= i < v0.nodes.len() ==> node_ok(v0, #[trigger] v0.nodes[i]));
                }
                assert(forall|i: int|
                    0 <= i < v1.lyrics.len() ==> has_track(
                        v1.tracks,
                        #[trigger] v1.lyrics[i].track_id,
                    )) by {
                    assert(forall|i: int|
                        0 <= i < v0.lyrics.len() ==> has_track(
                            v0.tracks,
                            #[trigger] v0.lyrics[i].track_id,
                        ));
                }
            }
        }
        Ok(result)
    }

    /// Replaces the ranked cover-description patterns.
    pub fn set_album_image_patterns(&mut self, patterns: Vec<Vec<u8>>) -> (r: ())
        requires
            inv(old(self)@),
        ensures
            inv(final(self)@),
            final(self)@ == (IndexV { patterns: patterns.deep_view(), ..old(self)@ }),
    {
        self.patterns = patterns;
        proof {
            assert(final(self)@ =~= (IndexV { patterns: self.patterns.deep_view(), ..old(self)@ }));
            let v0 = old(self)@;
            let v1 = self@;
            assert(inv(v1)) by {
                assert(forall|i: int|
                    0 <= i < v1.tracks.len() ==> track_ok(v1, #[trigger] v1.tracks[i])) by {
                    assert(forall|i: int|
                        0 <= i < v0.tracks.len() ==> track_ok(v0, #[trigger] v0.tracks[i]));
                }
                assert(forall|i: int|
                    0 <= i < v1.images.len() ==> image_ok(v1, #[trigger] v1.images[i])) by {
                    assert(forall|i: int|
                        0 <= i < v0.images.len() ==> image_ok(v0, #[trigger] v0.images[i]));
                }
                assert(forall|i: int|
                    0 <= i < v1.albums.len() ==> album_ok(v1, #[trigger] v1.albums[i])) by {
                    assert(forall|i: int|
                        0 <= i < v0.albums.len() ==> album_ok(v0, #[trigger] v0.albums[i]));
                }
                assert(forall|i: int| 0 <= i < v1.nodes.len() ==> node_ok(v1, #[trigger] v1.nodes[i]))
                    by {
                    assert(forall|i: int|
                        0 <= i < v0.nodes.len() ==> node_ok(v0, #[trigger] v0.nodes[i]));
                }
            }
        }
    }
}

impl Index {
    /// Writes a node's modified stamp; a missing id changes nothing.
    pub fn set_node_modified(&mut self, node_id: i64, modified: i64)
        requires
            inv(old(self)@),
        ensures
            inv(final(self)@),
            !has_node(old(self)@.nodes, node_id) ==> final(self)@ == old(self)@,
            has_node(old(self)@.nodes, node_id) ==> final(self)@ == (IndexV {
                nodes: old(self)@.nodes.update(
                    node_idx(old(self)@.nodes, node_id),
                    (NodeV { modified: modified, ..node_of(old(self)@.nodes, node_id) }),
                ),
                ..old(self)@
            }),
    {
        let ghost v0 = self@;
        let mut i: usize = 0;
        while i < self.nodes.len()
            invariant
                inv(self@),
                self@ == v0,
                v0 == old(self)@,
                i <= self.nodes.len(),
                forall|k: int| 0 <= k < i ==> self@.nodes[k].node_id != node_id,
            decreases self.nodes.len() - i,
        {
            proof {
                assert(self.nodes@[i as int]@ == self@.nodes[i as int]);
            }
            if self.nodes[i].node_id == node_id {
                let mut row = copy_node(&self.nodes[i]);
                row.modified = modified;
                let ghost rowv = row@;
                self.nodes.set(i, row);
                proof {
                    lemma_node_at(v0.nodes, i as int);
                    lemma_update_node(v0.nodes, i as int, rowv);
                    let v1 = self@;
                    assert(v1 =~= (IndexV {
                        nodes: v0.nodes.update(
                            node_idx(v0.nodes, node_id),
                            (NodeV { modified: modified, ..node_of(v0.nodes, node_id) }),
                        ),
                        ..v0
                    })) by {
                        assert(v1.nodes =~= v0.nodes.update(i as int, rowv));
                        assert(rowv =~= (NodeV {
                            modified: modified,
                            ..node_of(v0.nodes, node_id)
                        }));
                    }
                    assert(inv(v1)) by {
                        assert(node_ok(v0, v0.nodes[i as int]));
                        node_update_keeps_inv(v0, v1, i as int, rowv);
                    }
                }
                return ;
            }
            i += 1;
        }
    }

    /// Marks a file node's content as owned by a master node (the cue
    /// node). The node must be a file and the master must exist.
    pub fn set_node_master(&mut self, node_id: i64, master_id: i64) -> (r: Result<
        (),
        IndexError,
    >)
        requires
            inv(old(self)@),
        ensures
            inv(final(self)@),
            !has_node(old(self)@.nodes, node_id) ==> r is Ok && final(self)@ == old(self)@,
            has_node(old(self)@.nodes, node_id) && !(has_node(old(self)@.nodes, master_id)
                && node_of(old(self)@.nodes, node_id).node_type == NodeType::File) ==> r is Err
                && final(self)@ == old(self)@,
            has_node(old(self)@.nodes, node_id) && has_node(old(self)@.nodes, master_id)
                && node_of(old(self)@.nodes, node_id).node_type == NodeType::File ==> r is Ok
                && final(self)@ == (IndexV {
                nodes: old(self)@.nodes.update(
                    node_idx(old(self)@.nodes, node_id),
                    (NodeV {
                        master_id: Some(master_id),
                        ..node_of(old(self)@.nodes, node_id)
                    }),
                ),
                ..old(self)@
            }),
    {
        let ghost v0 = self@;
        if self.node(node_id).is_none() {
            return Ok(());
        }
        if self.node(master_id).is_none() {
            return Err(IndexError::Constraint);
        }
        let mut i: usize = 0;
        while i < self.nodes.len()
            invariant
                inv(self@),
                self@ == v0,
                v0 == old(self)@,
                has_node(v0.nodes, node_id),
                has_node(v0.nodes, master_id),
                i <= self.nodes.len(),
                forall|k: int| 0 <= k < i ==> self@.nodes[k].node_id != node_id,
            decreases self.nodes.len() - i,
        {
            proof {
                assert(self.nodes@[i as int]@ == self@.nodes[i as int]);
            }
            if self.nodes[i].node_id == node_id {
                proof {
                    lemma_node_at(v0.nodes, i as int);
                }
                if !matches!(self.nodes[i].node_type, NodeType::File) {
                    return Err(IndexError::Constraint);
                }
                let mut row = copy_node(&self.nodes[i]);
                row.master_id = Some(master_id);
                let ghost rowv = row@;
                self.nodes.set(i, row);
                proof {
                    lemma_update_node(v0.nodes, i as int, rowv);
                    let v1 = self@;
                    assert(v1 =~= (IndexV {
                        nodes: v0.nodes.update(
                            node_idx(v0.nodes, node_id),
                            (NodeV {
                                master_id: Some(master_id),
                                ..node_of(v0.nodes, node_id)
                            }),
                        ),
                        ..v0
                    })) by {
                        assert(v1.nodes =~= v0.nodes.update(i as int, rowv));
                        assert(rowv =~= (NodeV {
                            master_id: Some(master_id),
                            ..node_of(v0.nodes, node_id)
                        }));
                    }
                    assert(inv(v1)) by {
                        node_update_keeps_inv(v0, v1, i as int, rowv);
                    }
                }
                return Ok(());
            }
            i += 1;
        }
        proof {
            assert(!has_node(v0.nodes, node_id));
        }
        Ok(())
    }
}

/// `x` stands somewhere in `s`.
pub open spec fn appears<A>(s: Seq<A>, x: A) -> bool {
    exists|i: int| 0 <= i < s.len() && s[i] == x
}

/// `x` stands somewhere in `s` and the predicate admits it.
pub open spec fn appears_kept<A>(s: Seq<A>, x: A, keep: spec_fn(A) -> bool) -> bool {
    exists|i: int| 0 <= i < s.len() && s[i] == x && keep(s[i])
}

/// Filtering a sequence whose elements have unique keys keeps keys unique,
/// keeps exactly the elements the predicate admits, and nothing else.
pub proof fn lemma_filter_unique_keys<A, K>(s: Seq<A>, keep: spec_fn(A) -> bool, key: spec_fn(
    A,
) -> K)
    requires
        forall|a: int, b: int| #![trigger s[a], s[b]] 0 <= a < b < s.len() ==> key(s[a]) != key(s[b]),
    ensures
        forall|a: int, b: int|
            #![trigger s.filter(keep)[a], s.filter(keep)[b]]
            0 <= a < b < s.filter(keep).len() ==> key(s.filter(keep)[a]) != key(s.filter(keep)[b]),
        forall|i: int|
            #![trigger s.filter(keep)[i]]
            0 <= i < s.filter(keep).len() ==> appears_kept(s, s.filter(keep)[i], keep),
        forall|j: int|
            #![trigger s[j]]
            0 <= j < s.len() && keep(s[j]) ==> appears(s.filter(keep), s[j]),
    decreases s.len(),
{
    reveal(Seq::filter);
    let s2 = s.filter(keep);
    if s.len() == 0 {
        assert(s2.len() == 0);
    } else {
        let pre = s.drop_last();
        let last = s.last();
        assert(forall|a: int, b: int|
            #![trigger pre[a], pre[b]]
            0 <= a < b < pre.len() ==> pre[a] == s[a] && pre[b] == s[b]);
        lemma_filter_unique_keys(pre, keep, key);
        let pre2 = pre.filter(keep);
        assert(forall|j: int| #![trigger pre[j]] 0 <= j < pre.len() ==> pre[j] == s[j]);
        if keep(last) {
            assert(s2 == pre2.push(last));
            assert(forall|i: int|
                #![trigger pre2[i]]
                0 <= i < pre2.len() ==> s2[i] == pre2[i]);
            assert(s2[s2.len() - 1] == last);
            assert forall|a: int, b: int|
                #![trigger s2[a], s2[b]]
                0 <= a < b < s2.len() implies key(s2[a]) != key(s2[b]) by {
                if b < s2.len() - 1 {
                    assert(s2[a] == pre2[a] && s2[b] == pre2[b]);
                } else {
                    assert(s2[b] == last);
                    assert(s2[a] == pre2[a]);
                    assert(appears_kept(pre, pre2[a], keep));
                    let j = choose|j: int| 0 <= j < pre.len() && pre[j] == pre2[a] && keep(pre[j]);
                    assert(key(s[j]) != key(s[s.len() - 1]));
                }
            }
            assert forall|i: int| #![trigger s2[i]] 0 <= i < s2.len() implies appears_kept(
                s,
                s2[i],
                keep,
            ) by {
                if i < s2.len() - 1 {
                    assert(s2[i] == pre2[i]);
                    assert(appears_kept(pre, pre2[i], keep));
                    let j = choose|j: int| 0 <= j < pre.len() && pre[j] == pre2[i] && keep(pre[j]);
                    assert(s[j] == s2[i] && keep(s[j]));
                } else {
                    assert(s[s.len() - 1] == s2[i] && keep(s[s.len() - 1]));
                }
            }
            assert forall|j: int| #![trigger s[j]] 0 <= j < s.len() && keep(s[j]) implies appears(
                s2,
                s[j],
            ) by {
                if j < s.len() - 1 {
                    assert(pre[j] == s[j] && keep(pre[j]));
                    assert(appears(pre2, pre[j]));
                    let i = choose|i: int| 0 <= i < pre2.len() && pre2[i] == pre[j];
                    assert(s2[i] == s[j]);
                } else {
                    assert(s2[s2.len() - 1] == s[j]);
                }
            }
        } else {
            assert(s2 == pre2);
            assert forall|i: int| #![trigger s2[i]] 0 <= i < s2.len() implies appears_kept(
                s,
                s2[i],
                keep,
            ) by {
                assert(s2[i] == pre2[i]);
                assert(appears_kept(pre, pre2[i], keep));
                let j = choose|j: int| 0 <= j < pre.len() && pre[j] == pre2[i] && keep(pre[j]);
                assert(s[j] == s2[i] && keep(s[j]));
            }
            assert forall|j: int| #![trigger s[j]] 0 <= j < s.len() && keep(s[j]) implies appears(
                s2,
                s[j],
            ) by {
                assert(j < s.len() - 1);
                assert(pre[j] == s[j] && keep(pre[j]));
                assert(appears(pre2, pre[j]));
                let i = choose|i: int| 0 <= i < pre2.len() && pre2[i] == pre[j];
                assert(s2[i] == s[j]);
            }
        }
    }
}

/// What filtering the track table does to id lookups.
pub proof fn lemma_tracks_filtered(ts: Seq<TrackV>, keep: spec_fn(TrackV) -> bool)
    requires
        forall|a: int, b: int| 0 <= a < b < ts.len() ==> ts[a].track_id != ts[b].track_id,
    ensures
        forall|a: int, b: int|
            0 <= a < b < ts.filter(keep).len() ==> ts.filter(keep)[a].track_id != ts.filter(
                keep,
            )[b].track_id,
        forall|id: i64|
            #[trigger] has_track(ts.filter(keep), id) <==> has_track(ts, id) && keep(
                track_of(ts, id),
            ),
        forall|id: i64|
            has_track(ts.filter(keep), id) ==> #[trigger] track_of(ts.filter(keep), id)
                == track_of(ts, id),
{
    let f = ts.filter(keep);
    lemma_filter_unique_keys(ts, keep, |t: TrackV| t.track_id);
    assert forall|a: int, b: int| 0 <= a < b < f.len() implies f[a].track_id != f[b].track_id by {
        assert(f[a] == ts.filter(keep)[a] && f[b] == ts.filter(keep)[b]);
    }
    assert forall|id: i64| has_track(ts, id) && keep(track_of(ts, id)) implies #[trigger] has_track(
        f,
        id,
    ) by {
        let j = choose|j: int| 0 <= j < ts.len() && ts[j].track_id == id;
        lemma_track_at(ts, j);
        assert(ts[j] == track_of(ts, id) && keep(ts[j]));
        assert(appears(f, ts[j]));
        let i = choose|i: int| 0 <= i < f.len() && f[i] == ts[j];
        assert(f[i].track_id == id);
    }
    assert forall|id: i64| #[trigger] has_track(f, id) implies has_track(ts, id) && keep(
        track_of(ts, id),
    ) && track_of(f, id) == track_of(ts, id) by {
        let i = choose|i: int| 0 <= i < f.len() && f[i].track_id == id;
        assert(appears_kept(ts, f[i], keep));
        let j = choose|j: int| 0 <= j < ts.len() && ts[j] == f[i] && keep(ts[j]);
        assert(has_track(ts, id));
        lemma_track_at(ts, j);
        assert(track_of(ts, id) == ts[j]);
        lemma_track_at(f, i);
        assert(track_of(f, id) == f[i]);
    }
}

/// What filtering the image table does to id lookups.
pub proof fn lemma_images_filtered(ims: Seq<ImageV>, keep: spec_fn(ImageV) -> bool)
    requires
        forall|a: int, b: int| 0 <= a < b < ims.len() ==> ims[a].image_id != ims[b].image_id,
    ensures
        forall|a: int, b: int|
            0 <= a < b < ims.filter(keep).len() ==> ims.filter(keep)[a].image_id != ims.filter(
                keep,
            )[b].image_id,
        forall|id: i64|
            #[trigger] has_image(ims.filter(keep), id) <==> has_image(ims, id) && keep(
                image_of(ims, id),
            ),
        forall|id: i64|
            has_image(ims.filter(keep), id) ==> #[trigger] image_of(ims.filter(keep), id)
                == image_of(ims, id),
{
    let f = ims.filter(keep);
    lemma_filter_unique_keys(ims, keep, |im: ImageV| im.image_id);
    assert forall|a: int, b: int| 0 <= a < b < f.len() implies f[a].image_id != f[b].image_id by {
        assert(f[a] == ims.filter(keep)[a] && f[b] == ims.filter(keep)[b]);
    }
    assert forall|id: i64| has_image(ims, id) && keep(image_of(ims, id)) implies #[trigger] has_image(
        f,
        id,
    ) by {
        let j = choose|j: int| 0 <= j < ims.len() && ims[j].image_id == id;
        lemma_image_at(ims, j);
        assert(ims[j] == image_of(ims, id) && keep(ims[j]));
        assert(appears(f, ims[j]));
        let i = choose|i: int| 0 <= i < f.len() && f[i] == ims[j];
        assert(f[i].image_id == id);
    }
    assert forall|id: i64| #[trigger] has_image(f, id) implies has_image(ims, id) && keep(
        image_of(ims, id),
    ) && image_of(f, id) == image_of(ims, id) by {
        let i = choose|i: int| 0 <= i < f.len() && f[i].image_id == id;
        assert(appears_kept(ims, f[i], keep));
        let j = choose|j: int| 0 <= j < ims.len() && ims[j] == f[i] && keep(ims[j]);
        assert(has_image(ims, id));
        lemma_image_at(ims, j);
        assert(image_of(ims, id) == ims[j]);
        lemma_image_at(f, i);
        assert(image_of(f, id) == f[i]);
    }
}

/// What filtering then repairing the node table does to id lookups, for a
/// repair that keeps ids.
pub proof fn lemma_nodes_restricted(
    ns: Seq<NodeV>,
    keep: spec_fn(NodeV) -> bool,
    fix: spec_fn(NodeV) -> NodeV,
)
    requires
        forall|a: int, b: int| 0 <= a < b < ns.len() ==> ns[a].node_id != ns[b].node_id,
        forall|n: NodeV| (#[trigger] fix(n)).node_id == n.node_id,
    ensures
        forall|a: int, b: int|
            0 <= a < b < ns.filter(keep).map_values(fix).len() ==> ns.filter(keep).map_values(
                fix,
            )[a].node_id != ns.filter(keep).map_values(fix)[b].node_id,
        forall|id: i64|
            #[trigger] has_node(ns.filter(keep).map_values(fix), id) <==> has_node(ns, id) && keep(
                node_of(ns, id),
            ),
        forall|id: i64|
            has_node(ns.filter(keep).map_values(fix), id) ==> #[trigger] node_of(
                ns.filter(keep).map_values(fix),
                id,
            ) == fix(node_of(ns, id)),
{
    let f = ns.filter(keep);
    let m = f.map_values(fix);
    lemma_filter_unique_keys(ns, keep, |n: NodeV| n.node_id);
    assert(forall|i: int| 0 <= i < m.len() ==> #[trigger] m[i] == fix(f[i]));
    assert forall|a: int, b: int| 0 <= a < b < m.len() implies m[a].node_id != m[b].node_id by {
        assert(m[a] == fix(f[a]) && m[b] == fix(f[b]));
        assert(f[a] == ns.filter(keep)[a] && f[b] == ns.filter(keep)[b]);
    }
    assert forall|id: i64| has_node(ns, id) && keep(node_of(ns, id)) implies #[trigger] has_node(
        m,
        id,
    ) by {
        let j = choose|j: int| 0 <= j < ns.len() && ns[j].node_id == id;
        lemma_node_at(ns, j);
        assert(ns[j] == node_of(ns, id) && keep(ns[j]));
        assert(appears(f, ns[j]));
        let i = choose|i: int| 0 <= i < f.len() && f[i] == ns[j];
        assert(m[i] == fix(ns[j]));
        assert(m[i].node_id == id);
    }
    assert forall|id: i64| #[trigger] has_node(m, id) implies has_node(ns, id) && keep(
        node_of(ns, id),
    ) && node_of(m, id) == fix(node_of(ns, id)) by {
        let i = choose|i: int| 0 <= i < m.len() && m[i].node_id == id;
        assert(m[i] == fix(f[i]));
        assert(f[i].node_id == id);
        assert(appears_kept(ns, f[i], keep));
        let j = choose|j: int| 0 <= j < ns.len() && ns[j] == f[i] && keep(ns[j]);
        assert(has_node(ns, id));
        lemma_node_at(ns, j);
        assert(node_of(ns, id) == ns[j]);
        let i2 = choose|i2: int| 0 <= i2 < m.len() && m[i2].node_id == id;
        if i2 != i {
            assert(false);
        }
        assert(node_of(m, id) == m[i]);
    }
}

fn vec_has_track(ts: &Vec<Track>, id: i64) -> (r: bool)
    ensures
        r == has_track(ts.deep_view(), id),
{
    let mut i: usize = 0;
    while i < ts.len()
        invariant
            i <= ts.len(),
            forall|k: int| 0 <= k < i ==> ts.deep_view()[k].track_id != id,
        decreases ts.len() - i,
    {
        proof {
            assert(ts@[i as int]@ == ts.deep_view()[i as int]);
        }
        if ts[i].track_id == id {
            proof {
                assert(has_track(ts.deep_view(), id));
            }
            return true;
        }
        i += 1;
    }
    false
}

fn vec_has_image(ims: &Vec<Image>, id: i64) -> (r: bool)
    ensures
        r == has_image(ims.deep_view(), id),
{
    let mut i: usize = 0;
    while i < ims.len()
        invariant
            i <= ims.len(),
            forall|k: int| 0 <= k < i ==> ims.deep_view()[k].image_id != id,
        decreases ims.len() - i,
    {
        proof {
            assert(ims@[i as int]@ == ims.deep_view()[i as int]);
        }
        if ims[i].image_id == id {
            proof {
                assert(has_image(ims.deep_view(), id));
            }
            return true;
        }
        i += 1;
    }
    false
}

/// What `clear_node` leaves: the node's tracks and images gone, with the
/// lyrics of removed tracks, the cover links of removed images, and any
/// album cover reference to a removed image cleared.
pub open spec fn clear_node_spec(v: IndexV, node_id: i64) -> IndexV {
    let new_tracks = v.tracks.filter(|t: TrackV| t.node_id != node_id);
    let new_images = v.images.filter(|im: ImageV| im.node_id != node_id);
    IndexV {
        tracks: new_tracks,
        images: new_images,
        lyrics: v.lyrics.filter(|l: TrackLyricsV| has_track(new_tracks, l.track_id)),
        album_images: v.album_images.filter(|p: (i64, i64)| has_image(new_images, p.1)),
        albums: v.albums.map_values(
            |a: AlbumV|
                if a.image_id is Some && !has_image(new_images, a.image_id->0) {
                    AlbumV { image_id: None, ..a }
                } else {
                    a
                },
        ),
        ..v
    }
}

impl Index {
    /// Deletes the tracks and images of one node, keeping the node row.
    pub fn clear_node(&mut self, node_id: i64)
        requires
            inv(old(self)@),
        ensures
            inv(final(self)@),
            final(self)@ == clear_node_spec(old(self)@, node_id),
    {
        let ghost v0 = self@;
        let ghost kt = |t: TrackV| t.node_id != node_id;
        let ghost kim = |im: ImageV| im.node_id != node_id;
        let mut new_tracks: Vec<Track> = Vec::new();
        let mut i: usize = 0;
        proof {
            assert(v0.tracks.take(0).filter(kt) =~= Seq::<TrackV>::empty());
        }
        while i < self.tracks.len()
            invariant
                self@ == v0,
                i <= self.tracks.len(),
                new_tracks.deep_view() == v0.tracks.take(i as int).filter(kt),
                kt == (|t: TrackV| t.node_id != node_id),
            decreases self.tracks.len() - i,
        {
            proof {
                assert(self.tracks@[i as int]@ == v0.tracks[i as int]);
                assert(v0.tracks.take(i + 1).drop_last() =~= v0.tracks.take(i as int));
                assert(v0.tracks.take(i + 1).last() == v0.tracks[i as int]);
                reveal_with_fuel(Seq::filter, 2);
            }
            if self.tracks[i].node_id != node_id {
                let ghost odv = new_tracks.deep_view();
                new_tracks.push(copy_track(&self.tracks[i]));
                proof {
                    assert(new_tracks.deep_view() =~= odv.push(v0.tracks[i as int]));
                }
            }
            i += 1;
        }
        proof {
            assert(v0.tracks.take(v0.tracks.len() as int) =~= v0.tracks);
        }
        let mut new_images: Vec<Image> = Vec::new();
        let mut i: usize = 0;
        proof {
            assert(v0.images.take(0).filter(kim) =~= Seq::<ImageV>::empty());
        }
        while i < self.images.len()
            invariant
                self@ == v0,
                i <= self.images.len(),
                new_images.deep_view() == v0.images.take(i as int).filter(kim),
                kim == (|im: ImageV| im.node_id != node_id),
            decreases self.images.len() - i,
        {
            proof {
                assert(self.images@[i as int]@ == v0.images[i as int]);
                assert(v0.images.take(i + 1).drop_last() =~= v0.images.take(i as int));
                assert(v0.images.take(i + 1).last() == v0.images[i as int]);
                reveal_with_fuel(Seq::filter, 2);
            }
            if self.images[i].node_id != node_id {
                let ghost odv = new_images.deep_view();
                new_images.push(copy_image_row(&self.images[i]));
                proof {
                    assert(new_images.deep_view() =~= odv.push(v0.images[i as int]));
                }
            }
            i += 1;
        }
        proof {
            assert(v0.images.take(v0.images.len() as int) =~= v0.images);
        }
        let ghost ntv = new_tracks.deep_view();
        let ghost niv = new_images.deep_view();
        let ghost kl = |l: TrackLyricsV| has_track(ntv, l.track_id);
        let mut new_lyrics: Vec<TrackLyrics> = Vec::new();
        let mut i: usize = 0;
        proof {
            assert(v0.lyrics.take(0).filter(kl) =~= Seq::<TrackLyricsV>::empty());
        }
        while i < self.lyrics.len()
            invariant
                self@ == v0,
                i <= self.lyrics.len(),
                ntv == new_tracks.deep_view(),
                new_lyrics.deep_view() == v0.lyrics.take(i as int).filter(kl),
                kl == (|l: TrackLyricsV| has_track(ntv, l.track_id)),
                new_tracks.deep_view() == ntv,
            decreases self.lyrics.len() - i,
        {
            proof {
                assert(self.lyrics@[i as int]@ == v0.lyrics[i as int]);
                assert(v0.lyrics.take(i + 1).drop_last() =~= v0.lyrics.take(i as int));
                assert(v0.lyrics.take(i + 1).last() == v0.lyrics[i as int]);
                reveal_with_fuel(Seq::filter, 2);
            }
            if vec_has_track(&new_tracks, self.lyrics[i].track_id) {
                let ghost odv = new_lyrics.deep_view();
                new_lyrics.push(copy_lyrics(&self.lyrics[i]));
                proof {
                    assert(new_lyrics.deep_view() =~= odv.push(v0.lyrics[i as int]));
                }
            }
            i += 1;
        }
        proof {
            assert(v0.lyrics.take(v0.lyrics.len() as int) =~= v0.lyrics);
        }
        let ghost kp = |p: (i64, i64)| has_image(niv, p.1);
        let mut new_album_images: Vec<(i64, i64)> = Vec::new();
        let mut i: usize = 0;
        proof {
            assert(v0.album_images.take(0).filter(kp) =~= Seq::<(i64, i64)>::empty());
        }
        while i < self.album_images.len()
            invariant
                self@ == v0,
                i <= self.album_images.len(),
                niv == new_images.deep_view(),
                new_album_images.deep_view() == v0.album_images.take(i as int).filter(kp),
                kp == (|p: (i64, i64)| has_image(niv, p.1)),
                new_images.deep_view() == niv,
            decreases self.album_images.len() - i,
        {
            proof {
                assert(self.album_images@[i as int] == v0.album_images[i as int]);
                assert(v0.album_images.take(i + 1).drop_last() =~= v0.album_images.take(i as int));
                assert(v0.album_images.take(i + 1).last() == v0.album_images[i as int]);
                reveal_with_fuel(Seq::filter, 2);
            }
            if vec_has_image(&new_images, self.album_images[i].1) {
                let ghost odv = new_album_images.deep_view();
                let pair = (self.album_images[i].0, self.album_images[i].1);
                new_album_images.push(pair);
                proof {
                    assert(new_album_images.deep_view() =~= odv.push(v0.album_images[i as int]));
                }
            }
            i += 1;
        }
        proof {
            assert(v0.album_images.take(v0.album_images.len() as int) =~= v0.album_images);
        }
        let ghost fa = |a: AlbumV|
            if a.image_id is Some && !has_image(niv, a.image_id->0) {
                AlbumV { image_id: None, ..a }
            } else {
                a
            };
        let mut new_albums: Vec<Album> = Vec::new();
        let mut i: usize = 0;
        while i < self.albums.len()
            invariant
                self@ == v0,
                i <= self.albums.len(),
                niv == new_images.deep_view(),
                new_albums.deep_view() == v0.albums.take(i as int).map_values(fa),
                fa == (|a: AlbumV|
                    if a.image_id is Some && !has_image(niv, a.image_id->0) {
                        AlbumV { image_id: None, ..a }
                    } else {
                        a
                    }),
                new_images.deep_view() == niv,
            decreases self.albums.len() - i,
        {
            proof {
                assert(self.albums@[i as int]@ == v0.albums[i as int]);
            }
            let mut row = copy_album_row(&self.albums[i]);
            let clear_image = match row.image_id {
                Some(im) => !vec_has_image(&new_images, im),
                None => false,
            };
            if clear_image {
                row.image_id = None;
            }
            let ghost odv = new_albums.deep_view();
            new_albums.push(row);
            proof {
                assert(new_albums.deep_view() =~= odv.push(fa(v0.albums[i as int])));
                assert(v0.albums.take(i + 1).map_values(fa) =~= odv.push(fa(v0.albums[i as int])));
            }
            i += 1;
        }
        proof {
            assert(v0.albums.take(v0.albums.len() as int) =~= v0.albums);
        }
        self.tracks = new_tracks;
        self.images = new_images;
        self.lyrics = new_lyrics;
        self.album_images = new_album_images;
        self.albums = new_albums;
        proof {
            let v1 = self@;
            assert(v1 =~= clear_node_spec(v0, node_id)) by {
                assert(v1.tracks == v0.tracks.filter(kt));
                assert(v1.images == v0.images.filter(kim));
                assert(v1.lyrics == v0.lyrics.filter(kl));
                assert(v1.album_images == v0.album_images.filter(kp));
                assert(v1.albums == v0.albums.map_values(fa));
            }
            assert(inv(v1)) by {
                clear_node_keeps_inv(v0, v1, node_id);
            }
        }
    }
}

/// The cascades of `clear_node` keep the catalog invariant.
proof fn clear_node_keeps_inv(v0: IndexV, v1: IndexV, node_id: i64)
    requires
        inv(v0),
        v1 == clear_node_spec(v0, node_id),
    ensures
        inv(v1),
{
    let kt = |t: TrackV| t.node_id != node_id;
    let kim = |im: ImageV| im.node_id != node_id;
    let ntv = v0.tracks.filter(kt);
    let niv = v0.images.filter(kim);
    let kl = |l: TrackLyricsV| has_track(ntv, l.track_id);
    let kp = |p: (i64, i64)| has_image(niv, p.1);
    let fa = |a: AlbumV|
        if a.image_id is Some && !has_image(niv, a.image_id->0) {
            AlbumV { image_id: None, ..a }
        } else {
            a
        };
    lemma_tracks_filtered(v0.tracks, kt);
    lemma_images_filtered(v0.images, kim);
    lemma_filter_unique_keys(v0.lyrics, kl, |l: TrackLyricsV| l.track_id);
    lemma_filter_unique_keys(v0.album_images, kp, |p: (i64, i64)| p);
    assert(forall|i: int| 0 <= i < v1.albums.len() ==> #[trigger] v1.albums[i] == fa(v0.albums[i]));
    // album lookups keep their ids under the repair map
    assert forall|id: i64| #[trigger] has_album(v1.albums, id) <==> has_album(v0.albums, id) by {
        if has_album(v0.albums, id) {
            let j = choose|j: int| 0 <= j < v0.albums.len() && v0.albums[j].album_id == id;
            assert(v1.albums[j].album_id == id);
        }
        if has_album(v1.albums, id) {
            let j = choose|j: int| 0 <= j < v1.albums.len() && v1.albums[j].album_id == id;
            assert(v0.albums[j].album_id == id);
        }
    }
    assert forall|k: int| 0 <= k < v1.tracks.len() implies track_ok(v1, #[trigger] v1.tracks[k]) by {
        let t = v1.tracks[k];
        assert(t == v0.tracks.filter(kt)[k]);
        assert(has_track(v0.tracks.filter(kt), t.track_id));
        assert(has_track(v0.tracks, t.track_id));
        lemma_track_at(v0.tracks.filter(kt), k);
        assert(t == track_of(v0.tracks.filter(kt), t.track_id));
        assert(t == track_of(v0.tracks, t.track_id));
        let j = choose|j: int| 0 <= j < v0.tracks.len() && v0.tracks[j].track_id == t.track_id;
        assert(track_ok(v0, v0.tracks[j]));
        assert(v0.tracks[j] == t);
    }
    assert forall|k: int| 0 <= k < v1.images.len() implies image_ok(v1, #[trigger] v1.images[k]) by {
        let im = v1.images[k];
        assert(im == v0.images.filter(kim)[k]);
        assert(has_image(v0.images.filter(kim), im.image_id));
        assert(has_image(v0.images, im.image_id));
        lemma_image_at(v0.images.filter(kim), k);
        assert(im == image_of(v0.images.filter(kim), im.image_id));
        assert(im == image_of(v0.images, im.image_id));
        let j = choose|j: int| 0 <= j < v0.images.len() && v0.images[j].image_id == im.image_id;
        assert(image_ok(v0, v0.images[j]));
        assert(v0.images[j] == im);
    }
    assert forall|k: int| 0 <= k < v1.albums.len() implies album_ok(v1, #[trigger] v1.albums[k]) by {
        assert(v1.albums[k] == fa(v0.albums[k]));
        assert(album_ok(v0, v0.albums[k]));
        let a2 = v1.albums[k];
        if a2.image_id is Some {
            assert(has_image(v1.images, a2.image_id->0));
        }
    }
    assert forall|k: int| 0 <= k < v1.album_images.len() implies has_album(
        v1.albums,
        #[trigger] v1.album_images[k].0,
    ) && has_image(v1.images, v1.album_images[k].1) by {
        let p = v1.album_images[k];
        assert(p == v0.album_images.filter(kp)[k]);
        assert(appears_kept(v0.album_images, p, kp));
        let j = choose|j: int|
            0 <= j < v0.album_images.len() && v0.album_images[j] == p && kp(v0.album_images[j]);
        assert(has_album(v0.albums, p.0));
        assert(has_image(niv, p.1));
    }
    assert forall|k: int| 0 <= k < v1.lyrics.len() implies has_track(
        v1.tracks,
        #[trigger] v1.lyrics[k].track_id,
    ) by {
        let l = v1.lyrics[k];
        assert(l == v0.lyrics.filter(kl)[k]);
        assert(appears_kept(v0.lyrics, l, kl));
        let j = choose|j: int| 0 <= j < v0.lyrics.len() && v0.lyrics[j] == l && kl(v0.lyrics[j]);
        assert(has_track(ntv, l.track_id));
    }
    assert forall|k: int| 0 <= k < v1.nodes.len() implies node_ok(v1, #[trigger] v1.nodes[k]) by {
        assert(node_ok(v0, v0.nodes[k]));
    }
    assert forall|a: int, b: int| 0 <= a < b < v1.tracks.len() implies v1.tracks[a].track_id
        != v1.tracks[b].track_id by {
        assert(v1.tracks[a] == v0.tracks.filter(kt)[a] && v1.tracks[b] == v0.tracks.filter(kt)[b]);
    }
    assert forall|a: int, b: int| 0 <= a < b < v1.images.len() implies v1.images[a].image_id
        != v1.images[b].image_id by {
        assert(v1.images[a] == v0.images.filter(kim)[a] && v1.images[b] == v0.images.filter(
            kim,
        )[b]);
    }
    assert forall|a: int, b: int| 0 <= a < b < v1.albums.len() implies v1.albums[a].album_id
        != v1.albums[b].album_id by {
        assert(v1.albums[a] == fa(v0.albums[a]) && v1.albums[b] == fa(v0.albums[b]));
    }
    assert forall|a: int, b: int| 0 <= a < b < v1.lyrics.len() implies v1.lyrics[a].track_id
        != v1.lyrics[b].track_id by {
        assert(v1.lyrics[a] == v0.lyrics.filter(kl)[a] && v1.lyrics[b] == v0.lyrics.filter(kl)[b]);
    }
    assert forall|a: int, b: int| 0 <= a < b < v1.album_images.len() implies v1.album_images[a]
        != v1.album_images[b] by {
        assert(v1.album_images[a] == v0.album_images.filter(kp)[a] && v1.album_images[b]
            == v0.album_images.filter(kp)[b]);
    }
}

/// The node `target` is `id` itself or stands somewhere on `id`'s parent
/// chain. Parent ids are smaller than child ids, so the walk ends.
pub open spec fn has_ancestor(ns: Seq<NodeV>, id: i64, target: i64) -> bool
    decreases id,
{
    if id == target {
        true
    } else if !has_node(ns, id) {
        false
    } else {
        match node_of(ns, id).parent_id {
            Some(p) => if 0 <= p < id {
                has_ancestor(ns, p, target)
            } else {
                false
            },
            None => false,
        }
    }
}

/// What `delete_node` leaves: the node's whole subtree gone with the
/// tracks and images on it, master links into the subtree cleared, and the
/// virtual tracks cut from a cleared master gone with them; then the same
/// cascades as `clear_node` for lyrics, cover links and album covers.
pub open spec fn delete_node_spec(v: IndexV, node_id: i64) -> IndexV {
    let keep_n = |n: NodeV| !has_ancestor(v.nodes, n.node_id, node_id);
    let fixm = |n: NodeV|
        if n.master_id is Some && has_ancestor(v.nodes, n.master_id->0, node_id) {
            NodeV { master_id: None, ..n }
        } else {
            n
        };
    let new_nodes = v.nodes.filter(keep_n).map_values(fixm);
    let keep_t = |t: TrackV|
        !has_ancestor(v.nodes, t.node_id, node_id) && (t.start is None || !(node_of(
            v.nodes,
            t.node_id,
        ).master_id is Some && has_ancestor(v.nodes, node_of(v.nodes, t.node_id).master_id->0, node_id)));
    let new_tracks = v.tracks.filter(keep_t);
    let new_images = v.images.filter(|im: ImageV| !has_ancestor(v.nodes, im.node_id, node_id));
    IndexV {
        nodes: new_nodes,
        tracks: new_tracks,
        images: new_images,
        lyrics: v.lyrics.filter(|l: TrackLyricsV| has_track(new_tracks, l.track_id)),
        album_images: v.album_images.filter(|p: (i64, i64)| has_image(new_images, p.1)),
        albums: v.albums.map_values(
            |a: AlbumV|
                if a.image_id is Some && !has_image(new_images, a.image_id->0) {
                    AlbumV { image_id: None, ..a }
                } else {
                    a
                },
        ),
        ..v
    }
}

impl Index {
    /// Whether `target` is `id` or one of its ancestors.
    fn node_has_ancestor(&self, id: i64, target: i64) -> (r: bool)
        requires
            inv(self@),
        ensures
            r == has_ancestor(self@.nodes, id, target),
        decreases id,
    {
        if id == target {
            return true;
        }
        match self.node(id) {
            None => false,
            Some(n) => match n.parent_id {
                Some(p) => {
                    if 0 <= p && p < id {
                        self.node_has_ancestor(p, target)
                    } else {
                        false
                    }
                },
                None => false,
            },
        }
    }

    /// Deletes a node and everything under it, with all cascades.
    pub fn delete_node(&mut self, node_id: i64)
        requires
            inv(old(self)@),
        ensures
            inv(final(self)@),
            final(self)@ == delete_node_spec(old(self)@, node_id),
    {
        let ghost v0 = self@;
        let ghost keep_n = |n: NodeV| !has_ancestor(v0.nodes, n.node_id, node_id);
        let ghost fixm = |n: NodeV|
            if n.master_id is Some && has_ancestor(v0.nodes, n.master_id->0, node_id) {
                NodeV { master_id: None, ..n }
            } else {
                n
            };
        let ghost keep_t = |t: TrackV|
            !has_ancestor(v0.nodes, t.node_id, node_id) && (t.start is None || !(node_of(
                v0.nodes,
                t.node_id,
            ).master_id is Some && has_ancestor(
                v0.nodes,
                node_of(v0.nodes, t.node_id).master_id->0,
                node_id,
            )));
        let ghost kim = |im: ImageV| !has_ancestor(v0.nodes, im.node_id, node_id);
        let mut new_nodes: Vec<Node> = Vec::new();
        let mut i: usize = 0;
        proof {
            assert(v0.nodes.take(0).filter(keep_n).map_values(fixm) =~= Seq::<NodeV>::empty());
        }
        while i < self.nodes.len()
            invariant
                inv(self@),
                self@ == v0,
                i <= self.nodes.len(),
                new_nodes.deep_view() == v0.nodes.take(i as int).filter(keep_n).map_values(fixm),
                keep_n == (|n: NodeV| !has_ancestor(v0.nodes, n.node_id, node_id)),
                fixm == (|n: NodeV|
                    if n.master_id is Some && has_ancestor(v0.nodes, n.master_id->0, node_id) {
                        NodeV { master_id: None, ..n }
                    } else {
                        n
                    }),
            decreases self.nodes.len() - i,
        {
            proof {
                assert(self.nodes@[i as int]@ == v0.nodes[i as int]);
                assert(v0.nodes.take(i + 1).drop_last() =~= v0.nodes.take(i as int));
                assert(v0.nodes.take(i + 1).last() == v0.nodes[i as int]);
                reveal_with_fuel(Seq::filter, 2);
            }
            let n = &self.nodes[i];
            if !self.node_has_ancestor(n.node_id, node_id) {
                let mut row = copy_node(n);
                let clear_master = match row.master_id {
                    Some(m) => self.node_has_ancestor(m, node_id),
                    None => false,
                };
                if clear_master {
                    row.master_id = None;
                }
                proof {
                    assert(row@ =~= fixm(v0.nodes[i as int]));
                }
                let ghost odv = new_nodes.deep_view();
                new_nodes.push(row);
                proof {
                    assert(new_nodes.deep_view() =~= odv.push(fixm(v0.nodes[i as int])));
                    assert(v0.nodes.take(i + 1).filter(keep_n).map_values(fixm) =~= odv.push(
                        fixm(v0.nodes[i as int]),
                    ));
                }
            } else {
                proof {
                    assert(v0.nodes.take(i + 1).filter(keep_n).map_values(fixm)
                        =~= new_nodes.deep_view());
                }
            }
            i += 1;
        }
        proof {
            assert(v0.nodes.take(v0.nodes.len() as int) =~= v0.nodes);
        }
        let mut new_tracks: Vec<Track> = Vec::new();
        let mut i: usize = 0;
        proof {
            assert(v0.tracks.take(0).filter(keep_t) =~= Seq::<TrackV>::empty());
        }
        while i < self.tracks.len()
            invariant
                inv(self@),
                self@ == v0,
                i <= self.tracks.len(),
                new_tracks.deep_view() == v0.tracks.take(i as int).filter(keep_t),
                keep_t == (|t: TrackV|
                    !has_ancestor(v0.nodes, t.node_id, node_id) && (t.start is None || !(node_of(
                        v0.nodes,
                        t.node_id,
                    ).master_id is Some && has_ancestor(
                        v0.nodes,
                        node_of(v0.nodes, t.node_id).master_id->0,
                        node_id,
                    )))),
            decreases self.tracks.len() - i,
        {
            proof {
                assert(self.tracks@[i as int]@ == v0.tracks[i as int]);
                assert(v0.tracks.take(i + 1).drop_last() =~= v0.tracks.take(i as int));
                assert(v0.tracks.take(i + 1).last() == v0.tracks[i as int]);
                reveal_with_fuel(Seq::filter, 2);
            }
            let t = &self.tracks[i];
            let mut keep = !self.node_has_ancestor(t.node_id, node_id);
            if keep && t.start.is_some() {
                match self.node(t.node_id) {
                    Some(n) => {
                        match n.master_id {
                            Some(m) => {
                                if self.node_has_ancestor(m, node_id) {
                                    keep = false;
                                }
                            },
                            None => {},
                        }
                    },
                    None => {
                        proof {
                            assert(track_ok(v0, v0.tracks[i as int]));
                            assert(false);
                        }
                    },
                }
            }
            proof {
                assert(track_ok(v0, v0.tracks[i as int]));
                assert(keep == keep_t(v0.tracks[i as int]));
            }
            if keep {
                let ghost odv = new_tracks.deep_view();
                new_tracks.push(copy_track(t));
                proof {
                    assert(new_tracks.deep_view() =~= odv.push(v0.tracks[i as int]));
                }
            }
            i += 1;
        }
        proof {
            assert(v0.tracks.take(v0.tracks.len() as int) =~= v0.tracks);
        }
        let mut new_images: Vec<Image> = Vec::new();
        let mut i: usize = 0;
        proof {
            assert(v0.images.take(0).filter(kim) =~= Seq::<ImageV>::empty());
        }
        while i < self.images.len()
            invariant
                inv(self@),
                self@ == v0,
                i <= self.images.len(),
                new_images.deep_view() == v0.images.take(i as int).filter(kim),
                kim == (|im: ImageV| !has_ancestor(v0.nodes, im.node_id, node_id)),
            decreases self.images.len() - i,
        {
            proof {
                assert(self.images@[i as int]@ == v0.images[i as int]);
                assert(v0.images.take(i + 1).drop_last() =~= v0.images.take(i as int));
                assert(v0.images.take(i + 1).last() == v0.images[i as int]);
                reveal_with_fuel(Seq::filter, 2);
            }
            if !self.node_has_ancestor(self.images[i].node_id, node_id) {
                let ghost odv = new_images.deep_view();
                new_images.push(copy_image_row(&self.images[i]));
                proof {
                    assert(new_images.deep_view() =~= odv.push(v0.images[i as int]));
                }
            }
            i += 1;
        }
        proof {
            assert(v0.images.take(v0.images.len() as int) =~= v0.images);
        }
        let ghost ntv = new_tracks.deep_view();
        let ghost niv = new_images.deep_view();
        let ghost kl = |l: TrackLyricsV| has_track(ntv, l.track_id);
        let mut new_lyrics: Vec<TrackLyrics> = Vec::new();
        let mut i: usize = 0;
        proof {
            assert(v0.lyrics.take(0).filter(kl) =~= Seq::<TrackLyricsV>::empty());
        }
        while i < self.lyrics.len()
            invariant
                self@ == v0,
                i <= self.lyrics.len(),
                ntv == new_tracks.deep_view(),
                new_lyrics.deep_view() == v0.lyrics.take(i as int).filter(kl),
                kl == (|l: TrackLyricsV| has_track(ntv, l.track_id)),
                new_tracks.deep_view() == ntv,
            decreases self.lyrics.len() - i,
        {
            proof {
                assert(self.lyrics@[i as int]@ == v0.lyrics[i as int]);
                assert(v0.lyrics.take(i + 1).drop_last() =~= v0.lyrics.take(i as int));
                assert(v0.lyrics.take(i + 1).last() == v0.lyrics[i as int]);
                reveal_with_fuel(Seq::filter, 2);
            }
            if vec_has_track(&new_tracks, self.lyrics[i].track_id) {
                let ghost odv = new_lyrics.deep_view();
                new_lyrics.push(copy_lyrics(&self.lyrics[i]));
                proof {
                    assert(new_lyrics.deep_view() =~= odv.push(v0.lyrics[i as int]));
                }
            }
            i += 1;
        }
        proof {
            assert(v0.lyrics.take(v0.lyrics.len() as int) =~= v0.lyrics);
        }
        let ghost kp = |p: (i64, i64)| has_image(niv, p.1);
        let mut new_album_images: Vec<(i64, i64)> = Vec::new();
        let mut i: usize = 0;
        proof {
            assert(v0.album_images.take(0).filter(kp) =~= Seq::<(i64, i64)>::empty());
        }
        while i < self.album_images.len()
            invariant
                self@ == v0,
                i <= self.album_images.len(),
                niv == new_images.deep_view(),
                new_album_images.deep_view() == v0.album_images.take(i as int).filter(kp),
                kp == (|p: (i64, i64)| has_image(niv, p.1)),
                new_images.deep_view() == niv,
            decreases self.album_images.len() - i,
        {
            proof {
                assert(self.album_images@[i as int] == v0.album_images[i as int]);
                assert(v0.album_images.take(i + 1).drop_last() =~= v0.album_images.take(i as int));
                assert(v0.album_images.take(i + 1).last() == v0.album_images[i as int]);
                reveal_with_fuel(Seq::filter, 2);
            }
            if vec_has_image(&new_images, self.album_images[i].1) {
                let ghost odv = new_album_images.deep_view();
                let pair = (self.album_images[i].0, self.album_images[i].1);
                new_album_images.push(pair);
                proof {
                    assert(new_album_images.deep_view() =~= odv.push(v0.album_images[i as int]));
                }
            }
            i += 1;
        }
        proof {
            assert(v0.album_images.take(v0.album_images.len() as int) =~= v0.album_images);
        }
        let ghost fa = |a: AlbumV|
            if a.image_id is Some && !has_image(niv, a.image_id->0) {
                AlbumV { image_id: None, ..a }
            } else {
                a
            };
        let mut new_albums: Vec<Album> = Vec::new();
        let mut i: usize = 0;
        while i < self.albums.len()
            invariant
                self@ == v0,
                i <= self.albums.len(),
                niv == new_images.deep_view(),
                new_albums.deep_view() == v0.albums.take(i as int).map_values(fa),
                fa == (|a: AlbumV|
                    if a.image_id is Some && !has_image(niv, a.image_id->0) {
                        AlbumV { image_id: None, ..a }
                    } else {
                        a
                    }),
                new_images.deep_view() == niv,
            decreases self.albums.len() - i,
        {
            proof {
                assert(self.albums@[i as int]@ == v0.albums[i as int]);
            }
            let mut row = copy_album_row(&self.albums[i]);
            let clear_image = match row.image_id {
                Some(im) => !vec_has_image(&new_images, im),
                None => false,
            };
            if clear_image {
                row.image_id = None;
            }
            let ghost odv = new_albums.deep_view();
            new_albums.push(row);
            proof {
                assert(new_albums.deep_view() =~= odv.push(fa(v0.albums[i as int])));
                assert(v0.albums.take(i + 1).map_values(fa) =~= odv.push(fa(v0.albums[i as int])));
            }
            i += 1;
        }
        proof {
            assert(v0.albums.take(v0.albums.len() as int) =~= v0.albums);
        }
        self.nodes = new_nodes;
        self.tracks = new_tracks;
        self.images = new_images;
        self.lyrics = new_lyrics;
        self.album_images = new_album_images;
        self.albums = new_albums;
        proof {
            let v1 = self@;
            assert(v1 =~= delete_node_spec(v0, node_id)) by {
                assert(v1.nodes == v0.nodes.filter(keep_n).map_values(fixm));
                assert(v1.tracks == v0.tracks.filter(keep_t));
                assert(v1.images == v0.images.filter(kim));
                assert(v1.lyrics == v0.lyrics.filter(kl));
                assert(v1.album_images == v0.album_images.filter(kp));
                assert(v1.albums == v0.albums.map_values(fa));
            }
            assert(inv(v1)) by {
                delete_node_keeps_inv(v0, v1, node_id);
            }
        }
    }
}

/// The cascades of `delete_node` keep the catalog invariant.
proof fn delete_node_keeps_inv(v0: IndexV, v1: IndexV, node_id: i64)
    requires
        inv(v0),
        v1 == delete_node_spec(v0, node_id),
    ensures
        inv(v1),
{
    let keep_n = |n: NodeV| !has_ancestor(v0.nodes, n.node_id, node_id);
    let fixm = |n: NodeV|
        if n.master_id is Some && has_ancestor(v0.nodes, n.master_id->0, node_id) {
            NodeV { master_id: None, ..n }
        } else {
            n
        };
    let keep_t = |t: TrackV|
        !has_ancestor(v0.nodes, t.node_id, node_id) && (t.start is None || !(node_of(
            v0.nodes,
            t.node_id,
        ).master_id is Some && has_ancestor(
            v0.nodes,
            node_of(v0.nodes, t.node_id).master_id->0,
            node_id,
        )));
    let kim = |im: ImageV| !has_ancestor(v0.nodes, im.node_id, node_id);
    let ntv = v0.tracks.filter(keep_t);
    let niv = v0.images.filter(kim);
    let kl = |l: TrackLyricsV| has_track(ntv, l.track_id);
    let kp = |p: (i64, i64)| has_image(niv, p.1);
    let fa = |a: AlbumV|
        if a.image_id is Some && !has_image(niv, a.image_id->0) {
            AlbumV { image_id: None, ..a }
        } else {
            a
        };
    assert(forall|n: NodeV| (#[trigger] fixm(n)).node_id == n.node_id);
    lemma_nodes_restricted(v0.nodes, keep_n, fixm);
    lemma_tracks_filtered(v0.tracks, keep_t);
    lemma_images_filtered(v0.images, kim);
    lemma_filter_unique_keys(v0.lyrics, kl, |l: TrackLyricsV| l.track_id);
    lemma_filter_unique_keys(v0.album_images, kp, |p: (i64, i64)| p);
    assert(forall|i: int| 0 <= i < v1.albums.len() ==> #[trigger] v1.albums[i] == fa(v0.albums[i]));
    assert forall|id: i64| #[trigger] has_album(v1.albums, id) <==> has_album(v0.albums, id) by {
        if has_album(v0.albums, id) {
            let j = choose|j: int| 0 <= j < v0.albums.len() && v0.albums[j].album_id == id;
            assert(v1.albums[j].album_id == id);
        }
        if has_album(v1.albums, id) {
            let j = choose|j: int| 0 <= j < v1.albums.len() && v1.albums[j].album_id == id;
            assert(v0.albums[j].album_id == id);
        }
    }
    assert forall|k: int| 0 <= k < v1.nodes.len() implies node_ok(v1, #[trigger] v1.nodes[k]) by {
        let n = v1.nodes[k];
        assert(n == v0.nodes.filter(keep_n).map_values(fixm)[k]);
        assert(has_node(v0.nodes.filter(keep_n).map_values(fixm), n.node_id));
        assert(has_node(v0.nodes, n.node_id) && keep_n(node_of(v0.nodes, n.node_id)));
        assert(node_of(v0.nodes.filter(keep_n).map_values(fixm), n.node_id) == fixm(
            node_of(v0.nodes, n.node_id),
        ));
        let n0 = node_of(v0.nodes, n.node_id);
        let j = choose|j: int| 0 <= j < v0.nodes.len() && v0.nodes[j].node_id == n.node_id;
        assert(node_ok(v0, v0.nodes[j]));
        lemma_node_at(v0.nodes, j);
        assert(v0.nodes[j] == n0);
        let i2 = choose|i2: int|
            0 <= i2 < v1.nodes.len() && v1.nodes[i2].node_id == n.node_id;
        if i2 != k {
            assert(false);
        }
        assert(n == fixm(n0));
        assert(!has_ancestor(v0.nodes, n0.node_id, node_id));
        match n.parent_id {
            Some(p) => {
                assert(n0.parent_id == Some(p));
                assert(has_node(v0.nodes, p));
                assert(0 <= p < n0.node_id);
                assert(!has_ancestor(v0.nodes, p, node_id)) by {
                    assert(n0.node_id != node_id);
                }
                assert(keep_n(node_of(v0.nodes, p)));
                assert(has_node(v1.nodes, p));
                assert(node_of(v1.nodes, p) == fixm(node_of(v0.nodes, p)));
                assert(node_of(v1.nodes, p).path == node_of(v0.nodes, p).path);
                assert(node_of(v1.nodes, p).node_type == node_of(v0.nodes, p).node_type);
                assert(n.path == node_of(v1.nodes, p).path + path_sep() + n.name);
            },
            None => {
                assert(n.path == n.name);
            },
        }
        match n.master_id {
            Some(m) => {
                assert(n0.master_id == Some(m));
                assert(!has_ancestor(v0.nodes, m, node_id));
                assert(has_node(v0.nodes, m));
                assert(keep_n(node_of(v0.nodes, m)));
                assert(has_node(v1.nodes, m));
                assert(n.node_type == NodeType::File);
            },
            None => {},
        }
        assert(1 <= n.node_id < v1.next_node_id);
    }
    assert forall|k: int| 0 <= k < v1.tracks.len() implies track_ok(v1, #[trigger] v1.tracks[k]) by {
        let t = v1.tracks[k];
        assert(t == v0.tracks.filter(keep_t)[k]);
        assert(has_track(v0.tracks.filter(keep_t), t.track_id));
        assert(has_track(v0.tracks, t.track_id) && keep_t(track_of(v0.tracks, t.track_id)));
        lemma_track_at(v0.tracks.filter(keep_t), k);
        assert(t == track_of(v0.tracks.filter(keep_t), t.track_id));
        assert(t == track_of(v0.tracks, t.track_id));
        let j = choose|j: int| 0 <= j < v0.tracks.len() && v0.tracks[j].track_id == t.track_id;
        assert(track_ok(v0, v0.tracks[j]));
        assert(v0.tracks[j] == t);
        assert(!has_ancestor(v0.nodes, t.node_id, node_id));
        assert(keep_n(node_of(v0.nodes, t.node_id)));
        assert(has_node(v1.nodes, t.node_id));
        if t.start is Some {
            let n0 = node_of(v0.nodes, t.node_id);
            assert(n0.master_id is Some);
            assert(!has_ancestor(v0.nodes, n0.master_id->0, node_id));
            assert(node_of(v1.nodes, t.node_id) == fixm(n0));
            assert(fixm(n0).master_id is Some);
        }
    }
    assert forall|k: int| 0 <= k < v1.images.len() implies image_ok(v1, #[trigger] v1.images[k]) by {
        let im = v1.images[k];
        assert(im == v0.images.filter(kim)[k]);
        assert(has_image(v0.images.filter(kim), im.image_id));
        assert(has_image(v0.images, im.image_id) && kim(image_of(v0.images, im.image_id)));
        lemma_image_at(v0.images.filter(kim), k);
        assert(im == image_of(v0.images.filter(kim), im.image_id));
        assert(im == image_of(v0.images, im.image_id));
        let j = choose|j: int| 0 <= j < v0.images.len() && v0.images[j].image_id == im.image_id;
        assert(image_ok(v0, v0.images[j]));
        assert(v0.images[j] == im);
        assert(keep_n(node_of(v0.nodes, im.node_id)));
        assert(has_node(v1.nodes, im.node_id));
    }
    assert forall|k: int| 0 <= k < v1.albums.len() implies album_ok(v1, #[trigger] v1.albums[k]) by {
        assert(v1.albums[k] == fa(v0.albums[k]));
        assert(album_ok(v0, v0.albums[k]));
        let a2 = v1.albums[k];
        if a2.image_id is Some {
            assert(has_image(v1.images, a2.image_id->0));
        }
    }
    assert forall|k: int| 0 <= k < v1.album_images.len() implies has_album(
        v1.albums,
        #[trigger] v1.album_images[k].0,
    ) && has_image(v1.images, v1.album_images[k].1) by {
        let p = v1.album_images[k];
        assert(p == v0.album_images.filter(kp)[k]);
        assert(appears_kept(v0.album_images, p, kp));
        let j = choose|j: int|
            0 <= j < v0.album_images.len() && v0.album_images[j] == p && kp(v0.album_images[j]);
        assert(has_album(v0.albums, p.0));
        assert(has_image(niv, p.1));
    }
    assert forall|k: int| 0 <= k < v1.lyrics.len() implies has_track(
        v1.tracks,
        #[trigger] v1.lyrics[k].track_id,
    ) by {
        let l = v1.lyrics[k];
        assert(l == v0.lyrics.filter(kl)[k]);
        assert(appears_kept(v0.lyrics, l, kl));
        let j = choose|j: int| 0 <= j < v0.lyrics.len() && v0.lyrics[j] == l && kl(v0.lyrics[j]);
        assert(has_track(ntv, l.track_id));
    }
    assert forall|a: int, b: int| 0 <= a < b < v1.nodes.len() implies !(v1.nodes[a].parent_id
        == v1.nodes[b].parent_id && v1.nodes[a].name == v1.nodes[b].name) by {
        let f = v0.nodes.filter(keep_n);
        lemma_filter_unique_keys(v0.nodes, keep_n, |n: NodeV| n.node_id);
        assert(v1.nodes[a] == fixm(f[a]) && v1.nodes[b] == fixm(f[b]));
        assert(appears_kept(v0.nodes, f[a], keep_n));
        assert(appears_kept(v0.nodes, f[b], keep_n));
        let ja = choose|j: int| 0 <= j < v0.nodes.len() && v0.nodes[j] == f[a] && keep_n(v0.nodes[j]);
        let jb = choose|j: int| 0 <= j < v0.nodes.len() && v0.nodes[j] == f[b] && keep_n(v0.nodes[j]);
        assert(f[a].node_id != f[b].node_id);
        if ja == jb {
            assert(false);
        }
        assert(!(v0.nodes[ja].parent_id == v0.nodes[jb].parent_id && v0.nodes[ja].name
            == v0.nodes[jb].name));
    }
    assert forall|a: int, b: int| 0 <= a < b < v1.tracks.len() implies v1.tracks[a].track_id
        != v1.tracks[b].track_id by {
        assert(v1.tracks[a] == v0.tracks.filter(keep_t)[a] && v1.tracks[b] == v0.tracks.filter(
            keep_t,
        )[b]);
    }
    assert forall|a: int, b: int| 0 <= a < b < v1.images.len() implies v1.images[a].image_id
        != v1.images[b].image_id by {
        assert(v1.images[a] == v0.images.filter(kim)[a] && v1.images[b] == v0.images.filter(
            kim,
        )[b]);
    }
    assert forall|a: int, b: int| 0 <= a < b < v1.albums.len() implies v1.albums[a].album_id
        != v1.albums[b].album_id by {
        assert(v1.albums[a] == fa(v0.albums[a]) && v1.albums[b] == fa(v0.albums[b]));
    }
    assert forall|a: int, b: int| 0 <= a < b < v1.lyrics.len() implies v1.lyrics[a].track_id
        != v1.lyrics[b].track_id by {
        assert(v1.lyrics[a] == v0.lyrics.filter(kl)[a] && v1.lyrics[b] == v0.lyrics.filter(kl)[b]);
    }
    assert forall|a: int, b: int| 0 <= a < b < v1.album_images.len() implies v1.album_images[a]
        != v1.album_images[b] by {
        assert(v1.album_images[a] == v0.album_images.filter(kp)[a] && v1.album_images[b]
            == v0.album_images.filter(kp)[b]);
    }
    assert forall|a: int, b: int| 0 <= a < b < v1.nodes.len() implies v1.nodes[a].node_id
        != v1.nodes[b].node_id by {
        assert(v1.nodes[a] == v0.nodes.filter(keep_n).map_values(fixm)[a] && v1.nodes[b]
            == v0.nodes.filter(keep_n).map_values(fixm)[b]);
    }
}

/// The album has a track on a node in the given directory.
pub open spec fn album_has_dir_track(v: IndexV, album_id: i64, parent_id: Option<i64>) -> bool {
    exists|ti: int|
        0 <= ti < v.tracks.len() && (#[trigger] v.tracks[ti]).album_id == album_id && has_node(
            v.nodes,
            v.tracks[ti].node_id,
        ) && node_of(v.nodes, v.tracks[ti].node_id).parent_id == parent_id
}

/// The album has at least one track.
pub open spec fn album_has_any_track(v: IndexV, album_id: i64) -> bool {
    exists|ti: int| 0 <= ti < v.tracks.len() && (#[trigger] v.tracks[ti]).album_id == album_id
}

/// The album shares the name and already has a track in the directory of
/// the given node.
pub open spec fn album_dir_match(v: IndexV, a: AlbumV, track_node_id: i64, name: Seq<u8>) -> bool {
    a.name == name && has_node(v.nodes, track_node_id) && album_has_dir_track(
        v,
        a.album_id,
        node_of(v.nodes, track_node_id).parent_id,
    )
}

/// The album shares the name and has no tracks at all.
pub open spec fn album_unused_match(v: IndexV, a: AlbumV, name: Seq<u8>) -> bool {
    a.name == name && !album_has_any_track(v, a.album_id)
}

impl Index {
    fn has_dir_track(&self, album_id: i64, parent_id: Option<i64>) -> (r: bool)
        requires
            inv(self@),
        ensures
            r == album_has_dir_track(self@, album_id, parent_id),
    {
        let mut i: usize = 0;
        while i < self.tracks.len()
            invariant
                inv(self@),
                i <= self.tracks.len(),
                forall|k: int|
                    0 <= k < i ==> !((#[trigger] self@.tracks[k]).album_id == album_id && has_node(
                        self@.nodes,
                        self@.tracks[k].node_id,
                    ) && node_of(self@.nodes, self@.tracks[k].node_id).parent_id == parent_id),
            decreases self.tracks.len() - i,
        {
            proof {
                assert(self.tracks@[i as int]@ == self@.tracks[i as int]);
            }
            if self.tracks[i].album_id == album_id {
                match self.node(self.tracks[i].node_id) {
                    Some(n) => {
                        if opt_i64_eq(n.parent_id, parent_id) {
                            proof {
                                assert(album_has_dir_track(self@, album_id, parent_id));
                            }
                            return true;
                        }
                    },
                    None => {
                        proof {
                            assert(track_ok(self@, self@.tracks[i as int]));
                            assert(false);
                        }
                    },
                }
            }
            i += 1;
        }
        false
    }

    fn has_any_track(&self, album_id: i64) -> (r: bool)
        requires
            inv(self@),
        ensures
            r == album_has_any_track(self@, album_id),
    {
        let mut i: usize = 0;
        while i < self.tracks.len()
            invariant
                inv(self@),
                i <= self.tracks.len(),
                forall|k: int| 0 <= k < i ==> (#[trigger] self@.tracks[k]).album_id != album_id,
            decreases self.tracks.len() - i,
        {
            proof {
                assert(self.tracks@[i as int]@ == self@.tracks[i as int]);
            }
            if self.tracks[i].album_id == album_id {
                proof {
                    assert(album_has_any_track(self@, album_id));
                }
                return true;
            }
            i += 1;
        }
        false
    }

    /// The album a new track with this name on this node should join: the
    /// first album with the name that has a track in the same directory,
    /// else the first album with the name and no tracks at all, else none.
    /// This is what lets a cue-created album be re-attached on rescans.
    pub fn find_album(&self, track_node_id: i64, album_name: &[u8]) -> (r: Option<Album>)
        requires
            inv(self@),
        ensures
            (exists|i: int|
                0 <= i < self@.albums.len() && album_dir_match(
                    self@,
                    #[trigger] self@.albums[i],
                    track_node_id,
                    album_name@,
                )) ==> r is Some && (exists|i: int|
                0 <= i < self@.albums.len() && album_dir_match(
                    self@,
                    #[trigger] self@.albums[i],
                    track_node_id,
                    album_name@,
                ) && r->0@ == self@.albums[i] && (forall|k: int|
                    0 <= k < i ==> !album_dir_match(
                        self@,
                        #[trigger] self@.albums[k],
                        track_node_id,
                        album_name@,
                    ))),
            !(exists|i: int|
                0 <= i < self@.albums.len() && album_dir_match(
                    self@,
                    #[trigger] self@.albums[i],
                    track_node_id,
                    album_name@,
                )) && (exists|i: int|
                0 <= i < self@.albums.len() && album_unused_match(
                    self@,
                    #[trigger] self@.albums[i],
                    album_name@,
                )) ==> r is Some && (exists|i: int|
                0 <= i < self@.albums.len() && album_unused_match(
                    self@,
                    #[trigger] self@.albums[i],
                    album_name@,
                ) && r->0@ == self@.albums[i] && (forall|k: int|
                    0 <= k < i ==> !album_unused_match(
                        self@,
                        #[trigger] self@.albums[k],
                        album_name@,
                    ))),
            !(exists|i: int|
                0 <= i < self@.albums.len() && album_dir_match(
                    self@,
                    #[trigger] self@.albums[i],
                    track_node_id,
                    album_name@,
                )) && !(exists|i: int|
                0 <= i < self@.albums.len() && album_unused_match(
                    self@,
                    #[trigger] self@.albums[i],
                    album_name@,
                )) ==> r is None,
    {
        let base = self.node(track_node_id);
        if let Some(base_node) = base {
            let mut i: usize = 0;
            while i < self.albums.len()
                invariant
                    inv(self@),
                    i <= self.albums.len(),
                    has_node(self@.nodes, track_node_id),
                    base_node@ == node_of(self@.nodes, track_node_id),
                    forall|k: int|
                        0 <= k < i ==> !album_dir_match(
                            self@,
                            #[trigger] self@.albums[k],
                            track_node_id,
                            album_name@,
                        ),
                decreases self.albums.len() - i,
            {
                proof {
                    assert(self.albums@[i as int]@ == self@.albums[i as int]);
                }
                if text::bytes_eq(&self.albums[i].name, album_name) && self.has_dir_track(
                    self.albums[i].album_id,
                    base_node.parent_id,
                ) {
                    proof {
                        assert(album_dir_match(
                            self@,
                            self@.albums[i as int],
                            track_node_id,
                            album_name@,
                        ));
                    }
                    return Some(copy_album_row(&self.albums[i]));
                }
                i += 1;
            }
        }
        let mut i: usize = 0;
        while i < self.albums.len()
            invariant
                inv(self@),
                i <= self.albums.len(),
                forall|k: int|
                    0 <= k < i ==> !album_unused_match(
                        self@,
                        #[trigger] self@.albums[k],
                        album_name@,
                    ),
                forall|k: int|
                    0 <= k < self@.albums.len() ==> !album_dir_match(
                        self@,
                        #[trigger] self@.albums[k],
                        track_node_id,
                        album_name@,
                    ),
            decreases self.albums.len() - i,
        {
            proof {
                assert(self.albums@[i as int]@ == self@.albums[i as int]);
            }
            if text::bytes_eq(&self.albums[i].name, album_name) && !self.has_any_track(
                self.albums[i].album_id,
            ) {
                proof {
                    assert(album_unused_match(self@, self@.albums[i as int], album_name@));
                }
                return Some(copy_album_row(&self.albums[i]));
            }
            i += 1;
        }
        None
    }
}

pub open spec fn has_lyrics(ls: Seq<TrackLyricsV>, track_id: i64) -> bool {
    exists|i: int| 0 <= i < ls.len() && ls[i].track_id == track_id
}

pub open spec fn lyrics_idx(ls: Seq<TrackLyricsV>, track_id: i64) -> int {
    choose|i: int| 0 <= i < ls.len() && ls[i].track_id == track_id
}

pub open spec fn lyrics_of(ls: Seq<TrackLyricsV>, track_id: i64) -> TrackLyricsV {
    ls[lyrics_idx(ls, track_id)]
}

pub proof fn lemma_lyrics_at(ls: Seq<TrackLyricsV>, i: int)
    requires
        forall|a: int, b: int| 0 <= a < b < ls.len() ==> ls[a].track_id != ls[b].track_id,
        0 <= i < ls.len(),
    ensures
        has_lyrics(ls, ls[i].track_id),
        lyrics_of(ls, ls[i].track_id) == ls[i],
        lyrics_idx(ls, ls[i].track_id) == i,
{
    assert(has_lyrics(ls, ls[i].track_id));
    let j = choose|j: int| 0 <= j < ls.len() && ls[j].track_id == ls[i].track_id;
    if i != j {
        assert(false);
    }
}

impl Index {
    /// The stored lyrics row for a track, if any.
    pub fn track_lyrics(&self, track_id: i64) -> (r: Option<TrackLyrics>)
        requires
            inv(self@),
        ensures
            r is Some <==> has_lyrics(self@.lyrics, track_id),
            r is Some ==> r->0@ == lyrics_of(self@.lyrics, track_id),
    {
        let mut i: usize = 0;
        while i < self.lyrics.len()
            invariant
                inv(self@),
                i <= self.lyrics.len(),
                forall|k: int| 0 <= k < i ==> self@.lyrics[k].track_id != track_id,
            decreases self.lyrics.len() - i,
        {
            proof {
                assert(self.lyrics@[i as int]@ == self@.lyrics[i as int]);
            }
            if self.lyrics[i].track_id == track_id {
                proof {
                    lemma_lyrics_at(self@.lyrics, i as int);
                }
                return Some(copy_lyrics(&self.lyrics[i]));
            }
            i += 1;
        }
        None
    }

    /// Inserts or replaces a track's lyrics row; `now` becomes its
    /// modified stamp. The track must exist.
    pub fn set_track_lyrics(&mut self, rec: &TrackLyrics, now: i64) -> (r: Result<
        TrackLyrics,
        IndexError,
    >)
        requires
            inv(old(self)@),
        ensures
            inv(final(self)@),
            r is Err <==> !has_track(old(self)@.tracks, rec@.track_id),
            r is Err ==> final(self)@ == old(self)@ && r->Err_0 == IndexError::Constraint,
            r is Ok ==> r->Ok_0@ == (TrackLyricsV { modified: now, ..rec@ }),
            r is Ok && has_lyrics(old(self)@.lyrics, rec@.track_id) ==> final(self)@ == (IndexV {
                lyrics: old(self)@.lyrics.update(
                    lyrics_idx(old(self)@.lyrics, rec@.track_id),
                    (TrackLyricsV { modified: now, ..rec@ }),
                ),
                ..old(self)@
            }),
            r is Ok && !has_lyrics(old(self)@.lyrics, rec@.track_id) ==> final(self)@ == (IndexV {
                lyrics: old(self)@.lyrics.push((TrackLyricsV { modified: now, ..rec@ })),
                ..old(self)@
            }),
    {
        let ghost v0 = self@;
        if !vec_has_track(&self.tracks, rec.track_id) {
            proof {
                assert(self.tracks.deep_view() == v0.tracks);
            }
            return Err(IndexError::Constraint);
        }
        proof {
            assert(self.tracks.deep_view() == v0.tracks);
        }
        let mut row = copy_lyrics(rec);
        row.modified = now;
        let result = copy_lyrics(&row);
        let ghost rowv = TrackLyricsV { modified: now, ..rec@ };
        proof {
            assert(row@ =~= rowv);
        }
        let mut i: usize = 0;
        while i < self.lyrics.len()
            invariant
                inv(self@),
                self@ == v0,
                v0 == old(self)@,
                row@ == rowv,
                result@ == rowv,
                rowv == (TrackLyricsV { modified: now, ..rec@ }),
                has_track(v0.tracks, rec@.track_id),
                i <= self.lyrics.len(),
                forall|k: int| 0 <= k < i ==> self@.lyrics[k].track_id != rec@.track_id,
            decreases self.lyrics.len() - i,
        {
            proof {
                assert(self.lyrics@[i as int]@ == self@.lyrics[i as int]);
            }
            if self.lyrics[i].track_id == rec.track_id {
                proof {
                    lemma_lyrics_at(v0.lyrics, i as int);
                }
                self.lyrics.set(i, row);
                proof {
                    let v1 = self@;
                    assert(v1 =~= (IndexV {
                        lyrics: v0.lyrics.update(lyrics_idx(v0.lyrics, rec@.track_id), rowv),
                        ..v0
                    })) by {
                        assert(v1.lyrics =~= v0.lyrics.update(i as int, rowv));
                    }
                    assert(inv(v1)) by {
                        assert(forall|k: int|
                            0 <= k < v1.lyrics.len() ==> #[trigger] v1.lyrics[k].track_id == (if k
                                == i as int {
                                rowv.track_id
                            } else {
                                v0.lyrics[k].track_id
                            }));
                        lyrics_tables_unchanged_inv(v0, v1);
                    }
                }
                return Ok(result);
            }
            i += 1;
        }
        self.lyrics.push(row);
        proof {
            let v1 = self@;
            assert(v1 =~= (IndexV { lyrics: v0.lyrics.push(rowv), ..v0 })) by {
                assert(v1.lyrics =~= v0.lyrics.push(rowv));
            }
            assert(inv(v1)) by {
                assert(forall|k: int|
                    0 <= k < v0.lyrics.len() ==> #[trigger] v1.lyrics[k] == v0.lyrics[k]);
                assert(v1.lyrics[v0.lyrics.len() as int] == rowv);
                lyrics_tables_unchanged_inv(v0, v1);
            }
        }
        Ok(result)
    }
}

/// Only the lyrics table changed, its track ids stayed unique, and every
/// row still names an existing track: the invariant carries over.
proof fn lyrics_tables_unchanged_inv(v0: IndexV, v1: IndexV)
    requires
        inv(v0),
        v1 == (IndexV { lyrics: v1.lyrics, ..v0 }),
        forall|a: int, b: int| 0 <= a < b < v1.lyrics.len() ==> v1.lyrics[a].track_id != v1.lyrics[b].track_id,
        forall|k: int|
            0 <= k < v1.lyrics.len() ==> has_track(v0.tracks, #[trigger] v1.lyrics[k].track_id),
    ensures
        inv(v1),
{
    assert(forall|i: int| 0 <= i < v1.nodes.len() ==> node_ok(v1, #[trigger] v1.nodes[i])) by {
        assert(forall|i: int| 0 <= i < v0.nodes.len() ==> node_ok(v0, #[trigger] v0.nodes[i]));
    }
    assert(forall|i: int| 0 <= i < v1.tracks.len() ==> track_ok(v1, #[trigger] v1.tracks[i])) by {
        assert(forall|i: int| 0 <= i < v0.tracks.len() ==> track_ok(v0, #[trigger] v0.tracks[i]));
    }
    assert(forall|i: int| 0 <= i < v1.images.len() ==> image_ok(v1, #[trigger] v1.images[i])) by {
        assert(forall|i: int| 0 <= i < v0.images.len() ==> image_ok(v0, #[trigger] v0.images[i]));
    }
    assert(forall|i: int| 0 <= i < v1.albums.len() ==> album_ok(v1, #[trigger] v1.albums[i])) by {
        assert(forall|i: int| 0 <= i < v0.albums.len() ==> album_ok(v0, #[trigger] v0.albums[i]));
    }
}

/// An album's track that lives on a node directly under the processed
/// directory.
pub open spec fn in_dir_track(nodes: Seq<NodeV>, album_id: i64, parent_id: i64) -> spec_fn(
    TrackV,
) -> bool {
    |t: TrackV|
        t.album_id == album_id && has_node(nodes, t.node_id) && node_of(nodes, t.node_id).parent_id
            == Some(parent_id)
}

/// As `in_dir_track`, with an album artist set.
pub open spec fn in_dir_aa_track(nodes: Seq<NodeV>, album_id: i64, parent_id: i64) -> spec_fn(
    TrackV,
) -> bool {
    |t: TrackV|
        t.album_id == album_id && has_node(nodes, t.node_id) && node_of(nodes, t.node_id).parent_id
            == Some(parent_id) && t.album_artist_id is Some
}

pub open spec fn aa_pair() -> spec_fn(TrackV) -> (i64, Seq<u8>) {
    |t: TrackV| (t.album_artist_id->0, t.album_artist_name->0)
}

pub open spec fn artist_pair() -> spec_fn(TrackV) -> (i64, Seq<u8>) {
    |t: TrackV| (t.artist_id, t.artist_name)
}

/// The album-artist candidate pairs of an album's tracks under the
/// processed directory, in track order.
pub open spec fn cand_album_artists(
    ts: Seq<TrackV>,
    nodes: Seq<NodeV>,
    album_id: i64,
    parent_id: i64,
) -> Seq<(i64, Seq<u8>)> {
    ts.filter(in_dir_aa_track(nodes, album_id, parent_id)).map_values(aa_pair())
}

/// The plain artist candidate pairs of those tracks, in track order.
pub open spec fn cand_artists(
    ts: Seq<TrackV>,
    nodes: Seq<NodeV>,
    album_id: i64,
    parent_id: i64,
) -> Seq<(i64, Seq<u8>)> {
    ts.filter(in_dir_track(nodes, album_id, parent_id)).map_values(artist_pair())
}

pub open spec fn pair_count(s: Seq<(i64, Seq<u8>)>, x: (i64, Seq<u8>)) -> int {
    s.filter(|y: (i64, Seq<u8>)| y == x).len() as int
}

/// The position of the most frequent pair in the first `n`, the earliest
/// winning ties.
pub open spec fn best_pair_idx(s: Seq<(i64, Seq<u8>)>, n: int) -> int
    decreases n,
{
    if n <= 1 {
        0
    } else {
        let b = best_pair_idx(s, n - 1);
        if pair_count(s, s[n - 1]) > pair_count(s, s[b]) {
            n - 1
        } else {
            b
        }
    }
}

pub proof fn lemma_best_pair_bounds(s: Seq<(i64, Seq<u8>)>, n: int)
    requires
        1 <= n,
    ensures
        0 <= best_pair_idx(s, n) < n,
    decreases n,
{
    if n > 1 {
        lemma_best_pair_bounds(s, n - 1);
    }
}

/// The derived (artist id, artist name) of an album: the most frequent
/// album-artist pair among its tracks under the processed directory, else
/// the most frequent artist pair among them, else nothing.
pub open spec fn album_artist_mode(
    ts: Seq<TrackV>,
    nodes: Seq<NodeV>,
    album_id: i64,
    parent_id: i64,
) -> (Option<i64>, Option<Seq<u8>>) {
    let caa = cand_album_artists(ts, nodes, album_id, parent_id);
    let ca = cand_artists(ts, nodes, album_id, parent_id);
    if caa.len() > 0 {
        let p = caa[best_pair_idx(caa, caa.len() as int)];
        (Some(p.0), Some(p.1))
    } else if ca.len() > 0 {
        let p = ca[best_pair_idx(ca, ca.len() as int)];
        (Some(p.0), Some(p.1))
    } else {
        (None, None)
    }
}

/// The first reconciliation step: every album with a track directly under
/// `parent_id` gets its artist re-derived from its tracks under that
/// directory.
pub open spec fn refresh_album_artists_spec(v: IndexV, parent_id: i64) -> IndexV {
    IndexV {
        albums: v.albums.map_values(
            |a: AlbumV|
                if album_has_dir_track(v, a.album_id, Some(parent_id)) {
                    AlbumV {
                        artist_id: album_artist_mode(v.tracks, v.nodes, a.album_id, parent_id).0,
                        artist_name: album_artist_mode(
                            v.tracks,
                            v.nodes,
                            a.album_id,
                            parent_id,
                        ).1,
                        ..a
                    }
                } else {
                    a
                },
        ),
        ..v
    }
}

fn pairs_equal(a: &(i64, Vec<u8>), b: &(i64, Vec<u8>)) -> (r: bool)
    ensures
        r == (a.deep_view() == b.deep_view()),
{
    proof {
        assert(a.deep_view() == (a.0, a.1.deep_view()));
        assert(b.deep_view() == (b.0, b.1.deep_view()));
        assert(a.1.deep_view() =~= a.1@);
        assert(b.1.deep_view() =~= b.1@);
    }
    a.0 == b.0 && text::bytes_eq(&a.1, &b.1)
}

fn count_pairs(s: &Vec<(i64, Vec<u8>)>, x: &(i64, Vec<u8>)) -> (r: usize)
    ensures
        r == pair_count(s.deep_view(), x.deep_view()),
{
    let ghost sv = s.deep_view();
    let ghost xv = x.deep_view();
    let mut cnt: usize = 0;
    let mut i: usize = 0;
    proof {
        assert(pair_count(sv.take(0), xv) == 0) by {
            assert(sv.take(0).len() == 0);
            reveal_with_fuel(Seq::filter, 1);
        }
    }
    while i < s.len()
        invariant
            i <= s.len(),
            sv == s.deep_view(),
            xv == x.deep_view(),
            cnt == pair_count(sv.take(i as int), xv),
            cnt <= i,
        decreases s.len() - i,
    {
        proof {
            assert(s@[i as int].deep_view() == sv[i as int]);
            assert(sv.take(i + 1).drop_last() =~= sv.take(i as int));
            assert(sv.take(i + 1).last() == sv[i as int]);
            reveal_with_fuel(Seq::filter, 2);
        }
        if pairs_equal(&s[i], x) {
            cnt = cnt + 1;
        }
        i += 1;
    }
    proof {
        assert(sv.take(sv.len() as int) =~= sv);
        assert(pair_count(sv.take(sv.len() as int), xv) == pair_count(sv, xv));
    }
    cnt
}

fn best_pair(s: &Vec<(i64, Vec<u8>)>) -> (r: usize)
    requires
        s.len() >= 1,
    ensures
        r == best_pair_idx(s.deep_view(), s.deep_view().len() as int),
        r < s.len(),
{
    let ghost sv = s.deep_view();
    let mut b: usize = 0;
    let mut n: usize = 1;
    while n < s.len()
        invariant
            sv == s.deep_view(),
            1 <= n <= s.len(),
            b == best_pair_idx(sv, n as int),
            b < n,
        decreases s.len() - n,
    {
        proof {
            lemma_best_pair_bounds(sv, n as int);
            assert(s@[n as int].deep_view() == sv[n as int]);
            assert(s@[b as int].deep_view() == sv[b as int]);
        }
        let cn = count_pairs(s, &s[n]);
        let cb = count_pairs(s, &s[b]);
        if cn > cb {
            b = n;
        }
        n += 1;
    }
    b
}

impl Index {
    /// Candidate pairs from one album's tracks, album-artist or plain.
    fn collect_pairs(&self, album_id: i64, parent_id: i64, use_album_artist: bool) -> (r: Vec<
        (i64, Vec<u8>),
    >)
        requires
            inv(self@),
        ensures
            use_album_artist ==> r.deep_view() == cand_album_artists(
                self@.tracks,
                self@.nodes,
                album_id,
                parent_id,
            ),
            !use_album_artist ==> r.deep_view() == cand_artists(
                self@.tracks,
                self@.nodes,
                album_id,
                parent_id,
            ),
    {
        let ghost ts = self@.tracks;
        let ghost ns = self@.nodes;
        let mut out: Vec<(i64, Vec<u8>)> = Vec::new();
        let mut i: usize = 0;
        proof {
            reveal_with_fuel(Seq::filter, 1);
            assert(cand_album_artists(ts.take(0), ns, album_id, parent_id) =~= Seq::<
                (i64, Seq<u8>),
            >::empty());
            assert(cand_artists(ts.take(0), ns, album_id, parent_id) =~= Seq::<
                (i64, Seq<u8>),
            >::empty());
        }
        while i < self.tracks.len()
            invariant
                inv(self@),
                ts == self@.tracks,
                ns == self@.nodes,
                i <= self.tracks.len(),
                use_album_artist ==> out.deep_view() == cand_album_artists(
                    ts.take(i as int),
                    ns,
                    album_id,
                    parent_id,
                ),
                !use_album_artist ==> out.deep_view() == cand_artists(
                    ts.take(i as int),
                    ns,
                    album_id,
                    parent_id,
                ),
            decreases self.tracks.len() - i,
        {
            proof {
                assert(self.tracks@[i as int]@ == ts[i as int]);
                assert(ts.take(i + 1).drop_last() =~= ts.take(i as int));
                assert(ts.take(i + 1).last() == ts[i as int]);
                reveal_with_fuel(Seq::filter, 2);
            }
            let t = &self.tracks[i];
            let mut in_dir = t.album_id == album_id;
            if in_dir {
                match self.node(t.node_id) {
                    Some(n) => {
                        in_dir = match n.parent_id {
                            Some(p) => p == parent_id,
                            None => false,
                        };
                    },
                    None => {
                        proof {
                            assert(track_ok(self@, ts[i as int]));
                            assert(false);
                        }
                    },
                }
            }
            if use_album_artist {
                let mut keep = in_dir;
                if keep {
                    keep = t.album_artist_id.is_some();
                }
                if keep {
                    proof {
                        assert(track_ok(self@, ts[i as int]));
                        assert(in_dir_aa_track(ns, album_id, parent_id)(ts[i as int]));
                    }
                    let aa = match &t.album_artist_id {
                        Some(aa) => *aa,
                        None => {
                            proof {
                                assert(false);
                            }
                            0
                        },
                    };
                    let name = match &t.album_artist_name {
                        Some(n) => text::clone_bytes(n),
                        None => {
                            proof {
                                assert(false);
                            }
                            Vec::new()
                        },
                    };
                    let ghost odv = out.deep_view();
                    out.push((aa, name));
                    proof {
                        assert(out.deep_view() =~~= odv.push(
                            (ts[i as int].album_artist_id->0, ts[i as int].album_artist_name->0),
                        ));
                        assert(cand_album_artists(ts.take(i + 1), ns, album_id, parent_id)
                            =~~= odv.push(
                            (ts[i as int].album_artist_id->0, ts[i as int].album_artist_name->0),
                        ));
                    }
                } else {
                    proof {
                        assert(!in_dir_aa_track(ns, album_id, parent_id)(ts[i as int]));
                        assert(cand_album_artists(ts.take(i + 1), ns, album_id, parent_id)
                            =~= out.deep_view());
                    }
                }
            } else {
                if in_dir {
                    proof {
                        assert(in_dir_track(ns, album_id, parent_id)(ts[i as int]));
                    }
                    let ghost odv = out.deep_view();
                    out.push((t.artist_id, text::clone_bytes(&t.artist_name)));
                    proof {
                        assert(out.deep_view() =~~= odv.push(
                            (ts[i as int].artist_id, ts[i as int].artist_name),
                        ));
                        assert(cand_artists(ts.take(i + 1), ns, album_id, parent_id) =~~= odv.push(
                            (ts[i as int].artist_id, ts[i as int].artist_name),
                        ));
                    }
                } else {
                    proof {
                        assert(!in_dir_track(ns, album_id, parent_id)(ts[i as int]));
                        assert(cand_artists(ts.take(i + 1), ns, album_id, parent_id)
                            =~= out.deep_view());
                    }
                }
            }
            i += 1;
        }
        proof {
            assert(ts.take(ts.len() as int) =~= ts);
        }
        out
    }

    /// Applies the first reconciliation step of `process_node_updates`.
    #[verifier::rlimit(50)]
    fn refresh_album_artists(&mut self, parent_id: i64)
        requires
            inv(old(self)@),
        ensures
            inv(final(self)@),
            final(self)@ == refresh_album_artists_spec(old(self)@, parent_id),
    {
        let ghost v0 = self@;
        let mut i: usize = 0;
        while i < self.albums.len()
            invariant
                inv(self@),
                inv(v0),
                v0 == old(self)@,
                self@ == (IndexV { albums: self@.albums, ..v0 }),
                self@.albums.len() == v0.albums.len(),
                i <= self.albums.len(),
                forall|k: int|
                    i <= k < v0.albums.len() ==> #[trigger] self@.albums[k] == v0.albums[k],
                forall|k: int|
                    0 <= k < i ==> #[trigger] self@.albums[k] == (if album_has_dir_track(
                        v0,
                        v0.albums[k].album_id,
                        Some(parent_id),
                    ) {
                        AlbumV {
                            artist_id: album_artist_mode(
                                v0.tracks,
                                v0.nodes,
                                v0.albums[k].album_id,
                                parent_id,
                            ).0,
                            artist_name: album_artist_mode(
                                v0.tracks,
                                v0.nodes,
                                v0.albums[k].album_id,
                                parent_id,
                            ).1,
                            ..v0.albums[k]
                        }
                    } else {
                        v0.albums[k]
                    }),
            decreases self.albums.len() - i,
        {
            let ghost vc = self@;
            proof {
                assert(self.albums@[i as int]@ == self@.albums[i as int]);
                assert(self@.albums[i as int] == v0.albums[i as int]);
                assert(album_has_dir_track(self@, v0.albums[i as int].album_id, Some(parent_id))
                    == album_has_dir_track(v0, v0.albums[i as int].album_id, Some(parent_id)));
            }
            let aid = self.albums[i].album_id;
            if self.has_dir_track(aid, Some(parent_id)) {
                let caa = self.collect_pairs(aid, parent_id, true);
                let ghost mode = album_artist_mode(v0.tracks, v0.nodes, aid, parent_id);
                let pair: (i64, Vec<u8>) = if caa.len() > 0 {
                    proof {
                        lemma_best_pair_bounds(caa.deep_view(), caa.deep_view().len() as int);
                    }
                    let b = best_pair(&caa);
                    proof {
                        assert(caa@[b as int].deep_view() == caa.deep_view()[b as int]);
                        assert(caa@[b as int].deep_view().0 == caa@[b as int].0);
                        assert(caa@[b as int].deep_view().1 =~= caa@[b as int].1@);
                    }
                    let id = caa[b].0;
                    let nm = text::clone_bytes(&caa[b].1);
                    (id, nm)
                } else {
                    let ca = self.collect_pairs(aid, parent_id, false);
                    if ca.len() > 0 {
                        proof {
                            lemma_best_pair_bounds(ca.deep_view(), ca.deep_view().len() as int);
                        }
                        let b = best_pair(&ca);
                        proof {
                            assert(ca@[b as int].deep_view() == ca.deep_view()[b as int]);
                            assert(ca@[b as int].deep_view().0 == ca@[b as int].0);
                            assert(ca@[b as int].deep_view().1 =~= ca@[b as int].1@);
                        }
                        let id = ca[b].0;
                        let nm = text::clone_bytes(&ca[b].1);
                        (id, nm)
                    } else {
                        proof {
                            assert(album_has_dir_track(v0, aid, Some(parent_id)));
                            let ti = choose|ti: int|
                                0 <= ti < v0.tracks.len() && (#[trigger] v0.tracks[ti]).album_id
                                    == aid && has_node(v0.nodes, v0.tracks[ti].node_id) && node_of(
                                    v0.nodes,
                                    v0.tracks[ti].node_id,
                                ).parent_id == Some(parent_id);
                            let keep = in_dir_track(v0.nodes, aid, parent_id);
                            assert(keep(v0.tracks[ti]));
                            lemma_filter_unique_keys(v0.tracks, keep, |t: TrackV| t.track_id);
                            assert(appears(v0.tracks.filter(keep), v0.tracks[ti]));
                            assert(cand_artists(v0.tracks, v0.nodes, aid, parent_id).len()
                                == v0.tracks.filter(keep).len());
                            assert(false);
                        }
                        (0, Vec::new())
                    }
                };
                let mut row = copy_album_row(&self.albums[i]);
                row.artist_id = Some(pair.0);
                row.artist_name = Some(pair.1);
                let ghost rowv = row@;
                proof {
                    assert(rowv =~= (AlbumV {
                        artist_id: mode.0,
                        artist_name: mode.1,
                        ..v0.albums[i as int]
                    })) by {
                        assert(mode.0 is Some && mode.1 is Some);
                    }
                }
                self.albums.set(i, row);
                proof {
                    assert(self@ =~= (IndexV { albums: self@.albums, ..v0 }));
                    assert(self@.albums =~= vc.albums.update(i as int, rowv));
                    assert(self@ =~= (IndexV {
                        albums: vc.albums.update(i as int, rowv),
                        ..v0
                    }));
                    assert(forall|k: int|
                        0 <= k < v0.albums.len() && k != i as int ==> #[trigger] self@.albums[k]
                            == vc.albums[k]);
                    assert(self@.albums[i as int] == rowv);
                    assert(inv(self@)) by {
                        refresh_one_album_inv(v0, vc, self@, i as int, rowv, parent_id);
                    }
                }
            }
            i += 1;
        }
        proof {
            let v1 = self@;
            assert(v1 =~= refresh_album_artists_spec(v0, parent_id)) by {
                assert(v1.albums =~= v0.albums.map_values(
                    |a: AlbumV|
                        if album_has_dir_track(v0, a.album_id, Some(parent_id)) {
                            AlbumV {
                                artist_id: album_artist_mode(
                                    v0.tracks,
                                    v0.nodes,
                                    a.album_id,
                                    parent_id,
                                ).0,
                                artist_name: album_artist_mode(
                                    v0.tracks,
                                    v0.nodes,
                                    a.album_id,
                                    parent_id,
                                ).1,
                                ..a
                            }
                        } else {
                            a
                        },
                ));
            }
        }
    }
}

/// Replacing one album row by one with the same id, name and a derived
/// artist that exists keeps the invariant.
proof fn refresh_one_album_inv(v0: IndexV, vc: IndexV, v1: IndexV, i: int, rowv: AlbumV, parent_id: i64)
    requires
        inv(v0),
        inv(vc),
        vc == (IndexV { albums: vc.albums, ..v0 }),
        vc.albums.len() == v0.albums.len(),
        0 <= i < vc.albums.len(),
        vc.albums[i] == v0.albums[i],
        v1 == (IndexV { albums: vc.albums.update(i, rowv), ..v0 }),
        rowv == (AlbumV {
            artist_id: album_artist_mode(v0.tracks, v0.nodes, v0.albums[i].album_id, parent_id).0,
            artist_name: album_artist_mode(
                v0.tracks,
                v0.nodes,
                v0.albums[i].album_id,
                parent_id,
            ).1,
            ..v0.albums[i]
        }),
    ensures
        inv(v1),
{
    assert(forall|k: int|
        0 <= k < v1.albums.len() && k != i ==> #[trigger] v1.albums[k] == vc.albums[k]);
    assert(v1.albums[i] == rowv);
    assert forall|k: int| 0 <= k < v1.albums.len() implies album_ok(v1, #[trigger] v1.albums[k]) by {
        if k != i {
            assert(album_ok(vc, vc.albums[k]));
        } else {
            assert(album_ok(v0, v0.albums[i]));
            let aid = v0.albums[i].album_id;
            let mode = album_artist_mode(v0.tracks, v0.nodes, aid, parent_id);
            if mode.0 is Some {
                let caa = cand_album_artists(v0.tracks, v0.nodes, aid, parent_id);
                let ca = cand_artists(v0.tracks, v0.nodes, aid, parent_id);
                if caa.len() > 0 {
                    lemma_best_pair_bounds(caa, caa.len() as int);
                    let b = best_pair_idx(caa, caa.len() as int);
                    let keep = in_dir_aa_track(v0.nodes, aid, parent_id);
                    let f = v0.tracks.filter(keep);
                    lemma_filter_unique_keys(v0.tracks, keep, |t: TrackV| t.track_id);
                    assert(caa[b] == (f[b].album_artist_id->0, f[b].album_artist_name->0));
                    assert(appears_kept(v0.tracks, f[b], keep));
                    let j = choose|j: int|
                        0 <= j < v0.tracks.len() && v0.tracks[j] == f[b] && keep(v0.tracks[j]);
                    assert(track_ok(v0, v0.tracks[j]));
                    assert(has_artist(v0.artists, caa[b].0));
                } else {
                    lemma_best_pair_bounds(ca, ca.len() as int);
                    let b = best_pair_idx(ca, ca.len() as int);
                    let keep = in_dir_track(v0.nodes, aid, parent_id);
                    let f = v0.tracks.filter(keep);
                    lemma_filter_unique_keys(v0.tracks, keep, |t: TrackV| t.track_id);
                    assert(ca[b] == (f[b].artist_id, f[b].artist_name));
                    assert(appears_kept(v0.tracks, f[b], keep));
                    let j = choose|j: int|
                        0 <= j < v0.tracks.len() && v0.tracks[j] == f[b] && keep(v0.tracks[j]);
                    assert(track_ok(v0, v0.tracks[j]));
                    assert(has_artist(v0.artists, ca[b].0));
                }
            }
            assert(rowv.image_id == v0.albums[i].image_id);
        }
    }
    assert forall|id: i64| #[trigger] has_album(v1.albums, id) <==> has_album(vc.albums, id) by {
        if has_album(vc.albums, id) {
            let j = choose|j: int| 0 <= j < vc.albums.len() && vc.albums[j].album_id == id;
            assert(v1.albums[j].album_id == id);
        }
        if has_album(v1.albums, id) {
            let j = choose|j: int| 0 <= j < v1.albums.len() && v1.albums[j].album_id == id;
            assert(vc.albums[j].album_id == id);
        }
    }
    assert(forall|k: int| 0 <= k < v1.nodes.len() ==> node_ok(v1, #[trigger] v1.nodes[k])) by {
        assert(forall|k: int| 0 <= k < vc.nodes.len() ==> node_ok(vc, #[trigger] vc.nodes[k]));
    }
    assert(forall|k: int| 0 <= k < v1.tracks.len() ==> track_ok(v1, #[trigger] v1.tracks[k])) by {
        assert(forall|k: int| 0 <= k < vc.tracks.len() ==> track_ok(vc, #[trigger] vc.tracks[k]));
    }
    assert(forall|k: int| 0 <= k < v1.images.len() ==> image_ok(v1, #[trigger] v1.images[k])) by {
        assert(forall|k: int| 0 <= k < vc.images.len() ==> image_ok(vc, #[trigger] vc.images[k]));
    }
    assert forall|a: int, b: int| 0 <= a < b < v1.albums.len() implies v1.albums[a].album_id
        != v1.albums[b].album_id by {
        assert(vc.albums[a].album_id != vc.albums[b].album_id);
        assert(v1.albums[a].album_id == vc.albums[a].album_id);
        assert(v1.albums[b].album_id == vc.albums[b].album_id);
    }
    assert forall|k: int| 0 <= k < v1.album_images.len() implies has_album(
        v1.albums,
        #[trigger] v1.album_images[k].0,
    ) && has_image(v1.images, v1.album_images[k].1) by {
        assert(has_album(vc.albums, vc.album_images[k].0));
        assert(has_image(vc.images, vc.album_images[k].1));
    }
    assert forall|k: int| 0 <= k < v1.lyrics.len() implies has_track(
        v1.tracks,
        #[trigger] v1.lyrics[k].track_id,
    ) by {
        assert(has_track(vc.tracks, vc.lyrics[k].track_id));
    }
}

/// A node whose images may serve as covers for albums under `parent_id`:
/// the directory itself, or a direct child holding no tracks of its own.
pub open spec fn neighbourhood_ok(v: IndexV, parent_id: i64, nid: i64) -> bool {
    nid == parent_id || (has_node(v.nodes, nid) && node_of(v.nodes, nid).parent_id == Some(
        parent_id,
    ) && !(exists|ti: int|
        0 <= ti < v.tracks.len() && has_node(v.nodes, (#[trigger] v.tracks[ti]).node_id)
            && node_of(v.nodes, v.tracks[ti].node_id).parent_id == Some(nid)))
}

pub open spec fn image_in_neighbourhood(v: IndexV, parent_id: i64, im: ImageV) -> bool {
    has_node(v.nodes, im.node_id) && node_of(v.nodes, im.node_id).parent_id is Some
        && neighbourhood_ok(v, parent_id, node_of(v.nodes, im.node_id).parent_id->0)
}

/// Linking the first `n` images to one album, skipping links already made.
pub open spec fn enrol_images_run(
    v: IndexV,
    parent_id: i64,
    acc: Seq<(i64, i64)>,
    aid: i64,
    n: int,
) -> Seq<(i64, i64)>
    decreases n,
{
    if n <= 0 {
        acc
    } else {
        let acc1 = enrol_images_run(v, parent_id, acc, aid, n - 1);
        let im = v.images[n - 1];
        if image_in_neighbourhood(v, parent_id, im) && !appears(acc1, (aid, im.image_id)) {
            acc1.push((aid, im.image_id))
        } else {
            acc1
        }
    }
}

/// Linking every neighbourhood image to each of the first `n` albums that
/// have a track directly under `parent_id`.
pub open spec fn enrol_albums_run(v: IndexV, parent_id: i64, acc: Seq<(i64, i64)>, n: int) -> Seq<
    (i64, i64),
>
    decreases n,
{
    if n <= 0 {
        acc
    } else {
        let acc1 = enrol_albums_run(v, parent_id, acc, n - 1);
        if album_has_dir_track(v, v.albums[n - 1].album_id, Some(parent_id)) {
            enrol_images_run(v, parent_id, acc1, v.albums[n - 1].album_id, v.images.len() as int)
        } else {
            acc1
        }
    }
}

/// The second reconciliation step: enrol candidate cover images.
pub open spec fn enrol_cover_candidates_spec(v: IndexV, parent_id: i64) -> IndexV {
    IndexV {
        album_images: enrol_albums_run(v, parent_id, v.album_images, v.albums.len() as int),
        ..v
    }
}

fn vec_has_pair(ps: &Vec<(i64, i64)>, a: i64, b: i64) -> (r: bool)
    ensures
        r == appears(ps.deep_view(), (a, b)),
{
    let mut i: usize = 0;
    while i < ps.len()
        invariant
            i <= ps.len(),
            forall|k: int| 0 <= k < i ==> ps.deep_view()[k] != (a, b),
        decreases ps.len() - i,
    {
        proof {
            assert(ps@[i as int] == ps.deep_view()[i as int]);
        }
        if ps[i].0 == a && ps[i].1 == b {
            proof {
                assert(appears(ps.deep_view(), (a, b)));
            }
            return true;
        }
        i += 1;
    }
    false
}

impl Index {
    fn in_neighbourhood(&self, parent_id: i64, nid: i64) -> (r: bool)
        requires
            inv(self@),
        ensures
            r == neighbourhood_ok(self@, parent_id, nid),
    {
        if nid == parent_id {
            return true;
        }
        let n = match self.node(nid) {
            Some(n) => n,
            None => {
                return false;
            },
        };
        let parent_matches = match n.parent_id {
            Some(p) => p == parent_id,
            None => false,
        };
        if !parent_matches {
            return false;
        }
        let mut i: usize = 0;
        while i < self.tracks.len()
            invariant
                inv(self@),
                i <= self.tracks.len(),
                nid != parent_id,
                has_node(self@.nodes, nid),
                node_of(self@.nodes, nid).parent_id == Some(parent_id),
                forall|k: int|
                    0 <= k < i ==> !(has_node(self@.nodes, (#[trigger] self@.tracks[k]).node_id)
                        && node_of(self@.nodes, self@.tracks[k].node_id).parent_id == Some(nid)),
            decreases self.tracks.len() - i,
        {
            proof {
                assert(self.tracks@[i as int]@ == self@.tracks[i as int]);
            }
            match self.node(self.tracks[i].node_id) {
                Some(tn) => {
                    let hit = match tn.parent_id {
                        Some(p) => p == nid,
                        None => false,
                    };
                    if hit {
                        proof {
                            assert(has_node(self@.nodes, self@.tracks[i as int].node_id)
                                && node_of(self@.nodes, self@.tracks[i as int].node_id).parent_id
                                == Some(nid));
                        }
                        return false;
                    }
                },
                None => {
                    proof {
                        assert(track_ok(self@, self@.tracks[i as int]));
                        assert(false);
                    }
                },
            }
            i += 1;
        }
        true
    }

    fn image_in_nbhd(&self, parent_id: i64, im: &Image) -> (r: bool)
        requires
            inv(self@),
        ensures
            r == image_in_neighbourhood(self@, parent_id, im@),
    {
        match self.node(im.node_id) {
            Some(n) => {
                match n.parent_id {
                    Some(p) => self.in_neighbourhood(parent_id, p),
                    None => false,
                }
            },
            None => false,
        }
    }

    /// Applies the second reconciliation step of `process_node_updates`.
    #[verifier::rlimit(80)]
    fn enrol_cover_candidates(&mut self, parent_id: i64)
        requires
            inv(old(self)@),
        ensures
            inv(final(self)@),
            final(self)@ == enrol_cover_candidates_spec(old(self)@, parent_id),
    {
        let ghost v0 = self@;
        let mut ai: usize = 0;
        while ai < self.albums.len()
            invariant
                inv(self@),
                inv(v0),
                v0 == old(self)@,
                self@ == (IndexV { album_images: self@.album_images, ..v0 }),
                ai <= self.albums.len(),
                self@.album_images == enrol_albums_run(v0, parent_id, v0.album_images, ai as int),
            decreases self.albums.len() - ai,
        {
            proof {
                assert(self.albums@[ai as int]@ == v0.albums[ai as int]);
                assert(album_has_dir_track(self@, v0.albums[ai as int].album_id, Some(parent_id))
                    == album_has_dir_track(v0, v0.albums[ai as int].album_id, Some(parent_id)));
            }
            let aid = self.albums[ai].album_id;
            if self.has_dir_track(aid, Some(parent_id)) {
                let ghost acc1 = enrol_albums_run(v0, parent_id, v0.album_images, ai as int);
                let mut ii: usize = 0;
                while ii < self.images.len()
                    invariant
                        inv(self@),
                        inv(v0),
                        v0 == old(self)@,
                        self@ == (IndexV { album_images: self@.album_images, ..v0 }),
                        ii <= self.images.len(),
                        aid == v0.albums[ai as int].album_id,
                        ai < v0.albums.len(),
                        has_album(v0.albums, aid),
                        self@.album_images == enrol_images_run(v0, parent_id, acc1, aid, ii as int),
                    decreases self.images.len() - ii,
                {
                    proof {
                        assert(self.images@[ii as int]@ == v0.images[ii as int]);
                        assert(image_in_neighbourhood(self@, parent_id, v0.images[ii as int])
                            == image_in_neighbourhood(v0, parent_id, v0.images[ii as int]));
                        lemma_album_at(v0.albums, ai as int);
                    }
                    let im = copy_image_row(&self.images[ii]);
                    let in_nb = self.image_in_nbhd(parent_id, &im);
                    let already = vec_has_pair(&self.album_images, aid, im.image_id);
                    if in_nb && !already {
                        let ghost vc = self@;
                        self.album_images.push((aid, im.image_id));
                        proof {
                            assert(self@.album_images =~= vc.album_images.push(
                                (aid, im@.image_id),
                            ));
                            assert(self@ =~= (IndexV {
                                album_images: vc.album_images.push((aid, im@.image_id)),
                                ..v0
                            }));
                            assert(inv(self@)) by {
                                assert(forall|k: int|
                                    0 <= k < vc.album_images.len() ==> #[trigger] self@.album_images[k] == vc.album_images[k]);
                                assert(self@.album_images[vc.album_images.len() as int] == (
                                aid,
                                im@.image_id,
                                ));
                                assert(has_image(v0.images, im@.image_id)) by {
                                    lemma_image_at(v0.images, ii as int);
                                }
                                assert(forall|a: int, b: int|
                                    0 <= a < b < self@.album_images.len()
                                        ==> self@.album_images[a] != self@.album_images[b]) by {
                                    assert(!appears(vc.album_images, (aid, im@.image_id)));
                                    assert(forall|k: int|
                                        0 <= k < vc.album_images.len()
                                            ==> #[trigger] vc.album_images[k] != (
                                        aid,
                                        im@.image_id,
                                        ));
                                }
                                pairs_only_changed_inv(v0, self@);
                            }
                        }
                    }
                    ii += 1;
                }
                proof {
                    assert(v0.images.len() as int == self@.images.len() as int);
                }
            }
            ai += 1;
        }
        proof {
            assert(v0.albums.len() as int == self@.albums.len() as int);
            assert(self@ =~= enrol_cover_candidates_spec(v0, parent_id));
        }
    }
}

/// Only the cover-link table changed, its pairs stayed unique and keep
/// referring to existing rows: the invariant carries over.
proof fn pairs_only_changed_inv(v0: IndexV, v1: IndexV)
    requires
        inv(v0),
        v1 == (IndexV { album_images: v1.album_images, ..v0 }),
        forall|a: int, b: int|
            0 <= a < b < v1.album_images.len() ==> v1.album_images[a] != v1.album_images[b],
        forall|k: int|
            0 <= k < v1.album_images.len() ==> has_album(
                v0.albums,
                (#[trigger] v1.album_images[k]).0,
            ) && has_image(v0.images, v1.album_images[k].1),
    ensures
        inv(v1),
{
    assert(forall|i: int| 0 <= i < v1.nodes.len() ==> node_ok(v1, #[trigger] v1.nodes[i])) by {
        assert(forall|i: int| 0 <= i < v0.nodes.len() ==> node_ok(v0, #[trigger] v0.nodes[i]));
    }
    assert(forall|i: int| 0 <= i < v1.tracks.len() ==> track_ok(v1, #[trigger] v1.tracks[i])) by {
        assert(forall|i: int| 0 <= i < v0.tracks.len() ==> track_ok(v0, #[trigger] v0.tracks[i]));
    }
    assert(forall|i: int| 0 <= i < v1.images.len() ==> image_ok(v1, #[trigger] v1.images[i])) by {
        assert(forall|i: int| 0 <= i < v0.images.len() ==> image_ok(v0, #[trigger] v0.images[i]));
    }
    assert(forall|i: int| 0 <= i < v1.albums.len() ==> album_ok(v1, #[trigger] v1.albums[i])) by {
        assert(forall|i: int| 0 <= i < v0.albums.len() ==> album_ok(v0, #[trigger] v0.albums[i]));
    }
}

/// The rank of a description against the pattern list: the position of the
/// first pattern it matches, or the list length when none matches.
pub open spec fn pat_idx(pats: Seq<Seq<u8>>, d: Seq<u8>) -> int
    decreases pats.len(),
{
    if pats.len() == 0 {
        0
    } else if text::like_spec(pats[0], d) {
        0
    } else {
        1 + pat_idx(pats.skip(1), d)
    }
}

proof fn lemma_pat_idx_at(pats: Seq<Seq<u8>>, d: Seq<u8>, i: int)
    requires
        0 <= i <= pats.len(),
        forall|k: int| 0 <= k < i ==> !text::like_spec(#[trigger] pats[k], d),
        i == pats.len() || text::like_spec(pats[i], d),
    ensures
        pat_idx(pats, d) == i,
    decreases i,
{
    if i > 0 {
        if i < pats.len() {
            assert(pats.skip(1)[i - 1] == pats[i]);
        }
        assert(forall|k: int| 0 <= k < i - 1 ==> #[trigger] pats.skip(1)[k] == pats[k + 1]);
        lemma_pat_idx_at(pats.skip(1), d, i - 1);
    }
}

/// Image `a` ranks strictly before image `b` as a cover: a better pattern
/// rank, or an equal rank and a smaller description, case-insensitively.
pub open spec fn cover_better(v: IndexV, a: i64, b: i64) -> bool {
    let da = image_of(v.images, a).description;
    let db = image_of(v.images, b).description;
    let ra = pat_idx(v.patterns, da);
    let rb = pat_idx(v.patterns, db);
    ra < rb || (ra == rb && text::lex_lt(da, db))
}

/// The position of the best-ranked candidate among the first `n`, the
/// earliest winning ties.
pub open spec fn best_cover_idx(v: IndexV, ids: Seq<i64>, n: int) -> int
    decreases n,
{
    if n <= 1 {
        0
    } else {
        let b = best_cover_idx(v, ids, n - 1);
        if cover_better(v, ids[n - 1], ids[b]) {
            n - 1
        } else {
            b
        }
    }
}

pub proof fn lemma_best_cover_bounds(v: IndexV, ids: Seq<i64>, n: int)
    requires
        1 <= n,
    ensures
        0 <= best_cover_idx(v, ids, n) < n,
    decreases n,
{
    if n > 1 {
        lemma_best_cover_bounds(v, ids, n - 1);
    }
}

/// The link-table predicate for one album's pairs.
pub open spec fn pair_album_is(aid: i64) -> spec_fn((i64, i64)) -> bool {
    |p: (i64, i64)| p.0 == aid
}

/// The second component of a link pair.
pub open spec fn pair_snd() -> spec_fn((i64, i64)) -> i64 {
    |p: (i64, i64)| p.1
}

/// The candidate cover image ids of an album, in link order.
pub open spec fn cover_cand_ids(ps: Seq<(i64, i64)>, aid: i64) -> Seq<i64> {
    ps.filter(pair_album_is(aid)).map_values(pair_snd())
}

/// The third reconciliation step: every album with a track directly under
/// `parent_id` gets the best-ranked candidate cover, or none.
pub open spec fn choose_album_covers_spec(v: IndexV, parent_id: i64) -> IndexV {
    IndexV {
        albums: v.albums.map_values(
            |a: AlbumV|
                if album_has_dir_track(v, a.album_id, Some(parent_id)) {
                    AlbumV {
                        image_id: if cover_cand_ids(v.album_images, a.album_id).len() > 0 {
                            Some(
                                cover_cand_ids(v.album_images, a.album_id)[best_cover_idx(
                                    v,
                                    cover_cand_ids(v.album_images, a.album_id),
                                    cover_cand_ids(v.album_images, a.album_id).len() as int,
                                )],
                            )
                        } else {
                            None
                        },
                        ..a
                    }
                } else {
                    a
                },
        ),
        ..v
    }
}

impl Index {
    fn pattern_rank(&self, d: &[u8]) -> (r: usize)
        ensures
            r == pat_idx(self@.patterns, d@),
            r <= self@.patterns.len(),
    {
        let mut i: usize = 0;
        while i < self.patterns.len()
            invariant
                i <= self.patterns.len(),
                forall|k: int|
                    0 <= k < i ==> !text::like_spec(#[trigger] self@.patterns[k], d@),
            decreases self.patterns.len() - i,
        {
            proof {
                assert(self.patterns@[i as int].deep_view() =~= self.patterns@[i as int]@);
                assert(self.patterns@[i as int]@ == self@.patterns[i as int]);
            }
            if text::like_match(&self.patterns[i], d) {
                proof {
                    lemma_pat_idx_at(self@.patterns, d@, i as int);
                }
                return i;
            }
            i += 1;
        }
        proof {
            lemma_pat_idx_at(self@.patterns, d@, self@.patterns.len() as int);
        }
        i
    }

    fn collect_cover_ids(&self, aid: i64) -> (r: Vec<i64>)
        ensures
            r@ == cover_cand_ids(self@.album_images, aid),
    {
        let ghost ps = self@.album_images;
        let mut out: Vec<i64> = Vec::new();
        let mut i: usize = 0;
        proof {
            reveal_with_fuel(Seq::filter, 1);
            assert(cover_cand_ids(ps.take(0), aid) =~= Seq::<i64>::empty());
        }
        while i < self.album_images.len()
            invariant
                ps == self@.album_images,
                i <= self.album_images.len(),
                out@ == cover_cand_ids(ps.take(i as int), aid),
            decreases self.album_images.len() - i,
        {
            proof {
                assert(self.album_images@[i as int] == ps[i as int]);
                assert(ps.take(i + 1).drop_last() =~= ps.take(i as int));
                assert(ps.take(i + 1).last() == ps[i as int]);
                reveal_with_fuel(Seq::filter, 2);
            }
            if self.album_images[i].0 == aid {
                let ghost odv = out@;
                out.push(self.album_images[i].1);
                proof {
                    assert(out@ =~= odv.push(ps[i as int].1));
                    assert(cover_cand_ids(ps.take(i + 1), aid) =~= odv.push(ps[i as int].1));
                }
            } else {
                proof {
                    assert(cover_cand_ids(ps.take(i + 1), aid) =~= out@);
                }
            }
            i += 1;
        }
        proof {
            assert(ps.take(ps.len() as int) =~= ps);
        }
        out
    }

    fn cover_better_exec(&self, a: i64, b: i64) -> (r: bool)
        requires
            inv(self@),
            has_image(self@.images, a),
            has_image(self@.images, b),
        ensures
            r == cover_better(self@, a, b),
    {
        let ia = match self.image(a) {
            Some(im) => im,
            None => {
                proof {
                    assert(false);
                }
                Image {
                    image_id: 0,
                    node_id: 0,
                    stream_index: None,
                    description: Vec::new(),
                    width: 0,
                    height: 0,
                }
            },
        };
        let ib = match self.image(b) {
            Some(im) => im,
            None => {
                proof {
                    assert(false);
                }
                Image {
                    image_id: 0,
                    node_id: 0,
                    stream_index: None,
                    description: Vec::new(),
                    width: 0,
                    height: 0,
                }
            },
        };
        let ra = self.pattern_rank(&ia.description);
        let rb = self.pattern_rank(&ib.description);
        ra < rb || (ra == rb && text::lex_less(&ia.description, &ib.description))
    }

    fn best_cover(&self, ids: &Vec<i64>) -> (r: usize)
        requires
            inv(self@),
            ids.len() >= 1,
            forall|k: int| 0 <= k < ids@.len() ==> has_image(self@.images, #[trigger] ids@[k]),
        ensures
            r == best_cover_idx(self@, ids@, ids@.len() as int),
            r < ids.len(),
    {
        let mut b: usize = 0;
        let mut n: usize = 1;
        while n < ids.len()
            invariant
                inv(self@),
                1 <= n <= ids.len(),
                forall|k: int| 0 <= k < ids@.len() ==> has_image(self@.images, #[trigger] ids@[k]),
                b == best_cover_idx(self@, ids@, n as int),
                b < n,
            decreases ids.len() - n,
        {
            proof {
                lemma_best_cover_bounds(self@, ids@, n as int);
            }
            if self.cover_better_exec(ids[n], ids[b]) {
                b = n;
            }
            n += 1;
        }
        b
    }

    /// Applies the third reconciliation step of `process_node_updates`.
    #[verifier::rlimit(80)]
    fn choose_album_covers(&mut self, parent_id: i64)
        requires
            inv(old(self)@),
        ensures
            inv(final(self)@),
            final(self)@ == choose_album_covers_spec(old(self)@, parent_id),
    {
        let ghost v0 = self@;
        let mut i: usize = 0;
        while i < self.albums.len()
            invariant
                inv(self@),
                inv(v0),
                v0 == old(self)@,
                self@ == (IndexV { albums: self@.albums, ..v0 }),
                self@.albums.len() == v0.albums.len(),
                i <= self.albums.len(),
                forall|k: int|
                    i <= k < v0.albums.len() ==> #[trigger] self@.albums[k] == v0.albums[k],
                forall|k: int|
                    0 <= k < i ==> #[trigger] self@.albums[k] == (if album_has_dir_track(
                        v0,
                        v0.albums[k].album_id,
                        Some(parent_id),
                    ) {
                        AlbumV {
                            image_id: if cover_cand_ids(
                                v0.album_images,
                                v0.albums[k].album_id,
                            ).len() > 0 {
                                Some(
                                    cover_cand_ids(v0.album_images, v0.albums[k].album_id)[best_cover_idx(
                                        v0,
                                        cover_cand_ids(v0.album_images, v0.albums[k].album_id),
                                        cover_cand_ids(
                                            v0.album_images,
                                            v0.albums[k].album_id,
                                        ).len() as int,
                                    )],
                                )
                            } else {
                                None
                            },
                            ..v0.albums[k]
                        }
                    } else {
                        v0.albums[k]
                    }),
            decreases self.albums.len() - i,
        {
            let ghost vc = self@;
            proof {
                assert(self.albums@[i as int]@ == self@.albums[i as int]);
                assert(self@.albums[i as int] == v0.albums[i as int]);
                assert(album_has_dir_track(self@, v0.albums[i as int].album_id, Some(parent_id))
                    == album_has_dir_track(v0, v0.albums[i as int].album_id, Some(parent_id)));
            }
            let aid = self.albums[i].album_id;
            if self.has_dir_track(aid, Some(parent_id)) {
                let ids = self.collect_cover_ids(aid);
                let ghost idsv = cover_cand_ids(v0.album_images, aid);
                proof {
                    assert(ids@ == idsv);
                    let kp2 = pair_album_is(aid);
                    let f = v0.album_images.filter(kp2);
                    lemma_filter_unique_keys(v0.album_images, kp2, |p: (i64, i64)| p);
                    assert(idsv == f.map_values(pair_snd()));
                    assert forall|k: int| 0 <= k < ids@.len() implies has_image(
                        self@.images,
                        #[trigger] ids@[k],
                    ) by {
                        assert(ids@[k] == f.map_values(pair_snd())[k]);
                        assert(ids@[k] == f[k].1);
                        assert(f[k] == v0.album_images.filter(kp2)[k]);
                        assert(appears_kept(v0.album_images, f[k], kp2));
                        let j = choose|j: int|
                            0 <= j < v0.album_images.len() && v0.album_images[j] == f[k] && kp2(
                                v0.album_images[j],
                            );
                        assert(has_image(v0.images, v0.album_images[j].1));
                    }
                }
                let new_image: Option<i64> = if ids.len() > 0 {
                    proof {
                        lemma_best_cover_bounds(self@, ids@, ids@.len() as int);
                        assert(best_cover_idx(self@, ids@, ids@.len() as int) == best_cover_idx(
                            v0,
                            idsv,
                            idsv.len() as int,
                        )) by {
                            cover_choice_same(v0, self@, idsv);
                        }
                    }
                    let b = self.best_cover(&ids);
                    Some(ids[b])
                } else {
                    None
                };
                let mut row = copy_album_row(&self.albums[i]);
                row.image_id = new_image;
                let ghost rowv = row@;
                self.albums.set(i, row);
                proof {
                    assert(self@ =~= (IndexV { albums: self@.albums, ..v0 }));
                    assert(self@.albums =~= vc.albums.update(i as int, rowv));
                    assert(forall|k: int|
                        0 <= k < v0.albums.len() && k != i as int ==> #[trigger] self@.albums[k]
                            == vc.albums[k]);
                    assert(self@.albums[i as int] == rowv);
                    assert(inv(self@)) by {
                        cover_one_album_inv(v0, vc, self@, i as int, rowv, parent_id);
                    }
                }
            }
            i += 1;
        }
        proof {
            let v1 = self@;
            assert(v1 =~= choose_album_covers_spec(v0, parent_id)) by {
                assert(v1.albums =~= v0.albums.map_values(
                    |a: AlbumV|
                        if album_has_dir_track(v0, a.album_id, Some(parent_id)) {
                            AlbumV {
                                image_id: if cover_cand_ids(v0.album_images, a.album_id).len()
                                    > 0 {
                                    Some(
                                        cover_cand_ids(v0.album_images, a.album_id)[best_cover_idx(
                                            v0,
                                            cover_cand_ids(v0.album_images, a.album_id),
                                            cover_cand_ids(v0.album_images, a.album_id).len() as int,
                                        )],
                                    )
                                } else {
                                    None
                                },
                                ..a
                            }
                        } else {
                            a
                        },
                ));
            }
        }
    }

    /// The whole post-directory reconciliation: re-derive album artists,
    /// enrol candidate covers from the directory and its trackless
    /// children, then choose each affected album's best-ranked cover.
    pub fn process_node_updates(&mut self, node_id: i64)
        requires
            inv(old(self)@),
        ensures
            inv(final(self)@),
            final(self)@ == choose_album_covers_spec(
                enrol_cover_candidates_spec(
                    refresh_album_artists_spec(old(self)@, node_id),
                    node_id,
                ),
                node_id,
            ),
    {
        self.refresh_album_artists(node_id);
        self.enrol_cover_candidates(node_id);
        self.choose_album_covers(node_id);
    }
}

/// Cover ranking only reads images and patterns, which the phases leave
/// unchanged.
proof fn cover_choice_same(v0: IndexV, vc: IndexV, ids: Seq<i64>)
    requires
        vc.images == v0.images,
        vc.patterns == v0.patterns,
    ensures
        forall|n: int| #[trigger] best_cover_idx(vc, ids, n) == best_cover_idx(v0, ids, n),
{
    assert forall|n: int| #[trigger] best_cover_idx(vc, ids, n) == best_cover_idx(v0, ids, n) by {
        cover_choice_same_n(v0, vc, ids, n);
    }
}

proof fn cover_choice_same_n(v0: IndexV, vc: IndexV, ids: Seq<i64>, n: int)
    requires
        vc.images == v0.images,
        vc.patterns == v0.patterns,
    ensures
        best_cover_idx(vc, ids, n) == best_cover_idx(v0, ids, n),
    decreases n,
{
    if n > 1 {
        cover_choice_same_n(v0, vc, ids, n - 1);
    }
}

/// Replacing one album row by one with the same id and a chosen cover that
/// exists keeps the invariant.
proof fn cover_one_album_inv(v0: IndexV, vc: IndexV, v1: IndexV, i: int, rowv: AlbumV, parent_id: i64)
    requires
        inv(v0),
        inv(vc),
        vc == (IndexV { albums: vc.albums, ..v0 }),
        vc.albums.len() == v0.albums.len(),
        0 <= i < vc.albums.len(),
        vc.albums[i] == v0.albums[i],
        v1 == (IndexV { albums: vc.albums.update(i, rowv), ..v0 }),
        rowv.album_id == v0.albums[i].album_id,
        rowv.name == v0.albums[i].name,
        rowv.artist_id == v0.albums[i].artist_id,
        rowv.artist_name == v0.albums[i].artist_name,
        rowv.image_id is Some ==> has_image(v0.images, rowv.image_id->0),
    ensures
        inv(v1),
{
    assert(forall|k: int|
        0 <= k < v1.albums.len() && k != i ==> #[trigger] v1.albums[k] == vc.albums[k]);
    assert(v1.albums[i] == rowv);
    assert forall|k: int| 0 <= k < v1.albums.len() implies album_ok(v1, #[trigger] v1.albums[k]) by {
        if k != i {
            assert(album_ok(vc, vc.albums[k]));
        } else {
            assert(album_ok(v0, v0.albums[i]));
        }
    }
    assert forall|id: i64| #[trigger] has_album(v1.albums, id) <==> has_album(vc.albums, id) by {
        if has_album(vc.albums, id) {
            let j = choose|j: int| 0 <= j < vc.albums.len() && vc.albums[j].album_id == id;
            assert(v1.albums[j].album_id == id);
        }
        if has_album(v1.albums, id) {
            let j = choose|j: int| 0 <= j < v1.albums.len() && v1.albums[j].album_id == id;
            assert(vc.albums[j].album_id == id);
        }
    }
    assert(forall|k: int| 0 <= k < v1.nodes.len() ==> node_ok(v1, #[trigger] v1.nodes[k])) by {
        assert(forall|k: int| 0 <= k < vc.nodes.len() ==> node_ok(vc, #[trigger] vc.nodes[k]));
    }
    assert(forall|k: int| 0 <= k < v1.tracks.len() ==> track_ok(v1, #[trigger] v1.tracks[k])) by {
        assert(forall|k: int| 0 <= k < vc.tracks.len() ==> track_ok(vc, #[trigger] vc.tracks[k]));
    }
    assert(forall|k: int| 0 <= k < v1.images.len() ==> image_ok(v1, #[trigger] v1.images[k])) by {
        assert(forall|k: int| 0 <= k < vc.images.len() ==> image_ok(vc, #[trigger] vc.images[k]));
    }
    assert forall|a: int, b: int| 0 <= a < b < v1.albums.len() implies v1.albums[a].album_id
        != v1.albums[b].album_id by {
        assert(vc.albums[a].album_id != vc.albums[b].album_id);
        assert(v1.albums[a].album_id == vc.albums[a].album_id);
        assert(v1.albums[b].album_id == vc.albums[b].album_id);
    }
    assert forall|k: int| 0 <= k < v1.album_images.len() implies has_album(
        v1.albums,
        #[trigger] v1.album_images[k].0,
    ) && has_image(v1.images, v1.album_images[k].1) by {
        assert(has_album(vc.albums, vc.album_images[k].0));
        assert(has_image(vc.images, vc.album_images[k].1));
    }
    assert forall|k: int| 0 <= k < v1.lyrics.len() implies has_track(
        v1.tracks,
        #[trigger] v1.lyrics[k].track_id,
    ) by {
        assert(has_track(vc.tracks, vc.lyrics[k].track_id));
    }
}

/// An in-place node update that keeps the id, name, parent, path and type,
/// and never clears a master, keeps the whole catalog invariant.
proof fn node_update_keeps_inv(v0: IndexV, v1: IndexV, i: int, n2: NodeV)
    requires
        inv(v0),
        0 <= i < v0.nodes.len(),
        n2.node_id == v0.nodes[i].node_id,
        n2.name == v0.nodes[i].name,
        n2.parent_id == v0.nodes[i].parent_id,
        n2.path == v0.nodes[i].path,
        n2.node_type == v0.nodes[i].node_type,
        v0.nodes[i].master_id is Some ==> n2.master_id is Some,
        n2.master_id is Some ==> has_node(v0.nodes, n2.master_id->0),
        n2.master_id is Some ==> n2.node_type == NodeType::File,
        v1 == (IndexV { nodes: v0.nodes.update(i, n2), ..v0 }),
    ensures
        inv(v1),
{
    lemma_update_node(v0.nodes, i, n2);
    lemma_node_at(v0.nodes, i);
    assert forall|k: int| 0 <= k < v1.nodes.len() implies node_ok(v1, #[trigger] v1.nodes[k]) by {
        assert(node_ok(v0, v0.nodes[k]));
        let n = v1.nodes[k];
        assert(n.node_id == v0.nodes[k].node_id && n.name == v0.nodes[k].name && n.parent_id
            == v0.nodes[k].parent_id && n.path == v0.nodes[k].path && n.node_type
            == v0.nodes[k].node_type);
        match n.parent_id {
            Some(p) => {
                assert(has_node(v0.nodes, p));
                assert(has_node(v1.nodes, p));
                assert(node_of(v1.nodes, p) == (if p == v0.nodes[i].node_id {
                    n2
                } else {
                    node_of(v0.nodes, p)
                }));
                assert(node_of(v1.nodes, p).path == node_of(v0.nodes, p).path);
                assert(node_of(v1.nodes, p).node_type == node_of(v0.nodes, p).node_type);
                assert(n.path == node_of(v1.nodes, p).path + path_sep() + n.name);
                assert(p < n.node_id);
            },
            None => {},
        }
        match n.master_id {
            Some(m) => {
                if k == i {
                    assert(has_node(v0.nodes, m));
                } else {
                    assert(has_node(v0.nodes, m));
                }
                assert(has_node(v1.nodes, m));
                assert(n.node_type == NodeType::File);
            },
            None => {},
        }
        assert(1 <= n.node_id < v1.next_node_id);
    }
    assert forall|k: int| 0 <= k < v1.tracks.len() implies track_ok(v1, #[trigger] v1.tracks[k]) by {
        assert(track_ok(v0, v0.tracks[k]));
        let t = v1.tracks[k];
        if t.start is Some {
            assert(node_of(v1.nodes, t.node_id).master_id is Some);
        }
    }
    assert forall|k: int| 0 <= k < v1.images.len() implies image_ok(v1, #[trigger] v1.images[k]) by {
        assert(image_ok(v0, v0.images[k]));
    }
    assert forall|k: int| 0 <= k < v1.albums.len() implies album_ok(v1, #[trigger] v1.albums[k]) by {
        assert(album_ok(v0, v0.albums[k]));
    }
    assert forall|a: int, b: int| 0 <= a < b < v1.nodes.len() implies !(v1.nodes[a].parent_id
        == v1.nodes[b].parent_id && v1.nodes[a].name == v1.nodes[b].name) by {
        assert(v1.nodes[a].parent_id == v0.nodes[a].parent_id && v1.nodes[a].name
            == v0.nodes[a].name);
        assert(v1.nodes[b].parent_id == v0.nodes[b].parent_id && v1.nodes[b].name
            == v0.nodes[b].name);
    }
}

/// Replacing one row by another with the same id moves every lookup of
/// that id to the new row and no other.
pub proof fn lemma_update_node(ns: Seq<NodeV>, i: int, n2: NodeV)
    requires
        forall|a: int, b: int| 0 <= a < b < ns.len() ==> ns[a].node_id != ns[b].node_id,
        0 <= i < ns.len(),
        n2.node_id == ns[i].node_id,
    ensures
        forall|id: i64| #[trigger] has_node(ns.update(i, n2), id) <==> has_node(ns, id),
        forall|id: i64|
            has_node(ns, id) ==> #[trigger] node_of(ns.update(i, n2), id) == (if id
                == ns[i].node_id {
                n2
            } else {
                node_of(ns, id)
            }),
        forall|a: int, b: int|
            0 <= a < b < ns.update(i, n2).len() ==> ns.update(i, n2)[a].node_id != ns.update(
                i,
                n2,
            )[b].node_id,
{
    let ns2 = ns.update(i, n2);
    assert forall|id: i64| #[trigger] has_node(ns2, id) implies has_node(ns, id) by {
        let j = choose|j: int| 0 <= j < ns2.len() && ns2[j].node_id == id;
        assert(ns[j].node_id == id || j == i);
        assert(has_node(ns, id));
    }
    assert forall|id: i64| has_node(ns, id) implies #[trigger] has_node(ns2, id) by {
        let j = choose|j: int| 0 <= j < ns.len() && ns[j].node_id == id;
        assert(ns2[j].node_id == id);
    }
    assert forall|id: i64| has_node(ns, id) implies #[trigger] node_of(ns2, id) == (if id
        == ns[i].node_id {
        n2
    } else {
        node_of(ns, id)
    }) by {
        assert(has_node(ns2, id));
        let j = choose|j: int| 0 <= j < ns2.len() && ns2[j].node_id == id;
        if id == ns[i].node_id {
            if j != i {
                assert(ns[j].node_id == id);
                assert(false);
            }
        } else {
            assert(j != i);
            assert(ns[j].node_id == id);
            let j0 = choose|j0: int| 0 <= j0 < ns.len() && ns[j0].node_id == id;
            if j != j0 {
                assert(false);
            }
        }
    }
}

/// With unique ids, the row found at an index is the row `node_of` picks.
pub proof fn lemma_node_at(ns: Seq<NodeV>, i: int)
    requires
        forall|a: int, b: int| 0 <= a < b < ns.len() ==> ns[a].node_id != ns[b].node_id,
        0 <= i < ns.len(),
    ensures
        has_node(ns, ns[i].node_id),
        node_of(ns, ns[i].node_id) == ns[i],
        node_idx(ns, ns[i].node_id) == i,
{
    assert(has_node(ns, ns[i].node_id));
    let j = choose|j: int| 0 <= j < ns.len() && ns[j].node_id == ns[i].node_id;
    if i != j {
        assert(false);
    }
}

pub proof fn lemma_track_at(ts: Seq<TrackV>, i: int)
    requires
        forall|a: int, b: int| 0 <= a < b < ts.len() ==> ts[a].track_id != ts[b].track_id,
        0 <= i < ts.len(),
    ensures
        has_track(ts, ts[i].track_id),
        track_of(ts, ts[i].track_id) == ts[i],
{
    assert(has_track(ts, ts[i].track_id));
    let j = choose|j: int| 0 <= j < ts.len() && ts[j].track_id == ts[i].track_id;
    if i != j {
        assert(false);
    }
}

pub proof fn lemma_image_at(ims: Seq<ImageV>, i: int)
    requires
        forall|a: int, b: int| 0 <= a < b < ims.len() ==> ims[a].image_id != ims[b].image_id,
        0 <= i < ims.len(),
    ensures
        has_image(ims, ims[i].image_id),
        image_of(ims, ims[i].image_id) == ims[i],
{
    assert(has_image(ims, ims[i].image_id));
    let j = choose|j: int| 0 <= j < ims.len() && ims[j].image_id == ims[i].image_id;
    if i != j {
        assert(false);
    }
}

pub proof fn lemma_artist_at(ars: Seq<ArtistV>, i: int)
    requires
        forall|a: int, b: int| 0 <= a < b < ars.len() ==> ars[a].artist_id != ars[b].artist_id,
        0 <= i < ars.len(),
    ensures
        has_artist(ars, ars[i].artist_id),
        artist_of(ars, ars[i].artist_id) == ars[i],
{
    assert(has_artist(ars, ars[i].artist_id));
    let j = choose|j: int| 0 <= j < ars.len() && ars[j].artist_id == ars[i].artist_id;
    if i != j {
        assert(false);
    }
}

pub proof fn lemma_album_at(als: Seq<AlbumV>, i: int)
    requires
        forall|a: int, b: int| 0 <= a < b < als.len() ==> als[a].album_id != als[b].album_id,
        0 <= i < als.len(),
    ensures
        has_album(als, als[i].album_id),
        album_of(als, als[i].album_id) == als[i],
{
    assert(has_album(als, als[i].album_id));
    let j = choose|j: int| 0 <= j < als.len() && als[j].album_id == als[i].album_id;
    if i != j {
        assert(false);
    }
}

/// Appending a node with a fresh id changes no existing lookup.
pub proof fn lemma_push_node(ns: Seq<NodeV>, n: NodeV)
    requires
        forall|a: int, b: int| 0 <= a < b < ns.len() ==> ns[a].node_id != ns[b].node_id,
        forall|a: int| 0 <= a < ns.len() ==> ns[a].node_id != n.node_id,
    ensures
        forall|id: i64|
            has_node(ns, id) ==> #[trigger] has_node(ns.push(n), id) && node_of(ns.push(n), id)
                == node_of(ns, id),
        has_node(ns.push(n), n.node_id),
        node_of(ns.push(n), n.node_id) == n,
        forall|a: int, b: int|
            0 <= a < b < ns.push(n).len() ==> ns.push(n)[a].node_id != ns.push(n)[b].node_id,
{
    let ns2 = ns.push(n);
    assert(ns2[ns.len() as int] == n);
    assert forall|id: i64| has_node(ns, id) implies #[trigger] has_node(ns2, id) && node_of(
        ns2,
        id,
    ) == node_of(ns, id) by {
        let i = choose|i: int| 0 <= i < ns.len() && ns[i].node_id == id;
        assert(ns2[i] == ns[i]);
        assert(has_node(ns2, id));
        let j = choose|j: int| 0 <= j < ns2.len() && ns2[j].node_id == id;
        if j < ns.len() {
            let j0 = choose|j0: int| 0 <= j0 < ns.len() && ns[j0].node_id == id;
            if j != j0 {
                assert(false);
            }
        } else {
            assert(ns2[j] == n);
            assert(false);
        }
    }
    lemma_node_at(ns2, ns.len() as int);
}

pub proof fn lemma_push_track(ts: Seq<TrackV>, t: TrackV)
    requires
        forall|a: int, b: int| 0 <= a < b < ts.len() ==> ts[a].track_id != ts[b].track_id,
        forall|a: int| 0 <= a < ts.len() ==> ts[a].track_id != t.track_id,
    ensures
        forall|id: i64|
            has_track(ts, id) ==> #[trigger] has_track(ts.push(t), id) && track_of(ts.push(t), id)
                == track_of(ts, id),
        has_track(ts.push(t), t.track_id),
        track_of(ts.push(t), t.track_id) == t,
        forall|a: int, b: int|
            0 <= a < b < ts.push(t).len() ==> ts.push(t)[a].track_id != ts.push(t)[b].track_id,
{
    let ts2 = ts.push(t);
    assert(ts2[ts.len() as int] == t);
    assert forall|id: i64| has_track(ts, id) implies #[trigger] has_track(ts2, id) && track_of(
        ts2,
        id,
    ) == track_of(ts, id) by {
        let i = choose|i: int| 0 <= i < ts.len() && ts[i].track_id == id;
        assert(ts2[i] == ts[i]);
        assert(has_track(ts2, id));
        let j = choose|j: int| 0 <= j < ts2.len() && ts2[j].track_id == id;
        if j < ts.len() {
            let j0 = choose|j0: int| 0 <= j0 < ts.len() && ts[j0].track_id == id;
            if j != j0 {
                assert(false);
            }
        } else {
            assert(ts2[j] == t);
            assert(false);
        }
    }
    lemma_track_at(ts2, ts.len() as int);
}

pub proof fn lemma_push_image(ims: Seq<ImageV>, im: ImageV)
    requires
        forall|a: int, b: int| 0 <= a < b < ims.len() ==> ims[a].image_id != ims[b].image_id,
        forall|a: int| 0 <= a < ims.len() ==> ims[a].image_id != im.image_id,
    ensures
        forall|id: i64|
            has_image(ims, id) ==> #[trigger] has_image(ims.push(im), id) && image_of(
                ims.push(im),
                id,
            ) == image_of(ims, id),
        has_image(ims.push(im), im.image_id),
        image_of(ims.push(im), im.image_id) == im,
        forall|a: int, b: int|
            0 <= a < b < ims.push(im).len() ==> ims.push(im)[a].image_id != ims.push(
                im,
            )[b].image_id,
{
    let is2 = ims.push(im);
    assert(is2[ims.len() as int] == im);
    assert forall|id: i64| has_image(ims, id) implies #[trigger] has_image(is2, id) && image_of(
        is2,
        id,
    ) == image_of(ims, id) by {
        let i = choose|i: int| 0 <= i < ims.len() && ims[i].image_id == id;
        assert(is2[i] == ims[i]);
        assert(has_image(is2, id));
        let j = choose|j: int| 0 <= j < is2.len() && is2[j].image_id == id;
        if j < ims.len() {
            let j0 = choose|j0: int| 0 <= j0 < ims.len() && ims[j0].image_id == id;
            if j != j0 {
                assert(false);
            }
        } else {
            assert(is2[j] == im);
            assert(false);
        }
    }
    lemma_image_at(is2, ims.len() as int);
}

pub proof fn lemma_push_artist(ars: Seq<ArtistV>, ar: ArtistV)
    requires
        forall|a: int, b: int| 0 <= a < b < ars.len() ==> ars[a].artist_id != ars[b].artist_id,
        forall|a: int| 0 <= a < ars.len() ==> ars[a].artist_id != ar.artist_id,
    ensures
        forall|id: i64|
            has_artist(ars, id) ==> #[trigger] has_artist(ars.push(ar), id) && artist_of(
                ars.push(ar),
                id,
            ) == artist_of(ars, id),
        has_artist(ars.push(ar), ar.artist_id),
        artist_of(ars.push(ar), ar.artist_id) == ar,
        forall|a: int, b: int|
            0 <= a < b < ars.push(ar).len() ==> ars.push(ar)[a].artist_id != ars.push(
                ar,
            )[b].artist_id,
{
    let as2 = ars.push(ar);
    assert(as2[ars.len() as int] == ar);
    assert forall|id: i64| has_artist(ars, id) implies #[trigger] has_artist(as2, id) && artist_of(
        as2,
        id,
    ) == artist_of(ars, id) by {
        let i = choose|i: int| 0 <= i < ars.len() && ars[i].artist_id == id;
        assert(as2[i] == ars[i]);
        assert(has_artist(as2, id));
        let j = choose|j: int| 0 <= j < as2.len() && as2[j].artist_id == id;
        if j < ars.len() {
            let j0 = choose|j0: int| 0 <= j0 < ars.len() && ars[j0].artist_id == id;
            if j != j0 {
                assert(false);
            }
        } else {
            assert(as2[j] == ar);
            assert(false);
        }
    }
    lemma_artist_at(as2, ars.len() as int);
}

pub proof fn lemma_push_album(als: Seq<AlbumV>, al: AlbumV)
    requires
        forall|a: int, b: int| 0 <= a < b < als.len() ==> als[a].album_id != als[b].album_id,
        forall|a: int| 0 <= a < als.len() ==> als[a].album_id != al.album_id,
    ensures
        forall|id: i64|
            has_album(als, id) ==> #[trigger] has_album(als.push(al), id) && album_of(
                als.push(al),
                id,
            ) == album_of(als, id),
        has_album(als.push(al), al.album_id),
        album_of(als.push(al), al.album_id) == al,
        forall|a: int, b: int|
            0 <= a < b < als.push(al).len() ==> als.push(al)[a].album_id != als.push(
                al,
            )[b].album_id,
{
    let as2 = als.push(al);
    assert(as2[als.len() as int] == al);
    assert forall|id: i64| has_album(als, id) implies #[trigger] has_album(as2, id) && album_of(
        as2,
        id,
    ) == album_of(als, id) by {
        let i = choose|i: int| 0 <= i < als.len() && als[i].album_id == id;
        assert(as2[i] == als[i]);
        assert(has_album(as2, id));
        let j = choose|j: int| 0 <= j < as2.len() && as2[j].album_id == id;
        if j < als.len() {
            let j0 = choose|j0: int| 0 <= j0 < als.len() && als[j0].album_id == id;
            if j != j0 {
                assert(false);
            }
        } else {
            assert(as2[j] == al);
            assert(false);
        }
    }
    lemma_album_at(as2, als.len() as int);
}

/// Every track row refers to an existing artist and an existing album.
pub proof fn lemma_track_references(v: IndexV, i: int)
    requires
        inv(v),
        0 <= i < v.tracks.len(),
    ensures
        has_artist(v.artists, v.tracks[i].artist_id),
        has_album(v.albums, v.tracks[i].album_id),
{
    assert(track_ok(v, v.tracks[i]));
}

/// A track with a start offset lives on a node whose content a master
/// owns.
pub proof fn lemma_virtual_track_master(v: IndexV, i: int)
    requires
        inv(v),
        0 <= i < v.tracks.len(),
        v.tracks[i].start is Some,
    ensures
        has_node(v.nodes, v.tracks[i].node_id),
        node_of(v.nodes, v.tracks[i].node_id).master_id is Some,
{
    assert(track_ok(v, v.tracks[i]));
}

/// The names of a node's ancestors joined left to right with `/`.
pub open spec fn ancestor_path(ns: Seq<NodeV>, id: i64) -> Seq<u8>
    decreases id,
{
    if !has_node(ns, id) {
        Seq::empty()
    } else {
        let n = node_of(ns, id);
        match n.parent_id {
            Some(p) => if 0 <= p < id {
                ancestor_path(ns, p) + path_sep() + n.name
            } else {
                n.name
            },
            None => n.name,
        }
    }
}

/// Every node's stored path is the left-to-right join of its ancestors'
/// names with `/` separators.
pub proof fn lemma_path_is_ancestor_join(v: IndexV, id: i64)
    requires
        inv(v),
        has_node(v.nodes, id),
    ensures
        node_of(v.nodes, id).path == ancestor_path(v.nodes, id),
    decreases id,
{
    let j = choose|j: int| 0 <= j < v.nodes.len() && v.nodes[j].node_id == id;
    lemma_node_at(v.nodes, j);
    assert(node_ok(v, v.nodes[j]));
    let n = node_of(v.nodes, id);
    match n.parent_id {
        Some(p) => {
            assert(0 <= p < id) by {
                let pj = choose|pj: int| 0 <= pj < v.nodes.len() && v.nodes[pj].node_id == p;
                assert(node_ok(v, v.nodes[pj]));
                lemma_node_at(v.nodes, pj);
            }
            lemma_path_is_ancestor_join(v, p);
        },
        None => {},
    }
}

/// After the reconciliation, every album with a track directly under the
/// processed directory carries a derived artist name, as at least one of
/// its tracks always names an artist.
pub proof fn lemma_affected_album_has_artist(v: IndexV, parent_id: i64, k: int)
    requires
        inv(v),
        0 <= k < v.albums.len(),
        album_has_dir_track(v, v.albums[k].album_id, Some(parent_id)),
    ensures
        ({
            let v3 = choose_album_covers_spec(
                enrol_cover_candidates_spec(refresh_album_artists_spec(v, parent_id), parent_id),
                parent_id,
            );
            &&& 0 <= k < v3.albums.len()
            &&& v3.albums[k].artist_name is Some
            &&& v3.albums[k].artist_id is Some
        }),
{
    let aid = v.albums[k].album_id;
    let v1 = refresh_album_artists_spec(v, parent_id);
    let v2 = enrol_cover_candidates_spec(v1, parent_id);
    let v3 = choose_album_covers_spec(v2, parent_id);
    let mode = album_artist_mode(v.tracks, v.nodes, aid, parent_id);
    assert(mode.0 is Some && mode.1 is Some) by {
        let caa = cand_album_artists(v.tracks, v.nodes, aid, parent_id);
        let ca = cand_artists(v.tracks, v.nodes, aid, parent_id);
        if caa.len() == 0 {
            let ti = choose|ti: int|
                0 <= ti < v.tracks.len() && (#[trigger] v.tracks[ti]).album_id == aid && has_node(
                    v.nodes,
                    v.tracks[ti].node_id,
                ) && node_of(v.nodes, v.tracks[ti].node_id).parent_id == Some(parent_id);
            let keep = in_dir_track(v.nodes, aid, parent_id);
            assert(keep(v.tracks[ti]));
            lemma_filter_unique_keys(v.tracks, keep, |t: TrackV| t.track_id);
            assert(appears(v.tracks.filter(keep), v.tracks[ti]));
            assert(ca.len() == v.tracks.filter(keep).len());
            assert(ca.len() > 0);
        }
    }
    assert(v1.albums[k].artist_name is Some && v1.albums[k].artist_id is Some);
    assert(v2.albums == v1.albums);
    assert(v3.albums[k].artist_name == v2.albums[k].artist_name);
    assert(v3.albums[k].artist_id == v2.albums[k].artist_id);
}

impl Index {
    /// The number of track rows.
    pub fn tracks_len(&self) -> (r: usize)
        ensures
            r == self@.tracks.len(),
    {
        proof {
            assert(self@.tracks.len() == self.tracks@.len());
        }
        self.tracks.len()
    }

    /// One track row by position, in table order.
    pub fn track_at(&self, i: usize) -> (r: Track)
        requires
            i < self@.tracks.len(),
        ensures
            r@ == self@.tracks[i as int],
    {
        proof {
            assert(self.tracks@[i as int]@ == self@.tracks[i as int]);
        }
        copy_track(&self.tracks[i])
    }

    /// The number of node rows.
    pub fn nodes_len(&self) -> (r: usize)
        ensures
            r == self@.nodes.len(),
    {
        proof {
            assert(self@.nodes.len() == self.nodes@.len());
        }
        self.nodes.len()
    }

    /// One node row by position, in table order.
    pub fn node_at(&self, i: usize) -> (r: Node)
        requires
            i < self@.nodes.len(),
        ensures
            r@ == self@.nodes[i as int],
    {
        proof {
            assert(self.nodes@[i as int]@ == self@.nodes[i as int]);
        }
        copy_node(&self.nodes[i])
    }

    /// The number of album rows.
    pub fn albums_len(&self) -> (r: usize)
        ensures
            r == self@.albums.len(),
    {
        proof {
            assert(self@.albums.len() == self.albums@.len());
        }
        self.albums.len()
    }

    /// One album row by position, in table order.
    pub fn album_at(&self, i: usize) -> (r: Album)
        requires
            i < self@.albums.len(),
        ensures
            r@ == self@.albums[i as int],
    {
        proof {
            assert(self.albums@[i as int]@ == self@.albums[i as int]);
        }
        copy_album_row(&self.albums[i])
    }

    /// The number of artist rows.
    pub fn artists_len(&self) -> (r: usize)
        ensures
            r == self@.artists.len(),
    {
        proof {
            assert(self@.artists.len() == self.artists@.len());
        }
        self.artists.len()
    }

    /// One artist row by position, in table order.
    pub fn artist_at(&self, i: usize) -> (r: Artist)
        requires
            i < self@.artists.len(),
        ensures
            r@ == self@.artists[i as int],
    {
        proof {
            assert(self.artists@[i as int]@ == self@.artists[i as int]);
        }
        copy_artist(&self.artists[i])
    }

    /// The number of image rows.
    pub fn images_len(&self) -> (r: usize)
        ensures
            r == self@.images.len(),
    {
        proof {
            assert(self@.images.len() == self.images@.len());
        }
        self.images.len()
    }

    /// One image row by position, in table order.
    pub fn image_at(&self, i: usize) -> (r: Image)
        requires
            i < self@.images.len(),
        ensures
            r@ == self@.images[i as int],
    {
        proof {
            assert(self.images@[i as int]@ == self@.images[i as int]);
        }
        copy_image_row(&self.images[i])
    }

    /// Whether a cover-candidate link exists between an album and an
    /// image.
    pub fn has_album_image_link(&self, album_id: i64, image_id: i64) -> (r: bool)
        ensures
            r == appears(self@.album_images, (album_id, image_id)),
    {
        vec_has_pair(&self.album_images, album_id, image_id)
    }

    /// How many tracks belong to this album.
    pub fn album_track_count(&self, album_id: i64) -> (r: usize)
        ensures
            r == self@.tracks.filter(|t: TrackV| t.album_id == album_id).len(),
    {
        let ghost keep = |t: TrackV| t.album_id == album_id;
        let mut cnt: usize = 0;
        let mut i: usize = 0;
        proof {
            reveal_with_fuel(Seq::filter, 1);
            assert(self@.tracks.take(0).filter(keep).len() == 0);
        }
        while i < self.tracks.len()
            invariant
                i <= self.tracks@.len(),
                cnt == self@.tracks.take(i as int).filter(keep).len(),
                cnt <= i,
                keep == (|t: TrackV| t.album_id == album_id),
            decreases self.tracks@.len() - i,
        {
            proof {
                assert(self.tracks@[i as int]@ == self@.tracks[i as int]);
                assert(self@.tracks.take(i + 1).drop_last() =~= self@.tracks.take(i as int));
                assert(self@.tracks.take(i + 1).last() == self@.tracks[i as int]);
                reveal_with_fuel(Seq::filter, 2);
            }
            if self.tracks[i].album_id == album_id {
                cnt = cnt + 1;
            }
            i += 1;
        }
        proof {
            assert(self@.tracks.take(self@.tracks.len() as int) =~= self@.tracks);
        }
        cnt
    }

    /// How many tracks name this artist.
    pub fn artist_track_count(&self, artist_id: i64) -> (r: usize)
        ensures
            r == self@.tracks.filter(|t: TrackV| t.artist_id == artist_id).len(),
    {
        let ghost keep = |t: TrackV| t.artist_id == artist_id;
        let mut cnt: usize = 0;
        let mut i: usize = 0;
        proof {
            reveal_with_fuel(Seq::filter, 1);
            assert(self@.tracks.take(0).filter(keep).len() == 0);
        }
        while i < self.tracks.len()
            invariant
                i <= self.tracks@.len(),
                cnt == self@.tracks.take(i as int).filter(keep).len(),
                cnt <= i,
                keep == (|t: TrackV| t.artist_id == artist_id),
            decreases self.tracks@.len() - i,
        {
            proof {
                assert(self.tracks@[i as int]@ == self@.tracks[i as int]);
                assert(self@.tracks.take(i + 1).drop_last() =~= self@.tracks.take(i as int));
                assert(self@.tracks.take(i + 1).last() == self@.tracks[i as int]);
                reveal_with_fuel(Seq::filter, 2);
            }
            if self.tracks[i].artist_id == artist_id {
                cnt = cnt + 1;
            }
            i += 1;
        }
        proof {
            assert(self@.tracks.take(self@.tracks.len() as int) =~= self@.tracks);
        }
        cnt
    }
}

} // verus!
