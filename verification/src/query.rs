//! The catalog query layer behind the list endpoints: typed filters, the
//! SQL-style matching rules (integer equality, case-insensitive `LIKE`
//! with the value as the pattern, `search` as an OR across the identifying
//! text columns), one fixed ordering per entity, and limit/offset paging
//! applied after the total is counted.

use vstd::prelude::*;

use crate::index::{has_node, inv, node_of, Index, IndexV, TrackV};
use crate::text;

verus! {

/// Case-sensitive lexicographic byte order, the storage engine's plain
/// text collation; a proper prefix sorts first.
pub open spec fn bytes_lt(a: Seq<u8>, b: Seq<u8>) -> bool
    decreases a.len(),
{
    if b.len() == 0 {
        false
    } else if a.len() == 0 {
        true
    } else if a[0] != b[0] {
        a[0] < b[0]
    } else {
        bytes_lt(a.skip(1), b.skip(1))
    }
}

fn bytes_lt_at(a: &[u8], b: &[u8], i: usize) -> (r: bool)
    requires
        i <= a.len(),
        i <= b.len(),
    ensures
        r == bytes_lt(a@.skip(i as int), b@.skip(i as int)),
    decreases a.len() - i,
{
    proof {
        if i < a.len() {
            assert(a@.skip(i as int)[0] == a@[i as int]);
            assert(a@.skip(i as int).skip(1) =~= a@.skip(i + 1));
        }
        if i < b.len() {
            assert(b@.skip(i as int)[0] == b@[i as int]);
            assert(b@.skip(i as int).skip(1) =~= b@.skip(i + 1));
        }
    }
    if i == b.len() {
        false
    } else if i == a.len() {
        true
    } else if a[i] != b[i] {
        a[i] < b[i]
    } else {
        bytes_lt_at(a, b, i + 1)
    }
}

pub fn bytes_less(a: &[u8], b: &[u8]) -> (r: bool)
    ensures
        r == bytes_lt(a@, b@),
{
    proof {
        assert(a@.skip(0) =~= a@);
        assert(b@.skip(0) =~= b@);
    }
    bytes_lt_at(a, b, 0)
}

/// A filter value: absent means the column is not constrained.
pub struct TrackFilter {
    pub track_id: Option<i64>,
    pub node_id: Option<i64>,
    pub number: Option<i64>,
    pub title: Option<Vec<u8>>,
    pub artist_id: Option<i64>,
    pub artist_name: Option<Vec<u8>>,
    pub album_id: Option<i64>,
    pub album_name: Option<Vec<u8>>,
    pub search: Option<Vec<u8>>,
}

/// `%value%`, the pattern a `search` parameter matches with.
pub open spec fn search_pat(s: Seq<u8>) -> Seq<u8> {
    seq![37u8] + s + seq![37u8]
}

fn make_search_pat(s: &[u8]) -> (r: Vec<u8>)
    ensures
        r@ == search_pat(s@),
{
    let mut v: Vec<u8> = Vec::new();
    v.push(37);
    let mut i: usize = 0;
    while i < s.len()
        invariant
            i <= s.len(),
            v@ =~= seq![37u8] + s@.take(i as int),
        decreases s.len() - i,
    {
        v.push(s[i]);
        i += 1;
    }
    v.push(37);
    proof {
        assert(s@.take(s@.len() as int) =~= s@);
        assert(v@ =~= search_pat(s@));
    }
    v
}

/// Whether one track row passes the filter: integer filters are equality,
/// string filters case-insensitive substring matches (the value wrapped
/// as `%value%`), and `search` an OR across the identifying text columns.
pub open spec fn track_matches(t: TrackV, f: &TrackFilter) -> bool {
    &&& (f.track_id matches Some(x) ==> t.track_id == x)
    &&& (f.node_id matches Some(x) ==> t.node_id == x)
    &&& (f.number matches Some(x) ==> t.number == x)
    &&& (f.title matches Some(p) ==> text::like_spec(search_pat(p@), t.title))
    &&& (f.artist_id matches Some(x) ==> t.artist_id == x)
    &&& (f.artist_name matches Some(p) ==> text::like_spec(search_pat(p@), t.artist_name))
    &&& (f.album_id matches Some(x) ==> t.album_id == x)
    &&& (f.album_name matches Some(p) ==> text::like_spec(search_pat(p@), t.album_name))
    &&& (f.search matches Some(s) ==> text::like_spec(search_pat(s@), t.title) || text::like_spec(
        search_pat(s@),
        t.artist_name,
    ) || text::like_spec(search_pat(s@), t.album_name))
}

fn track_matches_exec(t: &crate::index::Track, f: &TrackFilter) -> (r: bool)
    ensures
        r == track_matches(t@, f),
{
    let mut ok = true;
    match &f.track_id {
        Some(x) => {
            if t.track_id != *x {
                ok = false;
            }
        },
        None => {},
    }
    match &f.node_id {
        Some(x) => {
            if t.node_id != *x {
                ok = false;
            }
        },
        None => {},
    }
    match &f.number {
        Some(x) => {
            if t.number != *x {
                ok = false;
            }
        },
        None => {},
    }
    match &f.title {
        Some(p) => {
            let pat = make_search_pat(p);
            if !text::like_match(&pat, &t.title) {
                ok = false;
            }
        },
        None => {},
    }
    match &f.artist_id {
        Some(x) => {
            if t.artist_id != *x {
                ok = false;
            }
        },
        None => {},
    }
    match &f.artist_name {
        Some(p) => {
            let pat = make_search_pat(p);
            if !text::like_match(&pat, &t.artist_name) {
                ok = false;
            }
        },
        None => {},
    }
    match &f.album_id {
        Some(x) => {
            if t.album_id != *x {
                ok = false;
            }
        },
        None => {},
    }
    match &f.album_name {
        Some(p) => {
            let pat = make_search_pat(p);
            if !text::like_match(&pat, &t.album_name) {
                ok = false;
            }
        },
        None => {},
    }
    match &f.search {
        Some(s) => {
            let pat = make_search_pat(s);
            if !(text::like_match(&pat, &t.title) || text::like_match(&pat, &t.artist_name)
                || text::like_match(&pat, &t.album_name)) {
                ok = false;
            }
        },
        None => {},
    }
    ok
}

/// The track ordering of the tracks endpoint: album name, number, title,
/// each in the storage engine's plain byte order.
pub open spec fn track_before(a: TrackV, b: TrackV) -> bool {
    if a.album_name != b.album_name {
        bytes_lt(a.album_name, b.album_name)
    } else if a.number != b.number {
        a.number < b.number
    } else {
        bytes_lt(a.title, b.title)
    }
}

/// Stable insertion: a row goes before the first row it sorts strictly
/// before, so equal keys keep their earlier order.
pub open spec fn track_ins_pos(s: Seq<TrackV>, x: TrackV) -> int
    decreases s.len(),
{
    if s.len() == 0 {
        0
    } else if track_before(x, s[0]) {
        0
    } else {
        1 + track_ins_pos(s.skip(1), x)
    }
}

pub open spec fn track_sort_run(s: Seq<TrackV>, n: int) -> Seq<TrackV>
    decreases n,
{
    if n <= 0 {
        Seq::empty()
    } else {
        let pre = track_sort_run(s, n - 1);
        pre.insert(track_ins_pos(pre, s[n - 1]), s[n - 1])
    }
}

/// The rows of the tracks endpoint: filtered, then insertion-ordered.
pub open spec fn tracks_ordered(v: IndexV, f: &TrackFilter) -> Seq<TrackV> {
    let m = v.tracks.filter(|t: TrackV| track_matches(t, f));
    track_sort_run(m, m.len() as int)
}

proof fn lemma_bytes_lt_irrefl(a: Seq<u8>)
    ensures
        !bytes_lt(a, a),
    decreases a.len(),
{
    if a.len() > 0 {
        assert(a.skip(1) =~= a.skip(1));
        lemma_bytes_lt_irrefl(a.skip(1));
    }
}

proof fn lemma_track_ins_pos_bounds(s: Seq<TrackV>, x: TrackV)
    ensures
        0 <= track_ins_pos(s, x) <= s.len(),
    decreases s.len(),
{
    if s.len() > 0 && !track_before(x, s[0]) {
        lemma_track_ins_pos_bounds(s.skip(1), x);
    }
}

fn track_ins_pos_exec(s: &Vec<crate::index::Track>, x: &crate::index::Track) -> (r: usize)
    ensures
        r == track_ins_pos(s.deep_view(), x@),
        r <= s.len(),
{
    let ghost sv = s.deep_view();
    let mut i: usize = 0;
    proof {
        assert(sv.skip(0) =~= sv);
    }
    while i < s.len()
        invariant
            i <= s.len(),
            sv == s.deep_view(),
            track_ins_pos(sv, x@) == i + track_ins_pos(sv.skip(i as int), x@),
        decreases s.len() - i,
    {
        proof {
            assert(s@[i as int]@ == sv[i as int]);
            assert(sv.skip(i as int)[0] == sv[i as int]);
            assert(sv.skip(i as int).skip(1) =~= sv.skip(i + 1));
        }
        let before = if bytes_less(&x.album_name, &s[i].album_name) {
            true
        } else if text::bytes_eq(&x.album_name, &s[i].album_name) {
            if x.number != s[i].number {
                x.number < s[i].number
            } else {
                bytes_less(&x.title, &s[i].title)
            }
        } else {
            false
        };
        proof {
            assert(before == track_before(x@, sv[i as int])) by {
                if x@.album_name == sv[i as int].album_name {
                    lemma_bytes_lt_irrefl(x@.album_name);
                }
            }
        }
        if before {
            proof {
                assert(track_ins_pos(sv.skip(i as int), x@) == 0);
            }
            return i;
        }
        i += 1;
    }
    proof {
        assert(sv.skip(i as int).len() == 0);
        assert(track_ins_pos(sv.skip(i as int), x@) == 0);
    }
    i
}

/// A page: `offset` rows skipped, at most `limit` rows kept, as the
/// storage engine treats negative or missing values.
pub open spec fn page_spec<A>(s: Seq<A>, limit: Option<i64>, offset: Option<i64>) -> Seq<A> {
    let off = match offset {
        Some(o) => if o < 0 {
            0
        } else if o > s.len() {
            s.len() as int
        } else {
            o as int
        },
        None => 0,
    };
    let rest = s.skip(off);
    match limit {
        Some(l) => if l < 0 {
            rest
        } else if l > rest.len() {
            rest
        } else {
            rest.take(l as int)
        },
        None => rest,
    }
}

fn page_tracks(rows: Vec<crate::index::Track>, limit: Option<i64>, offset: Option<i64>) -> (r: Vec<
    crate::index::Track,
>)
    ensures
        r.deep_view() == page_spec(rows.deep_view(), limit, offset),
{
    let ghost sv = rows.deep_view();
    let off: usize = match offset {
        Some(o) => {
            if o < 0 {
                0
            } else if o as u64 > rows.len() as u64 {
                rows.len()
            } else {
                o as usize
            }
        },
        None => 0,
    };
    let end: usize = match limit {
        Some(l) => {
            if l < 0 {
                rows.len()
            } else if (l as u64) > (rows.len() - off) as u64 {
                rows.len()
            } else {
                off + (l as usize)
            }
        },
        None => rows.len(),
    };
    let mut out: Vec<crate::index::Track> = Vec::new();
    let mut i: usize = off;
    while i < end
        invariant
            off <= i <= end <= rows.len(),
            sv == rows.deep_view(),
            out.deep_view() =~= sv.subrange(off as int, i as int),
        decreases end - i,
    {
        proof {
            assert(rows@[i as int]@ == sv[i as int]);
        }
        let t = crate::index::Track {
            track_id: rows[i].track_id,
            node_id: rows[i].node_id,
            stream_index: rows[i].stream_index,
            track_index: rows[i].track_index,
            start: rows[i].start,
            number: rows[i].number,
            title: text::clone_bytes(&rows[i].title),
            artist_id: rows[i].artist_id,
            artist_name: text::clone_bytes(&rows[i].artist_name),
            album_id: rows[i].album_id,
            album_name: text::clone_bytes(&rows[i].album_name),
            album_artist_id: rows[i].album_artist_id,
            album_artist_name: match &rows[i].album_artist_name {
                Some(v) => Some(text::clone_bytes(v)),
                None => None,
            },
            length: rows[i].length,
        };
        let ghost odv = out.deep_view();
        out.push(t);
        proof {
            assert(out.deep_view() =~~= odv.push(sv[i as int]));
        }
        i += 1;
    }
    proof {
        assert(out.deep_view() =~= page_spec(sv, limit, offset));
    }
    out
}

/// The insertion order keeps exactly the rows it was given.
proof fn lemma_sorted_from(s: Seq<TrackV>, n: int, k: int)
    requires
        0 <= n <= s.len(),
        0 <= k < track_sort_run(s, n).len(),
    ensures
        track_sort_run(s, n).len() == n,
        exists|j: int| 0 <= j < n && track_sort_run(s, n)[k] == s[j],
    decreases n,
{
    lemma_sort_run_len(s, n);
    let pre = track_sort_run(s, n - 1);
    let pos = track_ins_pos(pre, s[n - 1]);
    lemma_track_ins_pos_bounds(pre, s[n - 1]);
    let cur = pre.insert(pos, s[n - 1]);
    assert(cur == track_sort_run(s, n));
    if k == pos {
        assert(cur[k] == s[n - 1]);
    } else if k < pos {
        assert(cur[k] == pre[k]);
        lemma_sorted_from(s, n - 1, k);
    } else {
        assert(cur[k] == pre[k - 1]);
        lemma_sorted_from(s, n - 1, k - 1);
    }
}

proof fn lemma_sort_run_len(s: Seq<TrackV>, n: int)
    requires
        0 <= n <= s.len(),
    ensures
        track_sort_run(s, n).len() == n,
    decreases n,
{
    if n > 0 {
        lemma_sort_run_len(s, n - 1);
        lemma_track_ins_pos_bounds(track_sort_run(s, n - 1), s[n - 1]);
    }
}

/// Every row of a tracks page is a catalog row, so its node exists.
proof fn lemma_paged_track_exists(
    v: IndexV,
    f: &TrackFilter,
    limit: Option<i64>,
    offset: Option<i64>,
    k: int,
)
    requires
        inv(v),
        0 <= k < page_spec(tracks_ordered(v, f), limit, offset).len(),
    ensures
        crate::index::has_node(
            v.nodes,
            page_spec(tracks_ordered(v, f), limit, offset)[k].node_id,
        ),
{
    let m = v.tracks.filter(|t: TrackV| track_matches(t, f));
    let ordered = tracks_ordered(v, f);
    let paged = page_spec(ordered, limit, offset);
    let off = match offset {
        Some(o) => if o < 0 {
            0
        } else if o > ordered.len() {
            ordered.len() as int
        } else {
            o as int
        },
        None => 0,
    };
    assert(paged[k] == ordered[off + k]);
    lemma_sort_run_len(m, m.len() as int);
    lemma_sorted_from(m, m.len() as int, off + k);
    let j = choose|j: int| 0 <= j < m.len() && ordered[off + k] == m[j];
    crate::index::lemma_filter_unique_keys(
        v.tracks,
        |t: TrackV| track_matches(t, f),
        |t: TrackV| t.track_id,
    );
    assert(m[j] == v.tracks.filter(|t: TrackV| track_matches(t, f))[j]);
    assert(crate::index::appears_kept(v.tracks, m[j], |t: TrackV| track_matches(t, f)));
    let jj = choose|jj: int|
        0 <= jj < v.tracks.len() && v.tracks[jj] == m[j] && track_matches(v.tracks[jj], f);
    assert(crate::index::track_ok(v, v.tracks[jj]));
}

impl Index {
    /// The tracks endpoint: the total count of matching rows, and one
    /// ordered page of them.
    pub fn query_tracks(&self, f: &TrackFilter, limit: Option<i64>, offset: Option<i64>) -> (r: (
        usize,
        Vec<(crate::index::Track, Vec<u8>)>,
    ))
        requires
            inv(self@),
        ensures
            r.0 == self@.tracks.filter(|t: TrackV| track_matches(t, f)).len(),
            r.1.deep_view().len() == page_spec(tracks_ordered(self@, f), limit, offset).len(),
            forall|k: int|
                0 <= k < r.1.deep_view().len()
                    ==> {
                    let paged = page_spec(tracks_ordered(self@, f), limit, offset);
                    &&& (#[trigger] r.1.deep_view()[k]).0 == paged[k]
                    &&& r.1.deep_view()[k].1 == node_of(self@.nodes, paged[k].node_id).path
                },
    {
        let ghost keep = |t: TrackV| track_matches(t, f);
        let mut matching: Vec<crate::index::Track> = Vec::new();
        let mut i: usize = 0;
        proof {
            assert(self@.tracks.take(0).filter(keep) =~= Seq::<TrackV>::empty());
        }
        let n = self.tracks_len();
        while i < n
            invariant
                inv(self@),
                n == self@.tracks.len(),
                i <= self@.tracks.len(),
                matching.deep_view() == self@.tracks.take(i as int).filter(keep),
                keep == (|t: TrackV| track_matches(t, f)),
            decreases self@.tracks.len() - i,
        {
            proof {
                assert(self@.tracks.take(i + 1).drop_last() =~= self@.tracks.take(i as int));
                assert(self@.tracks.take(i + 1).last() == self@.tracks[i as int]);
                reveal_with_fuel(Seq::filter, 2);
            }
            let t = self.track_at(i);
            if track_matches_exec(&t, f) {
                let ghost odv = matching.deep_view();
                matching.push(t);
                proof {
                    assert(matching.deep_view() =~~= odv.push(self@.tracks[i as int]));
                }
            }
            i += 1;
        }
        proof {
            assert(self@.tracks.take(self@.tracks.len() as int) =~= self@.tracks);
        }
        let total = matching.len();
        let ghost mv = matching.deep_view();
        let mut sorted: Vec<crate::index::Track> = Vec::new();
        let mut i: usize = 0;
        while i < matching.len()
            invariant
                i <= matching.len(),
                mv == matching.deep_view(),
                sorted.deep_view() == track_sort_run(mv, i as int),
            decreases matching.len() - i,
        {
            proof {
                assert(matching@[i as int]@ == mv[i as int]);
                lemma_track_ins_pos_bounds(sorted.deep_view(), mv[i as int]);
            }
            let t = crate::index::copy_track(&matching[i]);
            let pos = track_ins_pos_exec(&sorted, &t);
            let ghost odv = sorted.deep_view();
            sorted.insert(pos, t);
            proof {
                assert(sorted.deep_view() =~~= odv.insert(pos as int, mv[i as int]));
            }
            i += 1;
        }
        proof {
            assert(mv.len() == matching@.len());
        }
        let rows = page_tracks(sorted, limit, offset);
        let ghost paged = page_spec(tracks_ordered(self@, f), limit, offset);
        // every row carries its node's full catalog path
        let mut out: Vec<(crate::index::Track, Vec<u8>)> = Vec::new();
        let mut i: usize = 0;
        while i < rows.len()
            invariant
                inv(self@),
                paged == rows.deep_view(),
                paged == page_spec(tracks_ordered(self@, f), limit, offset),
                i <= rows.len(),
                out.deep_view().len() == i as int,
                forall|k: int|
                    0 <= k < i
                        ==> {
                        &&& (#[trigger] out.deep_view()[k]).0 == paged[k]
                        &&& out.deep_view()[k].1 == node_of(self@.nodes, paged[k].node_id).path
                    },
            decreases rows.len() - i,
        {
            proof {
                assert(paged.len() == rows@.len());
                assert(rows@[i as int]@ == paged[i as int]);
                lemma_paged_track_exists(self@, f, limit, offset, i as int);
            }
            let t = crate::index::copy_track(&rows[i]);
            let ghost tv = t@;
            let path: Vec<u8> = match self.node(t.node_id) {
                Some(n) => n.path,
                None => {
                    proof {
                        assert(false);
                    }
                    Vec::new()
                },
            };
            let ghost pv = path@;
            proof {
                assert(tv == paged[i as int]);
                assert(pv == node_of(self@.nodes, paged[i as int].node_id).path);
            }
            let ghost odv = out.deep_view();
            out.push((t, path));
            proof {
                assert(out.deep_view() =~~= odv.push((tv, pv)));
            }
            i += 1;
        }
        (total, out)
    }

}

/// A filter for the nodes endpoint; `parent_id: Some(None)` asks for
/// root-level nodes, the storage engine's `IS NULL`.
pub struct NodeFilter {
    pub node_id: Option<i64>,
    pub parent_id: Option<Option<i64>>,
}

pub open spec fn node_matches(n: crate::index::NodeV, f: &NodeFilter) -> bool {
    &&& (f.node_id matches Some(x) ==> n.node_id == x)
    &&& (f.parent_id matches Some(p) ==> n.parent_id == p)
}

/// A track on a node directly under the given node.
pub open spec fn child_track_pred(nodes: Seq<crate::index::NodeV>, id: i64) -> spec_fn(
    TrackV,
) -> bool {
    |t: TrackV|
        has_node(nodes, t.node_id) && node_of(nodes, t.node_id).parent_id == Some(id)
}

/// An image on a node directly under the given node.
pub open spec fn child_image_pred(nodes: Seq<crate::index::NodeV>, id: i64) -> spec_fn(
    crate::index::ImageV,
) -> bool {
    |im: crate::index::ImageV|
        has_node(nodes, im.node_id) && node_of(nodes, im.node_id).parent_id == Some(id)
}

/// The path lies strictly under `base`: `base`, a `/`, and more.
pub open spec fn path_under(p: Seq<u8>, base: Seq<u8>) -> bool {
    p.len() > base.len() && p.take(base.len() as int) == base && p[base.len() as int] == 47
}

/// A track anywhere in the subtree below the node with this path.
pub open spec fn subtree_track_pred(nodes: Seq<crate::index::NodeV>, base: Seq<u8>) -> spec_fn(
    TrackV,
) -> bool {
    |t: TrackV| has_node(nodes, t.node_id) && path_under(node_of(nodes, t.node_id).path, base)
}

/// An image anywhere in the subtree below the node with this path.
pub open spec fn subtree_image_pred(nodes: Seq<crate::index::NodeV>, base: Seq<u8>) -> spec_fn(
    crate::index::ImageV,
) -> bool {
    |im: crate::index::ImageV|
        has_node(nodes, im.node_id) && path_under(node_of(nodes, im.node_id).path, base)
}

fn is_path_under(p: &[u8], base: &[u8]) -> (r: bool)
    ensures
        r == path_under(p@, base@),
{
    if p.len() <= base.len() {
        return false;
    }
    let mut i: usize = 0;
    while i < base.len()
        invariant
            i <= base.len(),
            base.len() < p.len(),
            forall|k: int| 0 <= k < i ==> p@[k] == base@[k],
        decreases base.len() - i,
    {
        if p[i] != base[i] {
            proof {
                assert(p@.take(base@.len() as int)[i as int] != base@[i as int]);
            }
            return false;
        }
        i += 1;
    }
    proof {
        assert(p@.take(base@.len() as int) =~= base@);
    }
    p[base.len()] == 47
}

/// One row of the nodes endpoint: the node with its direct and subtree
/// track and image counts.
pub struct NodeRow {
    pub node: crate::index::Node,
    pub track_count: usize,
    pub image_count: usize,
    pub all_track_count: usize,
    pub all_image_count: usize,
}

#[verifier::ext_equal]
pub struct NodeRowV {
    pub node: crate::index::NodeV,
    pub track_count: usize,
    pub image_count: usize,
    pub all_track_count: usize,
    pub all_image_count: usize,
}

impl View for NodeRow {
    type V = NodeRowV;

    open spec fn view(&self) -> NodeRowV {
        NodeRowV {
            node: self.node@,
            track_count: self.track_count,
            image_count: self.image_count,
            all_track_count: self.all_track_count,
            all_image_count: self.all_image_count,
        }
    }
}

impl DeepView for NodeRow {
    type V = NodeRowV;

    open spec fn deep_view(&self) -> NodeRowV {
        self.view()
    }
}

impl Index {
    /// Tracks on the direct children of one node.
    pub fn count_child_tracks(&self, id: i64) -> (r: usize)
        requires
            inv(self@),
        ensures
            r == self@.tracks.filter(child_track_pred(self@.nodes, id)).len(),
    {
        let ghost keep = child_track_pred(self@.nodes, id);
        let mut cnt: usize = 0;
        let mut i: usize = 0;
        proof {
            reveal_with_fuel(Seq::filter, 1);
            assert(self@.tracks.take(0).filter(keep).len() == 0);
        }
        let n = self.tracks_len();
        while i < n
            invariant
                inv(self@),
                n == self@.tracks.len(),
                i <= self@.tracks.len(),
                cnt == self@.tracks.take(i as int).filter(keep).len(),
                cnt <= i,
                keep == child_track_pred(self@.nodes, id),
            decreases self@.tracks.len() - i,
        {
            proof {
                assert(self@.tracks.take(i + 1).drop_last() =~= self@.tracks.take(i as int));
                assert(self@.tracks.take(i + 1).last() == self@.tracks[i as int]);
                reveal_with_fuel(Seq::filter, 2);
            }
            let t = self.track_at(i);
            let hit = match self.node(t.node_id) {
                Some(nd) => match nd.parent_id {
                    Some(p) => p == id,
                    None => false,
                },
                None => false,
            };
            proof {
                assert(hit == keep(self@.tracks[i as int]));
            }
            if hit {
                cnt = cnt + 1;
            }
            i += 1;
        }
        proof {
            assert(self@.tracks.take(self@.tracks.len() as int) =~= self@.tracks);
        }
        cnt
    }

    /// Images on the direct children of one node.
    pub fn count_child_images(&self, id: i64) -> (r: usize)
        requires
            inv(self@),
        ensures
            r == self@.images.filter(child_image_pred(self@.nodes, id)).len(),
    {
        let ghost keep = child_image_pred(self@.nodes, id);
        let mut cnt: usize = 0;
        let mut i: usize = 0;
        proof {
            reveal_with_fuel(Seq::filter, 1);
            assert(self@.images.take(0).filter(keep).len() == 0);
        }
        let n = self.images_len();
        while i < n
            invariant
                inv(self@),
                n == self@.images.len(),
                i <= self@.images.len(),
                cnt == self@.images.take(i as int).filter(keep).len(),
                cnt <= i,
                keep == child_image_pred(self@.nodes, id),
            decreases self@.images.len() - i,
        {
            proof {
                assert(self@.images.take(i + 1).drop_last() =~= self@.images.take(i as int));
                assert(self@.images.take(i + 1).last() == self@.images[i as int]);
                reveal_with_fuel(Seq::filter, 2);
            }
            let im = self.image_at(i);
            let hit = match self.node(im.node_id) {
                Some(nd) => match nd.parent_id {
                    Some(p) => p == id,
                    None => false,
                },
                None => false,
            };
            proof {
                assert(hit == keep(self@.images[i as int]));
            }
            if hit {
                cnt = cnt + 1;
            }
            i += 1;
        }
        proof {
            assert(self@.images.take(self@.images.len() as int) =~= self@.images);
        }
        cnt
    }

    /// Tracks anywhere below the node with this path.
    pub fn count_subtree_tracks(&self, base: &[u8]) -> (r: usize)
        requires
            inv(self@),
        ensures
            r == self@.tracks.filter(subtree_track_pred(self@.nodes, base@)).len(),
    {
        let ghost keep = subtree_track_pred(self@.nodes, base@);
        let mut cnt: usize = 0;
        let mut i: usize = 0;
        proof {
            reveal_with_fuel(Seq::filter, 1);
            assert(self@.tracks.take(0).filter(keep).len() == 0);
        }
        let n = self.tracks_len();
        while i < n
            invariant
                inv(self@),
                n == self@.tracks.len(),
                i <= self@.tracks.len(),
                cnt == self@.tracks.take(i as int).filter(keep).len(),
                cnt <= i,
                keep == subtree_track_pred(self@.nodes, base@),
            decreases self@.tracks.len() - i,
        {
            proof {
                assert(self@.tracks.take(i + 1).drop_last() =~= self@.tracks.take(i as int));
                assert(self@.tracks.take(i + 1).last() == self@.tracks[i as int]);
                reveal_with_fuel(Seq::filter, 2);
            }
            let t = self.track_at(i);
            let hit = match self.node(t.node_id) {
                Some(nd) => is_path_under(&nd.path, base),
                None => false,
            };
            proof {
                assert(hit == keep(self@.tracks[i as int]));
            }
            if hit {
                cnt = cnt + 1;
            }
            i += 1;
        }
        proof {
            assert(self@.tracks.take(self@.tracks.len() as int) =~= self@.tracks);
        }
        cnt
    }

    /// Images anywhere below the node with this path.
    pub fn count_subtree_images(&self, base: &[u8]) -> (r: usize)
        requires
            inv(self@),
        ensures
            r == self@.images.filter(subtree_image_pred(self@.nodes, base@)).len(),
    {
        let ghost keep = subtree_image_pred(self@.nodes, base@);
        let mut cnt: usize = 0;
        let mut i: usize = 0;
        proof {
            reveal_with_fuel(Seq::filter, 1);
            assert(self@.images.take(0).filter(keep).len() == 0);
        }
        let n = self.images_len();
        while i < n
            invariant
                inv(self@),
                n == self@.images.len(),
                i <= self@.images.len(),
                cnt == self@.images.take(i as int).filter(keep).len(),
                cnt <= i,
                keep == subtree_image_pred(self@.nodes, base@),
            decreases self@.images.len() - i,
        {
            proof {
                assert(self@.images.take(i + 1).drop_last() =~= self@.images.take(i as int));
                assert(self@.images.take(i + 1).last() == self@.images[i as int]);
                reveal_with_fuel(Seq::filter, 2);
            }
            let im = self.image_at(i);
            let hit = match self.node(im.node_id) {
                Some(nd) => is_path_under(&nd.path, base),
                None => false,
            };
            proof {
                assert(hit == keep(self@.images[i as int]));
            }
            if hit {
                cnt = cnt + 1;
            }
            i += 1;
        }
        proof {
            assert(self@.images.take(self@.images.len() as int) =~= self@.images);
        }
        cnt
    }

    /// The nodes endpoint: the total count of matching rows and one page
    /// in table order, each row carrying its direct child track and image
    /// counts; the whole-subtree counts are filled only when a parent
    /// filter was given, and are zero otherwise.
    pub fn query_nodes(&self, f: &NodeFilter, limit: Option<i64>, offset: Option<i64>) -> (r: (
        usize,
        Vec<NodeRow>,
    ))
        requires
            inv(self@),
        ensures
            r.0 == self@.nodes.filter(|n: crate::index::NodeV| node_matches(n, f)).len(),
            r.1.deep_view().len() == page_spec(
                self@.nodes.filter(|n: crate::index::NodeV| node_matches(n, f)),
                limit,
                offset,
            ).len(),
            forall|k: int|
                0 <= k < r.1.deep_view().len()
                    ==> {
                    let paged = page_spec(
                        self@.nodes.filter(|n: crate::index::NodeV| node_matches(n, f)),
                        limit,
                        offset,
                    );
                    let row = #[trigger] r.1.deep_view()[k];
                    &&& row.node == paged[k]
                    &&& row.track_count == self@.tracks.filter(
                        child_track_pred(self@.nodes, paged[k].node_id),
                    ).len()
                    &&& row.image_count == self@.images.filter(
                        child_image_pred(self@.nodes, paged[k].node_id),
                    ).len()
                    &&& row.all_track_count == (if f.parent_id is Some {
                        self@.tracks.filter(subtree_track_pred(self@.nodes, paged[k].path)).len()
                    } else {
                        0
                    })
                    &&& row.all_image_count == (if f.parent_id is Some {
                        self@.images.filter(subtree_image_pred(self@.nodes, paged[k].path)).len()
                    } else {
                        0
                    })
                },
    {
        let ghost keep = |n: crate::index::NodeV| node_matches(n, f);
        let mut matching: Vec<crate::index::Node> = Vec::new();
        let mut i: usize = 0;
        proof {
            assert(self@.nodes.take(0).filter(keep) =~= Seq::<crate::index::NodeV>::empty());
        }
        let n = self.nodes_len();
        while i < n
            invariant
                inv(self@),
                n == self@.nodes.len(),
                i <= self@.nodes.len(),
                matching.deep_view() == self@.nodes.take(i as int).filter(keep),
                keep == (|n: crate::index::NodeV| node_matches(n, f)),
            decreases self@.nodes.len() - i,
        {
            proof {
                assert(self@.nodes.take(i + 1).drop_last() =~= self@.nodes.take(i as int));
                assert(self@.nodes.take(i + 1).last() == self@.nodes[i as int]);
                reveal_with_fuel(Seq::filter, 2);
            }
            let nd = self.node_at(i);
            let mut hit = true;
            match &f.node_id {
                Some(x) => {
                    if nd.node_id != *x {
                        hit = false;
                    }
                },
                None => {},
            }
            match &f.parent_id {
                Some(p) => {
                    let same = match (&nd.parent_id, p) {
                        (Some(a), Some(b)) => *a == *b,
                        (None, None) => true,
                        _ => false,
                    };
                    if !same {
                        hit = false;
                    }
                },
                None => {},
            }
            proof {
                assert(hit == keep(self@.nodes[i as int]));
            }
            if hit {
                let ghost odv = matching.deep_view();
                matching.push(nd);
                proof {
                    assert(matching.deep_view() =~~= odv.push(self@.nodes[i as int]));
                }
            }
            i += 1;
        }
        proof {
            assert(self@.nodes.take(self@.nodes.len() as int) =~= self@.nodes);
        }
        let total = matching.len();
        let ghost mv = matching.deep_view();
        let off: usize = match offset {
            Some(o) => {
                if o < 0 {
                    0
                } else if o as u64 > matching.len() as u64 {
                    matching.len()
                } else {
                    o as usize
                }
            },
            None => 0,
        };
        let end: usize = match limit {
            Some(l) => {
                if l < 0 {
                    matching.len()
                } else if (l as u64) > (matching.len() - off) as u64 {
                    matching.len()
                } else {
                    off + (l as usize)
                }
            },
            None => matching.len(),
        };
        let mut out: Vec<NodeRow> = Vec::new();
        let mut i: usize = off;
        let ghost paged = page_spec(mv, limit, offset);
        proof {
            assert(paged =~= mv.subrange(off as int, end as int));
        }
        while i < end
            invariant
                inv(self@),
                off <= i <= end <= matching.len(),
                mv == matching.deep_view(),
                paged == mv.subrange(off as int, end as int),
                out.deep_view().len() == i - off,
                forall|k: int|
                    0 <= k < i - off
                        ==> {
                        let row = #[trigger] out.deep_view()[k];
                        &&& row.node == paged[k]
                        &&& row.track_count == self@.tracks.filter(
                            child_track_pred(self@.nodes, paged[k].node_id),
                        ).len()
                        &&& row.image_count == self@.images.filter(
                            child_image_pred(self@.nodes, paged[k].node_id),
                        ).len()
                        &&& row.all_track_count == (if f.parent_id is Some {
                            self@.tracks.filter(
                                subtree_track_pred(self@.nodes, paged[k].path),
                            ).len()
                        } else {
                            0
                        })
                        &&& row.all_image_count == (if f.parent_id is Some {
                            self@.images.filter(
                                subtree_image_pred(self@.nodes, paged[k].path),
                            ).len()
                        } else {
                            0
                        })
                    },
            decreases end - i,
        {
            proof {
                assert(matching@[i as int]@ == mv[i as int]);
                assert(mv[i as int] == paged[i - off]);
            }
            let nd = crate::index::copy_node(&matching[i]);
            let tc = self.count_child_tracks(nd.node_id);
            let ic = self.count_child_images(nd.node_id);
            let (atc, aic) = if f.parent_id.is_some() {
                (self.count_subtree_tracks(&nd.path), self.count_subtree_images(&nd.path))
            } else {
                (0, 0)
            };
            let ghost ndv = nd@;
            let row = NodeRow {
                node: nd,
                track_count: tc,
                image_count: ic,
                all_track_count: atc,
                all_image_count: aic,
            };
            let ghost odv = out.deep_view();
            out.push(row);
            proof {
                assert(out.deep_view() =~~= odv.push(
                    (NodeRowV {
                        node: ndv,
                        track_count: tc,
                        image_count: ic,
                        all_track_count: atc,
                        all_image_count: aic,
                    }),
                ));
            }
            i += 1;
        }
        (total, out)
    }
}

/// A filter for the artists endpoint.
pub struct ArtistFilter {
    pub artist_id: Option<i64>,
    pub name: Option<Vec<u8>>,
    pub search: Option<Vec<u8>>,
}

pub open spec fn artist_matches(a: crate::index::ArtistV, f: &ArtistFilter) -> bool {
    &&& (f.artist_id matches Some(x) ==> a.artist_id == x)
    &&& (f.name matches Some(p) ==> text::like_spec(search_pat(p@), a.name))
    &&& (f.search matches Some(p) ==> text::like_spec(search_pat(p@), a.name))
}

/// The artist ordering of the artists endpoint: name in byte order.
pub open spec fn artist_before(a: crate::index::ArtistV, b: crate::index::ArtistV) -> bool {
    bytes_lt(a.name, b.name)
}

pub open spec fn artist_ins_pos(s: Seq<crate::index::ArtistV>, x: crate::index::ArtistV) -> int
    decreases s.len(),
{
    if s.len() == 0 {
        0
    } else if artist_before(x, s[0]) {
        0
    } else {
        1 + artist_ins_pos(s.skip(1), x)
    }
}

pub open spec fn artist_sort_run(s: Seq<crate::index::ArtistV>, n: int) -> Seq<
    crate::index::ArtistV,
>
    decreases n,
{
    if n <= 0 {
        Seq::empty()
    } else {
        let pre = artist_sort_run(s, n - 1);
        pre.insert(artist_ins_pos(pre, s[n - 1]), s[n - 1])
    }
}

/// The rows of the artists endpoint: filtered, then insertion-ordered by
/// name.
pub open spec fn artists_ordered(v: IndexV, f: &ArtistFilter) -> Seq<crate::index::ArtistV> {
    let m = v.artists.filter(|a: crate::index::ArtistV| artist_matches(a, f));
    artist_sort_run(m, m.len() as int)
}

proof fn lemma_artist_ins_pos_bounds(s: Seq<crate::index::ArtistV>, x: crate::index::ArtistV)
    ensures
        0 <= artist_ins_pos(s, x) <= s.len(),
    decreases s.len(),
{
    if s.len() > 0 && !artist_before(x, s[0]) {
        lemma_artist_ins_pos_bounds(s.skip(1), x);
    }
}

fn artist_ins_pos_exec(s: &Vec<crate::index::Artist>, x: &crate::index::Artist) -> (r: usize)
    ensures
        r == artist_ins_pos(s.deep_view(), x@),
        r <= s.len(),
{
    let ghost sv = s.deep_view();
    let mut i: usize = 0;
    proof {
        assert(sv.skip(0) =~= sv);
    }
    while i < s.len()
        invariant
            i <= s.len(),
            sv == s.deep_view(),
            artist_ins_pos(sv, x@) == i + artist_ins_pos(sv.skip(i as int), x@),
        decreases s.len() - i,
    {
        proof {
            assert(s@[i as int]@ == sv[i as int]);
            assert(sv.skip(i as int)[0] == sv[i as int]);
            assert(sv.skip(i as int).skip(1) =~= sv.skip(i + 1));
        }
        if bytes_less(&x.name, &s[i].name) {
            proof {
                assert(artist_ins_pos(sv.skip(i as int), x@) == 0);
            }
            return i;
        }
        i += 1;
    }
    proof {
        assert(sv.skip(i as int).len() == 0);
        assert(artist_ins_pos(sv.skip(i as int), x@) == 0);
    }
    i
}

impl Index {
    /// The artists endpoint: the total count of matching rows and one
    /// name-ordered page, each artist with its track count.
    pub fn query_artists(&self, f: &ArtistFilter, limit: Option<i64>, offset: Option<i64>) -> (r:
        (usize, Vec<(crate::index::Artist, usize)>))
        requires
            inv(self@),
        ensures
            r.0 == self@.artists.filter(
                |a: crate::index::ArtistV| artist_matches(a, f),
            ).len(),
            r.1.deep_view().len() == page_spec(artists_ordered(self@, f), limit, offset).len(),
            forall|k: int|
                0 <= k < r.1.deep_view().len()
                    ==> {
                    let paged = page_spec(artists_ordered(self@, f), limit, offset);
                    &&& (#[trigger] r.1.deep_view()[k]).0 == paged[k]
                    &&& r.1.deep_view()[k].1 == self@.tracks.filter(
                        |t: TrackV| t.artist_id == paged[k].artist_id,
                    ).len()
                },
    {
        let ghost keep = |a: crate::index::ArtistV| artist_matches(a, f);
        let mut matching: Vec<crate::index::Artist> = Vec::new();
        let mut i: usize = 0;
        proof {
            assert(self@.artists.take(0).filter(keep) =~= Seq::<crate::index::ArtistV>::empty());
        }
        let n = self.artists_len();
        while i < n
            invariant
                inv(self@),
                n == self@.artists.len(),
                i <= self@.artists.len(),
                matching.deep_view() == self@.artists.take(i as int).filter(keep),
                keep == (|a: crate::index::ArtistV| artist_matches(a, f)),
            decreases self@.artists.len() - i,
        {
            proof {
                assert(self@.artists.take(i + 1).drop_last() =~= self@.artists.take(i as int));
                assert(self@.artists.take(i + 1).last() == self@.artists[i as int]);
                reveal_with_fuel(Seq::filter, 2);
            }
            let a = self.artist_at(i);
            let mut hit = true;
            match &f.artist_id {
                Some(x) => {
                    if a.artist_id != *x {
                        hit = false;
                    }
                },
                None => {},
            }
            match &f.name {
                Some(p) => {
                    let pat = make_search_pat(p);
                    if !text::like_match(&pat, &a.name) {
                        hit = false;
                    }
                },
                None => {},
            }
            match &f.search {
                Some(p) => {
                    let pat = make_search_pat(p);
                    if !text::like_match(&pat, &a.name) {
                        hit = false;
                    }
                },
                None => {},
            }
            proof {
                assert(hit == keep(self@.artists[i as int]));
            }
            if hit {
                let ghost odv = matching.deep_view();
                matching.push(a);
                proof {
                    assert(matching.deep_view() =~~= odv.push(self@.artists[i as int]));
                }
            }
            i += 1;
        }
        proof {
            assert(self@.artists.take(self@.artists.len() as int) =~= self@.artists);
        }
        let total = matching.len();
        let ghost mv = matching.deep_view();
        let mut sorted: Vec<crate::index::Artist> = Vec::new();
        let mut i: usize = 0;
        while i < matching.len()
            invariant
                i <= matching.len(),
                mv == matching.deep_view(),
                sorted.deep_view() == artist_sort_run(mv, i as int),
            decreases matching.len() - i,
        {
            proof {
                assert(matching@[i as int]@ == mv[i as int]);
                lemma_artist_ins_pos_bounds(sorted.deep_view(), mv[i as int]);
            }
            let a = crate::index::Artist {
                artist_id: matching[i].artist_id,
                name: text::clone_bytes(&matching[i].name),
            };
            let pos = artist_ins_pos_exec(&sorted, &a);
            let ghost odv = sorted.deep_view();
            sorted.insert(pos, a);
            proof {
                assert(sorted.deep_view() =~~= odv.insert(pos as int, mv[i as int]));
            }
            i += 1;
        }
        let ghost ordered = artists_ordered(self@, f);
        let ghost paged = page_spec(ordered, limit, offset);
        let off: usize = match offset {
            Some(o) => {
                if o < 0 {
                    0
                } else if o as u64 > sorted.len() as u64 {
                    sorted.len()
                } else {
                    o as usize
                }
            },
            None => 0,
        };
        let end: usize = match limit {
            Some(l) => {
                if l < 0 {
                    sorted.len()
                } else if (l as u64) > (sorted.len() - off) as u64 {
                    sorted.len()
                } else {
                    off + (l as usize)
                }
            },
            None => sorted.len(),
        };
        let mut out: Vec<(crate::index::Artist, usize)> = Vec::new();
        let mut i: usize = off;
        proof {
            assert(mv.len() == matching@.len());
            assert(ordered == sorted.deep_view());
            assert(paged =~= sorted.deep_view().subrange(off as int, end as int));
        }
        while i < end
            invariant
                inv(self@),
                off <= i <= end <= sorted.len(),
                ordered == sorted.deep_view(),
                paged == sorted.deep_view().subrange(off as int, end as int),
                paged == page_spec(artists_ordered(self@, f), limit, offset),
                out.deep_view().len() == i - off,
                forall|k: int|
                    0 <= k < i - off
                        ==> {
                        &&& (#[trigger] out.deep_view()[k]).0 == paged[k]
                        &&& out.deep_view()[k].1 == self@.tracks.filter(
                            |t: TrackV| t.artist_id == paged[k].artist_id,
                        ).len()
                    },
            decreases end - i,
        {
            proof {
                assert(sorted@[i as int]@ == sorted.deep_view()[i as int]);
                assert(sorted.deep_view()[i as int] == paged[i - off]);
            }
            let a = crate::index::Artist {
                artist_id: sorted[i].artist_id,
                name: text::clone_bytes(&sorted[i].name),
            };
            let ghost av = a@;
            let cnt = self.artist_track_count(a.artist_id);
            let ghost odv = out.deep_view();
            out.push((a, cnt));
            proof {
                assert(out.deep_view() =~~= odv.push((av, cnt)));
            }
            i += 1;
        }
        (total, out)
    }
}

/// A filter for the albums endpoint.
pub struct AlbumFilter {
    pub album_id: Option<i64>,
    pub name: Option<Vec<u8>>,
    pub artist_id: Option<i64>,
    pub artist_name: Option<Vec<u8>>,
    pub search: Option<Vec<u8>>,
}

pub open spec fn album_matches(a: crate::index::AlbumV, f: &AlbumFilter) -> bool {
    &&& (f.album_id matches Some(x) ==> a.album_id == x)
    &&& (f.name matches Some(p) ==> text::like_spec(search_pat(p@), a.name))
    &&& (f.artist_id matches Some(x) ==> a.artist_id == Some(x))
    &&& (f.artist_name matches Some(p) ==> a.artist_name matches Some(an) && text::like_spec(
        search_pat(p@),
        an,
    ))
    &&& (f.search matches Some(p) ==> text::like_spec(search_pat(p@), a.name) || (
    a.artist_name matches Some(an) && text::like_spec(search_pat(p@), an)))
}

/// An absent artist name sorts before every present one, as the storage
/// engine orders nulls.
pub open spec fn opt_bytes_lt(a: Option<Seq<u8>>, b: Option<Seq<u8>>) -> bool {
    match (a, b) {
        (Option::None, Option::Some(_)) => true,
        (Option::Some(x), Option::Some(y)) => bytes_lt(x, y),
        _ => false,
    }
}

/// The album ordering of the albums endpoint: artist name, then name.
pub open spec fn album_before(a: crate::index::AlbumV, b: crate::index::AlbumV) -> bool {
    if a.artist_name != b.artist_name {
        opt_bytes_lt(a.artist_name, b.artist_name)
    } else {
        bytes_lt(a.name, b.name)
    }
}

pub open spec fn album_ins_pos(s: Seq<crate::index::AlbumV>, x: crate::index::AlbumV) -> int
    decreases s.len(),
{
    if s.len() == 0 {
        0
    } else if album_before(x, s[0]) {
        0
    } else {
        1 + album_ins_pos(s.skip(1), x)
    }
}

pub open spec fn album_sort_run(s: Seq<crate::index::AlbumV>, n: int) -> Seq<crate::index::AlbumV>
    decreases n,
{
    if n <= 0 {
        Seq::empty()
    } else {
        let pre = album_sort_run(s, n - 1);
        pre.insert(album_ins_pos(pre, s[n - 1]), s[n - 1])
    }
}

/// The rows of the albums endpoint: filtered, then insertion-ordered.
pub open spec fn albums_ordered(v: IndexV, f: &AlbumFilter) -> Seq<crate::index::AlbumV> {
    let m = v.albums.filter(|a: crate::index::AlbumV| album_matches(a, f));
    album_sort_run(m, m.len() as int)
}

proof fn lemma_album_ins_pos_bounds(s: Seq<crate::index::AlbumV>, x: crate::index::AlbumV)
    ensures
        0 <= album_ins_pos(s, x) <= s.len(),
    decreases s.len(),
{
    if s.len() > 0 && !album_before(x, s[0]) {
        lemma_album_ins_pos_bounds(s.skip(1), x);
    }
}

fn opt_name_less(a: &Option<Vec<u8>>, b: &Option<Vec<u8>>) -> (r: bool)
    ensures
        r == opt_bytes_lt(crate::index::opt_bytes_view(*a), crate::index::opt_bytes_view(*b)),
{
    match (a, b) {
        (Option::None, Option::Some(_)) => true,
        (Option::Some(x), Option::Some(y)) => bytes_less(x, y),
        _ => false,
    }
}

fn opt_name_eq(a: &Option<Vec<u8>>, b: &Option<Vec<u8>>) -> (r: bool)
    ensures
        r == (crate::index::opt_bytes_view(*a) == crate::index::opt_bytes_view(*b)),
{
    match (a, b) {
        (Option::None, Option::None) => true,
        (Option::Some(x), Option::Some(y)) => text::bytes_eq(x, y),
        _ => false,
    }
}

fn album_ins_pos_exec(s: &Vec<crate::index::Album>, x: &crate::index::Album) -> (r: usize)
    ensures
        r == album_ins_pos(s.deep_view(), x@),
        r <= s.len(),
{
    let ghost sv = s.deep_view();
    let mut i: usize = 0;
    proof {
        assert(sv.skip(0) =~= sv);
    }
    while i < s.len()
        invariant
            i <= s.len(),
            sv == s.deep_view(),
            album_ins_pos(sv, x@) == i + album_ins_pos(sv.skip(i as int), x@),
        decreases s.len() - i,
    {
        proof {
            assert(s@[i as int]@ == sv[i as int]);
            assert(sv.skip(i as int)[0] == sv[i as int]);
            assert(sv.skip(i as int).skip(1) =~= sv.skip(i + 1));
        }
        let before = if opt_name_eq(&x.artist_name, &s[i].artist_name) {
            bytes_less(&x.name, &s[i].name)
        } else {
            opt_name_less(&x.artist_name, &s[i].artist_name)
        };
        proof {
            assert(before == album_before(x@, sv[i as int]));
        }
        if before {
            proof {
                assert(album_ins_pos(sv.skip(i as int), x@) == 0);
            }
            return i;
        }
        i += 1;
    }
    proof {
        assert(sv.skip(i as int).len() == 0);
        assert(album_ins_pos(sv.skip(i as int), x@) == 0);
    }
    i
}

/// A filter for the images endpoint; `description` is an exact match and
/// `album_id` asks for images linked to that album as cover candidates.
pub struct ImageFilter {
    pub image_id: Option<i64>,
    pub node_id: Option<i64>,
    pub description: Option<Vec<u8>>,
    pub album_id: Option<i64>,
}

pub open spec fn image_matches(v: IndexV, im: crate::index::ImageV, f: &ImageFilter) -> bool {
    &&& (f.image_id matches Some(x) ==> im.image_id == x)
    &&& (f.node_id matches Some(x) ==> im.node_id == x)
    &&& (f.description matches Some(d) ==> im.description == d@)
    &&& (f.album_id matches Some(a) ==> crate::index::appears(v.album_images, (a, im.image_id)))
}

impl Index {
    /// The albums endpoint: the total count of matching rows and one page
    /// ordered by artist name then name, each album with its track count.
    pub fn query_albums(&self, f: &AlbumFilter, limit: Option<i64>, offset: Option<i64>) -> (r: (
        usize,
        Vec<(crate::index::Album, usize)>,
    ))
        requires
            inv(self@),
        ensures
            r.0 == self@.albums.filter(|a: crate::index::AlbumV| album_matches(a, f)).len(),
            r.1.deep_view().len() == page_spec(albums_ordered(self@, f), limit, offset).len(),
            forall|k: int|
                0 <= k < r.1.deep_view().len()
                    ==> {
                    let paged = page_spec(albums_ordered(self@, f), limit, offset);
                    &&& (#[trigger] r.1.deep_view()[k]).0 == paged[k]
                    &&& r.1.deep_view()[k].1 == self@.tracks.filter(
                        |t: TrackV| t.album_id == paged[k].album_id,
                    ).len()
                },
    {
        let ghost keep = |a: crate::index::AlbumV| album_matches(a, f);
        let mut matching: Vec<crate::index::Album> = Vec::new();
        let mut i: usize = 0;
        proof {
            assert(self@.albums.take(0).filter(keep) =~= Seq::<crate::index::AlbumV>::empty());
        }
        let n = self.albums_len();
        while i < n
            invariant
                inv(self@),
                n == self@.albums.len(),
                i <= self@.albums.len(),
                matching.deep_view() == self@.albums.take(i as int).filter(keep),
                keep == (|a: crate::index::AlbumV| album_matches(a, f)),
            decreases self@.albums.len() - i,
        {
            proof {
                assert(self@.albums.take(i + 1).drop_last() =~= self@.albums.take(i as int));
                assert(self@.albums.take(i + 1).last() == self@.albums[i as int]);
                reveal_with_fuel(Seq::filter, 2);
            }
            let a = self.album_at(i);
            let mut hit = true;
            match &f.album_id {
                Some(x) => {
                    if a.album_id != *x {
                        hit = false;
                    }
                },
                None => {},
            }
            match &f.name {
                Some(p) => {
                    let pat = make_search_pat(p);
                    if !text::like_match(&pat, &a.name) {
                        hit = false;
                    }
                },
                None => {},
            }
            match &f.artist_id {
                Some(x) => {
                    let same = match &a.artist_id {
                        Some(y) => *y == *x,
                        None => false,
                    };
                    if !same {
                        hit = false;
                    }
                },
                None => {},
            }
            match &f.artist_name {
                Some(p) => {
                    let pat = make_search_pat(p);
                    let ok = match &a.artist_name {
                        Some(an) => text::like_match(&pat, an),
                        None => false,
                    };
                    if !ok {
                        hit = false;
                    }
                },
                None => {},
            }
            match &f.search {
                Some(p) => {
                    let pat = make_search_pat(p);
                    let mut ok = text::like_match(&pat, &a.name);
                    if !ok {
                        ok = match &a.artist_name {
                            Some(an) => text::like_match(&pat, an),
                            None => false,
                        };
                    }
                    if !ok {
                        hit = false;
                    }
                },
                None => {},
            }
            proof {
                assert(hit == keep(self@.albums[i as int]));
            }
            if hit {
                let ghost odv = matching.deep_view();
                matching.push(a);
                proof {
                    assert(matching.deep_view() =~~= odv.push(self@.albums[i as int]));
                }
            }
            i += 1;
        }
        proof {
            assert(self@.albums.take(self@.albums.len() as int) =~= self@.albums);
        }
        let total = matching.len();
        let ghost mv = matching.deep_view();
        let mut sorted: Vec<crate::index::Album> = Vec::new();
        let mut i: usize = 0;
        while i < matching.len()
            invariant
                i <= matching.len(),
                mv == matching.deep_view(),
                sorted.deep_view() == album_sort_run(mv, i as int),
            decreases matching.len() - i,
        {
            proof {
                assert(matching@[i as int]@ == mv[i as int]);
                lemma_album_ins_pos_bounds(sorted.deep_view(), mv[i as int]);
            }
            let a = crate::index::copy_album_row(&matching[i]);
            let pos = album_ins_pos_exec(&sorted, &a);
            let ghost odv = sorted.deep_view();
            sorted.insert(pos, a);
            proof {
                assert(sorted.deep_view() =~~= odv.insert(pos as int, mv[i as int]));
            }
            i += 1;
        }
        let ghost ordered = albums_ordered(self@, f);
        let ghost paged = page_spec(ordered, limit, offset);
        let off: usize = match offset {
            Some(o) => {
                if o < 0 {
                    0
                } else if o as u64 > sorted.len() as u64 {
                    sorted.len()
                } else {
                    o as usize
                }
            },
            None => 0,
        };
        let end: usize = match limit {
            Some(l) => {
                if l < 0 {
                    sorted.len()
                } else if (l as u64) > (sorted.len() - off) as u64 {
                    sorted.len()
                } else {
                    off + (l as usize)
                }
            },
            None => sorted.len(),
        };
        let mut out: Vec<(crate::index::Album, usize)> = Vec::new();
        let mut i: usize = off;
        proof {
            assert(mv.len() == matching@.len());
            assert(ordered == sorted.deep_view());
            assert(paged =~= sorted.deep_view().subrange(off as int, end as int));
        }
        while i < end
            invariant
                inv(self@),
                off <= i <= end <= sorted.len(),
                ordered == sorted.deep_view(),
                paged == sorted.deep_view().subrange(off as int, end as int),
                paged == page_spec(albums_ordered(self@, f), limit, offset),
                out.deep_view().len() == i - off,
                forall|k: int|
                    0 <= k < i - off
                        ==> {
                        &&& (#[trigger] out.deep_view()[k]).0 == paged[k]
                        &&& out.deep_view()[k].1 == self@.tracks.filter(
                            |t: TrackV| t.album_id == paged[k].album_id,
                        ).len()
                    },
            decreases end - i,
        {
            proof {
                assert(sorted@[i as int]@ == sorted.deep_view()[i as int]);
                assert(sorted.deep_view()[i as int] == paged[i - off]);
            }
            let a = crate::index::copy_album_row(&sorted[i]);
            let ghost av = a@;
            let cnt = self.album_track_count(a.album_id);
            let ghost odv = out.deep_view();
            out.push((a, cnt));
            proof {
                assert(out.deep_view() =~~= odv.push((av, cnt)));
            }
            i += 1;
        }
        (total, out)
    }

    /// The images endpoint: the total count of matching rows and one page
    /// in table order.
    pub fn query_images(&self, f: &ImageFilter, limit: Option<i64>, offset: Option<i64>) -> (r: (
        usize,
        Vec<crate::index::Image>,
    ))
        requires
            inv(self@),
        ensures
            r.0 == self@.images.filter(
                |im: crate::index::ImageV| image_matches(self@, im, f),
            ).len(),
            r.1.deep_view() == page_spec(
                self@.images.filter(|im: crate::index::ImageV| image_matches(self@, im, f)),
                limit,
                offset,
            ),
    {
        let ghost keep = |im: crate::index::ImageV| image_matches(self@, im, f);
        let mut matching: Vec<crate::index::Image> = Vec::new();
        let mut i: usize = 0;
        proof {
            assert(self@.images.take(0).filter(keep) =~= Seq::<crate::index::ImageV>::empty());
        }
        let n = self.images_len();
        while i < n
            invariant
                inv(self@),
                n == self@.images.len(),
                i <= self@.images.len(),
                matching.deep_view() == self@.images.take(i as int).filter(keep),
                keep == (|im: crate::index::ImageV| image_matches(self@, im, f)),
            decreases self@.images.len() - i,
        {
            proof {
                assert(self@.images.take(i + 1).drop_last() =~= self@.images.take(i as int));
                assert(self@.images.take(i + 1).last() == self@.images[i as int]);
                reveal_with_fuel(Seq::filter, 2);
            }
            let im = self.image_at(i);
            let mut hit = true;
            match &f.image_id {
                Some(x) => {
                    if im.image_id != *x {
                        hit = false;
                    }
                },
                None => {},
            }
            match &f.node_id {
                Some(x) => {
                    if im.node_id != *x {
                        hit = false;
                    }
                },
                None => {},
            }
            match &f.description {
                Some(d) => {
                    if !text::bytes_eq(&im.description, d) {
                        hit = false;
                    }
                },
                None => {},
            }
            match &f.album_id {
                Some(a) => {
                    if !self.has_album_image_link(*a, im.image_id) {
                        hit = false;
                    }
                },
                None => {},
            }
            proof {
                assert(hit == keep(self@.images[i as int]));
            }
            if hit {
                let ghost odv = matching.deep_view();
                matching.push(im);
                proof {
                    assert(matching.deep_view() =~~= odv.push(self@.images[i as int]));
                }
            }
            i += 1;
        }
        proof {
            assert(self@.images.take(self@.images.len() as int) =~= self@.images);
        }
        let total = matching.len();
        let ghost mv = matching.deep_view();
        let off: usize = match offset {
            Some(o) => {
                if o < 0 {
                    0
                } else if o as u64 > matching.len() as u64 {
                    matching.len()
                } else {
                    o as usize
                }
            },
            None => 0,
        };
        let end: usize = match limit {
            Some(l) => {
                if l < 0 {
                    matching.len()
                } else if (l as u64) > (matching.len() - off) as u64 {
                    matching.len()
                } else {
                    off + (l as usize)
                }
            },
            None => matching.len(),
        };
        let mut out: Vec<crate::index::Image> = Vec::new();
        let mut i: usize = off;
        while i < end
            invariant
                off <= i <= end <= matching.len(),
                mv == matching.deep_view(),
                out.deep_view() =~= mv.subrange(off as int, i as int),
            decreases end - i,
        {
            proof {
                assert(matching@[i as int]@ == mv[i as int]);
            }
            let im = crate::index::copy_image_row(&matching[i]);
            let ghost odv = out.deep_view();
            out.push(im);
            proof {
                assert(out.deep_view() =~~= odv.push(mv[i as int]));
            }
            i += 1;
        }
        proof {
            assert(out.deep_view() =~= page_spec(mv, limit, offset));
        }
        (total, out)
    }
}

} // verus!
