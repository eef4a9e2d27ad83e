use musicd2::cache::CacheSource;
use musicd2::cue;
use musicd2::http::{parse_request_headers, decode_url, encode_url, HttpQuery};
use musicd2::index::{Index, NodeType, Track};
use musicd2::lyrics::parse_lyricwiki_lyrics;
use musicd2::query::TrackFilter;
use musicd2::scan;
use musicd2::server::{ConnState, Connection, Receive};
use musicd2::text;
use musicd2::thumb;

#[test]
fn test_parse1() {
    let data = "
REM DISCID 123456789
REM COMMENT \"comment\"
PERFORMER \"Performer\"
TITLE \"Title\"
FILE \"file.cue\" WAVE
  TRACK 01 AUDIO
    TITLE \"Track01\"
    PERFORMER \"Performer01\"
    INDEX 01 00:00:00
  TRACK 02 AUDIO
    TITLE \"Track02\"
    PERFORMER \"Performer\"
    INDEX 01 04:09:11
  TRACK 03 AUDIO
    TITLE \"Track03\"
    PERFORMER \"Performer\"
    INDEX 01 10:05:18
  TRACK 04 AUDIO
    TITLE \"Track04\"
    PERFORMER \"Performer\"
    INDEX 01 14:54:44";

    println!("{:?}", cue::parse_cue(data.as_bytes()));
}

#[test]
fn cue_parse_fields() {
    let data = "
PERFORMER \"P\"
TITLE \"D\"
FILE \"disc.flac\" WAVE
  TRACK 01 AUDIO
    TITLE \"a\"
    INDEX 01 00:00:00
  TRACK 02 AUDIO
    TITLE \"b\"
    INDEX 01 01:30:00
  TRACK 03 AUDIO
    TITLE \"c\"
    INDEX 01 05:00:00";
    let sheet = cue::parse_cue(data.as_bytes());
    assert_eq!(sheet.title, b"D".to_vec());
    assert_eq!(sheet.performer, b"P".to_vec());
    assert_eq!(sheet.files.len(), 1);
    let f = &sheet.files[0];
    assert_eq!(f.path, b"disc.flac".to_vec());
    assert_eq!(f.tracks.len(), 3);
    assert_eq!(f.tracks[0].number, 1);
    assert_eq!(f.tracks[0].title, b"a".to_vec());
    // frames: 1/75 s each
    assert_eq!(f.tracks[0].start, 0);
    assert_eq!(f.tracks[1].start, 90 * 75);
    assert_eq!(f.tracks[2].start, 300 * 75);
}

#[test]
fn cue_parse_stable() {
    let data = "TITLE \"X\"\nFILE \"f.flac\" WAVE\n  TRACK 01 AUDIO\n    INDEX 01 00:02:00";
    let a = cue::parse_cue(data.as_bytes());
    let b = cue::parse_cue(data.as_bytes());
    assert_eq!(a.title, b.title);
    assert_eq!(a.performer, b.performer);
    assert_eq!(a.files.len(), b.files.len());
    assert_eq!(a.files[0].tracks.len(), b.files[0].tracks.len());
    assert_eq!(a.files[0].tracks[0].start, b.files[0].tracks[0].start);
}

#[test]
fn url_decode_basics() {
    assert_eq!(decode_url(b"%41+b"), b"A b".to_vec());
    assert_eq!(decode_url(b"a%2Fb"), b"a/b".to_vec());
    // a stray percent stands for itself
    assert_eq!(decode_url(b"%4"), b"%4".to_vec());
}

#[test]
fn url_encode_decode_round_trip() {
    let raw: Vec<u8> = b"key with spaces&=%\x01\xff".to_vec();
    let enc = encode_url(&raw);
    assert_eq!(decode_url(&enc), raw);
}

#[test]
fn query_parse_round_trip() {
    let key: Vec<u8> = b"artist name".to_vec();
    let value: Vec<u8> = b"A&B=C%".to_vec();
    let mut qs = encode_url(&key);
    qs.push(b'=');
    qs.extend_from_slice(&encode_url(&value));
    let q = HttpQuery::from(&qs);
    assert_eq!(q.get_str(&key).unwrap(), &value);
}

#[test]
fn query_last_value_wins() {
    let q = HttpQuery::from(b"a=1&a=2&b=3");
    assert_eq!(q.get_i64(b"a"), Some(2));
    assert_eq!(q.get_i64(b"b"), Some(3));
    assert_eq!(q.get_i64(b"c"), None);
}

#[test]
fn request_headers_parse() {
    let buf = b"GET /api/tracks?track_id=7 HTTP/1.1\r\nHost: x\r\n\r\n";
    let req = parse_request_headers(buf).unwrap().unwrap();
    assert_eq!(req.path(), &b"/api/tracks".to_vec());
    assert_eq!(req.full_path(), &b"/api/tracks?track_id=7".to_vec());
    assert_eq!(req.query().get_i64(b"track_id"), Some(7));
}

#[test]
fn request_headers_incomplete_and_invalid() {
    assert!(parse_request_headers(b"GET / HTTP/1.1\r\n").unwrap().is_none());
    assert!(parse_request_headers(b"BAD\r\n\r\n").is_err());
}

#[test]
fn parse_i64_edges() {
    assert_eq!(text::parse_i64(b"-9223372036854775808"), Some(i64::MIN));
    assert_eq!(text::parse_i64(b"9223372036854775807"), Some(i64::MAX));
    assert_eq!(text::parse_i64(b"9223372036854775808"), None);
    assert_eq!(text::parse_i64(b"+12"), Some(12));
    assert_eq!(text::parse_i64(b""), None);
    assert_eq!(text::parse_i64(b"1a"), None);
}

#[test]
fn like_match_cases() {
    assert!(text::like_match(b"front%", b"FRONT cover"));
    assert!(text::like_match(b"%cover%", b"my Cover art"));
    assert!(text::like_match(b"a_c", b"abc"));
    assert!(!text::like_match(b"a_c", b"ac"));
    assert!(text::like_match(b"abc", b"ABC"));
    assert!(!text::like_match(b"abc", b"abd"));
}

fn sample_track(node_id: i64, artist_id: i64, album_id: i64, title: &[u8]) -> Track {
    Track {
        track_id: 0,
        node_id,
        stream_index: 0,
        track_index: None,
        start: None,
        number: 1,
        title: title.to_vec(),
        artist_id,
        artist_name: b"X".to_vec(),
        album_id,
        album_name: b"Y".to_vec(),
        album_artist_id: None,
        album_artist_name: None,
        length: 180_000,
    }
}

#[test]
fn catalog_basics() {
    let mut ix = Index::new();
    let root = ix.create_node(NodeType::Directory, None, b"music", 0).unwrap();
    assert_eq!(root.path, b"music".to_vec());
    let dir = ix.create_node(NodeType::Directory, Some(root.node_id), b"album1", 0).unwrap();
    assert_eq!(dir.path, b"music/album1".to_vec());
    // a second child with the same name is refused
    assert!(ix.create_node(NodeType::File, Some(root.node_id), b"album1", 0).is_err());
    let file = ix.create_node(NodeType::File, Some(dir.node_id), b"01.flac", 0).unwrap();
    let artist = ix.create_artist(b"X").unwrap();
    let album = ix.create_album(b"Y").unwrap();
    let t = ix.create_track(&sample_track(file.node_id, artist.artist_id, album.album_id, b"T1"))
        .unwrap();
    assert_eq!(ix.track(t.track_id).unwrap().title, b"T1".to_vec());
    assert_eq!(ix.artist_by_name(b"X").unwrap().artist_id, artist.artist_id);
    // a track that names a missing artist is refused
    assert!(ix.create_track(&sample_track(file.node_id, 999, album.album_id, b"T2")).is_err());
}

#[test]
fn find_album_rules() {
    let mut ix = Index::new();
    let root = ix.create_node(NodeType::Directory, None, b"music", 0).unwrap();
    let file = ix.create_node(NodeType::File, Some(root.node_id), b"a.flac", 0).unwrap();
    // an album with no tracks is re-attachable by name
    let album = ix.create_album(b"Y").unwrap();
    let found = ix.find_album(file.node_id, b"Y").unwrap();
    assert_eq!(found.album_id, album.album_id);
    assert!(ix.find_album(file.node_id, b"Z").is_none());
}

#[test]
fn delete_node_cascades() {
    let mut ix = Index::new();
    let root = ix.create_node(NodeType::Directory, None, b"music", 0).unwrap();
    let dir = ix.create_node(NodeType::Directory, Some(root.node_id), b"album1", 0).unwrap();
    let file = ix.create_node(NodeType::File, Some(dir.node_id), b"01.flac", 0).unwrap();
    let artist = ix.create_artist(b"X").unwrap();
    let album = ix.create_album(b"Y").unwrap();
    let t = ix.create_track(&sample_track(file.node_id, artist.artist_id, album.album_id, b"T1"))
        .unwrap();
    ix.delete_node(dir.node_id);
    assert!(ix.node(dir.node_id).is_none());
    assert!(ix.node(file.node_id).is_none());
    assert!(ix.track(t.track_id).is_none());
    // the root and the additive rows survive
    assert!(ix.node(root.node_id).is_some());
    assert!(ix.artist(artist.artist_id).is_some());
    assert!(ix.album(album.album_id).is_some());
}

fn audio_info(title: &[u8], artist: &[u8], album: &[u8], dur_ms: i64) -> scan::MediaInfo {
    scan::MediaInfo {
        tracks: vec![scan::MediaTrackInfo {
            stream_index: 0,
            track_index: Some(0),
            number: 1,
            title: title.to_vec(),
            artist: artist.to_vec(),
            album: album.to_vec(),
            album_artist: None,
            duration_ms: dur_ms,
        }],
        images: Vec::new(),
    }
}

fn root_with(entries: Vec<scan::FsEntry>) -> scan::FsDir {
    scan::FsDir { modified: 10, entries }
}

#[test]
fn scan_audio_file_makes_track() {
    let mut ix = Index::new();
    let dir = root_with(vec![scan::FsEntry {
        name: b"01.flac".to_vec(),
        item: scan::FsItem::File(scan::FsFile {
            modified: 5,
            data: scan::FileData::Media(Some(audio_info(b" T1 ", b"X", b"Y", 180_000))),
        }),
    }]);
    scan::scan_root(&mut ix, b"music", &dir).unwrap();
    let f = TrackFilter {
        track_id: None,
        node_id: None,
        number: None,
        title: None,
        artist_id: None,
        artist_name: None,
        album_id: None,
        album_name: None,
        search: Some(b"T1".to_vec()),
    };
    let (total, rows) = ix.query_tracks(&f, None, None);
    assert_eq!(total, 1);
    assert_eq!(rows[0].0.title, b"T1".to_vec());
    assert_eq!(rows[0].0.artist_name, b"X".to_vec());
    assert_eq!(rows[0].0.album_name, b"Y".to_vec());
    assert_eq!(rows[0].0.length, 180_000);
    // each row carries its node's catalog path
    assert_eq!(rows[0].1, b"music/01.flac".to_vec());
}

#[test]
fn scan_cue_file_makes_virtual_tracks() {
    let cue_text = b"PERFORMER \"P\"\nTITLE \"D\"\nFILE \"disc.flac\" WAVE\n  TRACK 01 AUDIO\n    TITLE \"a\"\n    INDEX 01 00:00:00\n  TRACK 02 AUDIO\n    TITLE \"b\"\n    INDEX 01 01:30:00\n  TRACK 03 AUDIO\n    TITLE \"c\"\n    INDEX 01 05:00:00".to_vec();
    let mut ix = Index::new();
    let dir = root_with(vec![
        scan::FsEntry {
            name: b"disc.flac".to_vec(),
            item: scan::FsItem::File(scan::FsFile {
                modified: 5,
                data: scan::FileData::Media(Some(audio_info(b"whole", b"P", b"D", 600_000))),
            }),
        },
        scan::FsEntry {
            name: b"disc.cue".to_vec(),
            item: scan::FsItem::File(scan::FsFile {
                modified: 6,
                data: scan::FileData::Cue(cue_text),
            }),
        },
    ]);
    scan::scan_root(&mut ix, b"music", &dir).unwrap();
    let f = TrackFilter {
        track_id: None,
        node_id: None,
        number: None,
        title: None,
        artist_id: None,
        artist_name: None,
        album_id: None,
        album_name: Some(b"D".to_vec()),
        search: None,
    };
    let (total, rows) = ix.query_tracks(&f, None, None);
    assert_eq!(total, 3);
    let starts: Vec<i64> = rows.iter().map(|t| t.0.start.unwrap()).collect();
    assert_eq!(starts, vec![0, 90_000, 300_000]);
    let lengths: Vec<i64> = rows.iter().map(|t| t.0.length).collect();
    assert_eq!(lengths, vec![90_000, 210_000, 300_000]);
    // the audio file's content is owned by the cue node now
    let root = ix.node_by_name(None, b"music").unwrap();
    let flac = ix.node_by_name(Some(root.node_id), b"disc.flac").unwrap();
    let cue_node = ix.node_by_name(Some(root.node_id), b"disc.cue").unwrap();
    assert_eq!(flac.master_id, Some(cue_node.node_id));
}

#[test]
fn scan_cue_without_file_entries_writes_nothing() {
    let mut ix = Index::new();
    let dir = root_with(vec![scan::FsEntry {
        name: b"empty.cue".to_vec(),
        item: scan::FsItem::File(scan::FsFile {
            modified: 3,
            data: scan::FileData::Cue(b"REM COMMENT \"nothing here\"".to_vec()),
        }),
    }]);
    scan::scan_root(&mut ix, b"music", &dir).unwrap();
    let f = TrackFilter {
        track_id: None,
        node_id: None,
        number: None,
        title: None,
        artist_id: None,
        artist_name: None,
        album_id: None,
        album_name: None,
        search: None,
    };
    let (total, _) = ix.query_tracks(&f, None, None);
    assert_eq!(total, 0);
}

#[test]
fn scan_audio_with_only_images_inserts_images_only() {
    let mut ix = Index::new();
    let info = scan::MediaInfo {
        tracks: Vec::new(),
        images: vec![scan::MediaImageInfo {
            stream_index: 1,
            description: b"front".to_vec(),
            width: 100,
            height: 100,
        }],
    };
    let dir = root_with(vec![scan::FsEntry {
        name: b"a.flac".to_vec(),
        item: scan::FsItem::File(scan::FsFile {
            modified: 2,
            data: scan::FileData::Media(Some(info)),
        }),
    }]);
    scan::scan_root(&mut ix, b"music", &dir).unwrap();
    let f = TrackFilter {
        track_id: None,
        node_id: None,
        number: None,
        title: None,
        artist_id: None,
        artist_name: None,
        album_id: None,
        album_name: None,
        search: None,
    };
    let (total, _) = ix.query_tracks(&f, None, None);
    assert_eq!(total, 0);
    assert!(ix.image(1).is_some());
    assert_eq!(ix.image(1).unwrap().description, b"front".to_vec());
}

#[test]
fn scan_twice_is_stable() {
    let dir = root_with(vec![scan::FsEntry {
        name: b"01.flac".to_vec(),
        item: scan::FsItem::File(scan::FsFile {
            modified: 5,
            data: scan::FileData::Media(Some(audio_info(b"T1", b"X", b"Y", 180_000))),
        }),
    }]);
    let mut ix = Index::new();
    scan::scan_root(&mut ix, b"music", &dir).unwrap();
    let f = TrackFilter {
        track_id: None,
        node_id: None,
        number: None,
        title: None,
        artist_id: None,
        artist_name: None,
        album_id: None,
        album_name: None,
        search: None,
    };
    let (t1, rows1) = ix.query_tracks(&f, None, None);
    scan::scan_root(&mut ix, b"music", &dir).unwrap();
    let (t2, rows2) = ix.query_tracks(&f, None, None);
    assert_eq!(t1, t2);
    assert_eq!(rows1.len(), rows2.len());
    for (a, b) in rows1.iter().zip(rows2.iter()) {
        assert_eq!(a.0.track_id, b.0.track_id);
        assert_eq!(a.0.title, b.0.title);
        assert_eq!(a.0.artist_name, b.0.artist_name);
        assert_eq!(a.0.album_name, b.0.album_name);
        assert_eq!(a.0.length, b.0.length);
        assert_eq!(a.1, b.1);
    }
}

#[test]
fn process_updates_derives_album_artist_and_cover() {
    let mut ix = Index::new();
    ix.set_album_image_patterns(vec![b"front".to_vec(), b"%cover%".to_vec()]);
    let root = ix.create_node(NodeType::Directory, None, b"music", 0).unwrap();
    let dir = ix.create_node(NodeType::Directory, Some(root.node_id), b"album1", 0).unwrap();
    let file = ix.create_node(NodeType::File, Some(dir.node_id), b"01.flac", 0).unwrap();
    let img_file = ix.create_node(NodeType::File, Some(dir.node_id), b"back.jpg", 0).unwrap();
    let img_file2 = ix.create_node(NodeType::File, Some(dir.node_id), b"front.jpg", 0).unwrap();
    let artist = ix.create_artist(b"X").unwrap();
    let album = ix.create_album(b"Y").unwrap();
    ix.create_track(&sample_track(file.node_id, artist.artist_id, album.album_id, b"T1"))
        .unwrap();
    let back = musicd2::index::Image {
        image_id: 0,
        node_id: img_file.node_id,
        stream_index: None,
        description: b"back".to_vec(),
        width: 10,
        height: 10,
    };
    let front = musicd2::index::Image {
        image_id: 0,
        node_id: img_file2.node_id,
        stream_index: None,
        description: b"front".to_vec(),
        width: 10,
        height: 10,
    };
    let _back = ix.create_image(&back).unwrap();
    let front = ix.create_image(&front).unwrap();
    ix.process_node_updates(dir.node_id);
    let a = ix.album(album.album_id).unwrap();
    assert_eq!(a.artist_id, Some(artist.artist_id));
    assert_eq!(a.artist_name, Some(b"X".to_vec()));
    // `front` matches the first pattern, `back` matches none
    assert_eq!(a.image_id, Some(front.image_id));
}

#[test]
fn query_order_and_paging() {
    let mut ix = Index::new();
    let root = ix.create_node(NodeType::Directory, None, b"music", 0).unwrap();
    let file = ix.create_node(NodeType::File, Some(root.node_id), b"a.flac", 0).unwrap();
    let artist = ix.create_artist(b"X").unwrap();
    let album = ix.create_album(b"B").unwrap();
    let album2 = ix.create_album(b"A").unwrap();
    let mut t1 = sample_track(file.node_id, artist.artist_id, album.album_id, b"t1");
    t1.album_name = b"B".to_vec();
    let mut t2 = sample_track(file.node_id, artist.artist_id, album2.album_id, b"t2");
    t2.album_name = b"A".to_vec();
    ix.create_track(&t1).unwrap();
    ix.create_track(&t2).unwrap();
    let f = TrackFilter {
        track_id: None,
        node_id: None,
        number: None,
        title: None,
        artist_id: None,
        artist_name: None,
        album_id: None,
        album_name: None,
        search: None,
    };
    let (total, rows) = ix.query_tracks(&f, None, None);
    assert_eq!(total, 2);
    assert_eq!(rows[0].0.album_name, b"A".to_vec());
    assert_eq!(rows[1].0.album_name, b"B".to_vec());
    let (_, page) = ix.query_tracks(&f, Some(1), Some(1));
    assert_eq!(page.len(), 1);
    assert_eq!(page[0].0.album_name, b"B".to_vec());
}

#[test]
fn cache_lru_eviction() {
    let source = CacheSource::create(true, 100);
    let mut c = source.get();
    for i in 0..10u8 {
        let key = vec![b'k', b'0' + i];
        c.set_blob(&key, &[0u8; 20], i as i64);
    }
    // at most five 20-byte blobs fit under 100
    let mut present = 0;
    for i in 0..10u8 {
        let key = vec![b'k', b'0' + i];
        if c.get_blob(&key, 100).is_some() {
            present += 1;
            // survivors are the most recently stored
            assert!(i >= 5);
        }
    }
    assert_eq!(present, 5);
}

#[test]
fn cache_disabled_misses() {
    let source = CacheSource::create(false, 100);
    let mut c = source.get();
    c.set_blob(b"k", b"v", 1);
    assert!(c.get_blob(b"k", 2).is_none());
}

#[test]
fn cache_oversized_blob_is_dropped() {
    let source = CacheSource::create(true, 10);
    let mut c = source.get();
    c.set_blob(b"big", &[0u8; 32], 1);
    assert!(c.get_blob(b"big", 2).is_none());
}

#[test]
fn lyrics_parse_entities() {
    let body = b"junk<div class='lyricbox'>&#72;&#105;<br /><i>x</i>&#33;<div class='lyricsbreak'>tail".to_vec();
    let out = parse_lyricwiki_lyrics(&body).unwrap();
    assert_eq!(out, b"Hi\n!".to_vec());
    assert!(parse_lyricwiki_lyrics(b"no markers").is_none());
}

#[test]
fn thumbnail_cache_key_format() {
    assert_eq!(thumb::thumbnail_cache_key(5, 256), b"image:5_256".to_vec());
}

#[test]
fn thumbnail_render_resizes() {
    // an 8x4 image encoded as PNG through the image library itself
    let img = image::DynamicImage::ImageRgb8(image::RgbImage::from_pixel(
        8,
        4,
        image::Rgb([200u8, 10u8, 10u8]),
    ));
    let mut png: Vec<u8> = Vec::new();
    img.write_to(&mut std::io::Cursor::new(&mut png), image::ImageFormat::Png)
        .unwrap();
    let full = thumb::render_thumbnail(&png, 0).unwrap();
    let back = image::load_from_memory(&full).unwrap();
    assert_eq!(image::GenericImageView::dimensions(&back), (8, 4));
    let small = thumb::render_thumbnail(&png, 4).unwrap();
    let back = image::load_from_memory(&small).unwrap();
    let (w, h) = image::GenericImageView::dimensions(&back);
    assert!(w <= 4 && h <= 4);
    assert!(thumb::render_thumbnail(b"not an image", 0).is_none());
}

#[test]
fn server_connection_flow() {
    let mut conn = Connection::accept();
    conn.on_readable(b"GET / HTTP/1.1\r\n\r\n");
    assert!(matches!(conn.state, ConnState::Incoming));
    let verdict: Receive<u8> = Receive::Receive(1);
    conn.apply_parse(&verdict);
    assert!(matches!(conn.state, ConnState::Waiting));
    conn.send(b"HTTP/1.1 200 OK\r\n\r\nhello");
    assert!(matches!(conn.state, ConnState::Drain));
    // a partial write keeps draining, the rest closes the connection
    let emitted = conn.on_writable(10);
    assert!(!emitted);
    assert!(matches!(conn.state, ConnState::Drain));
    let n = conn.buffer.len();
    conn.on_writable(n);
    assert!(matches!(conn.state, ConnState::Closed));
}

#[test]
fn server_streaming_flow() {
    let mut conn = Connection::accept();
    conn.on_readable(b"x\r\n\r\n");
    let verdict: Receive<u8> = Receive::Receive(1);
    conn.apply_parse(&verdict);
    conn.into_stream(b"prelude");
    assert!(matches!(conn.state, ConnState::Streaming));
    let n = conn.buffer.len();
    let emitted = conn.on_writable(n);
    assert!(emitted);
    conn.feed(b"audio");
    conn.drain(b"rest");
    assert!(matches!(conn.state, ConnState::Drain));
}

#[test]
fn http_error_status_text() {
    let e = musicd2::http::HttpError::new(404, b"Not Found".to_vec());
    assert_eq!(e.to_string(), b"404 Not Found".to_vec());
}

#[test]
fn nodes_by_parent_roots_only() {
    let mut ix = Index::new();
    let root = ix.create_node(NodeType::Directory, None, b"music", 0).unwrap();
    let root2 = ix.create_node(NodeType::Directory, None, b"more", 0).unwrap();
    ix.create_node(NodeType::Directory, Some(root.node_id), b"sub", 0).unwrap();
    let roots = ix.nodes_by_parent(None);
    assert_eq!(roots.len(), 2);
    assert!(roots.iter().all(|n| n.parent_id.is_none()));
    assert_eq!(roots[0].node_id, root.node_id);
    assert_eq!(roots[1].node_id, root2.node_id);
}

#[test]
fn query_nodes_roots_only() {
    let mut ix = Index::new();
    let root = ix.create_node(NodeType::Directory, None, b"music", 0).unwrap();
    let sub = ix.create_node(NodeType::Directory, Some(root.node_id), b"a", 0).unwrap();
    let file = ix.create_node(NodeType::File, Some(sub.node_id), b"x.flac", 0).unwrap();
    let artist = ix.create_artist(b"X").unwrap();
    let album = ix.create_album(b"Y").unwrap();
    ix.create_track(&sample_track(file.node_id, artist.artist_id, album.album_id, b"T1"))
        .unwrap();
    let f = musicd2::query::NodeFilter { node_id: None, parent_id: Some(None) };
    let (total, rows) = ix.query_nodes(&f, None, None);
    assert_eq!(total, 1);
    assert!(rows.iter().all(|r| r.node.parent_id.is_none()));
    // with a parent filter, the whole-subtree counts are filled
    assert_eq!(rows[0].node.node_id, root.node_id);
    assert_eq!(rows[0].track_count, 0);
    assert_eq!(rows[0].all_track_count, 1);
    // without one, they stay zero
    let f2 = musicd2::query::NodeFilter { node_id: Some(root.node_id), parent_id: None };
    let (_, rows2) = ix.query_nodes(&f2, None, None);
    assert_eq!(rows2[0].all_track_count, 0);
}

#[test]
fn query_artists_order_and_count() {
    let mut ix = Index::new();
    let root = ix.create_node(NodeType::Directory, None, b"music", 0).unwrap();
    let file = ix.create_node(NodeType::File, Some(root.node_id), b"a.flac", 0).unwrap();
    let b_artist = ix.create_artist(b"Beta").unwrap();
    let a_artist = ix.create_artist(b"Alpha").unwrap();
    let album = ix.create_album(b"Y").unwrap();
    ix.create_track(&sample_track(file.node_id, b_artist.artist_id, album.album_id, b"t"))
        .unwrap();
    let f = musicd2::query::ArtistFilter { artist_id: None, name: None, search: None };
    let (total, rows) = ix.query_artists(&f, None, None);
    assert_eq!(total, 2);
    assert_eq!(rows[0].0.name, b"Alpha".to_vec());
    assert_eq!(rows[0].1, 0);
    assert_eq!(rows[1].0.name, b"Beta".to_vec());
    assert_eq!(rows[1].1, 1);
    let f2 = musicd2::query::ArtistFilter { artist_id: None, name: None, search: Some(b"eta".to_vec()) };
    let (t2, _) = ix.query_artists(&f2, None, None);
    assert_eq!(t2, 1);
}

#[test]
fn query_albums_order_and_count() {
    let mut ix = Index::new();
    let root = ix.create_node(NodeType::Directory, None, b"music", 0).unwrap();
    let file = ix.create_node(NodeType::File, Some(root.node_id), b"a.flac", 0).unwrap();
    let artist = ix.create_artist(b"X").unwrap();
    let named = ix.create_album(b"Named").unwrap();
    let bare = ix.create_album(b"Bare").unwrap();
    let mut t = sample_track(file.node_id, artist.artist_id, named.album_id, b"t");
    t.album_name = b"Named".to_vec();
    t.album_artist_id = Some(artist.artist_id);
    t.album_artist_name = Some(b"X".to_vec());
    ix.create_track(&t).unwrap();
    ix.process_node_updates(root.node_id);
    let f = musicd2::query::AlbumFilter {
        album_id: None,
        name: None,
        artist_id: None,
        artist_name: None,
        search: None,
    };
    let (total, rows) = ix.query_albums(&f, None, None);
    assert_eq!(total, 2);
    // an album without an artist name sorts first
    assert_eq!(rows[0].0.name, b"Bare".to_vec());
    assert_eq!(rows[0].1, 0);
    assert_eq!(rows[1].0.name, b"Named".to_vec());
    assert_eq!(rows[1].0.artist_name, Some(b"X".to_vec()));
    assert_eq!(rows[1].1, 1);
}

#[test]
fn query_images_album_link() {
    let mut ix = Index::new();
    ix.set_album_image_patterns(vec![b"front".to_vec()]);
    let root = ix.create_node(NodeType::Directory, None, b"music", 0).unwrap();
    let file = ix.create_node(NodeType::File, Some(root.node_id), b"a.flac", 0).unwrap();
    let img_node = ix.create_node(NodeType::File, Some(root.node_id), b"front.jpg", 0).unwrap();
    let artist = ix.create_artist(b"X").unwrap();
    let album = ix.create_album(b"Y").unwrap();
    ix.create_track(&sample_track(file.node_id, artist.artist_id, album.album_id, b"t"))
        .unwrap();
    let img = ix
        .create_image(&musicd2::index::Image {
            image_id: 0,
            node_id: img_node.node_id,
            stream_index: None,
            description: b"front".to_vec(),
            width: 4,
            height: 4,
        })
        .unwrap();
    ix.process_node_updates(root.node_id);
    let f = musicd2::query::ImageFilter {
        image_id: None,
        node_id: None,
        description: None,
        album_id: Some(album.album_id),
    };
    let (total, rows) = ix.query_images(&f, None, None);
    assert_eq!(total, 1);
    assert_eq!(rows[0].image_id, img.image_id);
    let f2 = musicd2::query::ImageFilter {
        image_id: None,
        node_id: None,
        description: Some(b"front".to_vec()),
        album_id: None,
    };
    let (t2, _) = ix.query_images(&f2, None, None);
    assert_eq!(t2, 1);
}
