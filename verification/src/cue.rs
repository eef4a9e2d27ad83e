//! Cue sheet parser. Lines are split into space-separated tokens; a
//! double-quoted run is one token and keeps its bytes; outside quotes only
//! `A-Z a-z 0-9 :` survive. Recognised commands fill a disc-level title and
//! performer, a list of `FILE` sections and their `TRACK`s; `INDEX 01
//! MM:SS:FF` sets a track's start, kept in cue frames of 1/75 second.

use vstd::prelude::*;

use crate::text;

verus! {

/// Bytes kept outside quoted runs: letters, digits and `:`.
pub open spec fn is_word_byte(b: u8) -> bool {
    (65 <= b && b <= 90) || (97 <= b && b <= 122) || (48 <= b && b <= 57) || b == 58
}

/// Tokenizer state: finished commands, tokens of the current command, the
/// token being built, and whether it started with a double quote.
pub struct TokSt {
    pub commands: Seq<Seq<Seq<u8>>>,
    pub command: Seq<Seq<u8>>,
    pub cur: Seq<u8>,
    pub quoted: bool,
}

pub open spec fn tok_init() -> TokSt {
    TokSt { commands: Seq::empty(), command: Seq::empty(), cur: Seq::empty(), quoted: false }
}

/// One byte of tokenizing: a newline closes the token and the command, an
/// unquoted space or the closing quote of a quoted run closes the token, a
/// quote opens a quoted run, and word bytes (or any byte inside quotes)
/// extend the token.
pub open spec fn tok_step(st: TokSt, b: u8) -> TokSt {
    if b == 10 || (!st.quoted && b == 32) || (st.quoted && b == 34) {
        let st1 = if st.cur.len() > 0 || st.quoted {
            TokSt { command: st.command.push(st.cur), cur: Seq::empty(), quoted: false, ..st }
        } else {
            st
        };
        if b == 10 {
            TokSt { commands: st1.commands.push(st1.command), command: Seq::empty(), ..st1 }
        } else {
            st1
        }
    } else if b == 34 {
        TokSt { quoted: true, ..st }
    } else if st.quoted || is_word_byte(b) {
        TokSt { cur: st.cur.push(b), ..st }
    } else {
        st
    }
}

pub open spec fn tok_run(s: Seq<u8>, n: int) -> TokSt
    decreases n,
{
    if n <= 0 {
        tok_init()
    } else {
        tok_step(tok_run(s, n - 1), s[n - 1])
    }
}

pub open spec fn tok_finish(st: TokSt) -> Seq<Seq<Seq<u8>>> {
    let cmd = if st.cur.len() > 0 {
        st.command.push(st.cur)
    } else {
        st.command
    };
    st.commands.push(cmd)
}

/// The token lines of a cue sheet, as the tokenizer produces them.
pub open spec fn commands_spec(s: Seq<u8>) -> Seq<Seq<Seq<u8>>> {
    tok_finish(tok_run(s, s.len() as int))
}

pub fn generate_commands(text: &[u8]) -> (r: Vec<Vec<Vec<u8>>>)
    ensures
        r.deep_view() == commands_spec(text@),
{
    let mut commands: Vec<Vec<Vec<u8>>> = Vec::new();
    let mut command: Vec<Vec<u8>> = Vec::new();
    let mut string: Vec<u8> = Vec::new();
    let mut quoted: bool = false;
    let mut i: usize = 0;
    while i < text.len()
        invariant
            i <= text.len(),
            commands.deep_view() == tok_run(text@, i as int).commands,
            command.deep_view() == tok_run(text@, i as int).command,
            string@ == tok_run(text@, i as int).cur,
            quoted == tok_run(text@, i as int).quoted,
        decreases text.len() - i,
    {
        let ghost st = tok_run(text@, i as int);
        let b = text[i];
        proof {
            assert(tok_run(text@, i + 1) == tok_step(st, b));
        }
        if b == 10 || (!quoted && b == 32) || (quoted && b == 34) {
            if string.len() > 0 || quoted {
                let ghost cdv = command.deep_view();
                command.push(string);
                proof {
                    assert(command.deep_view() =~~= cdv.push(st.cur));
                }
                string = Vec::new();
                quoted = false;
            }
            if b == 10 {
                let ghost csdv = commands.deep_view();
                let ghost cdv = command.deep_view();
                commands.push(command);
                proof {
                    assert(commands.deep_view() =~~= csdv.push(cdv));
                }
                command = Vec::new();
                proof {
                    assert(command.deep_view() =~~= Seq::<Seq<u8>>::empty());
                }
            }
        } else if b == 34 {
            quoted = true;
        } else if quoted || (65 <= b && b <= 90) || (97 <= b && b <= 122) || (48 <= b && b <= 57)
            || b == 58 {
            string.push(b);
        } else {
            proof {
                assert(!is_word_byte(b));
            }
        }
        i += 1;
    }
    if string.len() > 0 {
        let ghost cdv = command.deep_view();
        command.push(string);
        proof {
            assert(command.deep_view() =~~= cdv.push(tok_run(text@, text@.len() as int).cur));
        }
    }
    let ghost csdv = commands.deep_view();
    let ghost cdv = command.deep_view();
    commands.push(command);
    proof {
        assert(commands.deep_view() =~~= csdv.push(cdv));
    }
    commands
}

/// One cue frame is 1/75 of a second; a track start in frames.
#[derive(Debug)]
pub struct Track {
    pub number: u32,
    pub title: Vec<u8>,
    pub performer: Vec<u8>,
    pub start: u64,
}

#[derive(Debug)]
pub struct File {
    pub path: Vec<u8>,
    pub tracks: Vec<Track>,
}

#[derive(Debug)]
pub struct Cue {
    pub title: Vec<u8>,
    pub performer: Vec<u8>,
    pub files: Vec<File>,
}

#[verifier::ext_equal]
pub struct TrackV {
    pub number: u32,
    pub title: Seq<u8>,
    pub performer: Seq<u8>,
    pub start: u64,
}

#[verifier::ext_equal]
pub struct FileV {
    pub path: Seq<u8>,
    pub tracks: Seq<TrackV>,
}

#[verifier::ext_equal]
pub struct CueV {
    pub title: Seq<u8>,
    pub performer: Seq<u8>,
    pub files: Seq<FileV>,
}

impl View for Track {
    type V = TrackV;

    open spec fn view(&self) -> TrackV {
        TrackV {
            number: self.number,
            title: self.title@,
            performer: self.performer@,
            start: self.start,
        }
    }
}

impl DeepView for Track {
    type V = TrackV;

    open spec fn deep_view(&self) -> TrackV {
        self.view()
    }
}

impl View for File {
    type V = FileV;

    open spec fn view(&self) -> FileV {
        FileV { path: self.path@, tracks: self.tracks.deep_view() }
    }
}

impl DeepView for File {
    type V = FileV;

    open spec fn deep_view(&self) -> FileV {
        self.view()
    }
}

impl View for Cue {
    type V = CueV;

    open spec fn view(&self) -> CueV {
        CueV { title: self.title@, performer: self.performer@, files: self.files.deep_view() }
    }
}

impl DeepView for Cue {
    type V = CueV;

    open spec fn deep_view(&self) -> CueV {
        self.view()
    }
}

/// `TITLE` as token bytes.
pub open spec fn kw_title() -> Seq<u8> {
    seq![84u8, 73u8, 84u8, 76u8, 69u8]
}

/// `PERFORMER` as token bytes.
pub open spec fn kw_performer() -> Seq<u8> {
    seq![80u8, 69u8, 82u8, 70u8, 79u8, 82u8, 77u8, 69u8, 82u8]
}

/// `FILE` as token bytes.
pub open spec fn kw_file() -> Seq<u8> {
    seq![70u8, 73u8, 76u8, 69u8]
}

/// `TRACK` as token bytes.
pub open spec fn kw_track() -> Seq<u8> {
    seq![84u8, 82u8, 65u8, 67u8, 75u8]
}

/// `INDEX` as token bytes.
pub open spec fn kw_index() -> Seq<u8> {
    seq![73u8, 78u8, 68u8, 69u8, 88u8]
}

/// `01`, the index number that sets a track start.
pub open spec fn kw_zero_one() -> Seq<u8> {
    seq![48u8, 49u8]
}

fn is_kw_title(s: &[u8]) -> (r: bool)
    ensures
        r == (s@ == kw_title()),
{
    let r = s.len() == 5 && s[0] == 84 && s[1] == 73 && s[2] == 84 && s[3] == 76 && s[4] == 69;
    proof {
        if r {
            assert(s@ =~= kw_title());
        }
    }
    r
}

fn is_kw_performer(s: &[u8]) -> (r: bool)
    ensures
        r == (s@ == kw_performer()),
{
    let r = s.len() == 9 && s[0] == 80 && s[1] == 69 && s[2] == 82 && s[3] == 70 && s[4] == 79
        && s[5] == 82 && s[6] == 77 && s[7] == 69 && s[8] == 82;
    proof {
        if r {
            assert(s@ =~= kw_performer());
        }
    }
    r
}

fn is_kw_file(s: &[u8]) -> (r: bool)
    ensures
        r == (s@ == kw_file()),
{
    let r = s.len() == 4 && s[0] == 70 && s[1] == 73 && s[2] == 76 && s[3] == 69;
    proof {
        if r {
            assert(s@ =~= kw_file());
        }
    }
    r
}

fn is_kw_track(s: &[u8]) -> (r: bool)
    ensures
        r == (s@ == kw_track()),
{
    let r = s.len() == 5 && s[0] == 84 && s[1] == 82 && s[2] == 65 && s[3] == 67 && s[4] == 75;
    proof {
        if r {
            assert(s@ =~= kw_track());
        }
    }
    r
}

fn is_kw_index(s: &[u8]) -> (r: bool)
    ensures
        r == (s@ == kw_index()),
{
    let r = s.len() == 5 && s[0] == 73 && s[1] == 78 && s[2] == 68 && s[3] == 69 && s[4] == 88;
    proof {
        if r {
            assert(s@ =~= kw_index());
        }
    }
    r
}

fn is_kw_zero_one(s: &[u8]) -> (r: bool)
    ensures
        r == (s@ == kw_zero_one()),
{
    let r = s.len() == 2 && s[0] == 48 && s[1] == 49;
    proof {
        if r {
            assert(s@ =~= kw_zero_one());
        }
    }
    r
}

/// Parser state while folding over the command lines.
#[verifier::ext_equal]
pub struct CueSt {
    pub title: Seq<u8>,
    pub performer: Seq<u8>,
    pub files: Seq<FileV>,
    pub file: Option<FileV>,
    pub track: Option<TrackV>,
}

pub open spec fn cue_init() -> CueSt {
    CueSt {
        title: Seq::empty(),
        performer: Seq::empty(),
        files: Seq::empty(),
        file: None,
        track: None,
    }
}

/// The numeric value of a token, or zero where it is not a decimal `u32`,
/// as `parse().unwrap_or(0)` yields it.
pub open spec fn num_or_zero(s: Seq<u8>) -> int {
    if text::is_u32_bytes(s) {
        text::u32_bytes_val(s)
    } else {
        0
    }
}

/// `MM:SS:FF` as a frame count (`MM*60*75 + SS*75 + FF`); `None` unless the
/// token has exactly three `:`-separated fields.
pub open spec fn index_frames(pos: Seq<u8>) -> Option<u64> {
    let parts = text::split_spec(pos, 58);
    if parts.len() == 3 {
        Some(
            (num_or_zero(parts[0]) * 4500 + num_or_zero(parts[1]) * 75 + num_or_zero(
                parts[2],
            )) as u64,
        )
    } else {
        None
    }
}

/// One command line of a cue sheet applied to the parser state. Lines with
/// fewer than two tokens are skipped; disc-level `TITLE`/`PERFORMER` apply
/// before the first `FILE`, track-level ones inside a `TRACK`.
pub open spec fn cue_step(st: CueSt, cmd: Seq<Seq<u8>>) -> CueSt {
    if cmd.len() <= 1 {
        st
    } else {
        let instr = cmd[0];
        let arg = cmd[1];
        if instr == kw_title() && st.file is None {
            CueSt { title: arg, ..st }
        } else if instr == kw_performer() && st.file is None {
            CueSt { performer: arg, ..st }
        } else if instr == kw_title() && st.track is Some {
            CueSt { track: Some(TrackV { title: arg, ..st.track->0 }), ..st }
        } else if instr == kw_performer() && st.track is Some {
            CueSt { track: Some(TrackV { performer: arg, ..st.track->0 }), ..st }
        } else if instr == kw_file() {
            let files1 = if st.file is Some {
                st.files.push(st.file->0)
            } else {
                st.files
            };
            CueSt {
                files: files1,
                file: Some(FileV { path: arg, tracks: Seq::empty() }),
                track: None,
                ..st
            }
        } else if instr == kw_track() && st.file is Some {
            let file1 = if st.track is Some {
                FileV { tracks: st.file->0.tracks.push(st.track->0), ..st.file->0 }
            } else {
                st.file->0
            };
            CueSt {
                file: Some(file1),
                track: Some(
                    TrackV {
                        number: num_or_zero(arg) as u32,
                        title: st.title,
                        performer: st.performer,
                        start: 0,
                    },
                ),
                ..st
            }
        } else if instr == kw_index() && st.track is Some && arg == kw_zero_one() {
            if cmd.len() >= 3 && index_frames(cmd[2]) is Some {
                CueSt { track: Some(TrackV { start: index_frames(cmd[2])->0, ..st.track->0 }), ..st }
            } else {
                st
            }
        } else {
            st
        }
    }
}

pub open spec fn cue_run(cmds: Seq<Seq<Seq<u8>>>, n: int) -> CueSt
    decreases n,
{
    if n <= 0 {
        cue_init()
    } else {
        cue_step(cue_run(cmds, n - 1), cmds[n - 1])
    }
}

/// A pending track joins its file, a pending file joins the file list.
pub open spec fn cue_finish(st: CueSt) -> CueV {
    let file1 = if st.track is Some && st.file is Some {
        Some(FileV { tracks: st.file->0.tracks.push(st.track->0), ..st.file->0 })
    } else {
        st.file
    };
    let files = if file1 is Some {
        st.files.push(file1->0)
    } else {
        st.files
    };
    CueV { title: st.title, performer: st.performer, files }
}

/// The cue sheet a byte text parses to.
pub open spec fn cue_spec(s: Seq<u8>) -> CueV {
    let cmds = commands_spec(s);
    cue_finish(cue_run(cmds, cmds.len() as int))
}

pub fn parse_cue(text: &[u8]) -> (r: Cue)
    ensures
        r@ == cue_spec(text@),
{
    let cmds = generate_commands(text);
    let ghost cs = commands_spec(text@);
    let mut title: Vec<u8> = Vec::new();
    let mut performer: Vec<u8> = Vec::new();
    let mut files: Vec<File> = Vec::new();
    let mut file: Option<File> = None;
    let mut track: Option<Track> = None;
    let mut ci: usize = 0;
    while ci < cmds.len()
        invariant
            ci <= cmds.len(),
            cmds.deep_view() == cs,
            title@ == cue_run(cs, ci as int).title,
            performer@ == cue_run(cs, ci as int).performer,
            files.deep_view() == cue_run(cs, ci as int).files,
            file.deep_view() == cue_run(cs, ci as int).file,
            track.deep_view() == cue_run(cs, ci as int).track,
        decreases cmds.len() - ci,
    {
        let ghost st = cue_run(cs, ci as int);
        let ghost cmdv = cs[ci as int];
        proof {
            assert(cue_run(cs, ci + 1) == cue_step(st, cmdv));
            assert(cmds@[ci as int].deep_view() == cmdv);
        }
        let cmd = &cmds[ci];
        if cmd.len() >= 2 {
            proof {
                assert(cmd@[0].deep_view() =~= cmd@[0]@);
                assert(cmd@[1].deep_view() =~= cmd@[1]@);
                assert(cmd@[0]@ == cmdv[0]);
                assert(cmd@[1]@ == cmdv[1]);
            }
            let instr = &cmd[0];
            let arg = text::clone_bytes(&cmd[1]);
            if is_kw_title(instr) && file.is_none() {
                title = arg;
            } else if is_kw_performer(instr) && file.is_none() {
                performer = arg;
            } else if is_kw_title(instr) && track.is_some() {
                let mut t = track.unwrap();
                t.title = arg;
                track = Some(t);
            } else if is_kw_performer(instr) && track.is_some() {
                let mut t = track.unwrap();
                t.performer = arg;
                track = Some(t);
            } else if is_kw_file(instr) {
                if file.is_some() {
                    let ghost fdv = files.deep_view();
                    let f = file.unwrap();
                    files.push(f);
                    proof {
                        assert(files.deep_view() =~~= fdv.push(st.file->0));
                    }
                }
                file = Some(File { path: arg, tracks: Vec::new() });
                track = None;
                proof {
                    assert(file.deep_view() =~~= cue_step(st, cmdv).file);
                }
            } else if is_kw_track(instr) && file.is_some() {
                let mut f = file.unwrap();
                if track.is_some() {
                    let ghost tdv = f.tracks.deep_view();
                    let t = track.unwrap();
                    f.tracks.push(t);
                    proof {
                        assert(f.tracks.deep_view() =~~= tdv.push(st.track->0));
                    }
                }
                let number = match text::parse_u32(&arg) {
                    Some(n) => n,
                    None => 0,
                };
                track = Some(
                    Track {
                        number,
                        title: text::clone_bytes(&title),
                        performer: text::clone_bytes(&performer),
                        start: 0,
                    },
                );
                file = Some(f);
                proof {
                    assert(file.deep_view() =~~= cue_step(st, cmdv).file);
                    assert(track.deep_view() =~~= cue_step(st, cmdv).track);
                }
            } else if is_kw_index(instr) && track.is_some() && is_kw_zero_one(&arg) {
                if cmd.len() >= 3 {
                    proof {
                        assert(cmd@[2].deep_view() =~= cmd@[2]@);
                        assert(cmd@[2]@ == cmdv[2]);
                    }
                    let parts = text::split_bytes(&cmd[2], 58);
                    if parts.len() == 3 {
                        proof {
                            assert(parts@[0].deep_view() =~= parts@[0]@);
                            assert(parts@[1].deep_view() =~= parts@[1]@);
                            assert(parts@[2].deep_view() =~= parts@[2]@);
                            assert(parts@[0]@ == text::split_spec(cmdv[2], 58)[0]);
                            assert(parts@[1]@ == text::split_spec(cmdv[2], 58)[1]);
                            assert(parts@[2]@ == text::split_spec(cmdv[2], 58)[2]);
                            text::lemma_u32_val_bounds(parts@[0]@);
                            text::lemma_u32_val_bounds(parts@[1]@);
                            text::lemma_u32_val_bounds(parts@[2]@);
                        }
                        let mins = match text::parse_u32(&parts[0]) {
                            Some(n) => n,
                            None => 0,
                        };
                        let secs = match text::parse_u32(&parts[1]) {
                            Some(n) => n,
                            None => 0,
                        };
                        let frames = match text::parse_u32(&parts[2]) {
                            Some(n) => n,
                            None => 0,
                        };
                        let start: u64 = (mins as u64) * 4500 + (secs as u64) * 75 + (
                        frames as u64);
                        let mut t = track.unwrap();
                        t.start = start;
                        track = Some(t);
                        proof {
                            assert(track.deep_view() =~~= cue_step(st, cmdv).track);
                        }
                    }
                }
            }
        }
        ci += 1;
    }
    let ghost endst = cue_run(cs, cs.len() as int);
    if track.is_some() && file.is_some() {
        let mut f = file.unwrap();
        let ghost tdv = f.tracks.deep_view();
        let t = track.unwrap();
        f.tracks.push(t);
        proof {
            assert(f.tracks.deep_view() =~~= tdv.push(endst.track->0));
        }
        file = Some(f);
    }
    if file.is_some() {
        let ghost fdv = files.deep_view();
        let f = file.unwrap();
        files.push(f);
        proof {
            assert(files.deep_view() =~~= cue_finish(endst).files);
        }
    }
    let r = Cue { title, performer, files };
    proof {
        assert(r@ =~~= cue_spec(text@));
    }
    r
}

} // verus!
