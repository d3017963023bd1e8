//! Sidecar paths, and the reading of a sidecar's state from what is on disk.
//!
//! A sidecar's extension encodes its state: `.lrc` means synced (the instrumental marker
//! included), `.txt` means plain. The path a sidecar is written to always has the audio
//! file's extension replaced, so it is never the audio file itself.
use vstd::prelude::*;

use crate::meta::{is_audio_extension, spec_is_audio_file};
use crate::path::{
    file_name, last_name, name_extension, name_stem, path_extension, path_parts, with_extension,
    with_extension_of,
};
use crate::text::{
    all_digits, chars_of, eq_ignore_case, find_char, find_from, is_digit, lemma_find_from,
    lemma_find_from_push, lemma_find_shift, lemma_lines_push_newline, lemma_trim_start_push_cr,
    line_ranges, lines, ranges_match, skip_ws, trim, trim_range, trim_start,
};

verus! {

/// The instrumental marker, written as an `.lrc` with a real timestamp, so a marked track is
/// skipped on later runs exactly like a synced one.
pub const INSTRUMENTAL_MARKER: &'static str = "[00:00.00]Instrumental\n";

/// On-disk state of a track's sidecar lyrics file.
#[derive(Debug, Clone, Copy, PartialEq, Eq, Structural)]
pub enum SidecarState {
    Synced,
    Plain,
    Absent,
}

/// Finer-grained on-disk state than [`SidecarState`]: splits out the instrumental marker.
#[derive(Debug, Clone, Copy, PartialEq, Eq, Structural)]
pub enum SidecarDetail {
    Synced,
    Instrumental,
    Plain,
    Absent,
}

/// The sidecar path for `audio_path` with the given extension (`lrc` or `txt`).
pub fn sidecar_path(audio_path: &str, extension: &str) -> (r: String)
    ensures
        r@ == with_extension(audio_path@, extension@),
{
    with_extension_of(audio_path, extension)
}

/// Does the line, after leading whitespace, open with a timestamp tag such as `[00:17.12]`?
/// Metadata tags such as `[ar:Artist]` do not count: after the leading digits there must be a
/// colon and then more digits, up to an optional fraction.
pub open spec fn spec_is_timestamp_line(line: Seq<char>) -> bool {
    let t = trim_start(line);
    let close = find_from(t, 1, ']');
    let tag = t.subrange(1, close);
    let colon = find_from(tag, 0, ':');
    let mins = tag.take(colon);
    let secs = tag.skip(colon + 1);
    let whole = secs.take(find_from(secs, 0, '.'));
    &&& t.len() > 0 && t[0] == '['
    &&& close < t.len()
    &&& colon < tag.len()
    &&& mins.len() > 0 && all_digits(mins)
    &&& secs.len() > 0 && all_digits(whole)
}


/// `spec_is_timestamp_line` of `s[lo..hi]`.
fn is_timestamp_range(s: &[char], lo: usize, hi: usize) -> (r: bool)
    requires
        lo <= hi <= s@.len(),
    ensures
        r == spec_is_timestamp_line(s@.subrange(lo as int, hi as int)),
{
    let ghost line = s@.subrange(lo as int, hi as int);
    let a = skip_ws(s, lo, hi);
    let ghost t = trim_start(line);
    assert(t == s@.subrange(a as int, hi as int));
    if a == hi || s[a] != '[' {
        return false;
    }
    let close = find_char(s, a + 1, hi, ']');
    proof {
        assert(s@.subrange(a + 1, hi as int) =~= t.subrange(1, t.len() as int));
        lemma_find_shift(t, 1);
        lemma_find_from(t, 1, ']');
        assert(close - a == find_from(t, 1, ']'));
    }
    if close == hi {
        return false;
    }
    let ghost tag = t.subrange(1, close - a);
    assert(tag =~= s@.subrange(a + 1, close as int));
    let colon = find_char(s, a + 1, close, ':');
    proof {
        lemma_find_from(tag, 0, ':');
        assert(colon - (a + 1) == find_from(tag, 0, ':'));
    }
    if colon == close {
        return false;
    }
    assert(tag.take(colon - (a + 1)) =~= s@.subrange(a + 1, colon as int));
    if colon == a + 1 || !crate::text::all_digits_in(s, a + 1, colon) {
        return false;
    }
    let ghost secs = tag.skip(colon - (a + 1) + 1);
    assert(secs =~= s@.subrange(colon + 1, close as int));
    if colon + 1 == close {
        return false;
    }
    let dot = find_char(s, colon + 1, close, '.');
    proof {
        lemma_find_from(secs, 0, '.');
        assert(secs.take(find_from(secs, 0, '.')) =~= s@.subrange(colon + 1, dot as int));
    }
    crate::text::all_digits_in(s, colon + 1, dot)
}

/// Does `line` look like an LRC timestamp line, such as `[00:17.12]`?
pub fn is_timestamp_line(line: &str) -> (r: bool)
    ensures
        r == spec_is_timestamp_line(line@),
{
    let cs = chars_of(line);
    assert(cs@.subrange(0, cs@.len() as int) =~= line@);
    is_timestamp_range(&cs, 0, cs.len())
}

/// What a `.lrc` sidecar's contents make of it: the instrumental marker, a synced file
/// (some line is a timestamp line), or plain text in an `.lrc`.
pub open spec fn spec_lrc_detail(contents: Seq<char>) -> SidecarDetail {
    if trim(contents) == trim(INSTRUMENTAL_MARKER@) {
        SidecarDetail::Instrumental
    } else if exists|i: int| 0 <= i < lines(contents).len() && spec_is_timestamp_line(
        #[trigger] lines(contents)[i],
    ) {
        SidecarDetail::Synced
    } else {
        SidecarDetail::Plain
    }
}

/// The detail of a track whose `.lrc` exists, given its contents when they could be read: an
/// unreadable `.lrc` counts as plain.
pub fn lrc_detail(contents: Option<&str>) -> (r: SidecarDetail)
    ensures
        r == match contents {
            Some(c) => spec_lrc_detail(c@),
            None => SidecarDetail::Plain,
        },
{
    match contents {
        Some(c) => lrc_contents_detail(c),
        None => SidecarDetail::Plain,
    }
}

fn lrc_contents_detail(c: &str) -> (r: SidecarDetail)
    ensures
        r == spec_lrc_detail(c@),
{
    let cs = chars_of(c);
    let (a, b) = trim_range(&cs, 0, cs.len());
    assert(cs@.subrange(0, cs@.len() as int) =~= c@);
    let m = chars_of(INSTRUMENTAL_MARKER);
    let (ma, mb) = trim_range(&m, 0, m.len());
    assert(m@.subrange(0, m@.len() as int) =~= INSTRUMENTAL_MARKER@);
    let mt = crate::lrc::chars_range(&m, ma, mb);
    if crate::text::range_eq(&cs, a, b, &mt) {
        return SidecarDetail::Instrumental;
    }
    let ranges = line_ranges(&cs);
    let ghost ls = lines(cs@);
    let mut i: usize = 0;
    while i < ranges.len()
        invariant
            i <= ranges@.len(),
            cs@ == c@,
            ls == lines(cs@),
            ranges@.len() == ls.len(),
            ranges_match(cs@, ranges@),
            trim(c@) != trim(INSTRUMENTAL_MARKER@),
            forall|k: int| 0 <= k < i ==> !spec_is_timestamp_line(#[trigger] ls[k]),
        decreases ranges@.len() - i,
    {
        let (lo, hi) = ranges[i];
        proof {
            assert(ranges@[i as int] == (lo, hi));
            assert(cs@.subrange(lo as int, hi as int) == ls[i as int]);
        }
        if is_timestamp_range(&cs, lo, hi) {
            assert(spec_is_timestamp_line(ls[i as int]));
            return SidecarDetail::Synced;
        }
        i = i + 1;
    }
    SidecarDetail::Plain
}

/// The detail of a track from what is on disk: whether its `.lrc` exists (and its contents,
/// when it does and could be read), and whether its `.txt` exists.
pub open spec fn spec_sidecar_detail(lrc_exists: bool, lrc_contents: Option<Seq<char>>, txt_exists: bool) -> SidecarDetail {
    if lrc_exists {
        match lrc_contents {
            Some(c) => spec_lrc_detail(c),
            None => SidecarDetail::Plain,
        }
    } else if txt_exists {
        SidecarDetail::Plain
    } else {
        SidecarDetail::Absent
    }
}

/// Decide a track's sidecar detail from what is on disk: a `.lrc` wins over a `.txt`.
pub fn sidecar_detail(lrc_exists: bool, lrc_contents: Option<&str>, txt_exists: bool) -> (r: SidecarDetail)
    ensures
        r == spec_sidecar_detail(
            lrc_exists,
            match lrc_contents {
                Some(c) => Some(c@),
                None => None,
            },
            txt_exists,
        ),
{
    if lrc_exists {
        lrc_detail(lrc_contents)
    } else if txt_exists {
        SidecarDetail::Plain
    } else {
        SidecarDetail::Absent
    }
}

pub open spec fn spec_state_of(d: SidecarDetail) -> SidecarState {
    match d {
        SidecarDetail::Synced | SidecarDetail::Instrumental => SidecarState::Synced,
        SidecarDetail::Plain => SidecarState::Plain,
        SidecarDetail::Absent => SidecarState::Absent,
    }
}

/// The coarse state of a detail: the instrumental marker counts as synced, so a marked track
/// is never fetched again.
pub fn sidecar_state(detail: SidecarDetail) -> (r: SidecarState)
    ensures
        r == spec_state_of(detail),
{
    match detail {
        SidecarDetail::Synced | SidecarDetail::Instrumental => SidecarState::Synced,
        SidecarDetail::Plain => SidecarState::Plain,
        SidecarDetail::Absent => SidecarState::Absent,
    }
}

pub open spec fn spec_normalize(s: Seq<char>) -> Seq<char> {
    if s.len() > 0 && s.last() == '\n' {
        s
    } else {
        s.push('\n')
    }
}

/// The lyrics as written to a sidecar: with a trailing newline.
pub fn normalize(contents: String) -> (r: String)
    ensures
        r@ == spec_normalize(contents@),
{
    let cs = chars_of(contents.as_str());
    let n = cs.len();
    if n > 0 && cs[n - 1] == '\n' {
        contents
    } else {
        let mut c = contents;
        crate::text::push_char(&mut c, '\n');
        c
    }
}

/// A sidecar file to write: where, and what. The write itself is atomic (a temporary file
/// renamed over the target) and is the caller's to make.
pub struct SidecarWrite {
    pub path: String,
    pub contents: String,
}

/// Write a synced `.lrc` sidecar; unless `keep_plain`, remove the `.txt` one it supersedes,
/// when `txt_exists`. The path to remove, if any, is the second part.
pub fn write_synced(audio_path: &str, lyrics: &str, keep_plain: bool, txt_exists: bool) -> (r: (SidecarWrite, Option<String>))
    ensures
        r.0.path@ == with_extension(audio_path@, "lrc"@),
        r.0.contents@ == spec_normalize(lyrics@),
        match r.1 {
            Some(p) => !keep_plain && txt_exists && p@ == with_extension(audio_path@, "txt"@),
            None => keep_plain || !txt_exists,
        },
{
    let mut text = String::new();
    crate::text::push_str(&mut text, lyrics);
    proof {
        assert(text@ =~= lyrics@);
    }
    let write = SidecarWrite { path: sidecar_path(audio_path, "lrc"), contents: normalize(text) };
    let remove = if !keep_plain && txt_exists {
        Some(sidecar_path(audio_path, "txt"))
    } else {
        None
    };
    (write, remove)
}

/// Write a plain-text `.txt` sidecar (no timestamps).
pub fn write_plain(audio_path: &str, lyrics: &str) -> (r: SidecarWrite)
    ensures
        r.path@ == with_extension(audio_path@, "txt"@),
        r.contents@ == spec_normalize(lyrics@),
{
    let mut text = String::new();
    crate::text::push_str(&mut text, lyrics);
    proof {
        assert(text@ =~= lyrics@);
    }
    SidecarWrite { path: sidecar_path(audio_path, "txt"), contents: normalize(text) }
}

/// The instrumental marker as a `.lrc`, but only when the track has no sidecar yet: it never
/// clobbers a real lyrics file, plain or synced.
pub fn write_instrumental_marker_if_absent(audio_path: &str, state: SidecarState) -> (r: Option<SidecarWrite>)
    ensures
        match r {
            Some(w) => state == SidecarState::Absent && w.path@ == with_extension(audio_path@, "lrc"@)
                && w.contents@ == INSTRUMENTAL_MARKER@,
            None => state != SidecarState::Absent,
        },
{
    if state != SidecarState::Absent {
        return None;
    }
    let mut marker = String::new();
    crate::text::push_str(&mut marker, INSTRUMENTAL_MARKER);
    proof {
        assert(marker@ =~= INSTRUMENTAL_MARKER@);
    }
    Some(SidecarWrite { path: sidecar_path(audio_path, "lrc"), contents: marker })
}


proof fn lemma_first_char_differs(a: Seq<char>, b: Seq<char>)
    requires
        a.len() > 0,
        b.len() > 0,
        crate::text::ascii_lower(a[0]) != crate::text::ascii_lower(b[0]),
    ensures
        !eq_ignore_case(a, b),
{
}

/// The two sidecar extensions, `lrc` and `txt`, are not audio extensions, so a sidecar path
/// never names an audio file.
pub proof fn lemma_sidecar_extensions_are_not_audio()
    ensures
        !is_audio_extension("lrc"@),
        !is_audio_extension("txt"@),
        !"lrc"@.contains('/'),
        !"txt"@.contains('/'),
{
    reveal_strlit("lrc");
    reveal_strlit("txt");
    reveal_strlit("mp3");
    reveal_strlit("flac");
    reveal_strlit("m4a");
    reveal_strlit("m4b");
    reveal_strlit("mp4");
    reveal_strlit("ogg");
    reveal_strlit("opus");
    reveal_strlit("wav");
    reveal_strlit("aiff");
    reveal_strlit("aif");
    reveal_strlit("wma");
    lemma_first_char_differs("mp3"@, "lrc"@);
    lemma_first_char_differs("m4a"@, "lrc"@);
    lemma_first_char_differs("m4b"@, "lrc"@);
    lemma_first_char_differs("mp4"@, "lrc"@);
    lemma_first_char_differs("ogg"@, "lrc"@);
    lemma_first_char_differs("wav"@, "lrc"@);
    lemma_first_char_differs("aif"@, "lrc"@);
    lemma_first_char_differs("wma"@, "lrc"@);
    lemma_first_char_differs("mp3"@, "txt"@);
    lemma_first_char_differs("m4a"@, "txt"@);
    lemma_first_char_differs("m4b"@, "txt"@);
    lemma_first_char_differs("mp4"@, "txt"@);
    lemma_first_char_differs("ogg"@, "txt"@);
    lemma_first_char_differs("wav"@, "txt"@);
    lemma_first_char_differs("aif"@, "txt"@);
    lemma_first_char_differs("wma"@, "txt"@);
}

/// The sidecar path of an audio file is never the audio file itself: replacing an audio
/// extension with any extension that is not one (ignoring case), or with none, always
/// changes the path. An extension holding a separator is left out: `song.mp3/` with
/// `mp3/` gives the path back.
pub proof fn lemma_sidecar_path_is_not_the_audio_path(p: Seq<char>, ext: Seq<char>)
    requires
        spec_is_audio_file(p),
        !is_audio_extension(ext),
        !ext.contains('/'),
    ensures
        with_extension(p, ext) != p,
{
    crate::path::lemma_path_parts_bounds(p);
    crate::path::lemma_path_parts_end_at_separators(p);
    let x = last_name(p)->0;
    let n = p.subrange(x.lo, x.hi);
    let i = crate::path::rfind(n, '.');
    crate::path::lemma_rfind(n, '.');
    let e = n.skip(i + 1);
    let ps = path_parts(p);
    assert(ps.len() > 0);
    assert(ps[ps.len() - 1] == x);
    assert(0 <= x.lo <= x.hi <= p.len());
    assert(x.hi == p.len() || p[x.hi] == '/');
    assert(path_extension(p) == Some(e));
    assert(is_audio_extension(e));
    assert(name_stem(n) == n.take(i));
    let r = with_extension(p, ext);
    if r == p {
        if ext.len() == 0 {
            assert(r =~= p.take(x.lo + i));
            assert(r.len() < p.len());
        } else {
            assert(r == p.take(x.lo + i) + (seq!['.'] + ext));
            assert(p.len() == x.lo + i + 1 + ext.len());
            if x.hi < p.len() {
                let k = x.hi - (x.lo + i + 1);
                assert(r[x.hi] == (seq!['.'] + ext)[1 + k]);
                assert(ext[k] == '/');
                assert(ext.contains('/'));
            }
            assert(e =~= ext) by {
                assert forall|k: int| 0 <= k < e.len() implies e[k] == ext[k] by {
                    assert(r[x.lo + i + 1 + k] == (seq!['.'] + ext)[1 + k]);
                }
            }
        }
        assert(false);
    }
}

/// The sidecar path of an audio file keeps everything but the extension: the same
/// components before the file name, the same text before it, the same stem, and the new
/// extension (one without a separator or a dot).
pub proof fn lemma_sidecar_path_keeps_parent_and_stem(p: Seq<char>, ext: Seq<char>)
    requires
        spec_is_audio_file(p),
        ext.len() > 0,
        !ext.contains('/'),
        !ext.contains('.'),
    ensures
        ({
            let r = with_extension(p, ext);
            let x = last_name(p)->0;
            &&& path_parts(r).drop_last() == path_parts(p).drop_last()
            &&& r.take(x.lo) == p.take(x.lo)
            &&& crate::path::path_stem(r) == crate::path::path_stem(p)
            &&& path_extension(r) == Some(ext)
        }),
{
    crate::path::lemma_last_name_parts(p);
    crate::path::lemma_path_parts_bounds(p);
    let ps = path_parts(p);
    let x = last_name(p)->0;
    let n = p.subrange(x.lo, x.hi);
    let i = crate::path::rfind(n, '.');
    crate::path::lemma_rfind(n, '.');
    assert(ps[ps.len() - 1] == x);
    assert(0 <= x.lo <= x.hi <= p.len());
    assert(0 < i < n.len());
    let e = n.skip(i + 1);
    assert(path_extension(p) == Some(e));
    assert(is_audio_extension(e));
    assert(e.len() > 0) by {
        if e.len() == 0 {
            reveal_strlit("mp3");
            reveal_strlit("flac");
            reveal_strlit("m4a");
            reveal_strlit("m4b");
            reveal_strlit("mp4");
            reveal_strlit("ogg");
            reveal_strlit("opus");
            reveal_strlit("wav");
            reveal_strlit("aiff");
            reveal_strlit("aif");
            reveal_strlit("wma");
        }
    }
    let stem = n.take(i);
    assert(name_stem(n) == stem);
    let r = with_extension(p, ext);
    assert(r == p.take(x.lo + i) + (seq!['.'] + ext));
    let m = x.lo + i + 1;
    assert forall|k: int| 0 <= k < x.lo + 2 implies p[k] == r[k] by {
        if k == x.lo + i {
            assert(p[k] == n[i]);
        }
    }
    assert forall|k: int| x.lo <= k < r.len() implies r[k] != '/' by {
        if k < m - 1 {
            assert(r[k] == p[k]);
        } else if k >= m {
            assert(r[k] == ext[k - m]);
        }
    }
    crate::path::lemma_replace_last_name(p, r, x.lo);
    let y = crate::path::PathPart { kind: crate::path::PartKind::Normal, lo: x.lo, hi: r.len() as int };
    let b = crate::path::parts_between(p, crate::path::parts_start(p), x.lo);
    assert(path_parts(r).drop_last() =~= crate::path::parts_head(p) + b);
    assert(ps.drop_last() =~= crate::path::parts_head(p) + b);
    assert(r.take(x.lo) =~= p.take(x.lo));
    assert(last_name(r) == Some(y));
    let piece = r.subrange(x.lo, r.len() as int);
    assert(piece =~= stem + (seq!['.'] + ext));
    crate::path::lemma_rfind(piece, '.');
    assert(crate::path::rfind(piece, '.') == i) by {
        let j = crate::path::rfind(piece, '.');
        assert(piece[i] == '.');
        if j > i {
            assert(ext[j - i - 1] == '.');
        }
    }
    assert(piece.take(i) =~= stem);
    assert(piece.skip(i + 1) =~= ext);
}

/// A timestamp line followed by a carriage return is a timestamp line without it too.
proof fn lemma_timestamp_line_without_cr(x: Seq<char>)
    requires
        spec_is_timestamp_line(x.push('\r')),
    ensures
        spec_is_timestamp_line(x),
{
    lemma_trim_start_push_cr(x);
    let t = trim_start(x);
    let t2 = trim_start(x.push('\r'));
    assert(t.len() > 0);
    assert(t2 == t.push('\r'));
    lemma_find_from_push(t, '\r', 1, ']');
    lemma_find_from(t, 1, ']');
    let close = find_from(t, 1, ']');
    assert(close < t.len());
    assert(find_from(t2, 1, ']') == close);
    assert(t2.subrange(1, close) =~= t.subrange(1, close));
    assert(t2[0] == t[0]);
}

/// Synced lyrics, once written, read back as synced: the `.lrc` holding them, with the
/// trailing newline the write adds, has a timestamp line wherever the lyrics had one, so the
/// track's sidecar state is synced whatever else lies beside it.
pub proof fn lemma_written_synced_lyrics_read_back_as_synced(lyrics: Seq<char>, k: int, txt_exists: bool)
    requires
        0 <= k < lines(lyrics).len(),
        spec_is_timestamp_line(lines(lyrics)[k]),
    ensures
        spec_state_of(spec_sidecar_detail(true, Some(spec_normalize(lyrics)), txt_exists)) == SidecarState::Synced,
{
    let c = spec_normalize(lyrics);
    if trim(c) != trim(INSTRUMENTAL_MARKER@) {
        assert(lyrics.len() > 0);
        if lyrics.last() == '\n' {
            assert(c == lyrics);
            assert(spec_is_timestamp_line(lines(c)[k]));
        } else {
            assert(c == lyrics.push('\n'));
            lemma_lines_push_newline(lyrics, 0);
            let a = lines(lyrics)[k];
            let b = lines(c)[k];
            if a != b {
                lemma_timestamp_line_without_cr(b);
            }
            assert(spec_is_timestamp_line(lines(c)[k]));
        }
    }
}

} // verus!
