//! Track metadata: the tags read from an audio file, and the optional guess from its path.
use vstd::prelude::*;
use vstd::string::StrSliceExecFns;

use crate::path::{
    ancestor_name, ancestor_name_of, extension_range, name_stem, opt_string_view, path_extension,
    path_parts,
};
use crate::text::{
    all_digits, chars_of, digits_in, digits_value, eq_ignore_case, is_digit, is_ascii_digit,
    range_eq_ignore_case, skip_ws, string_of_range, trim, trim_end, trim_range, trim_start,
};

verus! {

/// The extensions of the audio files this tool recognises.
pub open spec fn is_audio_extension(e: Seq<char>) -> bool {
    eq_ignore_case("mp3"@, e) || eq_ignore_case("flac"@, e) || eq_ignore_case("m4a"@, e)
        || eq_ignore_case("m4b"@, e) || eq_ignore_case("mp4"@, e) || eq_ignore_case("ogg"@, e)
        || eq_ignore_case("opus"@, e) || eq_ignore_case("wav"@, e) || eq_ignore_case("aiff"@, e)
        || eq_ignore_case("aif"@, e) || eq_ignore_case("wma"@, e)
}

pub open spec fn spec_is_audio_file(p: Seq<char>) -> bool {
    path_extension(p) matches Some(e) && is_audio_extension(e)
}

/// `Path::extension` compared, ignoring ASCII case, against a list of extensions.
pub fn has_extension(path: &str, extensions: &[&str]) -> (r: bool)
    ensures
        r == (path_extension(path@) matches Some(e) && exists|i: int|
            0 <= i < extensions@.len() && eq_ignore_case(#[trigger] extensions@[i]@, e)),
{
    let p = chars_of(path);
    match extension_range(&p) {
        Some((a, b)) => {
            let ghost e = p@.subrange(a as int, b as int);
            let mut i: usize = 0;
            while i < extensions.len()
                invariant
                    i <= extensions@.len(),
                    a <= b <= p@.len(),
                    e == p@.subrange(a as int, b as int),
                    p@ == path@,
                    path_extension(p@) == Some(e),
                    forall|k: int| 0 <= k < i ==> !eq_ignore_case(#[trigger] extensions@[k]@, e),
                decreases extensions@.len() - i,
            {
                let xi = extensions[i];
                assert(xi == extensions@[i as int]);
                let x = chars_of(xi);
                if range_eq_ignore_case(&p, a, b, &x) {
                    proof {
                        assert(x@ == extensions@[i as int]@);
                        assert(path_extension(path@) == Some(e));
                        lemma_eq_ignore_case_sym(e, extensions@[i as int]@);
                        assert(eq_ignore_case(extensions@[i as int]@, e));
                    }
                    return true;
                }
                proof {
                    lemma_eq_ignore_case_sym(e, extensions@[i as int]@);
                }
                i = i + 1;
            }
            false
        },
        None => false,
    }
}

proof fn lemma_eq_ignore_case_sym(a: Seq<char>, b: Seq<char>)
    ensures
        eq_ignore_case(a, b) == eq_ignore_case(b, a),
{
}

/// Does `path` name an audio file, by its extension?
pub fn is_audio_file(path: &str) -> (r: bool)
    ensures
        r == spec_is_audio_file(path@),
{
    let exts: [&str; 11] = ["mp3", "flac", "m4a", "m4b", "mp4", "ogg", "opus", "wav", "aiff", "aif", "wma"];
    let r = has_extension(path, &exts);
    proof {
        assert(exts@ =~= seq!["mp3", "flac", "m4a", "m4b", "mp4", "ogg", "opus", "wav", "aiff", "aif", "wma"]);
        match path_extension(path@) {
            Some(e) => { if is_audio_extension(e) {
                if eq_ignore_case("mp3"@, e) { assert(eq_ignore_case(exts@[0]@, e)); }
                else if eq_ignore_case("flac"@, e) { assert(eq_ignore_case(exts@[1]@, e)); }
                else if eq_ignore_case("m4a"@, e) { assert(eq_ignore_case(exts@[2]@, e)); }
                else if eq_ignore_case("m4b"@, e) { assert(eq_ignore_case(exts@[3]@, e)); }
                else if eq_ignore_case("mp4"@, e) { assert(eq_ignore_case(exts@[4]@, e)); }
                else if eq_ignore_case("ogg"@, e) { assert(eq_ignore_case(exts@[5]@, e)); }
                else if eq_ignore_case("opus"@, e) { assert(eq_ignore_case(exts@[6]@, e)); }
                else if eq_ignore_case("wav"@, e) { assert(eq_ignore_case(exts@[7]@, e)); }
                else if eq_ignore_case("aiff"@, e) { assert(eq_ignore_case(exts@[8]@, e)); }
                else if eq_ignore_case("aif"@, e) { assert(eq_ignore_case(exts@[9]@, e)); }
                else { assert(eq_ignore_case(exts@[10]@, e)); }
            } },
            None => {},
        }
    }
    r
}


// ---------------------------------------------------------------------------------------
// The metadata model
// ---------------------------------------------------------------------------------------

/// Everything the tools need to know about one track.
#[derive(Debug, Clone)]
pub struct TrackMeta {
    pub path: String,
    pub title: String,
    pub artist: String,
    pub album: Option<String>,
    pub duration: Option<u32>,
    pub album_artist: Option<String>,
    pub track_number: Option<u32>,
    pub disc_number: Option<u32>,
    pub year: Option<u32>,
    pub guessed: Vec<GuessedField>,
}

pub struct TrackMetaView {
    pub path: Seq<char>,
    pub title: Seq<char>,
    pub artist: Seq<char>,
    pub album: Option<Seq<char>>,
    pub duration: Option<u32>,
    pub album_artist: Option<Seq<char>>,
    pub track_number: Option<u32>,
    pub disc_number: Option<u32>,
    pub year: Option<u32>,
    pub guessed: Seq<GuessedField>,
}

impl View for TrackMeta {
    type V = TrackMetaView;

    open spec fn view(&self) -> TrackMetaView {
        TrackMetaView {
            path: self.path@,
            title: self.title@,
            artist: self.artist@,
            album: opt_string_view(self.album),
            duration: self.duration,
            album_artist: opt_string_view(self.album_artist),
            track_number: self.track_number,
            disc_number: self.disc_number,
            year: self.year,
            guessed: self.guessed@,
        }
    }
}

/// A field that came from the path rather than from the tags.
#[derive(Debug, Clone, Copy, PartialEq, Eq, Structural)]
pub enum GuessedField {
    Title,
    Artist,
    Album,
}

impl GuessedField {
    pub open spec fn spec_label(self) -> Seq<char> {
        match self {
            GuessedField::Title => "title"@,
            GuessedField::Artist => "artist"@,
            GuessedField::Album => "album"@,
        }
    }

    pub fn label(self) -> (r: &'static str)
        ensures
            r@ == self.spec_label(),
    {
        match self {
            GuessedField::Title => "title",
            GuessedField::Artist => "artist",
            GuessedField::Album => "album",
        }
    }
}

/// The tag values of an audio file as its tag reader hands them over, before any cleanup.
#[derive(Debug, Clone, Default)]
pub struct TagValues {
    pub title: Option<String>,
    pub artist: Option<String>,
    pub album: Option<String>,
    pub album_artist: Option<String>,
    pub track: Option<u32>,
    pub disc: Option<u32>,
    pub recording_date: Option<String>,
    pub year: Option<String>,
    pub duration_secs: Option<u64>,
}

/// The tags of an audio file, cleaned up: text trimmed, empty text dropped, the year parsed.
/// Made only by [`RawTags::from_values`] and [`RawTags::empty`], so every one is clean.
pub struct RawTags {
    title: Option<String>,
    artist: Option<String>,
    album: Option<String>,
    duration: Option<u32>,
    album_artist: Option<String>,
    track_number: Option<u32>,
    disc_number: Option<u32>,
    year: Option<u32>,
}

/// Text as tags hold it once cleaned up: trimmed, and not empty.
pub open spec fn clean_text(o: Option<Seq<char>>) -> bool {
    o matches Some(x) ==> x.len() > 0 && trim(x) == x
}

/// Tags whose every text field is clean.
pub open spec fn tags_clean(v: RawTagsView) -> bool {
    &&& clean_text(v.title)
    &&& clean_text(v.artist)
    &&& clean_text(v.album)
    &&& clean_text(v.album_artist)
}

pub struct RawTagsView {
    pub title: Option<Seq<char>>,
    pub artist: Option<Seq<char>>,
    pub album: Option<Seq<char>>,
    pub duration: Option<u32>,
    pub album_artist: Option<Seq<char>>,
    pub track_number: Option<u32>,
    pub disc_number: Option<u32>,
    pub year: Option<u32>,
}

impl View for RawTags {
    type V = RawTagsView;

    closed spec fn view(&self) -> RawTagsView {
        RawTagsView {
            title: opt_string_view(self.title),
            artist: opt_string_view(self.artist),
            album: opt_string_view(self.album),
            duration: self.duration,
            album_artist: opt_string_view(self.album_artist),
            track_number: self.track_number,
            disc_number: self.disc_number,
            year: self.year,
        }
    }
}

/// Trimmed text, or nothing when only whitespace is left.
pub open spec fn spec_non_empty(s: Option<Seq<char>>) -> Option<Seq<char>> {
    match s {
        Some(x) => if trim(x).len() > 0 {
            Some(trim(x))
        } else {
            None
        },
        None => None,
    }
}

fn non_empty(s: Option<String>) -> (r: Option<String>)
    ensures
        opt_string_view(r) == spec_non_empty(opt_string_view(s)),
{
    match s {
        Some(x) => {
            let cs = chars_of(x.as_str());
            let (a, b) = trim_range(&cs, 0, cs.len());
            assert(cs@.subrange(0, cs@.len() as int) =~= x@);
            if a == b {
                None
            } else {
                Some(string_of_range(&cs, a, b))
            }
        },
        None => None,
    }
}

/// Index of the first character at or after `i` that is not an ASCII digit.
pub open spec fn skip_digits(s: Seq<char>, i: int) -> int
    decreases s.len() - i,
{
    if 0 <= i < s.len() && is_digit(s[i]) {
        skip_digits(s, i + 1)
    } else {
        i
    }
}

/// A year tag: the four leading digits of the trimmed value, as in `1991` or `1991-08-12`.
pub open spec fn spec_parse_year(raw: Seq<char>) -> Option<u32> {
    let t = trim(raw);
    let d = t.take(skip_digits(t, 0));
    if d.len() != 4 {
        None
    } else {
        Some(digits_value(d) as u32)
    }
}

proof fn lemma_skip_digits(s: Seq<char>, i: int)
    requires
        0 <= i <= s.len(),
    ensures
        i <= skip_digits(s, i) <= s.len(),
        forall|k: int| i <= k < skip_digits(s, i) ==> is_digit(#[trigger] s[k]),
        skip_digits(s, i) < s.len() ==> !is_digit(s[skip_digits(s, i)]),
    decreases s.len() - i,
{
    if i < s.len() && is_digit(s[i]) {
        lemma_skip_digits(s, i + 1);
    }
}

/// First index in `lo..hi` that is not an ASCII digit.
fn skip_digits_in(s: &[char], lo: usize, hi: usize) -> (r: usize)
    requires
        lo <= hi <= s@.len(),
    ensures
        r as int == lo + skip_digits(s@.subrange(lo as int, hi as int), 0),
        lo <= r <= hi,
{
    let ghost t = s@.subrange(lo as int, hi as int);
    let mut i = lo;
    while i < hi && is_ascii_digit(s[i])
        invariant
            lo <= i <= hi <= s@.len(),
            t == s@.subrange(lo as int, hi as int),
            skip_digits(t, 0) == skip_digits(t, i - lo),
        decreases hi - i,
    {
        i = i + 1;
    }
    i
}

/// The year in a date tag such as `1991` or `1991-08-12`, or `None` when it does not start
/// with exactly four digits.
pub fn parse_year(raw: &str) -> (r: Option<u32>)
    ensures
        r == spec_parse_year(raw@),
{
    let cs = chars_of(raw);
    let (a, b) = trim_range(&cs, 0, cs.len());
    assert(cs@.subrange(0, cs@.len() as int) =~= raw@);
    let ghost t = trim(raw@);
    let e = skip_digits_in(&cs, a, b);
    proof {
        lemma_skip_digits(t, 0);
        assert(t.take(skip_digits(t, 0)) =~= cs@.subrange(a as int, e as int));
    }
    if e - a != 4 {
        return None;
    }
    proof {
        let d = cs@.subrange(a as int, e as int);
        assert(all_digits(d)) by {
            assert forall|i: int| 0 <= i < d.len() implies is_digit(#[trigger] d[i]) by {
                assert(d[i] == t[i]);
            }
        }
        crate::text::lemma_digits_value_bound(d);
        reveal_with_fuel(crate::text::pow10, 5);
    }
    match digits_in(&cs, a, e, 9999) {
        Some(v) => Some(v as u32),
        None => None,
    }
}

proof fn lemma_non_empty_is_clean(o: Option<Seq<char>>)
    ensures
        clean_text(spec_non_empty(o)),
{
    if let Some(x) = o {
        crate::text::lemma_trim_trimmed(x);
    }
}

impl RawTags {
    /// Every `RawTags` is clean: its text is trimmed and never empty.
    #[verifier::type_invariant]
    spec fn cleaned(self) -> bool {
        tags_clean(self@)
    }

    /// No tags at all.
    pub fn empty() -> (r: Self)
        ensures
            tags_clean(r@),
            r@ == (RawTagsView {
                title: None,
                artist: None,
                album: None,
                duration: None,
                album_artist: None,
                track_number: None,
                disc_number: None,
                year: None,
            }),
    {
        RawTags {
            title: None,
            artist: None,
            album: None,
            duration: None,
            album_artist: None,
            track_number: None,
            disc_number: None,
            year: None,
        }
    }

    pub open spec fn spec_from_values(v: TagValues) -> RawTagsView {
        RawTagsView {
            title: spec_non_empty(opt_string_view(v.title)),
            artist: spec_non_empty(opt_string_view(v.artist)),
            album: spec_non_empty(opt_string_view(v.album)),
            duration: match v.duration_secs {
                Some(d) => if 0 < d <= u32::MAX {
                    Some(d as u32)
                } else {
                    None
                },
                None => None,
            },
            album_artist: spec_non_empty(opt_string_view(v.album_artist)),
            track_number: v.track,
            disc_number: v.disc,
            year: match v.recording_date {
                Some(d) => spec_parse_year(d@),
                None => match v.year {
                    Some(y) => spec_parse_year(y@),
                    None => None,
                },
            },
        }
    }

    /// Clean up the values a tag reader found: trim the text and drop what is left empty,
    /// keep a duration only when it is a positive number of seconds that fits, and read the
    /// year from the recording date, or from the year tag when there is no date.
    pub fn from_values(v: TagValues) -> (r: Self)
        ensures
            tags_clean(r@),
            r@ == Self::spec_from_values(v),
    {
        proof {
            lemma_non_empty_is_clean(opt_string_view(v.title));
            lemma_non_empty_is_clean(opt_string_view(v.artist));
            lemma_non_empty_is_clean(opt_string_view(v.album));
            lemma_non_empty_is_clean(opt_string_view(v.album_artist));
        }
        let ghost v0 = v;
        let duration = match v.duration_secs {
            Some(d) => if 0 < d && d <= 0xffff_ffff {
                Some(d as u32)
            } else {
                None
            },
            None => None,
        };
        let year = match &v.recording_date {
            Some(d) => parse_year(d.as_str()),
            None => match &v.year {
                Some(y) => parse_year(y.as_str()),
                None => None,
            },
        };
        RawTags {
            title: non_empty(v.title),
            artist: non_empty(v.artist),
            album: non_empty(v.album),
            duration,
            album_artist: non_empty(v.album_artist),
            track_number: v.track,
            disc_number: v.disc,
            year,
        }
    }
}

// ---------------------------------------------------------------------------------------
// Title cleanup
// ---------------------------------------------------------------------------------------

pub open spec fn is_number_sep(c: char) -> bool {
    c == ' ' || c == '.' || c == '_' || c == '-'
}

pub open spec fn skip_seps(s: Seq<char>, i: int) -> int
    decreases s.len() - i,
{
    if 0 <= i < s.len() && is_number_sep(s[i]) {
        skip_seps(s, i + 1)
    } else {
        i
    }
}

/// A file stem without its leading track number: digits followed by at least one of
/// ` ._-` are dropped, with any whitespace after them.
pub open spec fn spec_strip_track_number(stem: Seq<char>) -> Seq<char> {
    let d = skip_digits(stem, 0);
    let e = skip_seps(stem, d);
    if d == 0 || e == d {
        stem
    } else {
        trim_start(stem.skip(e))
    }
}

proof fn lemma_skip_seps(s: Seq<char>, i: int)
    requires
        0 <= i <= s.len(),
    ensures
        i <= skip_seps(s, i) <= s.len(),
    decreases s.len() - i,
{
    if i < s.len() && is_number_sep(s[i]) {
        lemma_skip_seps(s, i + 1);
    }
}

/// Start of `spec_strip_track_number(s[lo..hi])` inside `s`.
fn track_number_end(s: &[char], lo: usize, hi: usize) -> (r: usize)
    requires
        lo <= hi <= s@.len(),
    ensures
        lo <= r <= hi,
        s@.subrange(r as int, hi as int) == spec_strip_track_number(s@.subrange(lo as int, hi as int)),
{
    let ghost t = s@.subrange(lo as int, hi as int);
    let d = skip_digits_in(s, lo, hi);
    proof {
        lemma_skip_digits(t, 0);
    }
    if d == lo {
        return lo;
    }
    let mut e = d;
    while e < hi && (s[e] == ' ' || s[e] == '.' || s[e] == '_' || s[e] == '-')
        invariant
            lo < d <= e <= hi <= s@.len(),
            t == s@.subrange(lo as int, hi as int),
            d - lo == skip_digits(t, 0),
            skip_seps(t, d - lo) == skip_seps(t, e - lo),
        decreases hi - e,
    {
        e = e + 1;
    }
    if e == d {
        return lo;
    }
    proof {
        lemma_skip_seps(t, d - lo);
        assert(t.skip(e - lo) =~= s@.subrange(e as int, hi as int));
    }
    skip_ws(s, e, hi)
}

/// A file stem without its leading track number: `01 Track`, `01. Track`, `01_Track` and
/// `1-Track` all become `Track`. Digits with no separator after them are kept.
pub fn strip_track_number(stem: &str) -> (r: &str)
    ensures
        r@ == spec_strip_track_number(stem@),
{
    let cs = chars_of(stem);
    let n = cs.len();
    let start = track_number_end(&cs, 0, n);
    assert(cs@.subrange(0, n as int) =~= stem@);
    stem.substring_char(start, n)
}

/// Where the bracket closing `s[..j]`'s trailing group opens, scanning leftwards with `d`
/// groups still open.
pub open spec fn group_open(s: Seq<char>, j: int, d: int, open: char, close: char) -> Option<int>
    decreases j,
{
    if j <= 0 || j > s.len() {
        None
    } else if s[j - 1] == close {
        group_open(s, j - 1, if d < i32::MAX { d + 1 } else { d }, open, close)
    } else if s[j - 1] == open {
        let d2 = if d > i32::MIN { d - 1 } else { d };
        if d2 == 0 {
            Some(j - 1)
        } else {
            group_open(s, j - 1, d2, open, close)
        }
    } else {
        group_open(s, j - 1, d, open, close)
    }
}

/// `s` without its trailing bracketed group, such as ` (Live)` or `[Bonus Track]`.
pub open spec fn spec_strip_one_trailing_group(s: Seq<char>) -> Option<Seq<char>> {
    if s.len() == 0 {
        None
    } else {
        let found = if s.last() == ')' {
            group_open(s, s.len() as int, 0, '(', ')')
        } else if s.last() == ']' {
            group_open(s, s.len() as int, 0, '[', ']')
        } else {
            None
        };
        match found {
            Some(i) => Some(s.take(i)),
            None => None,
        }
    }
}

proof fn lemma_group_open(s: Seq<char>, j: int, d: int, open: char, close: char)
    ensures
        group_open(s, j, d, open, close) matches Some(i) ==> 0 <= i < j <= s.len(),
    decreases j,
{
    if 0 < j <= s.len() {
        let d1 = if d < i32::MAX { d + 1 } else { d };
        let d2 = if d > i32::MIN { d - 1 } else { d };
        lemma_group_open(s, j - 1, d1, open, close);
        lemma_group_open(s, j - 1, d2, open, close);
        lemma_group_open(s, j - 1, d, open, close);
    }
}

/// Repeatedly drop trailing groups (and the whitespace before them) from `cur`, stopping
/// before the title would become empty.
pub open spec fn strip_markers_from(cur: Seq<char>, changed: bool) -> (Seq<char>, bool)
    decreases cur.len(),
    via strip_markers_from_decreases
{
    match spec_strip_one_trailing_group(cur) {
        Some(st) => {
            let st2 = trim_end(st);
            if st2.len() == 0 {
                (cur, changed)
            } else {
                strip_markers_from(st2, true)
            }
        },
        None => (cur, changed),
    }
}

#[via_fn]
proof fn strip_markers_from_decreases(cur: Seq<char>, changed: bool) {
    if cur.len() > 0 {
        lemma_group_open(cur, cur.len() as int, 0, '(', ')');
        lemma_group_open(cur, cur.len() as int, 0, '[', ']');
        match spec_strip_one_trailing_group(cur) {
            Some(st) => {
                crate::text::lemma_trim_end_is_prefix(st);
            },
            None => {},
        }
    }
}

proof fn lemma_strip_markers_from(cur: Seq<char>, changed: bool)
    ensures
        strip_markers_from(cur, changed).0.len() <= cur.len(),
        strip_markers_from(cur, changed).0 == cur.take(strip_markers_from(cur, changed).0.len() as int),
        cur.len() > 0 ==> strip_markers_from(cur, changed).0.len() > 0,
        strip_markers_from(cur, changed).1 ==> changed || strip_markers_from(cur, changed).0.len() < cur.len(),
    decreases cur.len(),
{
    assert(cur.take(cur.len() as int) =~= cur);
    if cur.len() > 0 {
        lemma_group_open(cur, cur.len() as int, 0, '(', ')');
        lemma_group_open(cur, cur.len() as int, 0, '[', ']');
        match spec_strip_one_trailing_group(cur) {
            Some(st) => {
                crate::text::lemma_trim_end_is_prefix(st);
                let st2 = trim_end(st);
                if st2.len() > 0 {
                    lemma_strip_markers_from(st2, true);
                    let r = strip_markers_from(st2, true).0;
                    assert(st.len() < cur.len());
                    assert(r =~= cur.take(r.len() as int));
                }
            },
            None => {},
        }
    }
}

/// Stripping version markers leaves a title that is not empty, is shorter than the title,
/// and is how the title begins: only trailing groups (and the spaces before them) go.
pub proof fn lemma_stripped_title_is_a_shorter_prefix(title: Seq<char>)
    ensures
        spec_strip_trailing_markers(title) matches Some(t) ==> 0 < t.len() < title.len() && t == title.take(
            t.len() as int,
        ),
{
    let cur = trim_end(title);
    crate::text::lemma_trim_end_is_prefix(title);
    lemma_strip_markers_from(cur, false);
    let r = strip_markers_from(cur, false);
    if r.1 {
        assert(r.0 =~= title.take(r.0.len() as int));
    }
}

proof fn lemma_trim_end_twice(s: Seq<char>)
    ensures
        trim_end(trim_end(s)) == trim_end(s),
{
    crate::text::lemma_trim_end_is_prefix(s);
}

proof fn lemma_strip_markers_fixpoint(cur: Seq<char>, changed: bool)
    ensures
        ({
            let r = strip_markers_from(cur, changed).0;
            &&& r == cur || trim_end(r) == r
            &&& strip_markers_from(r, false) == (r, false)
        }),
    decreases cur.len(),
{
    lemma_strip_markers_from(cur, changed);
    match spec_strip_one_trailing_group(cur) {
        Some(st) => {
            let st2 = trim_end(st);
            if st2.len() > 0 {
                lemma_group_open(cur, cur.len() as int, 0, '(', ')');
                lemma_group_open(cur, cur.len() as int, 0, '[', ']');
                crate::text::lemma_trim_end_is_prefix(st);
                lemma_strip_markers_fixpoint(st2, true);
                lemma_trim_end_twice(st);
            }
        },
        None => {},
    }
}

proof fn lemma_strip_keeps_changed(cur: Seq<char>)
    ensures
        strip_markers_from(cur, true).1,
    decreases cur.len(),
{
    match spec_strip_one_trailing_group(cur) {
        Some(st) => {
            let st2 = trim_end(st);
            if st2.len() > 0 {
                lemma_group_open(cur, cur.len() as int, 0, '(', ')');
                lemma_group_open(cur, cur.len() as int, 0, '[', ']');
                crate::text::lemma_trim_end_is_prefix(st);
                lemma_strip_keeps_changed(st2);
            }
        },
        None => {},
    }
}

/// Stripping gives nothing exactly when the title, without trailing whitespace, does not end
/// in a bracketed group, or when dropping that group would leave nothing; otherwise the
/// result is a non-empty proper prefix of the title without its trailing whitespace.
pub proof fn lemma_strip_none_exactly_without_a_marker(title: Seq<char>)
    ensures
        spec_strip_trailing_markers(title) is None <==> (match spec_strip_one_trailing_group(trim_end(title)) {
            Some(st) => trim_end(st).len() == 0,
            None => true,
        }),
        spec_strip_trailing_markers(title) matches Some(t) ==> {
            &&& 0 < t.len() < trim_end(title).len()
            &&& t == trim_end(title).take(t.len() as int)
        },
{
    let cur = trim_end(title);
    lemma_strip_markers_from(cur, false);
    match spec_strip_one_trailing_group(cur) {
        Some(st) => {
            let st2 = trim_end(st);
            if st2.len() > 0 {
                lemma_strip_markers_from(st2, true);
                lemma_strip_keeps_changed(st2);
            }
        },
        None => {},
    }
}

/// A stripped title ends in no whitespace and has no marker left to strip: stripping it
/// again gives nothing.
pub proof fn lemma_stripping_twice_strips_nothing(title: Seq<char>)
    ensures
        spec_strip_trailing_markers(title) matches Some(t) ==> trim_end(t) == t && spec_strip_trailing_markers(t) is None,
{
    let cur = trim_end(title);
    lemma_strip_markers_fixpoint(cur, false);
    lemma_trim_end_twice(title);
    let r = strip_markers_from(cur, false);
    if r.1 {
        assert(trim_end(r.0) == r.0);
    }
}

/// A title without its trailing version markers, or `None` when it has none to drop.
pub open spec fn spec_strip_trailing_markers(title: Seq<char>) -> Option<Seq<char>> {
    let r = strip_markers_from(trim_end(title), false);
    if r.1 {
        Some(r.0)
    } else {
        None
    }
}

/// `group_open` over the prefix `s[..j]`, executed.
fn group_open_in(s: &[char], len: usize, open: char, close: char) -> (r: Option<usize>)
    requires
        len <= s@.len(),
    ensures
        match r {
            Some(i) => group_open(s@.take(len as int), len as int, 0, open, close) == Some(i as int),
            None => group_open(s@.take(len as int), len as int, 0, open, close) is None,
        },
{
    let ghost t = s@.take(len as int);
    let mut j = len;
    let mut depth: i32 = 0;
    while j > 0
        invariant
            j <= len <= s@.len(),
            t == s@.take(len as int),
            group_open(t, len as int, 0, open, close) == group_open(t, j as int, depth as int, open, close),
        decreases j,
    {
        let c = s[j - 1];
        assert(t[j - 1] == s@[j - 1]);
        if c == close {
            if depth < i32::MAX {
                depth = depth + 1;
            }
        } else if c == open {
            if depth > i32::MIN {
                depth = depth - 1;
            }
            if depth == 0 {
                return Some(j - 1);
            }
        }
        j = j - 1;
    }
    None
}

/// The prefix length `spec_strip_one_trailing_group` leaves of `s[..len]`.
fn strip_one_len(s: &[char], len: usize) -> (r: Option<usize>)
    requires
        len <= s@.len(),
    ensures
        match r {
            Some(i) => i < len && spec_strip_one_trailing_group(s@.take(len as int)) == Some(
                s@.take(i as int),
            ),
            None => spec_strip_one_trailing_group(s@.take(len as int)) is None,
        },
{
    if len == 0 {
        return None;
    }
    let ghost t = s@.take(len as int);
    assert(t.last() == s@[len - 1]);
    let found = if s[len - 1] == ')' {
        group_open_in(s, len, '(', ')')
    } else if s[len - 1] == ']' {
        group_open_in(s, len, '[', ']')
    } else {
        None
    };
    proof {
        lemma_group_open(t, len as int, 0, '(', ')');
        lemma_group_open(t, len as int, 0, '[', ']');
    }
    match found {
        Some(i) => {
            assert(t.take(i as int) =~= s@.take(i as int));
            Some(i)
        },
        None => None,
    }
}

/// A title without its trailing version markers, such as `(Acoustic)`, `[Live]` or
/// `[Bonus Track]`, several of them if need be; `None` when there is nothing to drop, or
/// when dropping would leave nothing.
pub fn strip_trailing_markers(title: &str) -> (r: Option<String>)
    ensures
        opt_string_view(r) == spec_strip_trailing_markers(title@),
{
    let cs = chars_of(title);
    let n = cs.len();
    let mut cur = crate::text::skip_ws_back(&cs, 0, n);
    assert(cs@.subrange(0, n as int) =~= title@);
    assert(cs@.subrange(0, cur as int) =~= cs@.take(cur as int));
    let mut changed = false;
    loop
        invariant
            cur <= n == cs@.len(),
            spec_strip_trailing_markers(title@) == (if strip_markers_from(cs@.take(cur as int), changed).1 {
                Some(strip_markers_from(cs@.take(cur as int), changed).0)
            } else {
                None
            }),
        ensures
            cur <= n == cs@.len(),
            strip_markers_from(cs@.take(cur as int), changed) == (cs@.take(cur as int), changed),
            spec_strip_trailing_markers(title@) == (if strip_markers_from(cs@.take(cur as int), changed).1 {
                Some(strip_markers_from(cs@.take(cur as int), changed).0)
            } else {
                None
            }),
        decreases cur,
    {
        match strip_one_len(&cs, cur) {
            Some(i) => {
                let j = crate::text::skip_ws_back(&cs, 0, i);
                assert(cs@.subrange(0, i as int) =~= cs@.take(i as int));
                assert(cs@.subrange(0, j as int) =~= cs@.take(j as int));
                if j == 0 {
                    assert(strip_markers_from(cs@.take(cur as int), changed) == (cs@.take(cur as int), changed));
                    break;
                }
                cur = j;
                changed = true;
            },
            None => {
                break;
            },
        }
    }
    if changed {
        Some(string_of_range(&cs, 0, cur))
    } else {
        None
    }
}


// ---------------------------------------------------------------------------------------
// Resolving a track
// ---------------------------------------------------------------------------------------

/// Metadata read off a path shaped `Artist/Album/NN Title.ext`.
pub struct PathGuess {
    pub title: Option<String>,
    pub artist: Option<String>,
    pub album: Option<String>,
}

pub struct PathGuessView {
    pub title: Option<Seq<char>>,
    pub artist: Option<Seq<char>>,
    pub album: Option<Seq<char>>,
}

impl View for PathGuess {
    type V = PathGuessView;

    open spec fn view(&self) -> PathGuessView {
        PathGuessView {
            title: opt_string_view(self.title),
            artist: opt_string_view(self.artist),
            album: opt_string_view(self.album),
        }
    }
}

pub open spec fn non_blank(s: Option<Seq<char>>) -> Option<Seq<char>> {
    match s {
        Some(x) => if x.len() > 0 {
            Some(x)
        } else {
            None
        },
        None => None,
    }
}

/// The title is the file stem without its track number; the album and artist are the names
/// of the directories one and two levels up. Empty results count as missing.
pub open spec fn spec_guess_from_path(p: Seq<char>) -> PathGuessView {
    let ps = path_parts(p);
    PathGuessView {
        title: match ancestor_name(p, ps, 0) {
            Some(n) => non_blank(Some(spec_strip_track_number(name_stem(n)))),
            None => None,
        },
        artist: non_blank(ancestor_name(p, ps, 2)),
        album: non_blank(ancestor_name(p, ps, 1)),
    }
}

fn non_blank_string(s: Option<String>) -> (r: Option<String>)
    ensures
        opt_string_view(r) == non_blank(opt_string_view(s)),
{
    match s {
        Some(x) => if x.as_str().is_empty() {
            None
        } else {
            Some(x)
        },
        None => None,
    }
}

/// Guess title, album and artist from `Artist/Album/NN Title.ext`.
pub fn guess_from_path(path: &str) -> (r: PathGuess)
    ensures
        r@ == spec_guess_from_path(path@),
{
    let title = match ancestor_name_of(path, 0) {
        Some(name) => {
            let cs = chars_of(name.as_str());
            let n = cs.len();
            let stem_end = match crate::path::rfind_in(&cs, 0, n, '.') {
                Some(k) => if k == 0 {
                    n
                } else {
                    k
                },
                None => n,
            };
            proof {
                assert(cs@.subrange(0, n as int) =~= name@);
                assert(name_stem(name@) =~= cs@.subrange(0, stem_end as int));
            }
            let start = track_number_end(&cs, 0, stem_end);
            let t = string_of_range(&cs, start, stem_end);
            non_blank_string(Some(t))
        },
        None => None,
    };
    PathGuess {
        title,
        artist: non_blank_string(ancestor_name_of(path, 2)),
        album: non_blank_string(ancestor_name_of(path, 1)),
    }
}

/// A track's metadata, or the verdict that it has no usable title and artist.
pub enum ResolvedMeta {
    Tagged(TrackMeta),
    Untagged,
}

/// Tags first; with `path_fallback`, a missing title, artist or album is taken from the
/// path and recorded as guessed, in that order. Without both a title and an artist the track
/// is untagged.
pub open spec fn spec_resolve(path: Seq<char>, raw: RawTagsView, path_fallback: bool) -> Option<
    TrackMetaView,
> {
    let g = spec_guess_from_path(path);
    let title = if raw.title is Some || !path_fallback {
        raw.title
    } else {
        g.title
    };
    let artist = if raw.artist is Some || !path_fallback {
        raw.artist
    } else {
        g.artist
    };
    let album = if raw.album is Some || !path_fallback {
        raw.album
    } else {
        g.album
    };
    let guessed = (if path_fallback && raw.title is None && g.title is Some {
        seq![GuessedField::Title]
    } else {
        seq![]
    }) + (if path_fallback && raw.artist is None && g.artist is Some {
        seq![GuessedField::Artist]
    } else {
        seq![]
    }) + (if path_fallback && raw.album is None && g.album is Some {
        seq![GuessedField::Album]
    } else {
        seq![]
    });
    match (title, artist) {
        (Some(t), Some(a)) => Some(
            TrackMetaView {
                path,
                title: t,
                artist: a,
                album,
                duration: raw.duration,
                album_artist: raw.album_artist,
                track_number: raw.track_number,
                disc_number: raw.disc_number,
                year: raw.year,
                guessed,
            },
        ),
        _ => None,
    }
}

/// Where a guessed field comes in the order fields are guessed in.
pub open spec fn guess_rank(f: GuessedField) -> int {
    match f {
        GuessedField::Title => 0,
        GuessedField::Artist => 1,
        GuessedField::Album => 2,
    }
}

/// Without path fallback a track resolves exactly when its tags give both a title and an
/// artist, and then its tags are taken as they are with nothing guessed. Whatever is guessed
/// was missing from the tags, and guessed fields come in title, artist, album order, each at
/// most once.
pub proof fn lemma_resolve_guesses_only_what_is_missing(path: Seq<char>, raw: RawTagsView, path_fallback: bool)
    ensures
        !path_fallback ==> (spec_resolve(path, raw, false) is Some <==> raw.title is Some && raw.artist is Some),
        !path_fallback ==> (spec_resolve(path, raw, false) matches Some(m) ==> {
            &&& m.guessed.len() == 0
            &&& Some(m.title) == raw.title
            &&& Some(m.artist) == raw.artist
            &&& m.album == raw.album
        }),
        spec_resolve(path, raw, path_fallback) matches Some(m) ==> {
            &&& forall|i: int, j: int| 0 <= i < j < m.guessed.len() ==> guess_rank(#[trigger] m.guessed[i]) < guess_rank(#[trigger] m.guessed[j])
            &&& forall|i: int| 0 <= i < m.guessed.len() ==> match #[trigger] m.guessed[i] {
                GuessedField::Title => raw.title is None,
                GuessedField::Artist => raw.artist is None,
                GuessedField::Album => raw.album is None,
            }
        },
{
}

/// Tags always win over the path: with or without path fallback, a title, artist or album
/// the tags give is the one the track is resolved with; the path only fills in what the
/// tags lack.
pub proof fn lemma_tags_win_over_the_path(path: Seq<char>, raw: RawTagsView, path_fallback: bool)
    ensures
        spec_resolve(path, raw, path_fallback) matches Some(m) ==> {
            &&& (raw.title is Some ==> m.title == raw.title->0)
            &&& (raw.artist is Some ==> m.artist == raw.artist->0)
            &&& (raw.album is Some ==> m.album == raw.album)
        },
        raw.title is Some && raw.artist is Some ==> spec_resolve(path, raw, path_fallback) is Some,
{
}

/// With path fallback a track resolves exactly when its title and its artist each come from
/// the tags or, failing that, from the path; a field the tags lack is the one the path gives,
/// and everything that is not guessed (path, duration, album artist, numbers, year) is taken
/// from the tags unchanged.
pub proof fn lemma_path_fills_only_the_gaps(path: Seq<char>, raw: RawTagsView)
    ensures
        ({
            let g = spec_guess_from_path(path);
            &&& (spec_resolve(path, raw, true) is Some <==> (raw.title is Some || g.title is Some) && (
            raw.artist is Some || g.artist is Some))
            &&& spec_resolve(path, raw, true) matches Some(m) ==> {
                &&& (raw.title is None ==> Some(m.title) == g.title)
                &&& (raw.artist is None ==> Some(m.artist) == g.artist)
                &&& (raw.album is None ==> m.album == g.album)
            }
        }),
        forall|fallback: bool|
            #![trigger spec_resolve(path, raw, fallback)]
            spec_resolve(path, raw, fallback) matches Some(m) ==> {
                &&& m.path == path
                &&& m.duration == raw.duration
                &&& m.album_artist == raw.album_artist
                &&& m.track_number == raw.track_number
                &&& m.disc_number == raw.disc_number
                &&& m.year == raw.year
            },
{
}

fn pick_field(
    raw: Option<String>,
    guess: Option<String>,
    path_fallback: bool,
    field: GuessedField,
    guessed: &mut Vec<GuessedField>,
) -> (r: Option<String>)
    ensures
        opt_string_view(r) == if raw is Some || !path_fallback {
            opt_string_view(raw)
        } else {
            opt_string_view(guess)
        },
        final(guessed)@ == old(guessed)@ + if path_fallback && raw is None && guess is Some {
            seq![field]
        } else {
            seq![]
        },
{
    let ghost before = guessed@;
    match raw {
        Some(x) => {
            assert(guessed@ =~= before + seq![]);
            Some(x)
        },
        None => if path_fallback {
            match guess {
                Some(g) => {
                    guessed.push(field);
                    Some(g)
                },
                None => {
                    assert(guessed@ =~= before + seq![]);
                    None
                },
            }
        } else {
            assert(guessed@ =~= before + seq![]);
            None
        },
    }
}

/// Resolve a track's metadata from its cleaned-up tags, falling back to the path when
/// `path_fallback` is set.
pub fn resolve(path: &str, raw: RawTags, path_fallback: bool) -> (r: ResolvedMeta)
    ensures
        tags_clean(raw@),
        match r {
            ResolvedMeta::Tagged(m) => spec_resolve(path@, raw@, path_fallback) == Some(m@),
            ResolvedMeta::Untagged => spec_resolve(path@, raw@, path_fallback) is None,
        },
{
    proof {
        use_type_invariant(&raw);
    }
    let ghost rv = raw@;
    let guess = guess_from_path(path);
    let mut guessed: Vec<GuessedField> = Vec::new();
    let title = pick_field(raw.title, guess.title, path_fallback, GuessedField::Title, &mut guessed);
    let artist = pick_field(raw.artist, guess.artist, path_fallback, GuessedField::Artist, &mut guessed);
    let album = pick_field(raw.album, guess.album, path_fallback, GuessedField::Album, &mut guessed);
    match (title, artist) {
        (Some(title), Some(artist)) => {
            let m = TrackMeta {
                path: String::from_str(path),
                title,
                artist,
                album,
                duration: raw.duration,
                album_artist: raw.album_artist,
                track_number: raw.track_number,
                disc_number: raw.disc_number,
                year: raw.year,
                guessed,
            };
            assert(m@.guessed =~= spec_resolve(path@, rv, path_fallback)->0.guessed);
            ResolvedMeta::Tagged(m)
        },
        _ => ResolvedMeta::Untagged,
    }
}

} // verus!
