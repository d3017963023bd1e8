//! The book's model: artists holding albums holding discs holding tracks, and how a library's
//! tracks are grouped and ordered into it.
use vstd::prelude::*;

use crate::ebook::lyrics::{spec_to_stanzas, stanzas_view, to_stanzas, Stanza};
use crate::meta::{ResolvedMeta, TrackMeta, TrackMetaView};
use crate::sidecar::SidecarDetail;
use crate::order::{
    insert_sorted, lemma_insert_sorted_at, lemma_runs_push, lemma_sort_by_push, runs, sort_by,
};
use crate::path::{opt_string_view, path_order, path_order_of};
use crate::text::{
    chars_of, lex_order, lex_order_in, lowercase, str_eq, to_lowercase_of, trim, trim_range,
    string_of_range,
};

verus! {

/// Album title used when a track carries no album tag.
pub const UNKNOWN_ALBUM: &'static str = "Unknown Album";

/// What a track's sidecar turned out to be.
#[derive(Debug, Clone, Copy, PartialEq, Eq, Structural)]
pub enum LyricState {
    /// A timestamped `.lrc`.
    Synced,
    /// A `.txt`, or an `.lrc` with no timestamps in it.
    Plain,
    /// The instrumental marker `scan` writes.
    Instrumental,
    /// No sidecar at all.
    Missing,
}

impl LyricState {
    pub open spec fn spec_has_lyrics(self) -> bool {
        self is Synced || self is Plain
    }

    /// Does this state carry words to put on a page of their own?
    pub fn has_lyrics(self) -> (r: bool)
        ensures
            r == self.spec_has_lyrics(),
    {
        match self {
            LyricState::Synced | LyricState::Plain => true,
            _ => false,
        }
    }
}

/// One track, whether or not it has lyrics: every track on an album appears in its tracklist.
#[derive(Debug, Clone)]
pub struct Track {
    pub title: String,
    /// The track's own artist, shown only where it differs from the album artist.
    pub artist: String,
    /// Track number within its disc, when tagged.
    pub number: Option<u32>,
    pub state: LyricState,
    /// Empty unless the state has lyrics.
    pub stanzas: Vec<Stanza>,
}

/// One disc of an album. Single-disc albums have exactly one, numbered 1.
#[derive(Debug, Clone)]
pub struct Disc {
    pub number: u32,
    pub tracks: Vec<Track>,
}

/// One album: a subchapter of the book.
#[derive(Debug, Clone)]
pub struct Album {
    pub title: String,
    /// The album artist this album was grouped under.
    pub artist: String,
    pub year: Option<u32>,
    /// Path of the album art beside the tracks, when there is one.
    pub art: Option<String>,
    pub discs: Vec<Disc>,
}

/// One artist: a chapter of the book.
#[derive(Debug, Clone)]
pub struct Artist {
    pub name: String,
    pub albums: Vec<Album>,
}

/// The whole book's content, ready to render.
#[derive(Debug, Clone, Default)]
pub struct Book {
    pub artists: Vec<Artist>,
    /// Audio files skipped because title or artist could not be read from their tags.
    pub untagged: u32,
    /// Tracks that were included in a tracklist but had no lyrics to show.
    pub without_lyrics: u32,
}

pub struct TrackView {
    pub title: Seq<char>,
    pub artist: Seq<char>,
    pub number: Option<u32>,
    pub state: LyricState,
    pub stanzas: Seq<Seq<Seq<char>>>,
}

pub struct DiscView {
    pub number: u32,
    pub tracks: Seq<TrackView>,
}

pub struct AlbumView {
    pub title: Seq<char>,
    pub artist: Seq<char>,
    pub year: Option<u32>,
    pub art: Option<Seq<char>>,
    pub discs: Seq<DiscView>,
}

pub struct ArtistView {
    pub name: Seq<char>,
    pub albums: Seq<AlbumView>,
}

pub struct BookView {
    pub artists: Seq<ArtistView>,
    pub untagged: u32,
    pub without_lyrics: u32,
}

impl View for Track {
    type V = TrackView;

    open spec fn view(&self) -> TrackView {
        TrackView {
            title: self.title@,
            artist: self.artist@,
            number: self.number,
            state: self.state,
            stanzas: stanzas_view(self.stanzas@),
        }
    }
}

pub open spec fn track_views(v: Seq<Track>) -> Seq<TrackView> {
    v.map_values(|t: Track| t@)
}

impl View for Disc {
    type V = DiscView;

    open spec fn view(&self) -> DiscView {
        DiscView { number: self.number, tracks: track_views(self.tracks@) }
    }
}

pub open spec fn disc_views(v: Seq<Disc>) -> Seq<DiscView> {
    v.map_values(|d: Disc| d@)
}

impl View for Album {
    type V = AlbumView;

    open spec fn view(&self) -> AlbumView {
        AlbumView {
            title: self.title@,
            artist: self.artist@,
            year: self.year,
            art: opt_string_view(self.art),
            discs: disc_views(self.discs@),
        }
    }
}

pub open spec fn album_views(v: Seq<Album>) -> Seq<AlbumView> {
    v.map_values(|a: Album| a@)
}

impl View for Artist {
    type V = ArtistView;

    open spec fn view(&self) -> ArtistView {
        ArtistView { name: self.name@, albums: album_views(self.albums@) }
    }
}

pub open spec fn artist_views(v: Seq<Artist>) -> Seq<ArtistView> {
    v.map_values(|a: Artist| a@)
}

impl View for Book {
    type V = BookView;

    open spec fn view(&self) -> BookView {
        BookView {
            artists: artist_views(self.artists@),
            untagged: self.untagged,
            without_lyrics: self.without_lyrics,
        }
    }
}

// ---------------------------------------------------------------------------------------
// Counting
// ---------------------------------------------------------------------------------------

pub open spec fn min_usize(n: int) -> int {
    if n > usize::MAX {
        usize::MAX as int
    } else {
        n
    }
}

/// Tracks across the discs.
pub open spec fn disc_track_total(ds: Seq<DiscView>) -> int
    decreases ds.len(),
{
    if ds.len() == 0 {
        0
    } else {
        disc_track_total(ds.drop_last()) + ds.last().tracks.len()
    }
}

/// Tracks with lyrics in a tracklist.
pub open spec fn lyric_tracks(ts: Seq<TrackView>) -> int
    decreases ts.len(),
{
    if ts.len() == 0 {
        0
    } else {
        lyric_tracks(ts.drop_last()) + if ts.last().state.spec_has_lyrics() {
            1int
        } else {
            0
        }
    }
}

/// Tracks with lyrics across the discs.
pub open spec fn disc_lyric_total(ds: Seq<DiscView>) -> int
    decreases ds.len(),
{
    if ds.len() == 0 {
        0
    } else {
        disc_lyric_total(ds.drop_last()) + lyric_tracks(ds.last().tracks)
    }
}

/// Every album of the book, in reading order.
pub open spec fn book_albums(artists: Seq<ArtistView>) -> Seq<AlbumView>
    decreases artists.len(),
{
    if artists.len() == 0 {
        seq![]
    } else {
        book_albums(artists.drop_last()) + artists.last().albums
    }
}

/// Lyric pages across albums.
pub open spec fn album_lyric_total(albums: Seq<AlbumView>) -> int
    decreases albums.len(),
{
    if albums.len() == 0 {
        0
    } else {
        album_lyric_total(albums.drop_last()) + min_usize(disc_lyric_total(albums.last().discs))
    }
}

pub(crate) proof fn lemma_lyric_tracks_bound(ts: Seq<TrackView>)
    ensures
        0 <= lyric_tracks(ts) <= ts.len(),
    decreases ts.len(),
{
    if ts.len() > 0 {
        lemma_lyric_tracks_bound(ts.drop_last());
    }
}

pub(crate) proof fn lemma_disc_totals_nonneg(ds: Seq<DiscView>)
    ensures
        0 <= disc_lyric_total(ds),
        0 <= disc_track_total(ds),
    decreases ds.len(),
{
    if ds.len() > 0 {
        lemma_disc_totals_nonneg(ds.drop_last());
        lemma_lyric_tracks_bound(ds.last().tracks);
    }
}

pub(crate) proof fn lemma_album_lyric_total_nonneg(albums: Seq<AlbumView>)
    ensures
        0 <= album_lyric_total(albums),
    decreases albums.len(),
{
    if albums.len() > 0 {
        lemma_album_lyric_total_nonneg(albums.drop_last());
        lemma_disc_totals_nonneg(albums.last().discs);
    }
}

fn count_lyrics(tracks: &Vec<Track>) -> (r: usize)
    ensures
        r == lyric_tracks(track_views(tracks@)),
{
    let mut n: usize = 0;
    let mut i: usize = 0;
    while i < tracks.len()
        invariant
            i <= tracks@.len(),
            n == lyric_tracks(track_views(tracks@).take(i as int)),
            n <= i,
        decreases tracks@.len() - i,
    {
        proof {
            assert(track_views(tracks@).take(i + 1).drop_last() =~= track_views(tracks@).take(
                i as int,
            ));
        }
        if tracks[i].state.has_lyrics() {
            n = n + 1;
        }
        i = i + 1;
    }
    assert(track_views(tracks@).take(i as int) =~= track_views(tracks@));
    n
}

impl Album {
    /// Total tracks across every disc (saturating at `usize::MAX`).
    pub fn track_count(&self) -> (r: usize)
        ensures
            r == min_usize(disc_track_total(self@.discs)),
    {
        let mut total: usize = 0;
        let mut i: usize = 0;
        while i < self.discs.len()
            invariant
                i <= self.discs@.len(),
                total == min_usize(disc_track_total(disc_views(self.discs@).take(i as int))),
            decreases self.discs@.len() - i,
        {
            proof {
                let ds = disc_views(self.discs@);
                assert(ds.take(i + 1).drop_last() =~= ds.take(i as int));
                lemma_disc_totals_nonneg(ds.take(i as int));
            }
            total = total.saturating_add(self.discs[i].tracks.len());
            i = i + 1;
        }
        assert(disc_views(self.discs@).take(i as int) =~= disc_views(self.discs@));
        total
    }

    /// Tracks that have words to show (saturating at `usize::MAX`).
    pub fn lyric_count(&self) -> (r: usize)
        ensures
            r == min_usize(disc_lyric_total(self@.discs)),
    {
        let mut total: usize = 0;
        let mut i: usize = 0;
        while i < self.discs.len()
            invariant
                i <= self.discs@.len(),
                total == min_usize(disc_lyric_total(disc_views(self.discs@).take(i as int))),
            decreases self.discs@.len() - i,
        {
            proof {
                let ds = disc_views(self.discs@);
                assert(ds.take(i + 1).drop_last() =~= ds.take(i as int));
                lemma_disc_totals_nonneg(ds.take(i as int));
            }
            let n = count_lyrics(&self.discs[i].tracks);
            total = total.saturating_add(n);
            i = i + 1;
        }
        assert(disc_views(self.discs@).take(i as int) =~= disc_views(self.discs@));
        total
    }

    /// Does this album span more than one disc? Drives whether `CD n` headings are rendered.
    pub fn is_multi_disc(&self) -> (r: bool)
        ensures
            r == (self@.discs.len() > 1),
    {
        self.discs.len() > 1
    }
}

impl Book {
    /// Every album in the book, in reading order.
    pub fn albums(&self) -> (r: Vec<&Album>)
        ensures
            r@.map_values(|a: &Album| a@) == book_albums(self@.artists),
    {
        let mut out: Vec<&Album> = Vec::new();
        let mut i: usize = 0;
        while i < self.artists.len()
            invariant
                i <= self.artists@.len(),
                out@.map_values(|a: &Album| a@) == book_albums(
                    artist_views(self.artists@).take(i as int),
                ),
            decreases self.artists@.len() - i,
        {
            let artist = &self.artists[i];
            let ghost before = out@.map_values(|a: &Album| a@);
            let mut j: usize = 0;
            while j < artist.albums.len()
                invariant
                    j <= artist.albums@.len(),
                    out@.map_values(|a: &Album| a@) == before + album_views(artist.albums@).take(
                        j as int,
                    ),
                decreases artist.albums@.len() - j,
            {
                let ghost prev = out@;
                out.push(&artist.albums[j]);
                proof {
                    let av = album_views(artist.albums@);
                    assert(out@ == prev.push(&artist.albums@[j as int]));
                    assert(av.take(j + 1) =~= av.take(j as int).push(av[j as int]));
                    assert(out@.map_values(|a: &Album| a@) =~= prev.map_values(|a: &Album| a@).push(
                        av[j as int],
                    ));
                }
                assert(out@.map_values(|a: &Album| a@) =~= before + album_views(
                    artist.albums@,
                ).take(j + 1));
                j = j + 1;
            }
            proof {
                let av = artist_views(self.artists@);
                assert(av.take(i + 1).drop_last() =~= av.take(i as int));
                assert(album_views(artist.albums@).take(j as int) =~= album_views(artist.albums@));
                assert(av[i as int] == artist@);
            }
            i = i + 1;
        }
        assert(artist_views(self.artists@).take(i as int) =~= artist_views(self.artists@));
        out
    }

    /// Total tracks that contribute a lyric page (saturating at `usize::MAX`).
    pub fn song_count(&self) -> (r: usize)
        ensures
            r == min_usize(album_lyric_total(book_albums(self@.artists))),
    {
        let albums = self.albums();
        let ghost av = albums@.map_values(|a: &Album| a@);
        let mut total: usize = 0;
        let mut i: usize = 0;
        while i < albums.len()
            invariant
                i <= albums@.len(),
                av == albums@.map_values(|a: &Album| a@),
                total == min_usize(album_lyric_total(av.take(i as int))),
            decreases albums@.len() - i,
        {
            proof {
                assert(av.take(i + 1).drop_last() =~= av.take(i as int));
                lemma_album_lyric_total_nonneg(av.take(i as int));
                lemma_disc_totals_nonneg(av[i as int].discs);
            }
            let n = albums[i].lyric_count();
            total = total.saturating_add(n);
            i = i + 1;
        }
        assert(av.take(i as int) =~= av);
        total
    }

    /// Total albums across every artist (saturating at `usize::MAX`).
    pub fn album_count(&self) -> (r: usize)
        ensures
            r == min_usize(book_albums(self@.artists).len() as int),
    {
        let mut total: usize = 0;
        let mut i: usize = 0;
        while i < self.artists.len()
            invariant
                i <= self.artists@.len(),
                total == min_usize(book_albums(artist_views(self.artists@).take(i as int)).len() as int),
            decreases self.artists@.len() - i,
        {
            proof {
                let av = artist_views(self.artists@);
                assert(av.take(i + 1).drop_last() =~= av.take(i as int));
            }
            total = total.saturating_add(self.artists[i].albums.len());
            i = i + 1;
        }
        assert(artist_views(self.artists@).take(i as int) =~= artist_views(self.artists@));
        total
    }
}


// ---------------------------------------------------------------------------------------
// Grouping and ordering
// ---------------------------------------------------------------------------------------

/// A track plus the grouping and ordering facts taken from its tags, before grouping happens.
pub struct Entry {
    pub meta: TrackMeta,
    pub path: String,
    pub state: LyricState,
    pub stanzas: Vec<Stanza>,
    /// The album art found beside this track's file, if any.
    pub art: Option<String>,
}

pub struct EntryView {
    pub meta: TrackMetaView,
    pub path: Seq<char>,
    pub state: LyricState,
    pub stanzas: Seq<Seq<Seq<char>>>,
    pub art: Option<Seq<char>>,
}

impl View for Entry {
    type V = EntryView;

    open spec fn view(&self) -> EntryView {
        EntryView {
            meta: self.meta@,
            path: self.path@,
            state: self.state,
            stanzas: stanzas_view(self.stanzas@),
            art: opt_string_view(self.art),
        }
    }
}

pub open spec fn entry_views(v: Seq<Entry>) -> Seq<EntryView> {
    v.map_values(|e: Entry| e@)
}

/// The artist a track's album files under: the album artist, else the track artist.
pub open spec fn entry_album_artist(e: EntryView) -> Seq<char> {
    match e.meta.album_artist {
        Some(a) => a,
        None => e.meta.artist,
    }
}

/// The album title, or a placeholder when the tag is absent.
pub open spec fn entry_album_title(e: EntryView) -> Seq<char> {
    match e.meta.album {
        Some(a) => a,
        None => "Unknown Album"@,
    }
}

impl Entry {
    /// The artist this track's album files under: album artist, falling back to the track
    /// artist, which is how a compilation lands in one chapter.
    pub fn album_artist(&self) -> (r: &str)
        ensures
            r@ == entry_album_artist(self@),
    {
        match &self.meta.album_artist {
            Some(a) => a.as_str(),
            None => self.meta.artist.as_str(),
        }
    }

    /// Album title, or a placeholder when the tag is absent.
    pub fn album_title(&self) -> (r: &str)
        ensures
            r@ == entry_album_title(self@),
    {
        match &self.meta.album {
            Some(a) => a.as_str(),
            None => UNKNOWN_ALBUM,
        }
    }
}

pub open spec fn entry_key(e: EntryView) -> (Seq<char>, Seq<char>) {
    (entry_album_artist(e), entry_album_title(e))
}

pub open spec fn entry_key_fn() -> spec_fn(EntryView) -> (Seq<char>, Seq<char>) {
    |e: EntryView| entry_key(e)
}

/// The order of album keys: artist, then title, each as `String`'s order.
pub open spec fn key_le(a: EntryView, b: EntryView) -> bool {
    let o = lex_order(entry_album_artist(a), entry_album_artist(b));
    o < 0 || (o == 0 && lex_order(entry_album_title(a), entry_album_title(b)) <= 0)
}

pub open spec fn key_le_fn() -> spec_fn(EntryView, EntryView) -> bool {
    |a: EntryView, b: EntryView| key_le(a, b)
}

/// A track's disc; an untagged disc number means a single-disc release.
pub open spec fn entry_disc(e: EntryView) -> u32 {
    match e.meta.disc_number {
        Some(d) => d,
        None => 1,
    }
}

pub open spec fn entry_disc_fn() -> spec_fn(EntryView) -> u32 {
    |e: EntryView| entry_disc(e)
}

pub open spec fn disc_le_fn() -> spec_fn(EntryView, EntryView) -> bool {
    |a: EntryView, b: EntryView| entry_disc(a) <= entry_disc(b)
}

/// A track's number for ordering: untagged numbers sort last.
pub open spec fn entry_number(e: EntryView) -> u32 {
    match e.meta.track_number {
        Some(n) => n,
        None => u32::MAX,
    }
}

/// Track order within a disc: number, then path.
pub open spec fn track_le(a: EntryView, b: EntryView) -> bool {
    entry_number(a) < entry_number(b) || (entry_number(a) == entry_number(b) && path_order(
        a.path,
        b.path,
    ) <= 0)
}

pub open spec fn track_le_fn() -> spec_fn(EntryView, EntryView) -> bool {
    |a: EntryView, b: EntryView| track_le(a, b)
}

/// The earliest tagged year of the tracks.
pub open spec fn min_year(es: Seq<EntryView>) -> Option<u32>
    decreases es.len(),
{
    if es.len() == 0 {
        None
    } else {
        let r = min_year(es.drop_last());
        match es.last().meta.year {
            Some(y) => match r {
                Some(m) => Some(
                    if y < m {
                        y
                    } else {
                        m
                    },
                ),
                None => Some(y),
            },
            None => r,
        }
    }
}

pub open spec fn entry_track(e: EntryView) -> TrackView {
    TrackView {
        title: e.meta.title,
        artist: e.meta.artist,
        number: e.meta.track_number,
        state: e.state,
        stanzas: e.stanzas,
    }
}

/// One disc from a run of entries sharing a disc number.
pub open spec fn run_disc(g: Seq<EntryView>) -> DiscView {
    DiscView {
        number: entry_disc(g[0]),
        tracks: sort_by(g, track_le_fn()).map_values(|e: EntryView| entry_track(e)),
    }
}

/// One album from its entries: the earliest year, the art beside the first track, and the
/// tracks split across discs in disc order, each disc in track order.
pub open spec fn spec_build_album(artist: Seq<char>, title: Seq<char>, es: Seq<EntryView>) -> AlbumView {
    AlbumView {
        title,
        artist,
        year: min_year(es),
        art: if es.len() > 0 {
            es[0].art
        } else {
            None
        },
        discs: runs(sort_by(es, disc_le_fn()), entry_disc_fn()).map_values(
            |g: Seq<EntryView>| run_disc(g),
        ),
    }
}

/// Entries without words to show.
pub open spec fn count_without_lyrics(es: Seq<EntryView>) -> int
    decreases es.len(),
{
    if es.len() == 0 {
        0
    } else {
        count_without_lyrics(es.drop_last()) + if es.last().state.spec_has_lyrics() {
            0int
        } else {
            1
        }
    }
}

pub open spec fn group_has_lyrics(g: Seq<EntryView>) -> bool {
    exists|i: int| 0 <= i < g.len() && (#[trigger] g[i]).state.spec_has_lyrics()
}

/// The album groups that have any lyrics, in key order.
pub open spec fn lyric_groups(gs: Seq<Seq<EntryView>>) -> Seq<Seq<EntryView>>
    decreases gs.len(),
{
    if gs.len() == 0 {
        seq![]
    } else if group_has_lyrics(gs.last()) {
        lyric_groups(gs.drop_last()).push(gs.last())
    } else {
        lyric_groups(gs.drop_last())
    }
}

pub open spec fn album_groups(es: Seq<EntryView>) -> Seq<Seq<EntryView>> {
    lyric_groups(runs(sort_by(es, key_le_fn()), entry_key_fn()))
}

pub open spec fn group_album(g: Seq<EntryView>) -> AlbumView {
    spec_build_album(entry_album_artist(g[0]), entry_album_title(g[0]), g)
}

/// Entries without lyrics across the kept groups.
pub open spec fn groups_without_lyrics(gs: Seq<Seq<EntryView>>) -> int
    decreases gs.len(),
{
    if gs.len() == 0 {
        0
    } else {
        groups_without_lyrics(gs.drop_last()) + count_without_lyrics(gs.last())
    }
}

pub open spec fn album_artist_le_fn() -> spec_fn(AlbumView, AlbumView) -> bool {
    |a: AlbumView, b: AlbumView| lex_order(a.artist, b.artist) <= 0
}

pub open spec fn album_artist_fn() -> spec_fn(AlbumView) -> Seq<char> {
    |a: AlbumView| a.artist
}

pub open spec fn album_year(a: AlbumView) -> u32 {
    match a.year {
        Some(y) => y,
        None => u32::MAX,
    }
}

/// Albums within an artist: chronological, untagged years last, then by lowercased title.
pub open spec fn album_le(a: AlbumView, b: AlbumView) -> bool {
    album_year(a) < album_year(b) || (album_year(a) == album_year(b) && lex_order(
        lowercase(a.title),
        lowercase(b.title),
    ) <= 0)
}

pub open spec fn album_le_fn() -> spec_fn(AlbumView, AlbumView) -> bool {
    |a: AlbumView, b: AlbumView| album_le(a, b)
}

/// Sort key for an artist name: lowercased, a leading "the " dropped, trimmed.
pub open spec fn spec_artist_sort_key(name: Seq<char>) -> Seq<char> {
    let lower = lowercase(name);
    if lower.len() >= 4 && lower.take(4) == "the "@ {
        trim(lower.skip(4))
    } else {
        trim(lower)
    }
}

/// Artists: by sort key, then by name.
pub open spec fn artist_le(a: ArtistView, b: ArtistView) -> bool {
    let o = lex_order(spec_artist_sort_key(a.name), spec_artist_sort_key(b.name));
    o < 0 || (o == 0 && lex_order(a.name, b.name) <= 0)
}

pub open spec fn artist_le_fn() -> spec_fn(ArtistView, ArtistView) -> bool {
    |a: ArtistView, b: ArtistView| artist_le(a, b)
}

pub open spec fn run_artist(g: Seq<AlbumView>) -> ArtistView {
    ArtistView { name: g[0].artist, albums: sort_by(g, album_le_fn()) }
}

/// The book's chapters for a list of entries: entries grouped into albums by album artist and
/// title, albums without any lyrics dropped, albums grouped under their artist and ordered
/// chronologically, artists ordered by sort key.
pub open spec fn spec_group(es: Seq<EntryView>) -> Seq<ArtistView> {
    let albums = album_groups(es).map_values(|g: Seq<EntryView>| group_album(g));
    let by_artist = runs(sort_by(albums, album_artist_le_fn()), album_artist_fn());
    sort_by(by_artist.map_values(|g: Seq<AlbumView>| run_artist(g)), artist_le_fn())
}

/// `n` more added to a `u32` counter, saturating.
pub open spec fn add_u32(c: u32, n: int) -> u32 {
    if c + n > u32::MAX {
        u32::MAX
    } else {
        (c + n) as u32
    }
}

/// Sort key for an artist name: case-insensitive, ignoring a leading "The".
pub fn artist_sort_key(name: &str) -> (r: String)
    ensures
        r@ == spec_artist_sort_key(name@),
{
    let lower = to_lowercase_of(name);
    let cs = chars_of(lower.as_str());
    let n = cs.len();
    let start: usize = if n >= 4 && cs[0] == 't' && cs[1] == 'h' && cs[2] == 'e' && cs[3] == ' ' {
        4
    } else {
        0
    };
    proof {
        let l = lowercase(name@);
        reveal_strlit("the ");
        if n >= 4 {
            assert(l.take(4) == "the "@ <==> (cs@[0] == 't' && cs@[1] == 'h' && cs@[2] == 'e'
                && cs@[3] == ' ')) by {
                assert(cs@ == l);
                if cs@[0] == 't' && cs@[1] == 'h' && cs@[2] == 'e' && cs@[3] == ' ' {
                    assert(l.take(4) =~= "the "@);
                }
                if l.take(4) == "the "@ {
                    assert(l.take(4)[0] == 't');
                    assert(l.take(4)[1] == 'h');
                    assert(l.take(4)[2] == 'e');
                    assert(l.take(4)[3] == ' ');
                }
            }
        }
        assert(cs@.subrange(start as int, n as int) =~= if start == 4 {
            l.skip(4)
        } else {
            l
        });
    }
    let (a, b) = trim_range(&cs, start, n);
    string_of_range(&cs, a, b)
}

// --- exec comparisons ----------------------------------------------------------------

fn entry_key_le(a: &Entry, b: &Entry) -> (r: bool)
    ensures
        r == key_le(a@, b@),
{
    let aa = chars_of(a.album_artist());
    let ba = chars_of(b.album_artist());
    let o = lex_order_in(&aa, 0, aa.len(), &ba, 0, ba.len());
    assert(aa@.subrange(0, aa@.len() as int) =~= aa@);
    assert(ba@.subrange(0, ba@.len() as int) =~= ba@);
    if o < 0 {
        return true;
    }
    if o > 0 {
        return false;
    }
    let at = chars_of(a.album_title());
    let bt = chars_of(b.album_title());
    assert(at@.subrange(0, at@.len() as int) =~= at@);
    assert(bt@.subrange(0, bt@.len() as int) =~= bt@);
    lex_order_in(&at, 0, at.len(), &bt, 0, bt.len()) <= 0
}

fn entry_key_eq(a: &Entry, b: &Entry) -> (r: bool)
    ensures
        r == (entry_key(a@) == entry_key(b@)),
{
    str_eq(a.album_artist(), b.album_artist()) && str_eq(a.album_title(), b.album_title())
}

fn disc_of(e: &Entry) -> (r: u32)
    ensures
        r == entry_disc(e@),
{
    match e.meta.disc_number {
        Some(d) => d,
        None => 1,
    }
}

fn number_of(e: &Entry) -> (r: u32)
    ensures
        r == entry_number(e@),
{
    match e.meta.track_number {
        Some(n) => n,
        None => u32::MAX,
    }
}

fn track_le_exec(a: &Entry, b: &Entry) -> (r: bool)
    ensures
        r == track_le(a@, b@),
{
    let na = number_of(a);
    let nb = number_of(b);
    if na < nb {
        return true;
    }
    if na > nb {
        return false;
    }
    path_order_of(a.path.as_str(), b.path.as_str()) <= 0
}

fn lex_le_str(a: &str, b: &str) -> (r: i8)
    ensures
        r as int == lex_order(a@, b@),
{
    let x = chars_of(a);
    let y = chars_of(b);
    assert(x@.subrange(0, x@.len() as int) =~= x@);
    assert(y@.subrange(0, y@.len() as int) =~= y@);
    lex_order_in(&x, 0, x.len(), &y, 0, y.len())
}

fn year_of(a: &Album) -> (r: u32)
    ensures
        r == album_year(a@),
{
    match a.year {
        Some(y) => y,
        None => u32::MAX,
    }
}

fn album_le_exec(a: &Album, b: &Album) -> (r: bool)
    ensures
        r == album_le(a@, b@),
{
    let ya = year_of(a);
    let yb = year_of(b);
    if ya < yb {
        return true;
    }
    if ya > yb {
        return false;
    }
    let la = to_lowercase_of(a.title.as_str());
    let lb = to_lowercase_of(b.title.as_str());
    lex_le_str(la.as_str(), lb.as_str()) <= 0
}

fn artist_le_exec(a: &Artist, b: &Artist) -> (r: bool)
    ensures
        r == artist_le(a@, b@),
{
    let ka = artist_sort_key(a.name.as_str());
    let kb = artist_sort_key(b.name.as_str());
    let o = lex_le_str(ka.as_str(), kb.as_str());
    if o < 0 {
        return true;
    }
    if o > 0 {
        return false;
    }
    lex_le_str(a.name.as_str(), b.name.as_str()) <= 0
}


// --- sorting and grouping, executed ---------------------------------------------------

pub open spec fn entry_groups(v: Seq<Vec<Entry>>) -> Seq<Seq<EntryView>> {
    v.map_values(|g: Vec<Entry>| entry_views(g@))
}

pub open spec fn album_groups_view(v: Seq<Vec<Album>>) -> Seq<Seq<AlbumView>> {
    v.map_values(|g: Vec<Album>| album_views(g@))
}

fn album_artist_le_exec(a: &Album, b: &Album) -> (r: bool)
    ensures
        r == (album_artist_le_fn())(a@, b@),
{
    lex_le_str(a.artist.as_str(), b.artist.as_str()) <= 0
}

fn album_artist_eq(a: &Album, b: &Album) -> (r: bool)
    ensures
        r == ((album_artist_fn())(a@) == (album_artist_fn())(b@)),
{
    str_eq(a.artist.as_str(), b.artist.as_str())
}

fn disc_le_exec(a: &Entry, b: &Entry) -> (r: bool)
    ensures
        r == (disc_le_fn())(a@, b@),
{
    disc_of(a) <= disc_of(b)
}

fn disc_eq(a: &Entry, b: &Entry) -> (r: bool)
    ensures
        r == ((entry_disc_fn())(a@) == (entry_disc_fn())(b@)),
{
    disc_of(a) == disc_of(b)
}

/// Insert `x` into `out`, sorted by album key, after every element not later than it.
fn insert_by_key(out: &mut Vec<Entry>, x: Entry)
    ensures
        entry_views(final(out)@) == insert_sorted(entry_views(old(out)@), x@, key_le_fn()),
{
    let ghost before = entry_views(out@);
    let mut j = out.len();
    while j > 0 && !entry_key_le(&out[j - 1], &x)
        invariant
            j <= out@.len(),
            entry_views(out@) == before,
            forall|k: int| j <= k < before.len() ==> !(key_le_fn())(#[trigger] before[k], x@),
        decreases j,
    {
        assert(before[j - 1] == out@[j - 1]@);
        j = j - 1;
    }
    proof {
        if j > 0 {
            assert(before[j - 1] == out@[j - 1]@);
        }
        lemma_insert_sorted_at(before, x@, key_le_fn(), j as int);
    }
    out.insert(j, x);
    assert(entry_views(out@) =~= before.insert(j as int, x@));
}

/// `v` stably sorted by album key.
fn sort_by_key(v: Vec<Entry>) -> (r: Vec<Entry>)
    ensures
        entry_views(r@) == sort_by(entry_views(v@), key_le_fn()),
{
    let ghost all = entry_views(v@);
    let mut src = v;
    let mut out: Vec<Entry> = Vec::new();
    let ghost mut done: Seq<_> = seq![];
    assert(all =~= done + entry_views(src@));
    assert(entry_views(out@) =~= sort_by(done, key_le_fn()));
    while src.len() > 0
        invariant
            all == done + entry_views(src@),
            entry_views(out@) == sort_by(done, key_le_fn()),
        decreases src@.len(),
    {
        let ghost s0 = src@;
        let x = src.remove(0);
        proof {
            lemma_sort_by_push(done, x@, key_le_fn());
            assert(entry_views(s0) =~= seq![x@] + entry_views(src@));
            done = done.push(x@);
            assert(all =~= done + entry_views(src@));
        }
        insert_by_key(&mut out, x);
    }
    assert(done =~= all);
    out
}

/// Insert `x` into `out`, sorted by disc number, after every element not later than it.
fn insert_by_disc(out: &mut Vec<Entry>, x: Entry)
    ensures
        entry_views(final(out)@) == insert_sorted(entry_views(old(out)@), x@, disc_le_fn()),
{
    let ghost before = entry_views(out@);
    let mut j = out.len();
    while j > 0 && !disc_le_exec(&out[j - 1], &x)
        invariant
            j <= out@.len(),
            entry_views(out@) == before,
            forall|k: int| j <= k < before.len() ==> !(disc_le_fn())(#[trigger] before[k], x@),
        decreases j,
    {
        assert(before[j - 1] == out@[j - 1]@);
        j = j - 1;
    }
    proof {
        if j > 0 {
            assert(before[j - 1] == out@[j - 1]@);
        }
        lemma_insert_sorted_at(before, x@, disc_le_fn(), j as int);
    }
    out.insert(j, x);
    assert(entry_views(out@) =~= before.insert(j as int, x@));
}

/// `v` stably sorted by disc number.
fn sort_by_disc(v: Vec<Entry>) -> (r: Vec<Entry>)
    ensures
        entry_views(r@) == sort_by(entry_views(v@), disc_le_fn()),
{
    let ghost all = entry_views(v@);
    let mut src = v;
    let mut out: Vec<Entry> = Vec::new();
    let ghost mut done: Seq<_> = seq![];
    assert(all =~= done + entry_views(src@));
    assert(entry_views(out@) =~= sort_by(done, disc_le_fn()));
    while src.len() > 0
        invariant
            all == done + entry_views(src@),
            entry_views(out@) == sort_by(done, disc_le_fn()),
        decreases src@.len(),
    {
        let ghost s0 = src@;
        let x = src.remove(0);
        proof {
            lemma_sort_by_push(done, x@, disc_le_fn());
            assert(entry_views(s0) =~= seq![x@] + entry_views(src@));
            done = done.push(x@);
            assert(all =~= done + entry_views(src@));
        }
        insert_by_disc(&mut out, x);
    }
    assert(done =~= all);
    out
}

/// Insert `x` into `out`, sorted by track number, then path, after every element not later than it.
fn insert_by_track(out: &mut Vec<Entry>, x: Entry)
    ensures
        entry_views(final(out)@) == insert_sorted(entry_views(old(out)@), x@, track_le_fn()),
{
    let ghost before = entry_views(out@);
    let mut j = out.len();
    while j > 0 && !track_le_exec(&out[j - 1], &x)
        invariant
            j <= out@.len(),
            entry_views(out@) == before,
            forall|k: int| j <= k < before.len() ==> !(track_le_fn())(#[trigger] before[k], x@),
        decreases j,
    {
        assert(before[j - 1] == out@[j - 1]@);
        j = j - 1;
    }
    proof {
        if j > 0 {
            assert(before[j - 1] == out@[j - 1]@);
        }
        lemma_insert_sorted_at(before, x@, track_le_fn(), j as int);
    }
    out.insert(j, x);
    assert(entry_views(out@) =~= before.insert(j as int, x@));
}

/// `v` stably sorted by track number, then path.
fn sort_by_track(v: Vec<Entry>) -> (r: Vec<Entry>)
    ensures
        entry_views(r@) == sort_by(entry_views(v@), track_le_fn()),
{
    let ghost all = entry_views(v@);
    let mut src = v;
    let mut out: Vec<Entry> = Vec::new();
    let ghost mut done: Seq<_> = seq![];
    assert(all =~= done + entry_views(src@));
    assert(entry_views(out@) =~= sort_by(done, track_le_fn()));
    while src.len() > 0
        invariant
            all == done + entry_views(src@),
            entry_views(out@) == sort_by(done, track_le_fn()),
        decreases src@.len(),
    {
        let ghost s0 = src@;
        let x = src.remove(0);
        proof {
            lemma_sort_by_push(done, x@, track_le_fn());
            assert(entry_views(s0) =~= seq![x@] + entry_views(src@));
            done = done.push(x@);
            assert(all =~= done + entry_views(src@));
        }
        insert_by_track(&mut out, x);
    }
    assert(done =~= all);
    out
}

/// Insert `x` into `out`, sorted by album artist, after every element not later than it.
fn insert_by_album_artist(out: &mut Vec<Album>, x: Album)
    ensures
        album_views(final(out)@) == insert_sorted(album_views(old(out)@), x@, album_artist_le_fn()),
{
    let ghost before = album_views(out@);
    let mut j = out.len();
    while j > 0 && !album_artist_le_exec(&out[j - 1], &x)
        invariant
            j <= out@.len(),
            album_views(out@) == before,
            forall|k: int| j <= k < before.len() ==> !(album_artist_le_fn())(#[trigger] before[k], x@),
        decreases j,
    {
        assert(before[j - 1] == out@[j - 1]@);
        j = j - 1;
    }
    proof {
        if j > 0 {
            assert(before[j - 1] == out@[j - 1]@);
        }
        lemma_insert_sorted_at(before, x@, album_artist_le_fn(), j as int);
    }
    out.insert(j, x);
    assert(album_views(out@) =~= before.insert(j as int, x@));
}

/// `v` stably sorted by album artist.
fn sort_by_album_artist(v: Vec<Album>) -> (r: Vec<Album>)
    ensures
        album_views(r@) == sort_by(album_views(v@), album_artist_le_fn()),
{
    let ghost all = album_views(v@);
    let mut src = v;
    let mut out: Vec<Album> = Vec::new();
    let ghost mut done: Seq<_> = seq![];
    assert(all =~= done + album_views(src@));
    assert(album_views(out@) =~= sort_by(done, album_artist_le_fn()));
    while src.len() > 0
        invariant
            all == done + album_views(src@),
            album_views(out@) == sort_by(done, album_artist_le_fn()),
        decreases src@.len(),
    {
        let ghost s0 = src@;
        let x = src.remove(0);
        proof {
            lemma_sort_by_push(done, x@, album_artist_le_fn());
            assert(album_views(s0) =~= seq![x@] + album_views(src@));
            done = done.push(x@);
            assert(all =~= done + album_views(src@));
        }
        insert_by_album_artist(&mut out, x);
    }
    assert(done =~= all);
    out
}

/// Insert `x` into `out`, sorted by year, then lowercased title, after every element not later than it.
fn insert_albums(out: &mut Vec<Album>, x: Album)
    ensures
        album_views(final(out)@) == insert_sorted(album_views(old(out)@), x@, album_le_fn()),
{
    let ghost before = album_views(out@);
    let mut j = out.len();
    while j > 0 && !album_le_exec(&out[j - 1], &x)
        invariant
            j <= out@.len(),
            album_views(out@) == before,
            forall|k: int| j <= k < before.len() ==> !(album_le_fn())(#[trigger] before[k], x@),
        decreases j,
    {
        assert(before[j - 1] == out@[j - 1]@);
        j = j - 1;
    }
    proof {
        if j > 0 {
            assert(before[j - 1] == out@[j - 1]@);
        }
        lemma_insert_sorted_at(before, x@, album_le_fn(), j as int);
    }
    out.insert(j, x);
    assert(album_views(out@) =~= before.insert(j as int, x@));
}

/// `v` stably sorted by year, then lowercased title.
fn sort_albums(v: Vec<Album>) -> (r: Vec<Album>)
    ensures
        album_views(r@) == sort_by(album_views(v@), album_le_fn()),
{
    let ghost all = album_views(v@);
    let mut src = v;
    let mut out: Vec<Album> = Vec::new();
    let ghost mut done: Seq<_> = seq![];
    assert(all =~= done + album_views(src@));
    assert(album_views(out@) =~= sort_by(done, album_le_fn()));
    while src.len() > 0
        invariant
            all == done + album_views(src@),
            album_views(out@) == sort_by(done, album_le_fn()),
        decreases src@.len(),
    {
        let ghost s0 = src@;
        let x = src.remove(0);
        proof {
            lemma_sort_by_push(done, x@, album_le_fn());
            assert(album_views(s0) =~= seq![x@] + album_views(src@));
            done = done.push(x@);
            assert(all =~= done + album_views(src@));
        }
        insert_albums(&mut out, x);
    }
    assert(done =~= all);
    out
}

/// Insert `x` into `out`, sorted by sort key, then name, after every element not later than it.
fn insert_artists(out: &mut Vec<Artist>, x: Artist)
    ensures
        artist_views(final(out)@) == insert_sorted(artist_views(old(out)@), x@, artist_le_fn()),
{
    let ghost before = artist_views(out@);
    let mut j = out.len();
    while j > 0 && !artist_le_exec(&out[j - 1], &x)
        invariant
            j <= out@.len(),
            artist_views(out@) == before,
            forall|k: int| j <= k < before.len() ==> !(artist_le_fn())(#[trigger] before[k], x@),
        decreases j,
    {
        assert(before[j - 1] == out@[j - 1]@);
        j = j - 1;
    }
    proof {
        if j > 0 {
            assert(before[j - 1] == out@[j - 1]@);
        }
        lemma_insert_sorted_at(before, x@, artist_le_fn(), j as int);
    }
    out.insert(j, x);
    assert(artist_views(out@) =~= before.insert(j as int, x@));
}

/// `v` stably sorted by sort key, then name.
fn sort_artists(v: Vec<Artist>) -> (r: Vec<Artist>)
    ensures
        artist_views(r@) == sort_by(artist_views(v@), artist_le_fn()),
{
    let ghost all = artist_views(v@);
    let mut src = v;
    let mut out: Vec<Artist> = Vec::new();
    let ghost mut done: Seq<_> = seq![];
    assert(all =~= done + artist_views(src@));
    assert(artist_views(out@) =~= sort_by(done, artist_le_fn()));
    while src.len() > 0
        invariant
            all == done + artist_views(src@),
            artist_views(out@) == sort_by(done, artist_le_fn()),
        decreases src@.len(),
    {
        let ghost s0 = src@;
        let x = src.remove(0);
        proof {
            lemma_sort_by_push(done, x@, artist_le_fn());
            assert(artist_views(s0) =~= seq![x@] + artist_views(src@));
            done = done.push(x@);
            assert(all =~= done + artist_views(src@));
        }
        insert_artists(&mut out, x);
    }
    assert(done =~= all);
    out
}

/// `v` split into its maximal runs of equal album keys.
fn runs_by_key(v: Vec<Entry>) -> (r: Vec<Vec<Entry>>)
    ensures
        entry_groups(r@) == runs(entry_views(v@), entry_key_fn()),
        forall|i: int| 0 <= i < r@.len() ==> (#[trigger] r@[i])@.len() > 0,
{
    let ghost all = entry_views(v@);
    let mut src = v;
    let mut done: Vec<Vec<Entry>> = Vec::new();
    let mut cur: Vec<Entry> = Vec::new();
    let ghost mut seen: Seq<_> = seq![];
    assert(all =~= seen + entry_views(src@));
    assert(entry_groups(done@) =~= seq![]);
    while src.len() > 0
        invariant
            all == seen + entry_views(src@),
            cur@.len() == 0 ==> seen.len() == 0 && done@.len() == 0,
            runs(seen, entry_key_fn()) == if cur@.len() == 0 {
                entry_groups(done@)
            } else {
                entry_groups(done@).push(entry_views(cur@))
            },
            forall|i: int| 0 <= i < done@.len() ==> (#[trigger] done@[i])@.len() > 0,
        decreases src@.len(),
    {
        let ghost s0 = src@;
        let x = src.remove(0);
        proof {
            lemma_runs_push(seen, x@, entry_key_fn());
            assert(entry_views(s0) =~= seq![x@] + entry_views(src@));
        }
        let n = cur.len();
        if n > 0 && entry_key_eq(&cur[n - 1], &x) {
            let ghost c0 = entry_views(cur@);
            proof {
                assert(c0.last() == cur@[n - 1]@);
            }
            cur.push(x);
            proof {
                assert(entry_views(cur@) =~= c0.push(x@));
                assert(entry_groups(done@).push(c0).update(entry_groups(done@).len() as int, c0.push(x@))
                    =~= entry_groups(done@).push(entry_views(cur@)));
            }
        } else {
            proof {
                if n > 0 {
                    assert(entry_views(cur@).last() == cur@[n - 1]@);
                }
            }
            if n > 0 {
                let ghost d0 = entry_groups(done@);
                let ghost c0 = entry_views(cur@);
                let mut finished: Vec<Entry> = Vec::new();
                std::mem::swap(&mut cur, &mut finished);
                done.push(finished);
                assert(entry_groups(done@) =~= d0.push(c0));
            }
            let ghost d1 = entry_groups(done@);
            cur.push(x);
            proof {
                assert(entry_views(cur@) =~= seq![x@]);
            }
        }
        proof {
            seen = seen.push(x@);
            assert(all =~= seen + entry_views(src@));
        }
    }
    if cur.len() > 0 {
        let ghost d0 = entry_groups(done@);
        let ghost c0 = entry_views(cur@);
        done.push(cur);
        assert(entry_groups(done@) =~= d0.push(c0));
    }
    assert(seen =~= all);
    done
}

/// `v` split into its maximal runs of equal disc numbers.
fn runs_by_disc(v: Vec<Entry>) -> (r: Vec<Vec<Entry>>)
    ensures
        entry_groups(r@) == runs(entry_views(v@), entry_disc_fn()),
        forall|i: int| 0 <= i < r@.len() ==> (#[trigger] r@[i])@.len() > 0,
{
    let ghost all = entry_views(v@);
    let mut src = v;
    let mut done: Vec<Vec<Entry>> = Vec::new();
    let mut cur: Vec<Entry> = Vec::new();
    let ghost mut seen: Seq<_> = seq![];
    assert(all =~= seen + entry_views(src@));
    assert(entry_groups(done@) =~= seq![]);
    while src.len() > 0
        invariant
            all == seen + entry_views(src@),
            cur@.len() == 0 ==> seen.len() == 0 && done@.len() == 0,
            runs(seen, entry_disc_fn()) == if cur@.len() == 0 {
                entry_groups(done@)
            } else {
                entry_groups(done@).push(entry_views(cur@))
            },
            forall|i: int| 0 <= i < done@.len() ==> (#[trigger] done@[i])@.len() > 0,
        decreases src@.len(),
    {
        let ghost s0 = src@;
        let x = src.remove(0);
        proof {
            lemma_runs_push(seen, x@, entry_disc_fn());
            assert(entry_views(s0) =~= seq![x@] + entry_views(src@));
        }
        let n = cur.len();
        if n > 0 && disc_eq(&cur[n - 1], &x) {
            let ghost c0 = entry_views(cur@);
            proof {
                assert(c0.last() == cur@[n - 1]@);
            }
            cur.push(x);
            proof {
                assert(entry_views(cur@) =~= c0.push(x@));
                assert(entry_groups(done@).push(c0).update(entry_groups(done@).len() as int, c0.push(x@))
                    =~= entry_groups(done@).push(entry_views(cur@)));
            }
        } else {
            proof {
                if n > 0 {
                    assert(entry_views(cur@).last() == cur@[n - 1]@);
                }
            }
            if n > 0 {
                let ghost d0 = entry_groups(done@);
                let ghost c0 = entry_views(cur@);
                let mut finished: Vec<Entry> = Vec::new();
                std::mem::swap(&mut cur, &mut finished);
                done.push(finished);
                assert(entry_groups(done@) =~= d0.push(c0));
            }
            let ghost d1 = entry_groups(done@);
            cur.push(x);
            proof {
                assert(entry_views(cur@) =~= seq![x@]);
            }
        }
        proof {
            seen = seen.push(x@);
            assert(all =~= seen + entry_views(src@));
        }
    }
    if cur.len() > 0 {
        let ghost d0 = entry_groups(done@);
        let ghost c0 = entry_views(cur@);
        done.push(cur);
        assert(entry_groups(done@) =~= d0.push(c0));
    }
    assert(seen =~= all);
    done
}

/// `v` split into its maximal runs of equal album artists.
fn runs_by_album_artist(v: Vec<Album>) -> (r: Vec<Vec<Album>>)
    ensures
        album_groups_view(r@) == runs(album_views(v@), album_artist_fn()),
        forall|i: int| 0 <= i < r@.len() ==> (#[trigger] r@[i])@.len() > 0,
{
    let ghost all = album_views(v@);
    let mut src = v;
    let mut done: Vec<Vec<Album>> = Vec::new();
    let mut cur: Vec<Album> = Vec::new();
    let ghost mut seen: Seq<_> = seq![];
    assert(all =~= seen + album_views(src@));
    assert(album_groups_view(done@) =~= seq![]);
    while src.len() > 0
        invariant
            all == seen + album_views(src@),
            cur@.len() == 0 ==> seen.len() == 0 && done@.len() == 0,
            runs(seen, album_artist_fn()) == if cur@.len() == 0 {
                album_groups_view(done@)
            } else {
                album_groups_view(done@).push(album_views(cur@))
            },
            forall|i: int| 0 <= i < done@.len() ==> (#[trigger] done@[i])@.len() > 0,
        decreases src@.len(),
    {
        let ghost s0 = src@;
        let x = src.remove(0);
        proof {
            lemma_runs_push(seen, x@, album_artist_fn());
            assert(album_views(s0) =~= seq![x@] + album_views(src@));
        }
        let n = cur.len();
        if n > 0 && album_artist_eq(&cur[n - 1], &x) {
            let ghost c0 = album_views(cur@);
            proof {
                assert(c0.last() == cur@[n - 1]@);
            }
            cur.push(x);
            proof {
                assert(album_views(cur@) =~= c0.push(x@));
                assert(album_groups_view(done@).push(c0).update(album_groups_view(done@).len() as int, c0.push(x@))
                    =~= album_groups_view(done@).push(album_views(cur@)));
            }
        } else {
            proof {
                if n > 0 {
                    assert(album_views(cur@).last() == cur@[n - 1]@);
                }
            }
            if n > 0 {
                let ghost d0 = album_groups_view(done@);
                let ghost c0 = album_views(cur@);
                let mut finished: Vec<Album> = Vec::new();
                std::mem::swap(&mut cur, &mut finished);
                done.push(finished);
                assert(album_groups_view(done@) =~= d0.push(c0));
            }
            let ghost d1 = album_groups_view(done@);
            cur.push(x);
            proof {
                assert(album_views(cur@) =~= seq![x@]);
            }
        }
        proof {
            seen = seen.push(x@);
            assert(all =~= seen + album_views(src@));
        }
    }
    if cur.len() > 0 {
        let ghost d0 = album_groups_view(done@);
        let ghost c0 = album_views(cur@);
        done.push(cur);
        assert(album_groups_view(done@) =~= d0.push(c0));
    }
    assert(seen =~= all);
    done
}

fn entry_into_track(e: Entry) -> (r: Track)
    ensures
        r@ == entry_track(e@),
{
    Track {
        title: e.meta.title,
        artist: e.meta.artist,
        number: e.meta.track_number,
        state: e.state,
        stanzas: e.stanzas,
    }
}

/// One disc from a non-empty run of entries sharing a disc number.
fn disc_from_run(g: Vec<Entry>) -> (r: Disc)
    requires
        g@.len() > 0,
    ensures
        r@ == run_disc(entry_views(g@)),
{
    let number = disc_of(&g[0]);
    let ghost gv = entry_views(g@);
    assert(gv[0] == g@[0]@);
    let sorted = sort_by_track(g);
    let ghost sv = entry_views(sorted@);
    let mut src = sorted;
    let mut tracks: Vec<Track> = Vec::new();
    let ghost mut k: int = 0;
    while src.len() > 0
        invariant
            0 <= k <= sv.len(),
            entry_views(src@) == sv.skip(k),
            track_views(tracks@) == sv.take(k).map_values(|e: EntryView| entry_track(e)),
        decreases src@.len(),
    {
        let ghost s0 = src@;
        let e = src.remove(0);
        proof {
            assert(entry_views(s0).len() == s0.len());
            assert(sv.skip(k).len() == sv.len() - k);
            assert(entry_views(s0)[0] == e@);
            assert(sv.skip(k)[0] == sv[k]);
        }
        let ghost t0 = track_views(tracks@);
        tracks.push(entry_into_track(e));
        proof {
            assert(src@ =~= s0.skip(1));
            assert(entry_views(src@) =~= entry_views(s0).skip(1));
            assert(entry_views(src@) =~= sv.skip(k + 1));
            assert(sv.take(k + 1).map_values(|e: EntryView| entry_track(e)) =~= sv.take(k).map_values(
                |e: EntryView| entry_track(e),
            ).push(entry_track(sv[k])));
            assert(track_views(tracks@) =~= t0.push(entry_track(sv[k])));
            k = k + 1;
        }
    }
    proof {
        assert(sv.skip(k).len() == 0);
        assert(sv.take(k) =~= sv);
    }
    Disc { number, tracks }
}

/// Assemble one album from its entries: the earliest tagged year, the art found beside the
/// first track, and the tracks split across discs. Every entry without lyrics is counted in
/// `book.without_lyrics`.
pub fn build_album(artist: String, title: String, entries: Vec<Entry>, book: &mut Book) -> (r: Album)
    ensures
        r@ == spec_build_album(artist@, title@, entry_views(entries@)),
        final(book)@ == (BookView {
            without_lyrics: add_u32(
                old(book)@.without_lyrics,
                count_without_lyrics(entry_views(entries@)),
            ),
            ..old(book)@
        }),
{
    let ghost ev = entry_views(entries@);
    let art = if entries.len() > 0 {
        assert(ev[0] == entries@[0]@);
        match &entries[0].art {
            Some(a) => Some(a.clone()),
            None => None,
        }
    } else {
        None
    };
    let mut year: Option<u32> = None;
    let mut i: usize = 0;
    let ghost b0 = book@;
    while i < entries.len()
        invariant
            i <= entries@.len(),
            ev == entry_views(entries@),
            year == min_year(ev.take(i as int)),
            book@ == (BookView {
                without_lyrics: add_u32(b0.without_lyrics, count_without_lyrics(ev.take(i as int))),
                ..b0
            }),
            count_without_lyrics(ev.take(i as int)) >= 0,
        decreases entries@.len() - i,
    {
        proof {
            assert(ev.take(i + 1).drop_last() =~= ev.take(i as int));
            assert(ev[i as int] == entries@[i as int]@);
        }
        match entries[i].meta.year {
            Some(y) => {
                year = match year {
                    Some(m) => Some(
                        if y < m {
                            y
                        } else {
                            m
                        },
                    ),
                    None => Some(y),
                };
            },
            None => {},
        }
        if !entries[i].state.has_lyrics() {
            book.without_lyrics = book.without_lyrics.saturating_add(1);
        }
        i = i + 1;
    }
    assert(ev.take(i as int) =~= ev);
    let sorted = sort_by_disc(entries);
    let groups = runs_by_disc(sorted);
    let ghost gv = entry_groups(groups@);
    let mut src = groups;
    let mut discs: Vec<Disc> = Vec::new();
    let ghost mut k: int = 0;
    while src.len() > 0
        invariant
            0 <= k <= gv.len(),
            entry_groups(src@) == gv.skip(k),
            forall|j: int| 0 <= j < src@.len() ==> (#[trigger] src@[j])@.len() > 0,
            disc_views(discs@) == gv.take(k).map_values(|g: Seq<EntryView>| run_disc(g)),
        decreases src@.len(),
    {
        let ghost s0 = src@;
        let g = src.remove(0);
        proof {
            assert(entry_groups(s0).len() == s0.len());
            assert(gv.skip(k).len() == gv.len() - k);
            assert(entry_groups(s0)[0] == entry_views(g@));
            assert(gv.skip(k)[0] == gv[k]);
            assert(s0[0] == g);
        }
        let ghost d0 = disc_views(discs@);
        discs.push(disc_from_run(g));
        proof {
            assert(src@ =~= s0.skip(1));
            assert(entry_groups(src@) =~= entry_groups(s0).skip(1));
            assert(entry_groups(src@) =~= gv.skip(k + 1));
            assert forall|j: int| 0 <= j < src@.len() implies (#[trigger] src@[j])@.len() > 0 by {
                assert(src@[j] == s0[j + 1]);
            }
            assert(gv.take(k + 1).map_values(|g: Seq<EntryView>| run_disc(g)) =~= gv.take(k).map_values(
                |g: Seq<EntryView>| run_disc(g),
            ).push(run_disc(gv[k])));
            assert(disc_views(discs@) =~= d0.push(run_disc(gv[k])));
            k = k + 1;
        }
    }
    proof {
        assert(gv.skip(k).len() == 0);
        assert(gv.take(k) =~= gv);
    }
    Album { title, artist, year, art, discs }
}

fn group_has_lyrics_exec(g: &Vec<Entry>) -> (r: bool)
    ensures
        r == group_has_lyrics(entry_views(g@)),
{
    let mut i: usize = 0;
    while i < g.len()
        invariant
            i <= g@.len(),
            forall|k: int| 0 <= k < i ==> !(#[trigger] entry_views(g@)[k]).state.spec_has_lyrics(),
        decreases g@.len() - i,
    {
        if g[i].state.has_lyrics() {
            assert(entry_views(g@)[i as int] == g@[i as int]@);
            return true;
        }
        assert(entry_views(g@)[i as int] == g@[i as int]@);
        i = i + 1;
    }
    false
}

/// Group entries into artists, albums, discs and tracks, sorted for reading. Albums with no
/// lyrics at all are dropped; every track listed without lyrics is counted in
/// `book.without_lyrics`.
pub fn group(entries: Vec<Entry>, book: &mut Book) -> (r: Vec<Artist>)
    ensures
        artist_views(r@) == spec_group(entry_views(entries@)),
        final(book)@ == (BookView {
            without_lyrics: add_u32(
                old(book)@.without_lyrics,
                groups_without_lyrics(album_groups(entry_views(entries@))),
            ),
            ..old(book)@
        }),
{
    let ghost ev = entry_views(entries@);
    let sorted = sort_by_key(entries);
    let groups = runs_by_key(sorted);
    let ghost gv = entry_groups(groups@);
    let ghost b0 = book@;
    let mut src = groups;
    let mut albums: Vec<Album> = Vec::new();
    let ghost mut k: int = 0;
    while src.len() > 0
        invariant
            0 <= k <= gv.len(),
            gv == runs(sort_by(ev, key_le_fn()), entry_key_fn()),
            entry_groups(src@) == gv.skip(k),
            forall|j: int| 0 <= j < src@.len() ==> (#[trigger] src@[j])@.len() > 0,
            album_views(albums@) == lyric_groups(gv.take(k)).map_values(
                |g: Seq<EntryView>| group_album(g),
            ),
            book@ == (BookView {
                without_lyrics: add_u32(
                    b0.without_lyrics,
                    groups_without_lyrics(lyric_groups(gv.take(k))),
                ),
                ..b0
            }),
            groups_without_lyrics(lyric_groups(gv.take(k))) >= 0,
        decreases src@.len(),
    {
        let ghost s0 = src@;
        let g = src.remove(0);
        proof {
            assert(entry_groups(s0).len() == s0.len());
            assert(gv.skip(k).len() == gv.len() - k);
            assert(entry_groups(s0)[0] == entry_views(g@));
            assert(gv.skip(k)[0] == gv[k]);
            assert(s0[0] == g);
            assert(src@ =~= s0.skip(1));
            assert(entry_groups(src@) =~= entry_groups(s0).skip(1));
            assert(entry_groups(src@) =~= gv.skip(k + 1));
            assert forall|j: int| 0 <= j < src@.len() implies (#[trigger] src@[j])@.len() > 0 by {
                assert(src@[j] == s0[j + 1]);
            }
            assert(gv.take(k + 1).drop_last() =~= gv.take(k));
            assert(gv.take(k + 1).last() == gv[k]);
            assert(entry_views(g@) == gv[k]);
        }
        let ghost a0 = album_views(albums@);
        let ghost w0 = book@.without_lyrics;
        if group_has_lyrics_exec(&g) {
            let artist = String::from_str(g[0].album_artist());
            let title = String::from_str(g[0].album_title());
            proof {
                assert(entry_views(g@)[0] == g@[0]@);
                lemma_count_without_lyrics_nonneg(entry_views(g@));
            }
            let album = build_album(artist, title, g, book);
            albums.push(album);
            proof {
                assert(album_views(albums@) =~= a0.push(group_album(gv[k])));
                assert(lyric_groups(gv.take(k + 1)) == lyric_groups(gv.take(k)).push(gv[k]));
                assert(lyric_groups(gv.take(k)).push(gv[k]).drop_last() =~= lyric_groups(gv.take(k)));
                assert(groups_without_lyrics(lyric_groups(gv.take(k + 1))) == groups_without_lyrics(
                    lyric_groups(gv.take(k)),
                ) + count_without_lyrics(gv[k]));
            }
        } else {
            proof {
                assert(lyric_groups(gv.take(k + 1)) == lyric_groups(gv.take(k)));
            }
        }
        proof {
            k = k + 1;
        }
    }
    proof {
        assert(gv.skip(k).len() == 0);
        assert(gv.take(k) =~= gv);
    }
    let ghost av = album_views(albums@);
    let by_artist = sort_by_album_artist(albums);
    let runs_v = runs_by_album_artist(by_artist);
    let ghost rv = album_groups_view(runs_v@);
    let mut src2 = runs_v;
    let mut artists: Vec<Artist> = Vec::new();
    let ghost mut k2: int = 0;
    while src2.len() > 0
        invariant
            0 <= k2 <= rv.len(),
            album_groups_view(src2@) == rv.skip(k2),
            forall|j: int| 0 <= j < src2@.len() ==> (#[trigger] src2@[j])@.len() > 0,
            artist_views(artists@) == rv.take(k2).map_values(|g: Seq<AlbumView>| run_artist(g)),
        decreases src2@.len(),
    {
        let ghost s0 = src2@;
        let g = src2.remove(0);
        proof {
            assert(album_groups_view(s0).len() == s0.len());
            assert(rv.skip(k2).len() == rv.len() - k2);
            assert(album_groups_view(s0)[0] == album_views(g@));
            assert(rv.skip(k2)[0] == rv[k2]);
            assert(s0[0] == g);
            assert(album_views(g@)[0] == g@[0]@);
        }
        let name = g[0].artist.clone();
        let sorted_albums = sort_albums(g);
        let ghost t0 = artist_views(artists@);
        artists.push(Artist { name, albums: sorted_albums });
        proof {
            assert(src2@ =~= s0.skip(1));
            assert(album_groups_view(src2@) =~= album_groups_view(s0).skip(1));
            assert(album_groups_view(src2@) =~= rv.skip(k2 + 1));
            assert forall|j: int| 0 <= j < src2@.len() implies (#[trigger] src2@[j])@.len() > 0 by {
                assert(src2@[j] == s0[j + 1]);
            }
            assert(rv.take(k2 + 1).map_values(|g: Seq<AlbumView>| run_artist(g)) =~= rv.take(
                k2,
            ).map_values(|g: Seq<AlbumView>| run_artist(g)).push(run_artist(rv[k2])));
            assert(artist_views(artists@) =~= t0.push(run_artist(rv[k2])));
            k2 = k2 + 1;
        }
    }
    proof {
        assert(rv.skip(k2).len() == 0);
        assert(rv.take(k2) =~= rv);
    }
    sort_artists(artists)
}

proof fn lemma_count_without_lyrics_nonneg(es: Seq<EntryView>)
    ensures
        count_without_lyrics(es) >= 0,
    decreases es.len(),
{
    if es.len() > 0 {
        lemma_count_without_lyrics_nonneg(es.drop_last());
    }
}


// ---------------------------------------------------------------------------------------
// Collecting
// ---------------------------------------------------------------------------------------

/// A track's lyric state and stanzas, from its sidecar detail and the sidecar's contents
/// (`None` when it could not be read). A sidecar with no words in it counts as missing.
pub open spec fn spec_classify_lyrics(detail: SidecarDetail, contents: Option<Seq<char>>) -> (LyricState, Seq<Seq<Seq<char>>>) {
    match detail {
        SidecarDetail::Instrumental => (LyricState::Instrumental, seq![]),
        SidecarDetail::Absent => (LyricState::Missing, seq![]),
        _ => match contents {
            None => (LyricState::Missing, seq![]),
            Some(c) => {
                let st = spec_to_stanzas(c);
                if st.len() == 0 {
                    (LyricState::Missing, seq![])
                } else {
                    (
                        if detail == SidecarDetail::Synced {
                            LyricState::Synced
                        } else {
                            LyricState::Plain
                        },
                        st,
                    )
                }
            },
        },
    }
}

/// Classify a track's sidecar for the book: the detail read from disk, and the contents of
/// the sidecar that wins (`.lrc` over `.txt`) when they could be read.
pub fn classify_lyrics(detail: SidecarDetail, contents: Option<&str>) -> (r: (LyricState, Vec<Stanza>))
    ensures
        (r.0, stanzas_view(r.1@)) == spec_classify_lyrics(
            detail,
            match contents {
                Some(c) => Some(c@),
                None => None,
            },
        ),
{
    let state = match detail {
        SidecarDetail::Synced => LyricState::Synced,
        SidecarDetail::Plain => LyricState::Plain,
        SidecarDetail::Instrumental => {
            let v: Vec<Stanza> = Vec::new();
            assert(stanzas_view(v@) =~= seq![]);
            return (LyricState::Instrumental, v);
        },
        SidecarDetail::Absent => {
            let v: Vec<Stanza> = Vec::new();
            assert(stanzas_view(v@) =~= seq![]);
            return (LyricState::Missing, v);
        },
    };
    match contents {
        None => {
            let v: Vec<Stanza> = Vec::new();
            assert(stanzas_view(v@) =~= seq![]);
            (LyricState::Missing, v)
        },
        Some(c) => {
            let stanzas = to_stanzas(c);
            if stanzas.len() == 0 {
                let v: Vec<Stanza> = Vec::new();
                assert(stanzas_view(v@) =~= seq![]);
                (LyricState::Missing, v)
            } else {
                (state, stanzas)
            }
        },
    }
}

/// What the walk of a library found for one audio file: its resolved metadata, its lyrics,
/// and the album art beside it.
pub struct FoundTrack {
    pub path: String,
    pub meta: ResolvedMeta,
    pub state: LyricState,
    pub stanzas: Vec<Stanza>,
    pub art: Option<String>,
}

pub struct FoundView {
    pub path: Seq<char>,
    pub meta: Option<TrackMetaView>,
    pub state: LyricState,
    pub stanzas: Seq<Seq<Seq<char>>>,
    pub art: Option<Seq<char>>,
}

impl View for FoundTrack {
    type V = FoundView;

    open spec fn view(&self) -> FoundView {
        FoundView {
            path: self.path@,
            meta: match self.meta {
                ResolvedMeta::Tagged(m) => Some(m@),
                ResolvedMeta::Untagged => None,
            },
            state: self.state,
            stanzas: stanzas_view(self.stanzas@),
            art: opt_string_view(self.art),
        }
    }
}

pub open spec fn found_views(v: Seq<FoundTrack>) -> Seq<FoundView> {
    v.map_values(|f: FoundTrack| f@)
}

/// The tagged tracks, as entries, in the order they were found.
pub open spec fn found_entries(fs: Seq<FoundView>) -> Seq<EntryView>
    decreases fs.len(),
{
    if fs.len() == 0 {
        seq![]
    } else {
        found_entries(fs.drop_last()) + match fs.last().meta {
            Some(m) => seq![
                EntryView {
                    meta: m,
                    path: fs.last().path,
                    state: fs.last().state,
                    stanzas: fs.last().stanzas,
                    art: fs.last().art,
                },
            ],
            None => seq![],
        }
    }
}

/// The files skipped for want of a title and artist.
pub open spec fn untagged_count(fs: Seq<FoundView>) -> int
    decreases fs.len(),
{
    if fs.len() == 0 {
        0
    } else {
        untagged_count(fs.drop_last()) + if fs.last().meta is None {
            1int
        } else {
            0
        }
    }
}

/// The book made of what a walk found: untagged files counted and left out, the rest
/// grouped into chapters.
pub open spec fn spec_collect(fs: Seq<FoundView>) -> BookView {
    let es = found_entries(fs);
    BookView {
        artists: spec_group(es),
        untagged: add_u32(0, untagged_count(fs)),
        without_lyrics: add_u32(0, groups_without_lyrics(album_groups(es))),
    }
}

proof fn lemma_untagged_count_nonneg(fs: Seq<FoundView>)
    ensures
        untagged_count(fs) >= 0,
    decreases fs.len(),
{
    if fs.len() > 0 {
        lemma_untagged_count_nonneg(fs.drop_last());
    }
}

/// Collect what a walk of a library found into a book model. Makes no request and writes
/// nothing: the walk and every read happened before.
pub fn collect(found: Vec<FoundTrack>) -> (r: Book)
    ensures
        r@ == spec_collect(found_views(found@)),
{
    let ghost fv = found_views(found@);
    let mut book = Book { artists: Vec::new(), untagged: 0, without_lyrics: 0 };
    let mut entries: Vec<Entry> = Vec::new();
    let mut src = found;
    let ghost mut k: int = 0;
    while src.len() > 0
        invariant
            0 <= k <= fv.len(),
            found_views(src@) == fv.skip(k),
            entry_views(entries@) == found_entries(fv.take(k)),
            book.untagged == add_u32(0, untagged_count(fv.take(k))),
            book.without_lyrics == 0,
            book.artists@.len() == 0,
            untagged_count(fv.take(k)) >= 0,
        decreases src@.len(),
    {
        let ghost s0 = src@;
        let f = src.remove(0);
        proof {
            assert(found_views(s0).len() == s0.len());
            assert(fv.skip(k).len() == fv.len() - k);
            assert(found_views(s0)[0] == f@);
            assert(fv.skip(k)[0] == fv[k]);
            assert(src@ =~= s0.skip(1));
            assert(found_views(src@) =~= found_views(s0).skip(1));
            assert(found_views(src@) =~= fv.skip(k + 1));
            assert(fv.take(k + 1).drop_last() =~= fv.take(k));
            assert(fv.take(k + 1).last() == fv[k]);
        }
        let ghost e0 = entry_views(entries@);
        match f.meta {
            ResolvedMeta::Tagged(meta) => {
                let e = Entry { meta, path: f.path, state: f.state, stanzas: f.stanzas, art: f.art };
                let ghost ev = e@;
                entries.push(e);
                assert(entry_views(entries@) =~= e0 + seq![ev]);
            },
            ResolvedMeta::Untagged => {
                book.untagged = book.untagged.saturating_add(1);
                assert(entry_views(entries@) =~= e0 + seq![]);
            },
        }
        proof {
            k = k + 1;
        }
    }
    proof {
        assert(fv.skip(k).len() == 0);
        assert(fv.take(k) =~= fv);
    }
    let ghost ev = entry_views(entries@);
    let artists = group(entries, &mut book);
    book.artists = artists;
    book
}

/// Whether `p` is an image file named `stem`, ignoring ASCII case in both.
pub open spec fn is_art_named(p: Seq<char>, stem: Seq<char>) -> bool {
    &&& crate::path::path_extension(p) matches Some(e) && (crate::text::eq_ignore_case("jpg"@, e)
        || crate::text::eq_ignore_case("jpeg"@, e) || crate::text::eq_ignore_case("png"@, e))
    &&& crate::path::path_stem(p) matches Some(s) && crate::text::eq_ignore_case(s, stem)
}

/// The first of `entries` that is art named `stem`.
pub open spec fn first_named(entries: Seq<Seq<char>>, stem: Seq<char>, i: int) -> Option<Seq<char>>
    decreases entries.len() - i,
{
    if i < 0 || i >= entries.len() {
        None
    } else if is_art_named(entries[i], stem) {
        Some(entries[i])
    } else {
        first_named(entries, stem, i + 1)
    }
}

/// The album art among a directory's files: a `folder` image, else a `cover` one (`jpg`,
/// `jpeg` or `png`, any case), the first in directory order.
pub open spec fn spec_find_art(entries: Seq<Seq<char>>) -> Option<Seq<char>> {
    match first_named(entries, "folder"@, 0) {
        Some(p) => Some(p),
        None => first_named(entries, "cover"@, 0),
    }
}

fn is_art_named_exec(p: &str, stem: &str) -> (r: bool)
    ensures
        r == is_art_named(p@, stem@),
{
    let exts: [&str; 3] = ["jpg", "jpeg", "png"];
    if !crate::meta::has_extension(p, &exts) {
        proof {
            if let Some(e) = crate::path::path_extension(p@) {
                if crate::text::eq_ignore_case("jpg"@, e) {
                    assert(exts@[0]@ == "jpg"@);
                } else if crate::text::eq_ignore_case("jpeg"@, e) {
                    assert(exts@[1]@ == "jpeg"@);
                } else if crate::text::eq_ignore_case("png"@, e) {
                    assert(exts@[2]@ == "png"@);
                }
            }
        }
        return false;
    }
    proof {
        let e = crate::path::path_extension(p@)->0;
        let i = choose|i: int| 0 <= i < exts@.len() && crate::text::eq_ignore_case(#[trigger] exts@[i]@, e);
        assert(i == 0 || i == 1 || i == 2);
    }
    let cs = chars_of(p);
    let sc = chars_of(stem);
    match crate::path::stem_range(&cs) {
        Some((a, b)) => crate::text::range_eq_ignore_case(&cs, a, b, &sc),
        None => false,
    }
}

fn first_named_in(entries: &Vec<String>, stem: &str) -> (r: Option<usize>)
    ensures
        match r {
            Some(i) => i < entries.len() && first_named(crate::runner::string_views(entries@), stem@, 0) == Some(entries@[i as int]@),
            None => first_named(crate::runner::string_views(entries@), stem@, 0) is None,
        },
{
    let ghost ev = crate::runner::string_views(entries@);
    let mut i: usize = 0;
    while i < entries.len()
        invariant
            ev == crate::runner::string_views(entries@),
            i <= entries.len(),
            first_named(ev, stem@, i as int) == first_named(ev, stem@, 0),
        decreases entries.len() - i,
    {
        if is_art_named_exec(entries[i].as_str(), stem) {
            return Some(i);
        }
        i = i + 1;
    }
    None
}

/// The album art among the files of a directory, listed in directory order.
pub fn find_art(entries: &Vec<String>) -> (r: Option<String>)
    ensures
        opt_string_view(r) == spec_find_art(crate::runner::string_views(entries@)),
{
    match first_named_in(entries, "folder") {
        Some(i) => Some(entries[i].clone()),
        None => match first_named_in(entries, "cover") {
            Some(i) => Some(entries[i].clone()),
            None => None,
        },
    }
}

/// Which sidecar holds a track's words: the `.lrc` when it exists, else the `.txt`.
pub fn lyrics_source(audio_path: &str, lrc_exists: bool) -> (r: String)
    ensures
        r@ == crate::path::with_extension(audio_path@, if lrc_exists {
            "lrc"@
        } else {
            "txt"@
        }),
{
    if lrc_exists {
        crate::sidecar::sidecar_path(audio_path, "lrc")
    } else {
        crate::sidecar::sidecar_path(audio_path, "txt")
    }
}

proof fn lemma_artist_order_is_total_preorder()
    ensures
        crate::order::total_preorder(artist_le_fn()),
{
    let le = artist_le_fn();
    assert forall|a: ArtistView, b: ArtistView| #[trigger] le(a, b) || le(b, a) by {
        crate::text::lemma_lex_order_antisymmetric(spec_artist_sort_key(a.name), spec_artist_sort_key(b.name));
        crate::text::lemma_lex_order_antisymmetric(a.name, b.name);
    }
    assert forall|a: ArtistView, b: ArtistView, c: ArtistView| #[trigger] le(a, b) && #[trigger] le(b, c) implies le(a, c) by {
        let (ka, kb, kc) = (spec_artist_sort_key(a.name), spec_artist_sort_key(b.name), spec_artist_sort_key(c.name));
        crate::text::lemma_lex_order_zero(ka, kb);
        crate::text::lemma_lex_order_zero(kb, kc);
        crate::text::lemma_lex_order_zero(ka, kc);
        crate::text::lemma_lex_order_antisymmetric(ka, kb);
        crate::text::lemma_lex_order_antisymmetric(kb, kc);
        crate::text::lemma_lex_order_transitive(ka, kb, kc);
        if lex_order(ka, kb) == 0 && lex_order(kb, kc) == 0 {
            crate::text::lemma_lex_order_transitive(a.name, b.name, c.name);
        }
    }
}

/// The book's chapters come in reading order: each artist's sort key (lowercased, trimmed, a
/// leading "the " dropped) is no later than the next one's, and artists with equal keys are
/// ordered by name.
pub proof fn lemma_artists_in_reading_order(fs: Seq<FoundView>)
    ensures
        crate::order::sorted_by(spec_collect(fs).artists, artist_le_fn()),
{
    lemma_artist_order_is_total_preorder();
    let es = found_entries(fs);
    let albums = album_groups(es).map_values(|g: Seq<EntryView>| group_album(g));
    let by_artist = runs(sort_by(albums, album_artist_le_fn()), album_artist_fn());
    crate::order::lemma_sort_by_sorted(by_artist.map_values(|g: Seq<AlbumView>| run_artist(g)), artist_le_fn());
}

proof fn lemma_album_order_is_total_preorder()
    ensures
        crate::order::total_preorder(album_le_fn()),
{
    let le = album_le_fn();
    assert forall|a: AlbumView, b: AlbumView| #[trigger] le(a, b) || le(b, a) by {
        crate::text::lemma_lex_order_antisymmetric(lowercase(a.title), lowercase(b.title));
    }
    assert forall|a: AlbumView, b: AlbumView, c: AlbumView| #[trigger] le(a, b) && #[trigger] le(b, c) implies le(a, c) by {
        if album_year(a) == album_year(b) && album_year(b) == album_year(c) {
            crate::text::lemma_lex_order_transitive(lowercase(a.title), lowercase(b.title), lowercase(c.title));
        }
    }
}

/// Within every chapter, the albums come chronologically, albums without a year last, and
/// albums of the same year by lowercased title.
pub proof fn lemma_albums_in_reading_order(fs: Seq<FoundView>, i: int)
    requires
        0 <= i < spec_collect(fs).artists.len(),
    ensures
        crate::order::sorted_by(spec_collect(fs).artists[i].albums, album_le_fn()),
{
    lemma_album_order_is_total_preorder();
    let es = found_entries(fs);
    let albums = album_groups(es).map_values(|g: Seq<EntryView>| group_album(g));
    let by_artist = runs(sort_by(albums, album_artist_le_fn()), album_artist_fn());
    let chapters = by_artist.map_values(|g: Seq<AlbumView>| run_artist(g));
    let p = |a: ArtistView| crate::order::sorted_by(a.albums, album_le_fn());
    assert forall|k: int| 0 <= k < chapters.len() implies p(#[trigger] chapters[k]) by {
        crate::order::lemma_sort_by_sorted(by_artist[k], album_le_fn());
    }
    crate::order::lemma_sort_by_all(chapters, artist_le_fn(), p);
    assert(p(spec_collect(fs).artists[i]));
}

/// An album's year is the earliest year its tracks are tagged with, and it has none exactly
/// when no track has one.
pub proof fn lemma_album_year_is_earliest(es: Seq<EntryView>)
    ensures
        min_year(es) is None <==> forall|i: int| 0 <= i < es.len() ==> (#[trigger] es[i]).meta.year is None,
        min_year(es) matches Some(m) ==> {
            &&& exists|i: int| 0 <= i < es.len() && (#[trigger] es[i]).meta.year == Some(m)
            &&& forall|i: int| 0 <= i < es.len() && (#[trigger] es[i]).meta.year is Some ==> m <= es[i].meta.year->0
        },
    decreases es.len(),
{
    if es.len() > 0 {
        let d = es.drop_last();
        lemma_album_year_is_earliest(d);
        assert forall|i: int| 0 <= i < d.len() implies d[i] == es[i] by {}
        let last = es.len() - 1;
        if min_year(d) is None {
            assert forall|i: int| 0 <= i < d.len() implies (#[trigger] es[i]).meta.year is None by {
                assert(d[i].meta.year is None);
            }
        }
        match min_year(es) {
            Some(m) => {
                if min_year(d) is Some {
                    let dm = min_year(d)->0;
                    let j = choose|j: int| 0 <= j < d.len() && (#[trigger] d[j]).meta.year == Some(dm);
                    assert(es[j] == d[j]);
                    if es[last].meta.year is Some && es[last].meta.year->0 < dm {
                        assert(es[last].meta.year == Some(m));
                    } else {
                        assert(es[j].meta.year == Some(m));
                    }
                    assert forall|i: int| 0 <= i < es.len() && (#[trigger] es[i]).meta.year is Some implies m <= es[i].meta.year->0 by {
                        if i < d.len() {
                            assert(d[i] == es[i]);
                        }
                    }
                } else {
                    assert(es[last].meta.year == Some(m));
                    assert forall|i: int| 0 <= i < es.len() && (#[trigger] es[i]).meta.year is Some implies m <= es[i].meta.year->0 by {
                        if i < d.len() {
                            assert(d[i] == es[i]);
                            assert(d[i].meta.year is None);
                        }
                    }
                }
            },
            None => {
                assert forall|i: int| 0 <= i < es.len() implies (#[trigger] es[i]).meta.year is None by {
                    if i < d.len() {
                        assert(d[i] == es[i]);
                    }
                }
            },
        }
    }
}

/// No chapter of a book is empty: every artist in it has at least one album.
pub proof fn lemma_no_empty_chapter(fs: Seq<FoundView>)
    ensures
        forall|i: int| 0 <= i < spec_collect(fs).artists.len() ==> (#[trigger] spec_collect(fs).artists[i]).albums.len() > 0,
{
    let es = found_entries(fs);
    let albums = album_groups(es).map_values(|g: Seq<EntryView>| group_album(g));
    let sorted = sort_by(albums, album_artist_le_fn());
    let by_artist = runs(sorted, album_artist_fn());
    crate::order::lemma_runs_nonempty(sorted, album_artist_fn());
    let chapters = by_artist.map_values(|g: Seq<AlbumView>| run_artist(g));
    let p = |a: ArtistView| a.albums.len() > 0;
    assert forall|q: int| 0 <= q < chapters.len() implies p(#[trigger] chapters[q]) by {
        crate::order::lemma_sort_by_len(by_artist[q], album_le_fn());
        assert(chapters[q].albums == sort_by(by_artist[q], album_le_fn()));
    }
    crate::order::lemma_sort_by_all(chapters, artist_le_fn(), p);
    assert forall|i: int| 0 <= i < spec_collect(fs).artists.len() implies (#[trigger] spec_collect(fs).artists[i]).albums.len() > 0 by {
        assert(p(spec_collect(fs).artists[i]));
    }
}

proof fn lemma_lyric_groups_from_runs(gs: Seq<Seq<EntryView>>)
    ensures
        forall|i: int| 0 <= i < lyric_groups(gs).len() ==> exists|a: int| 0 <= a < gs.len() && gs[a] == #[trigger] lyric_groups(gs)[i],
        forall|i: int, j: int| 0 <= i < j < lyric_groups(gs).len() ==> exists|x: int, y: int| 0 <= x < y < gs.len() && gs[x] == #[trigger] lyric_groups(gs)[i]
            && gs[y] == #[trigger] lyric_groups(gs)[j],
    decreases gs.len(),
{
    if gs.len() > 0 {
        let d = gs.drop_last();
        lemma_lyric_groups_from_runs(d);
        let prev = lyric_groups(d);
        let cur = lyric_groups(gs);
        assert forall|i: int| 0 <= i < cur.len() implies exists|a: int| 0 <= a < gs.len() && gs[a] == #[trigger] cur[i] by {
            if i < prev.len() {
                assert(cur[i] == prev[i]);
                let a = choose|a: int| 0 <= a < d.len() && d[a] == prev[i];
                assert(gs[a] == d[a]);
            } else {
                assert(cur[i] == gs[gs.len() - 1]);
            }
        }
        assert forall|i: int, j: int| 0 <= i < j < cur.len() implies exists|x: int, y: int| 0 <= x < y < gs.len() && gs[x] == #[trigger] cur[i]
            && gs[y] == #[trigger] cur[j] by {
            if j < prev.len() {
                assert(cur[i] == prev[i] && cur[j] == prev[j]);
                let (x, y) = choose|x: int, y: int| 0 <= x < y < d.len() && d[x] == #[trigger] prev[i] && d[y] == #[trigger] prev[j];
                assert(gs[x] == d[x] && gs[y] == d[y]);
            } else {
                assert(cur[i] == prev[i]);
                let x = choose|a: int| 0 <= a < d.len() && d[a] == #[trigger] prev[i];
                assert(gs[x] == d[x]);
                assert(cur[j] == gs[gs.len() - 1]);
                assert(x < gs.len() - 1);
            }
        }
    }
}

/// An album group is kept exactly when one of its entries has lyrics: every kept group has
/// some, and every group with some is kept, in the order the groups came.
pub proof fn lemma_albums_kept_exactly_with_lyrics(gs: Seq<Seq<EntryView>>)
    ensures
        forall|k: int| 0 <= k < lyric_groups(gs).len() ==> group_has_lyrics(#[trigger] lyric_groups(gs)[k]),
        forall|k: int| 0 <= k < gs.len() && group_has_lyrics(#[trigger] gs[k]) ==> lyric_groups(gs).contains(gs[k]),
        lyric_groups(gs).len() <= gs.len(),
    decreases gs.len(),
{
    if gs.len() > 0 {
        let d = gs.drop_last();
        lemma_albums_kept_exactly_with_lyrics(d);
        let prev = lyric_groups(d);
        let cur = lyric_groups(gs);
        assert forall|k: int| 0 <= k < cur.len() implies group_has_lyrics(#[trigger] cur[k]) by {
            if k < prev.len() {
                assert(cur[k] == prev[k]);
            }
        }
        assert forall|k: int| 0 <= k < gs.len() && group_has_lyrics(#[trigger] gs[k]) implies cur.contains(gs[k]) by {
            if k < d.len() {
                assert(d[k] == gs[k]);
                assert(prev.contains(d[k]));
                let j = choose|j: int| 0 <= j < prev.len() && prev[j] == d[k];
                assert(cur[j] == prev[j]);
            } else {
                assert(cur[cur.len() - 1] == gs[k]);
            }
        }
    }
}

/// How many entries the runs hold together.
pub open spec fn run_total(rs: Seq<Seq<EntryView>>) -> int
    decreases rs.len(),
{
    if rs.len() == 0 {
        0
    } else {
        run_total(rs.drop_last()) + rs.last().len()
    }
}

proof fn lemma_run_total_update_last(rs: Seq<Seq<EntryView>>, g: Seq<EntryView>)
    requires
        rs.len() > 0,
    ensures
        run_total(rs.update(rs.len() - 1, g)) == run_total(rs) - rs.last().len() + g.len(),
{
    assert(rs.update(rs.len() - 1, g).drop_last() =~= rs.drop_last());
}

proof fn lemma_runs_keep_every_entry(s: Seq<EntryView>)
    ensures
        run_total(runs(s, entry_disc_fn())) == s.len(),
    decreases s.len(),
{
    if s.len() > 0 {
        let d = s.drop_last();
        lemma_runs_keep_every_entry(d);
        let r = runs(d, entry_disc_fn());
        if r.len() > 0 && entry_disc(r.last().last()) == entry_disc(s.last()) {
            lemma_run_total_update_last(r, r.last().push(s.last()));
        } else {
            assert(r.push(seq![s.last()]).drop_last() =~= r);
        }
    }
}

proof fn lemma_disc_track_total_is_run_total(rs: Seq<Seq<EntryView>>)
    ensures
        disc_track_total(rs.map_values(|g: Seq<EntryView>| run_disc(g))) == run_total(rs),
    decreases rs.len(),
{
    if rs.len() > 0 {
        let d = rs.drop_last();
        lemma_disc_track_total_is_run_total(d);
        let m = rs.map_values(|g: Seq<EntryView>| run_disc(g));
        assert(m.drop_last() =~= d.map_values(|g: Seq<EntryView>| run_disc(g)));
        crate::order::lemma_sort_by_len(rs.last(), track_le_fn());
        assert(m.last() == run_disc(rs.last()));
    }
}

/// An album holds every one of its entries as a track, no more and no fewer.
pub proof fn lemma_album_keeps_every_track(artist: Seq<char>, title: Seq<char>, es: Seq<EntryView>)
    ensures
        disc_track_total(spec_build_album(artist, title, es).discs) == es.len(),
{
    let sorted = sort_by(es, disc_le_fn());
    crate::order::lemma_sort_by_len(es, disc_le_fn());
    lemma_runs_keep_every_entry(sorted);
    lemma_disc_track_total_is_run_total(runs(sorted, entry_disc_fn()));
}

proof fn lemma_key_order_facts(a: EntryView, b: EntryView, c: EntryView)
    ensures
        key_le(a, b) || key_le(b, a),
        key_le(a, b) && key_le(b, c) ==> key_le(a, c),
        key_le(a, b) && key_le(b, a) ==> entry_key(a) == entry_key(b),
        entry_key(a) == entry_key(b) ==> key_le(a, b) && (key_le(b, c) <==> key_le(a, c)) && (key_le(c, b) <==> key_le(c, a)),
{
    let (aa, at) = entry_key(a);
    let (ba, bt) = entry_key(b);
    let (ca, ct) = entry_key(c);
    crate::text::lemma_lex_order_antisymmetric(aa, ba);
    crate::text::lemma_lex_order_antisymmetric(at, bt);
    crate::text::lemma_lex_order_zero(aa, ba);
    crate::text::lemma_lex_order_zero(at, bt);
    crate::text::lemma_lex_order_zero(aa, aa);
    crate::text::lemma_lex_order_zero(at, at);
    if lex_order(aa, ba) <= 0 && lex_order(ba, ca) <= 0 {
        crate::text::lemma_lex_order_transitive(aa, ba, ca);
    }
    if lex_order(at, bt) <= 0 && lex_order(bt, ct) <= 0 {
        crate::text::lemma_lex_order_transitive(at, bt, ct);
    }
}

/// Runs of entries by album key, over entries in key order: each run holds one key, no two
/// runs the same key, every entry in some run.
pub open spec fn key_runs_apart(rs: Seq<Seq<EntryView>>) -> bool {
    &&& forall|i: int| 0 <= i < rs.len() ==> (#[trigger] rs[i]).len() > 0
    &&& forall|i: int, j: int| 0 <= i < rs.len() && 0 <= j < rs[i].len() ==> entry_key(#[trigger] rs[i][j]) == entry_key(rs[i][0])
    &&& forall|a: int, b: int| 0 <= a < b < rs.len() ==> key_le((#[trigger] rs[a])[0], (#[trigger] rs[b])[0])
        && entry_key(rs[a][0]) != entry_key(rs[b][0])
}

/// Whether some run holds `x`.
pub open spec fn in_some_run(rs: Seq<Seq<EntryView>>, x: EntryView) -> bool {
    exists|a: int| 0 <= a < rs.len() && (#[trigger] rs[a]).contains(x)
}

proof fn lemma_runs_of_sorted_keys(s: Seq<EntryView>)
    requires
        crate::order::sorted_by(s, key_le_fn()),
    ensures
        key_runs_apart(runs(s, entry_key_fn())),
        s.len() > 0 ==> runs(s, entry_key_fn()).len() > 0 && entry_key(runs(s, entry_key_fn()).last()[0]) == entry_key(s.last()),
        forall|k: int| 0 <= k < s.len() ==> in_some_run(runs(s, entry_key_fn()), #[trigger] s[k]),
    decreases s.len(),
{
    if s.len() > 0 {
        let d = s.drop_last();
        let x = s.last();
        assert forall|i: int, j: int| 0 <= i < j < d.len() implies (key_le_fn())(#[trigger] d[i], #[trigger] d[j]) by {
            assert(d[i] == s[i] && d[j] == s[j]);
        }
        lemma_runs_of_sorted_keys(d);
        crate::order::lemma_runs_nonempty(d, entry_key_fn());
        let r = runs(d, entry_key_fn());
        let rs = runs(s, entry_key_fn());
        if r.len() > 0 && entry_key(r.last().last()) == entry_key(x) {
            let k = r.len() - 1;
            let g = r.last().push(x);
            assert(rs == r.update(k, g));
            assert forall|i: int, j: int| 0 <= i < rs.len() && 0 <= j < rs[i].len() implies entry_key(#[trigger] rs[i][j]) == entry_key(rs[i][0]) by {
                if i < k {
                    assert(rs[i] == r[i]);
                } else if j < r[k].len() {
                    assert(rs[i][j] == r[k][j]);
                    assert(rs[i][0] == r[k][0]);
                } else {
                    assert(rs[i][j] == x);
                    assert(rs[i][0] == r[k][0]);
                    assert(entry_key(r[k][r[k].len() - 1]) == entry_key(r[k][0]));
                }
            }
            assert forall|a: int, b: int| 0 <= a < b < rs.len() implies key_le((#[trigger] rs[a])[0], (#[trigger] rs[b])[0])
                && entry_key(rs[a][0]) != entry_key(rs[b][0]) by {
                assert(rs[a][0] == r[a][0]);
                assert(rs[b][0] == r[b][0]);
            }
            assert forall|m: int| 0 <= m < s.len() implies in_some_run(rs, #[trigger] s[m]) by {
                if m < d.len() {
                    assert(d[m] == s[m]);
                    let a = choose|a: int| 0 <= a < r.len() && (#[trigger] r[a]).contains(d[m]);
                    let q = choose|q: int| 0 <= q < r[a].len() && r[a][q] == d[m];
                    if a < k {
                        assert(rs[a] == r[a]);
                    } else {
                        assert(rs[a][q] == r[a][q]);
                    }
                    assert(rs[a].contains(s[m]));
                } else {
                    assert(rs[k][r[k].len() as int] == x);
                    assert(rs[k].contains(s[m]));
                }
            }
        } else {
            assert(rs == r.push(seq![x]));
            if d.len() > 0 {
                assert((key_le_fn())(s[d.len() - 1], s[s.len() - 1]));
                let k = r.len() - 1;
                assert(entry_key(r[k][r[k].len() - 1]) == entry_key(r[k][0]));
                assert forall|a: int| 0 <= a < r.len() implies key_le(#[trigger] r[a][0], x) && entry_key(r[a][0]) != entry_key(x) by {
                    lemma_key_order_facts(r[a][0], r[k][0], x);
                    lemma_key_order_facts(r[k][0], d.last(), x);
                    lemma_key_order_facts(x, r[k][0], r[a][0]);
                    lemma_key_order_facts(r[a][0], x, r[k][0]);
                }
            }
            assert forall|i: int, j: int| 0 <= i < rs.len() && 0 <= j < rs[i].len() implies entry_key(#[trigger] rs[i][j]) == entry_key(rs[i][0]) by {
                if i < r.len() {
                    assert(rs[i] == r[i]);
                }
            }
            assert forall|a: int, b: int| 0 <= a < b < rs.len() implies key_le((#[trigger] rs[a])[0], (#[trigger] rs[b])[0])
                && entry_key(rs[a][0]) != entry_key(rs[b][0]) by {
                assert(rs[a] == r[a]);
                if b < r.len() {
                    assert(rs[b] == r[b]);
                } else {
                    assert(rs[b][0] == x);
                }
            }
            assert forall|m: int| 0 <= m < s.len() implies in_some_run(rs, #[trigger] s[m]) by {
                if m < d.len() {
                    assert(d[m] == s[m]);
                    let a = choose|a: int| 0 <= a < r.len() && (#[trigger] r[a]).contains(d[m]);
                    assert(rs[a] == r[a]);
                } else {
                    assert(rs[r.len() as int][0] == x);
                    assert(rs[r.len() as int].contains(s[m]));
                }
            }
        }
    }
}

/// Albums are grouped by key, album artist (else track artist) and album title (else
/// "Unknown Album"): each album holds entries of one key and no two albums share a key;
/// an album is kept for a key exactly when some entry with that key has lyrics, and then
/// every entry with that key is in it.
pub proof fn lemma_albums_grouped_by_key(es: Seq<EntryView>, e: EntryView)
    ensures
        ({
            let gs = album_groups(es);
            &&& forall|i: int, j: int| 0 <= i < gs.len() && 0 <= j < gs[i].len() ==> entry_key(#[trigger] gs[i][j]) == entry_key(gs[i][0])
            &&& forall|i: int| 0 <= i < gs.len() ==> (#[trigger] gs[i]).len() > 0 && group_has_lyrics(gs[i])
            &&& forall|a: int, b: int| 0 <= a < b < gs.len() ==> entry_key((#[trigger] gs[a])[0]) != entry_key((#[trigger] gs[b])[0])
            &&& es.contains(e) && (exists|f: EntryView| #[trigger] es.contains(f) && entry_key(f) == entry_key(e) && f.state.spec_has_lyrics())
                ==> exists|i: int| 0 <= i < gs.len() && (#[trigger] gs[i]).contains(e)
        }),
{
    let le = key_le_fn();
    assert(crate::order::total_preorder(le)) by {
        assert forall|a: EntryView, b: EntryView| #[trigger] le(a, b) || le(b, a) by {
            lemma_key_order_facts(a, b, b);
        }
        assert forall|a: EntryView, b: EntryView, c: EntryView| #[trigger] le(a, b) && #[trigger] le(b, c) implies le(a, c) by {
            lemma_key_order_facts(a, b, c);
        }
    }
    let sorted = sort_by(es, le);
    crate::order::lemma_sort_by_sorted(es, le);
    lemma_runs_of_sorted_keys(sorted);
    let rs = runs(sorted, entry_key_fn());
    lemma_albums_kept_exactly_with_lyrics(rs);
    let gs = lyric_groups(rs);
    lemma_lyric_groups_from_runs(rs);
    assert forall|i: int, j: int| 0 <= i < gs.len() && 0 <= j < gs[i].len() implies entry_key(#[trigger] gs[i][j]) == entry_key(gs[i][0]) by {
        let a = choose|a: int| 0 <= a < rs.len() && rs[a] == gs[i];
        assert(rs[a][j] == gs[i][j]);
    }
    assert forall|i: int| 0 <= i < gs.len() implies (#[trigger] gs[i]).len() > 0 && group_has_lyrics(gs[i]) by {
        let a = choose|a: int| 0 <= a < rs.len() && rs[a] == gs[i];
        assert(rs[a].len() > 0);
    }
    assert forall|a: int, b: int| 0 <= a < b < gs.len() implies entry_key((#[trigger] gs[a])[0]) != entry_key((#[trigger] gs[b])[0]) by {
        let (x, y) = choose|x: int, y: int| 0 <= x < y < rs.len() && rs[x] == gs[a] && rs[y] == gs[b];
        assert(key_le(rs[x][0], rs[y][0]));
    }
    if es.contains(e) && (exists|f: EntryView| #[trigger] es.contains(f) && entry_key(f) == entry_key(e) && f.state.spec_has_lyrics()) {
        let f = choose|f: EntryView| #[trigger] es.contains(f) && entry_key(f) == entry_key(e) && f.state.spec_has_lyrics();
        crate::order::lemma_sort_by_contains(es, le, e);
        crate::order::lemma_sort_by_contains(es, le, f);
        let ke = choose|k: int| 0 <= k < sorted.len() && sorted[k] == e;
        let kf = choose|k: int| 0 <= k < sorted.len() && sorted[k] == f;
        let a = choose|a: int| 0 <= a < rs.len() && (#[trigger] rs[a]).contains(sorted[ke]);
        let b = choose|b: int| 0 <= b < rs.len() && (#[trigger] rs[b]).contains(sorted[kf]);
        let qa = choose|q: int| 0 <= q < rs[a].len() && rs[a][q] == e;
        let qb = choose|q: int| 0 <= q < rs[b].len() && rs[b][q] == f;
        assert(entry_key(rs[a][qa]) == entry_key(rs[a][0]));
        assert(entry_key(rs[b][qb]) == entry_key(rs[b][0]));
        if a < b {
            assert(entry_key(rs[a][0]) != entry_key(rs[b][0]));
        } else if b < a {
            assert(entry_key(rs[b][0]) != entry_key(rs[a][0]));
        }
        assert(a == b);
        assert(group_has_lyrics(rs[a]));
        assert(gs.contains(rs[a]));
        let i = choose|i: int| 0 <= i < gs.len() && gs[i] == rs[a];
        assert(gs[i].contains(e));
        assert(exists|i: int| 0 <= i < gs.len() && (#[trigger] gs[i]).contains(e));
    }
    assert(gs == album_groups(es));
}

proof fn lemma_lyric_tracks_positive(ts: Seq<TrackView>, i: int)
    requires
        0 <= i < ts.len(),
        ts[i].state.spec_has_lyrics(),
    ensures
        lyric_tracks(ts) >= 1,
    decreases ts.len(),
{
    lemma_lyric_tracks_bound(ts.drop_last());
    if i < ts.len() - 1 {
        assert(ts.drop_last()[i] == ts[i]);
        lemma_lyric_tracks_positive(ts.drop_last(), i);
    }
}

proof fn lemma_disc_lyric_total_positive(ds: Seq<DiscView>, d: int)
    requires
        0 <= d < ds.len(),
        lyric_tracks(ds[d].tracks) >= 1,
    ensures
        disc_lyric_total(ds) >= 1,
    decreases ds.len(),
{
    lemma_disc_totals_nonneg(ds.drop_last());
    lemma_lyric_tracks_bound(ds.last().tracks);
    if d < ds.len() - 1 {
        assert(ds.drop_last()[d] == ds[d]);
        lemma_disc_lyric_total_positive(ds.drop_last(), d);
    }
}

/// An album made of entries of which one has lyrics has a track with lyrics.
pub proof fn lemma_album_with_lyrics_has_lyric_pages(artist: Seq<char>, title: Seq<char>, es: Seq<EntryView>)
    requires
        group_has_lyrics(es),
    ensures
        disc_lyric_total(spec_build_album(artist, title, es).discs) >= 1,
{
    let i = choose|i: int| 0 <= i < es.len() && (#[trigger] es[i]).state.spec_has_lyrics();
    let e = es[i];
    let sorted = sort_by(es, disc_le_fn());
    crate::order::lemma_sort_by_contains(es, disc_le_fn(), e);
    crate::order::lemma_runs_members(sorted, entry_disc_fn(), e);
    let rs = runs(sorted, entry_disc_fn());
    let a = choose|a: int| 0 <= a < rs.len() && (#[trigger] rs[a]).contains(e);
    let g = rs[a];
    crate::order::lemma_sort_by_contains(g, track_le_fn(), e);
    let tg = sort_by(g, track_le_fn());
    let j = choose|j: int| 0 <= j < tg.len() && tg[j] == e;
    let album = spec_build_album(artist, title, es);
    assert(album.discs[a] == run_disc(g));
    let ts = run_disc(g).tracks;
    assert(ts[j] == entry_track(e));
    lemma_lyric_tracks_positive(ts, j);
    lemma_disc_lyric_total_positive(album.discs, a);
}

/// Every album in a collected book has at least one track with lyrics.
pub proof fn lemma_every_album_has_lyrics(fs: Seq<FoundView>, k: int, m: int)
    requires
        0 <= k < spec_collect(fs).artists.len(),
        0 <= m < spec_collect(fs).artists[k].albums.len(),
    ensures
        disc_lyric_total(spec_collect(fs).artists[k].albums[m].discs) >= 1,
{
    let es = found_entries(fs);
    let gs = album_groups(es);
    let albums = gs.map_values(|g: Seq<EntryView>| group_album(g));
    let sorted = sort_by(albums, album_artist_le_fn());
    let by_artist = runs(sorted, album_artist_fn());
    let chapters = by_artist.map_values(|g: Seq<AlbumView>| run_artist(g));
    let c = spec_collect(fs).artists[k];
    assert(sort_by(chapters, artist_le_fn())[k] == c);
    crate::order::lemma_sort_by_contains(chapters, artist_le_fn(), c);
    assert(sort_by(chapters, artist_le_fn()).contains(c));
    let q = choose|q: int| 0 <= q < chapters.len() && chapters[q] == c;
    let x = c.albums[m];
    assert(c.albums == sort_by(by_artist[q], album_le_fn()));
    crate::order::lemma_sort_by_contains(by_artist[q], album_le_fn(), x);
    assert(c.albums.contains(x));
    assert(by_artist[q].contains(x));
    crate::order::lemma_runs_members(sorted, album_artist_fn(), x);
    assert(crate::order::in_some(by_artist, x));
    crate::order::lemma_sort_by_contains(albums, album_artist_le_fn(), x);
    let t = choose|t: int| 0 <= t < albums.len() && albums[t] == x;
    let g = gs[t];
    assert(x == group_album(g));
    lemma_albums_kept_exactly_with_lyrics(runs(sort_by(es, key_le_fn()), entry_key_fn()));
    assert(group_has_lyrics(g));
    lemma_album_with_lyrics_has_lyric_pages(entry_album_artist(g[0]), entry_album_title(g[0]), g);
}

/// Runs of entries by disc number, each run holding one number, the numbers strictly
/// increasing from run to run.
pub open spec fn disc_runs_ascending(rs: Seq<Seq<EntryView>>) -> bool {
    &&& forall|i: int| 0 <= i < rs.len() ==> (#[trigger] rs[i]).len() > 0
    &&& forall|i: int, j: int| 0 <= i < rs.len() && 0 <= j < rs[i].len() ==> entry_disc(#[trigger] rs[i][j]) == entry_disc(rs[i][0])
    &&& forall|a: int, b: int| 0 <= a < b < rs.len() ==> entry_disc((#[trigger] rs[a])[0]) < entry_disc((#[trigger] rs[b])[0])
}

proof fn lemma_runs_of_sorted_discs(s: Seq<EntryView>)
    requires
        crate::order::sorted_by(s, disc_le_fn()),
    ensures
        disc_runs_ascending(runs(s, entry_disc_fn())),
        s.len() > 0 ==> runs(s, entry_disc_fn()).len() > 0 && entry_disc(runs(s, entry_disc_fn()).last()[0]) <= entry_disc(s.last()),
        s.len() > 0 ==> runs(s, entry_disc_fn()).last().last() == s.last(),
    decreases s.len(),
{
    if s.len() > 0 {
        let d = s.drop_last();
        let x = s.last();
        assert forall|i: int, j: int| 0 <= i < j < d.len() implies (disc_le_fn())(#[trigger] d[i], #[trigger] d[j]) by {
            assert(d[i] == s[i] && d[j] == s[j]);
        }
        lemma_runs_of_sorted_discs(d);
        let r = runs(d, entry_disc_fn());
        let rs = runs(s, entry_disc_fn());
        if d.len() > 0 {
            assert((disc_le_fn())(s[d.len() - 1], s[s.len() - 1]));
        }
        if r.len() > 0 && entry_disc(r.last().last()) == entry_disc(x) {
            let k = r.len() - 1;
            assert(rs == r.update(k, r.last().push(x)));
            assert forall|i: int, j: int| 0 <= i < rs.len() && 0 <= j < rs[i].len() implies entry_disc(#[trigger] rs[i][j]) == entry_disc(rs[i][0]) by {
                if i < k {
                    assert(rs[i] == r[i]);
                } else if j < r[k].len() {
                    assert(rs[i][j] == r[k][j]);
                    assert(rs[i][0] == r[k][0]);
                } else {
                    assert(rs[i][j] == x);
                    assert(rs[i][0] == r[k][0]);
                    assert(entry_disc(r[k][r[k].len() - 1]) == entry_disc(r[k][0]));
                }
            }
            assert forall|a: int, b: int| 0 <= a < b < rs.len() implies entry_disc((#[trigger] rs[a])[0]) < entry_disc((#[trigger] rs[b])[0]) by {
                assert(rs[a][0] == r[a][0]);
                assert(rs[b][0] == r[b][0]);
            }
        } else {
            assert(rs == r.push(seq![x]));
            if r.len() > 0 {
                let k = r.len() - 1;
                assert(entry_disc(r[k][r[k].len() - 1]) == entry_disc(r[k][0]));
                assert(entry_disc(r[k][0]) < entry_disc(x));
            }
            assert forall|i: int, j: int| 0 <= i < rs.len() && 0 <= j < rs[i].len() implies entry_disc(#[trigger] rs[i][j]) == entry_disc(rs[i][0]) by {
                if i < r.len() {
                    assert(rs[i] == r[i]);
                }
            }
            assert forall|a: int, b: int| 0 <= a < b < rs.len() implies entry_disc((#[trigger] rs[a])[0]) < entry_disc((#[trigger] rs[b])[0]) by {
                assert(rs[a] == r[a]);
                if b < r.len() {
                    assert(rs[b] == r[b]);
                } else {
                    assert(rs[b][0] == x);
                    if a < r.len() - 1 {
                        assert(entry_disc(r[a][0]) < entry_disc(r[r.len() - 1][0]));
                    }
                }
            }
        }
    }
}

/// An album's discs come in strictly ascending number, and each disc is made of exactly the
/// entries with its number, an untagged disc number counting as disc 1.
pub proof fn lemma_discs_in_ascending_order(artist: Seq<char>, title: Seq<char>, es: Seq<EntryView>)
    ensures
        ({
            let a = spec_build_album(artist, title, es);
            let rs = runs(sort_by(es, disc_le_fn()), entry_disc_fn());
            &&& a.discs.len() == rs.len()
            &&& forall|x: int, y: int| 0 <= x < y < a.discs.len() ==> (#[trigger] a.discs[x]).number < (#[trigger] a.discs[y]).number
            &&& forall|k: int, j: int| 0 <= k < rs.len() && 0 <= j < rs[k].len() ==> entry_disc(#[trigger] rs[k][j]) == a.discs[k].number
        }),
{
    let le = disc_le_fn();
    assert(crate::order::total_preorder(le));
    crate::order::lemma_sort_by_sorted(es, le);
    let sorted = sort_by(es, le);
    lemma_runs_of_sorted_discs(sorted);
    let rs = runs(sorted, entry_disc_fn());
    let a = spec_build_album(artist, title, es);
    assert forall|k: int| 0 <= k < rs.len() implies (#[trigger] a.discs[k]).number == entry_disc(rs[k][0]) by {
        assert(a.discs[k] == run_disc(rs[k]));
    }
    assert forall|x: int, y: int| 0 <= x < y < a.discs.len() implies (#[trigger] a.discs[x]).number < (#[trigger] a.discs[y]).number by {
        assert(a.discs[x].number == entry_disc(rs[x][0]));
        assert(a.discs[y].number == entry_disc(rs[y][0]));
    }
    assert forall|k: int, j: int| 0 <= k < rs.len() && 0 <= j < rs[k].len() implies entry_disc(#[trigger] rs[k][j]) == a.discs[k].number by {
        assert(a.discs[k].number == entry_disc(rs[k][0]));
    }
}

/// A track's place in its disc's order: its number, tracks without one last.
pub open spec fn track_key(t: TrackView) -> u32 {
    match t.number {
        Some(n) => n,
        None => u32::MAX,
    }
}

pub open spec fn disc_in_track_order(d: DiscView) -> bool {
    forall|a: int, b: int| 0 <= a < b < d.tracks.len() ==> track_key(#[trigger] d.tracks[a]) <= track_key(#[trigger] d.tracks[b])
}

pub open spec fn album_in_track_order(a: AlbumView) -> bool {
    forall|k: int| 0 <= k < a.discs.len() ==> disc_in_track_order(#[trigger] a.discs[k])
}

pub open spec fn artist_in_track_order(a: ArtistView) -> bool {
    forall|k: int| 0 <= k < a.albums.len() ==> album_in_track_order(#[trigger] a.albums[k])
}

proof fn lemma_track_order_is_total_preorder()
    ensures
        crate::order::total_preorder(track_le_fn()),
{
    let le = track_le_fn();
    assert forall|a: EntryView, b: EntryView| #[trigger] le(a, b) || le(b, a) by {
        crate::path::lemma_path_order_laws(a.path, b.path, b.path);
    }
    assert forall|a: EntryView, b: EntryView, c: EntryView| #[trigger] le(a, b) && #[trigger] le(b, c) implies le(a, c) by {
        crate::path::lemma_path_order_laws(a.path, b.path, c.path);
    }
}

proof fn lemma_disc_in_track_order(g: Seq<EntryView>)
    ensures
        disc_in_track_order(run_disc(g)),
{
    lemma_track_order_is_total_preorder();
    crate::order::lemma_sort_by_sorted(g, track_le_fn());
    let sorted = sort_by(g, track_le_fn());
    let d = run_disc(g);
    assert forall|a: int, b: int| 0 <= a < b < d.tracks.len() implies track_key(#[trigger] d.tracks[a]) <= track_key(#[trigger] d.tracks[b]) by {
        assert(d.tracks[a] == entry_track(sorted[a]));
        assert(d.tracks[b] == entry_track(sorted[b]));
        assert(track_le(sorted[a], sorted[b]));
    }
}

/// Whatever the entries, every disc of the album they make lists its tracks in track-number
/// order, tracks without a number last.
pub proof fn lemma_album_in_track_order(artist: Seq<char>, title: Seq<char>, es: Seq<EntryView>)
    ensures
        album_in_track_order(spec_build_album(artist, title, es)),
{
    let rs = runs(sort_by(es, disc_le_fn()), entry_disc_fn());
    let a = spec_build_album(artist, title, es);
    assert forall|k: int| 0 <= k < a.discs.len() implies disc_in_track_order(#[trigger] a.discs[k]) by {
        assert(a.discs[k] == run_disc(rs[k]));
        lemma_disc_in_track_order(rs[k]);
    }
}

/// Within every disc of the book, the tracks come in track-number order, tracks without a
/// number last (and tracks of the same number by path).
pub proof fn lemma_tracks_in_number_order(fs: Seq<FoundView>, i: int, j: int, k: int)
    requires
        0 <= i < spec_collect(fs).artists.len(),
        0 <= j < spec_collect(fs).artists[i].albums.len(),
        0 <= k < spec_collect(fs).artists[i].albums[j].discs.len(),
    ensures
        disc_in_track_order(spec_collect(fs).artists[i].albums[j].discs[k]),
{
    let es = found_entries(fs);
    let albums = album_groups(es).map_values(|g: Seq<EntryView>| group_album(g));
    let pa = |a: AlbumView| album_in_track_order(a);
    assert forall|q: int| 0 <= q < albums.len() implies pa(#[trigger] albums[q]) by {
        let g = album_groups(es)[q];
        lemma_album_in_track_order(entry_album_artist(g[0]), entry_album_title(g[0]), g);
    }
    let sorted = sort_by(albums, album_artist_le_fn());
    crate::order::lemma_sort_by_all(albums, album_artist_le_fn(), pa);
    let by_artist = runs(sorted, album_artist_fn());
    crate::order::lemma_runs_all(sorted, album_artist_fn(), pa);
    let chapters = by_artist.map_values(|g: Seq<AlbumView>| run_artist(g));
    let pr = |a: ArtistView| artist_in_track_order(a);
    assert forall|q: int| 0 <= q < chapters.len() implies pr(#[trigger] chapters[q]) by {
        let g = by_artist[q];
        assert forall|t: int| 0 <= t < g.len() implies pa(#[trigger] g[t]) by {
            assert(pa(by_artist[q][t]));
        }
        crate::order::lemma_sort_by_all(g, album_le_fn(), pa);
        assert(chapters[q].albums == sort_by(g, album_le_fn()));
    }
    crate::order::lemma_sort_by_all(chapters, artist_le_fn(), pr);
    assert(pr(spec_collect(fs).artists[i]));
    assert(pa(spec_collect(fs).artists[i].albums[j]));
}

} // verus!
