//! Per-track orchestration: decide what to do with a track, step by step, and report it.
//!
//! Processing a track alternates outside work (reading its tags and sidecars, asking the
//! lyrics service, writing files) with decisions. The decisions are here, as a step function
//! from the job's phase and what the last piece of outside work found to the next phase and
//! the next piece of work; the caller does the work and feeds back what it found.
use vstd::prelude::*;

use crate::cli::Options;
use crate::http::{best_among, pick_best_candidate, record_views, LyricsRecord, LyricsRecordView};
use crate::meta::{
    is_audio_file, resolve, spec_is_audio_file, spec_resolve, spec_strip_trailing_markers,
    strip_trailing_markers, GuessedField, RawTags, RawTagsView, ResolvedMeta, TrackMeta,
    TrackMetaView,
};
use crate::order::sort_by;
use crate::path::{opt_string_view, path_order, path_order_of};
use crate::sidecar::{
    lemma_written_synced_lyrics_read_back_as_synced, spec_normalize, spec_sidecar_detail, spec_state_of,
    SidecarState,
};
use crate::stats::{pad_right, push_padded_right};
use crate::text::{decimal, is_blank, lines, push_char, push_decimal, push_str, trim};

verus! {

/// What happened when processing a single audio file.
#[derive(Debug, Clone, Copy, PartialEq, Eq, Structural)]
pub enum Outcome {
    /// Wrote a synced .lrc where nothing existed before.
    Fetched,
    /// Wrote a synced .lrc, replacing a plain .txt.
    Upgraded,
    /// Wrote a plain .txt.
    Plain,
    /// Wrote (or would have written) the instrumental marker.
    Instrumental,
    /// Already had a synced .lrc; nothing to do.
    Skipped,
    /// The service has nothing for this track.
    Missing,
    /// Title/artist could not be resolved from tags (and the path did not help, or was not
    /// asked to).
    Untagged,
    /// A record was found but carried no new information.
    NoChange,
}

pub open spec fn spec_label(o: Outcome) -> Seq<char> {
    match o {
        Outcome::Fetched => "fetched"@,
        Outcome::Upgraded => "upgraded"@,
        Outcome::Plain => "plain"@,
        Outcome::Instrumental => "instrumental"@,
        Outcome::Skipped => "skipped"@,
        Outcome::Missing => "missing"@,
        Outcome::Untagged => "untagged"@,
        Outcome::NoChange => "no-change"@,
    }
}

impl Outcome {
    pub fn label(self) -> (r: &'static str)
        ensures
            r@ == spec_label(self),
    {
        match self {
            Outcome::Fetched => "fetched",
            Outcome::Upgraded => "upgraded",
            Outcome::Plain => "plain",
            Outcome::Instrumental => "instrumental",
            Outcome::Skipped => "skipped",
            Outcome::Missing => "missing",
            Outcome::Untagged => "untagged",
            Outcome::NoChange => "no-change",
        }
    }
}

/// Tallies accumulated across a `scan` run, printed as the final summary line.
#[derive(Debug, Default, Clone, Copy, PartialEq, Eq, Structural)]
pub struct Summary {
    pub synced: u32,
    pub upgraded: u32,
    pub plain: u32,
    pub instrumental: u32,
    pub skipped: u32,
    pub missing: u32,
    pub untagged: u32,
    pub errors: u32,
}

pub open spec fn bump(n: u32) -> u32 {
    if n == u32::MAX {
        n
    } else {
        (n + 1) as u32
    }
}

/// The tallies after one more track with `outcome`: its counter up by one, saturating; a
/// no-change counts nowhere.
pub open spec fn spec_record(s: Summary, outcome: Outcome) -> Summary {
    match outcome {
        Outcome::Fetched => Summary { synced: bump(s.synced), ..s },
        Outcome::Upgraded => Summary { upgraded: bump(s.upgraded), ..s },
        Outcome::Plain => Summary { plain: bump(s.plain), ..s },
        Outcome::Instrumental => Summary { instrumental: bump(s.instrumental), ..s },
        Outcome::Skipped => Summary { skipped: bump(s.skipped), ..s },
        Outcome::Missing => Summary { missing: bump(s.missing), ..s },
        Outcome::Untagged => Summary { untagged: bump(s.untagged), ..s },
        Outcome::NoChange => s,
    }
}

pub open spec fn spec_summary_line(s: Summary) -> Seq<char> {
    "synced: "@ + decimal(s.synced as nat) + "  upgraded: "@ + decimal(s.upgraded as nat) + "  plain: "@
        + decimal(s.plain as nat) + "  instrumental: "@ + decimal(s.instrumental as nat)
        + "  skipped: "@ + decimal(s.skipped as nat) + "  missing: "@ + decimal(s.missing as nat)
        + "  untagged: "@ + decimal(s.untagged as nat) + "  errors: "@ + decimal(s.errors as nat)
}

pub open spec fn sat_sum(a: int, b: int) -> int {
    if a + b > u32::MAX {
        u32::MAX as int
    } else {
        a + b
    }
}

/// Tracks processed to an outcome, saturating.
pub open spec fn processed(s: Summary) -> int {
    sat_sum(sat_sum(sat_sum(sat_sum(sat_sum(sat_sum(s.synced as int, s.upgraded as int), s.plain as int), s.instrumental as int), s.skipped as int), s.missing as int), s.untagged as int)
}

impl Summary {
    /// Count one more track with `outcome`.
    pub fn record(&mut self, outcome: Outcome)
        ensures
            *final(self) == spec_record(*old(self), outcome),
    {
        match outcome {
            Outcome::Fetched => self.synced = self.synced.saturating_add(1),
            Outcome::Upgraded => self.upgraded = self.upgraded.saturating_add(1),
            Outcome::Plain => self.plain = self.plain.saturating_add(1),
            Outcome::Instrumental => self.instrumental = self.instrumental.saturating_add(1),
            Outcome::Skipped => self.skipped = self.skipped.saturating_add(1),
            Outcome::Missing => self.missing = self.missing.saturating_add(1),
            Outcome::Untagged => self.untagged = self.untagged.saturating_add(1),
            Outcome::NoChange => {},
        }
    }

    /// Count one more track that failed with an error.
    pub fn record_error(&mut self)
        ensures
            *final(self) == (Summary { errors: bump(old(self).errors), ..*old(self) }),
    {
        self.errors = self.errors.saturating_add(1);
    }

    /// The summary as a single line.
    pub fn line(&self) -> (r: String)
        ensures
            r@ == spec_summary_line(*self),
    {
        let mut out = String::new();
        push_str(&mut out, "synced: ");
        push_decimal(&mut out, self.synced as u64);
        push_str(&mut out, "  upgraded: ");
        push_decimal(&mut out, self.upgraded as u64);
        push_str(&mut out, "  plain: ");
        push_decimal(&mut out, self.plain as u64);
        push_str(&mut out, "  instrumental: ");
        push_decimal(&mut out, self.instrumental as u64);
        push_str(&mut out, "  skipped: ");
        push_decimal(&mut out, self.skipped as u64);
        push_str(&mut out, "  missing: ");
        push_decimal(&mut out, self.missing as u64);
        push_str(&mut out, "  untagged: ");
        push_decimal(&mut out, self.untagged as u64);
        push_str(&mut out, "  errors: ");
        push_decimal(&mut out, self.errors as u64);
        proof {
            assert(out@ =~= spec_summary_line(*self));
        }
        out
    }

    /// Whether the run went well enough: it fails only when there were errors and no track
    /// reached any outcome.
    pub fn succeeded(&self) -> (r: bool)
        ensures
            r == !(self.errors > 0 && processed(*self) == 0),
    {
        let total = self.synced.saturating_add(self.upgraded).saturating_add(self.plain).saturating_add(
            self.instrumental,
        ).saturating_add(self.skipped).saturating_add(self.missing).saturating_add(self.untagged);
        !(self.errors > 0 && total == 0)
    }
}

/// Every outcome but no-change raises exactly one counter, by one unless it is full.
pub proof fn lemma_record_counts_once(s: Summary, outcome: Outcome)
    ensures
        outcome == Outcome::NoChange ==> spec_record(s, outcome) == s,
        spec_record(s, outcome).errors == s.errors,
        processed(s) < u32::MAX && outcome != Outcome::NoChange && processed(s) + 1 <= u32::MAX
            ==> processed(spec_record(s, outcome)) >= processed(s),
{
}

// ---------------------------------------------------------------------------------------
// Log lines
// ---------------------------------------------------------------------------------------

/// Whether a line of verbosity `level` is printed: never when quiet, else when verbose
/// enough.
pub open spec fn shown(opts: Options, level: u8) -> bool {
    !opts.quiet && opts.verbose >= level
}

pub open spec fn logged(opts: Options, level: u8, msg: Seq<char>) -> Seq<Seq<char>> {
    if shown(opts, level) {
        seq![msg]
    } else {
        seq![]
    }
}

pub open spec fn string_views(v: Seq<String>) -> Seq<Seq<char>> {
    v.map_values(|s: String| s@)
}

fn log(opts: &Options, level: u8, msg: String, out: &mut Vec<String>)
    ensures
        string_views(final(out)@) == string_views(old(out)@) + logged(*opts, level, msg@),
{
    if !opts.quiet && opts.verbose >= level {
        let ghost before = string_views(out@);
        out.push(msg);
        proof {
            assert(string_views(out@) =~= before + seq![msg@]);
        }
    } else {
        proof {
            assert(string_views(out@) =~= string_views(out@) + Seq::<Seq<char>>::empty());
        }
    }
}

/// How `{:?}` shows a string: quoted, with quotes, backslashes and control characters
/// escaped. The escaping tables are std's.
pub uninterp spec fn debug_text(s: Seq<char>) -> Seq<char>;

/// `format!("{:?}", s)`. Claimed: the result is the string's `Debug` rendering, a function
/// of the string alone.
#[verifier::external_body]
fn debug_of(s: &str) -> (r: String)
    ensures
        r@ == debug_text(s@),
{
    format!("{:?}", s)
}

fn line_of(prefix: &str, tail: &str) -> (r: String)
    ensures
        r@ == prefix@ + tail@,
{
    let mut out = String::new();
    push_str(&mut out, prefix);
    push_str(&mut out, tail);
    proof {
        assert(out@ =~= prefix@ + tail@);
    }
    out
}

/// The value a guessed field got, as the log reports it: the album falls back to the title.
pub open spec fn guessed_value(m: TrackMetaView, f: GuessedField) -> Seq<char> {
    match f {
        GuessedField::Title => m.title,
        GuessedField::Artist => m.artist,
        GuessedField::Album => match m.album {
            Some(a) => a,
            None => m.title,
        },
    }
}

pub open spec fn guessed_lines(m: TrackMetaView, k: int) -> Seq<Seq<char>>
    decreases k,
{
    if k <= 0 || k > m.guessed.len() {
        seq![]
    } else {
        guessed_lines(m, k - 1) + seq![
            "  guessed "@ + m.guessed[k - 1].spec_label() + " from path: "@ + debug_text(
                guessed_value(m, m.guessed[k - 1]),
            ),
        ]
    }
}

// ---------------------------------------------------------------------------------------
// The step function
// ---------------------------------------------------------------------------------------

/// Where a track's processing stands.
pub enum TrackPhase {
    /// Waiting for the track's tags.
    Start,
    /// Tags resolved; waiting for the state of the track's sidecars.
    Resolved(TrackMeta),
    /// Waiting for the answer to an exact lookup; `retried` once the title markers have been
    /// stripped for a second try.
    Getting { meta: TrackMeta, state: SidecarState, retried: bool },
    /// Waiting for search candidates.
    Searching { meta: TrackMeta, state: SidecarState, retried: bool },
    /// Nothing left to do.
    Done,
}

pub enum TrackPhaseView {
    Start,
    Resolved(TrackMetaView),
    Getting { meta: TrackMetaView, state: SidecarState, retried: bool },
    Searching { meta: TrackMetaView, state: SidecarState, retried: bool },
    Done,
}

impl View for TrackPhase {
    type V = TrackPhaseView;

    open spec fn view(&self) -> TrackPhaseView {
        match self {
            TrackPhase::Start => TrackPhaseView::Start,
            TrackPhase::Resolved(m) => TrackPhaseView::Resolved(m@),
            TrackPhase::Getting { meta, state, retried } => TrackPhaseView::Getting { meta: meta@, state: *state, retried: *retried },
            TrackPhase::Searching { meta, state, retried } => TrackPhaseView::Searching { meta: meta@, state: *state, retried: *retried },
            TrackPhase::Done => TrackPhaseView::Done,
        }
    }
}

/// What the last piece of outside work found.
pub enum TrackEvent {
    /// The track's tags, cleaned up.
    Tags(RawTags),
    /// The state of the track's sidecars.
    Sidecar(SidecarState),
    /// The exact lookup's answer: a record, or none (404).
    Got(Option<LyricsRecord>),
    /// The search's candidates.
    Searched(Vec<LyricsRecord>),
}

pub enum TrackEventView {
    Tags(RawTagsView),
    Sidecar(SidecarState),
    Got(Option<LyricsRecordView>),
    Searched(Seq<LyricsRecordView>),
}

impl View for TrackEvent {
    type V = TrackEventView;

    open spec fn view(&self) -> TrackEventView {
        match self {
            TrackEvent::Tags(t) => TrackEventView::Tags(t@),
            TrackEvent::Sidecar(s) => TrackEventView::Sidecar(*s),
            TrackEvent::Got(r) => TrackEventView::Got(match r {
                Some(x) => Some(x@),
                None => None,
            }),
            TrackEvent::Searched(v) => TrackEventView::Searched(record_views(v@)),
        }
    }
}

/// A sidecar to write once the track is decided.
pub enum TrackWrite {
    /// Synced lyrics as the `.lrc`, dropping the `.txt` unless asked to keep it.
    Synced(String),
    /// Plain lyrics as the `.txt`.
    Plain(String),
    /// The instrumental marker as the `.lrc`, if there is still no sidecar.
    Marker,
}

pub enum TrackWriteView {
    Synced(Seq<char>),
    Plain(Seq<char>),
    Marker,
}

/// The next piece of outside work.
pub enum TrackAction {
    /// Read the state of the track's sidecars.
    ReadSidecar,
    /// Ask the service for this exact track.
    Get(TrackMeta),
    /// Search the service for this track.
    Search(TrackMeta),
    /// The track is decided: write this, if anything (nothing on a dry run), and report the
    /// outcome.
    Finish { outcome: Outcome, write: Option<TrackWrite> },
}

pub enum TrackActionView {
    ReadSidecar,
    Get(TrackMetaView),
    Search(TrackMetaView),
    Finish { outcome: Outcome, write: Option<TrackWriteView> },
}

impl View for TrackAction {
    type V = TrackActionView;

    open spec fn view(&self) -> TrackActionView {
        match self {
            TrackAction::ReadSidecar => TrackActionView::ReadSidecar,
            TrackAction::Get(m) => TrackActionView::Get(m@),
            TrackAction::Search(m) => TrackActionView::Search(m@),
            TrackAction::Finish { outcome, write } => TrackActionView::Finish {
                outcome: *outcome,
                write: match write {
                    Some(TrackWrite::Synced(s)) => Some(TrackWriteView::Synced(s@)),
                    Some(TrackWrite::Plain(s)) => Some(TrackWriteView::Plain(s@)),
                    Some(TrackWrite::Marker) => Some(TrackWriteView::Marker),
                    None => None,
                },
            },
        }
    }
}

/// Which event each phase waits for.
pub open spec fn expects(phase: TrackPhaseView, event: TrackEventView) -> bool {
    match (phase, event) {
        (TrackPhaseView::Start, TrackEventView::Tags(_)) => true,
        (TrackPhaseView::Resolved(_), TrackEventView::Sidecar(_)) => true,
        (TrackPhaseView::Getting { .. }, TrackEventView::Got(_)) => true,
        (TrackPhaseView::Searching { .. }, TrackEventView::Searched(_)) => true,
        _ => false,
    }
}

pub open spec fn non_blank(o: Option<Seq<char>>) -> Option<Seq<char>> {
    match o {
        Some(s) => if trim(s).len() > 0 {
            Some(s)
        } else {
            None
        },
        None => None,
    }
}

pub open spec fn finish(outcome: Outcome, write: Option<TrackWriteView>, dry_run: bool) -> TrackActionView {
    TrackActionView::Finish { outcome, write: if dry_run { None } else { write } }
}

/// What a found record means for the track: synced lyrics are written (an upgrade over a
/// plain sidecar); else plain lyrics are written, unless a plain sidecar is already there
/// and the run is not forced; else an instrumental gets the marker if the track has no
/// sidecar at all; else the track is missing.
pub open spec fn spec_decide(path: Seq<char>, r: LyricsRecordView, state: SidecarState, opts: Options) -> (TrackActionView, Seq<Seq<char>>) {
    match non_blank(r.synced_lyrics) {
        Some(synced) => {
            let outcome = if state == SidecarState::Plain {
                Outcome::Upgraded
            } else {
                Outcome::Fetched
            };
            (
                finish(outcome, Some(TrackWriteView::Synced(synced)), opts.dry_run),
                logged(opts, 0, pad_right(spec_label(outcome), 9) + seq![' '] + path),
            )
        },
        None => match non_blank(r.plain_lyrics) {
            Some(plain) => if state == SidecarState::Plain && !opts.force {
                (finish(Outcome::NoChange, None, opts.dry_run), logged(opts, 1, "no-change "@ + path))
            } else {
                (finish(Outcome::Plain, Some(TrackWriteView::Plain(plain)), opts.dry_run), logged(opts, 0, "plain     "@ + path))
            },
            None => if r.instrumental {
                if state == SidecarState::Absent {
                    (finish(Outcome::Instrumental, Some(TrackWriteView::Marker), opts.dry_run), logged(opts, 0, "instrumental "@ + path))
                } else {
                    (finish(Outcome::NoChange, None, opts.dry_run), seq![])
                }
            } else {
                (finish(Outcome::Missing, None, opts.dry_run), logged(opts, 1, "missing   "@ + path))
            },
        },
    }
}

/// After a lookup comes back with `found`: decide on a record; with none, try once more with
/// the title's trailing markers stripped, unless that was done, is turned off, or leaves
/// nothing to strip; else the track is missing.
pub open spec fn spec_after_lookup(
    path: Seq<char>,
    meta: TrackMetaView,
    state: SidecarState,
    retried: bool,
    found: Option<LyricsRecordView>,
    opts: Options,
) -> (TrackPhaseView, TrackActionView, Seq<Seq<char>>) {
    match found {
        Some(r) => {
            let (a, l) = spec_decide(path, r, state, opts);
            (TrackPhaseView::Done, a, l)
        },
        None => {
            let stripped = spec_strip_trailing_markers(meta.title);
            if !retried && !opts.no_marker_fallback && stripped is Some {
                let alt = TrackMetaView { title: stripped->0, ..meta };
                (
                    TrackPhaseView::Getting { meta: alt, state, retried: true },
                    TrackActionView::Get(alt),
                    logged(opts, 1, "  retrying without title markers: "@ + debug_text(stripped->0)),
                )
            } else {
                (TrackPhaseView::Done, finish(Outcome::Missing, None, opts.dry_run), logged(opts, 1, "missing   "@ + path))
            }
        },
    }
}

/// One step of processing the track at `path`: from its phase and what the last piece of
/// outside work found, the next phase, the next piece of work, and the log lines to print.
pub open spec fn spec_process_track(path: Seq<char>, phase: TrackPhaseView, event: TrackEventView, opts: Options) -> (TrackPhaseView, TrackActionView, Seq<Seq<char>>) {
    match (phase, event) {
        (TrackPhaseView::Start, TrackEventView::Tags(raw)) => match spec_resolve(path, raw, opts.path_fallback) {
            None => (TrackPhaseView::Done, finish(Outcome::Untagged, None, opts.dry_run), logged(opts, 1, "untagged  "@ + path)),
            Some(m) => (
                TrackPhaseView::Resolved(m),
                TrackActionView::ReadSidecar,
                if shown(opts, 1) {
                    guessed_lines(m, m.guessed.len() as int)
                } else {
                    seq![]
                },
            ),
        },
        (TrackPhaseView::Resolved(m), TrackEventView::Sidecar(state)) => if state == SidecarState::Synced && !opts.force {
            (TrackPhaseView::Done, finish(Outcome::Skipped, None, opts.dry_run), logged(opts, 1, "skipped   "@ + path))
        } else {
            (TrackPhaseView::Getting { meta: m, state, retried: false }, TrackActionView::Get(m), seq![])
        },
        (TrackPhaseView::Getting { meta, state, retried }, TrackEventView::Got(found)) => if found is None && !opts.no_search_fallback {
            (TrackPhaseView::Searching { meta, state, retried }, TrackActionView::Search(meta), seq![])
        } else {
            spec_after_lookup(path, meta, state, retried, found, opts)
        },
        (TrackPhaseView::Searching { meta, state, retried }, TrackEventView::Searched(cs)) => {
            let best = best_among(cs, cs.len() as int, meta.duration, meta.album, opts.duration_tolerance);
            spec_after_lookup(path, meta, state, retried, match best {
                Some(i) => Some(cs[i]),
                None => None,
            }, opts)
        },
        _ => (phase, TrackActionView::ReadSidecar, seq![]),
    }
}

fn clone_opt(o: &Option<String>) -> (r: Option<String>)
    ensures
        opt_string_view(r) == opt_string_view(*o),
{
    match o {
        Some(s) => Some(s.clone()),
        None => None,
    }
}

fn meta_copy(m: &TrackMeta, title: String) -> (r: TrackMeta)
    ensures
        r@ == (TrackMetaView { title: title@, ..m@ }),
{
    let mut guessed: Vec<GuessedField> = Vec::new();
    let mut i: usize = 0;
    while i < m.guessed.len()
        invariant
            i <= m.guessed.len(),
            guessed@ == m.guessed@.take(i as int),
        decreases m.guessed.len() - i,
    {
        guessed.push(m.guessed[i]);
        proof {
            assert(guessed@ =~= m.guessed@.take(i as int + 1));
        }
        i = i + 1;
    }
    proof {
        assert(guessed@ =~= m.guessed@);
    }
    TrackMeta {
        path: m.path.clone(),
        title,
        artist: m.artist.clone(),
        album: clone_opt(&m.album),
        duration: m.duration,
        album_artist: clone_opt(&m.album_artist),
        track_number: m.track_number,
        disc_number: m.disc_number,
        year: m.year,
        guessed,
    }
}

fn owned(s: &str) -> (r: String)
    ensures
        r@ == s@,
{
    let mut out = String::new();
    push_str(&mut out, s);
    proof {
        assert(out@ =~= s@);
    }
    out
}

fn non_blank_of(o: &Option<String>) -> (r: Option<String>)
    ensures
        opt_string_view(r) == non_blank(opt_string_view(*o)),
{
    match o {
        Some(s) => if is_blank(s.as_str()) {
            None
        } else {
            Some(s.clone())
        },
        None => None,
    }
}

fn finish_of(outcome: Outcome, write: Option<TrackWrite>, dry_run: bool) -> (r: TrackAction)
    ensures
        r@ == finish(outcome, match write {
            Some(TrackWrite::Synced(s)) => Some(TrackWriteView::Synced(s@)),
            Some(TrackWrite::Plain(s)) => Some(TrackWriteView::Plain(s@)),
            Some(TrackWrite::Marker) => Some(TrackWriteView::Marker),
            None => None,
        }, dry_run),
{
    TrackAction::Finish { outcome, write: if dry_run {
        None
    } else {
        write
    } }
}

fn decide(path: &str, r: &LyricsRecord, state: SidecarState, opts: &Options, logs: &mut Vec<String>) -> (a: TrackAction)
    ensures
        ({
            let (sa, sl) = spec_decide(path@, r@, state, *opts);
            a@ == sa && string_views(final(logs)@) == string_views(old(logs)@) + sl
        }),
{
    match non_blank_of(&r.synced_lyrics) {
        Some(synced) => {
            let outcome = if state == SidecarState::Plain {
                Outcome::Upgraded
            } else {
                Outcome::Fetched
            };
            let mut msg = String::new();
            push_padded_right(&mut msg, outcome.label(), 9);
            push_char(&mut msg, ' ');
            push_str(&mut msg, path);
            assert(msg@ =~= pad_right(spec_label(outcome), 9) + seq![' '] + path@);
            log(opts, 0, msg, logs);
            finish_of(outcome, Some(TrackWrite::Synced(synced)), opts.dry_run)
        },
        None => match non_blank_of(&r.plain_lyrics) {
            Some(plain) => if state == SidecarState::Plain && !opts.force {
                log(opts, 1, line_of("no-change ", path), logs);
                finish_of(Outcome::NoChange, None, opts.dry_run)
            } else {
                log(opts, 0, line_of("plain     ", path), logs);
                finish_of(Outcome::Plain, Some(TrackWrite::Plain(plain)), opts.dry_run)
            },
            None => if r.instrumental {
                if state == SidecarState::Absent {
                    log(opts, 0, line_of("instrumental ", path), logs);
                    finish_of(Outcome::Instrumental, Some(TrackWrite::Marker), opts.dry_run)
                } else {
                    proof {
                        assert(string_views(logs@) =~= string_views(logs@) + Seq::<Seq<char>>::empty());
                    }
                    finish_of(Outcome::NoChange, None, opts.dry_run)
                }
            } else {
                log(opts, 1, line_of("missing   ", path), logs);
                finish_of(Outcome::Missing, None, opts.dry_run)
            },
        },
    }
}

fn after_lookup(path: &str, meta: TrackMeta, state: SidecarState, retried: bool, found: Option<LyricsRecord>, opts: &Options, logs: &mut Vec<String>) -> (r: (TrackPhase, TrackAction))
    ensures
        ({
            let (sp, sa, sl) = spec_after_lookup(path@, meta@, state, retried, match found {
                Some(x) => Some(x@),
                None => None,
            }, *opts);
            r.0@ == sp && r.1@ == sa && string_views(final(logs)@) == string_views(old(logs)@) + sl
        }),
{
    match found {
        Some(rec) => {
            let a = decide(path, &rec, state, opts, logs);
            (TrackPhase::Done, a)
        },
        None => {
            let stripped = if !retried && !opts.no_marker_fallback {
                strip_trailing_markers(meta.title.as_str())
            } else {
                None
            };
            match stripped {
                Some(t) => {
                    let shown_title = debug_of(t.as_str());
                    log(opts, 1, line_of("  retrying without title markers: ", shown_title.as_str()), logs);
                    let alt = meta_copy(&meta, t);
                    let again = meta_copy(&alt, alt.title.clone());
                    (TrackPhase::Getting { meta: alt, state, retried: true }, TrackAction::Get(again))
                },
                None => {
                    log(opts, 1, line_of("missing   ", path), logs);
                    (TrackPhase::Done, finish_of(Outcome::Missing, None, opts.dry_run))
                },
            }
        },
    }
}

fn guessed_log(m: &TrackMeta, opts: &Options, logs: &mut Vec<String>)
    requires
        shown(*opts, 1),
    ensures
        string_views(final(logs)@) == string_views(old(logs)@) + guessed_lines(m@, m@.guessed.len() as int),
{
    let ghost start = string_views(logs@);
    let mut k: usize = 0;
    while k < m.guessed.len()
        invariant
            k <= m.guessed.len(),
            shown(*opts, 1),
            string_views(logs@) == start + guessed_lines(m@, k as int),
        decreases m.guessed.len() - k,
    {
        let f = m.guessed[k];
        let value: &str = match f {
            GuessedField::Title => m.title.as_str(),
            GuessedField::Artist => m.artist.as_str(),
            GuessedField::Album => match &m.album {
                Some(a) => a.as_str(),
                None => m.title.as_str(),
            },
        };
        let shown_value = debug_of(value);
        let mut msg = String::new();
        push_str(&mut msg, "  guessed ");
        push_str(&mut msg, f.label());
        push_str(&mut msg, " from path: ");
        push_str(&mut msg, shown_value.as_str());
        let ghost mv = msg@;
        log(opts, 1, msg, logs);
        proof {
            assert(mv =~= "  guessed "@ + f.spec_label() + " from path: "@ + debug_text(guessed_value(m@, m@.guessed[k as int])));
            assert(string_views(logs@) =~= start + guessed_lines(m@, k as int + 1));
        }
        k = k + 1;
    }
}

/// One step of processing the track at `path`: given its phase and what the last piece of
/// outside work found (the event the phase waits for), the next phase and the next piece of
/// work, with the log lines to print appended to `logs`.
pub fn process_track(path: &str, phase: TrackPhase, event: TrackEvent, opts: &Options, logs: &mut Vec<String>) -> (r: (TrackPhase, TrackAction))
    requires
        expects(phase@, event@),
    ensures
        ({
            let (sp, sa, sl) = spec_process_track(path@, phase@, event@, *opts);
            r.0@ == sp && r.1@ == sa && string_views(final(logs)@) == string_views(old(logs)@) + sl
        }),
{
    let ghost pv = phase@;
    let ghost ev = event@;
    let ghost l0 = string_views(logs@);
    match (phase, event) {
        (TrackPhase::Start, TrackEvent::Tags(raw)) => match resolve(path, raw, opts.path_fallback) {
            ResolvedMeta::Untagged => {
                log(opts, 1, line_of("untagged  ", path), logs);
                let r = (TrackPhase::Done, finish_of(Outcome::Untagged, None, opts.dry_run));
                assert(r.0@ == spec_process_track(path@, pv, ev, *opts).0);
                assert(r.1@ == spec_process_track(path@, pv, ev, *opts).1);
                assert(string_views(logs@) == l0 + spec_process_track(path@, pv, ev, *opts).2);
                r
            },
            ResolvedMeta::Tagged(m) => {
                if !opts.quiet && opts.verbose >= 1 {
                    guessed_log(&m, opts, logs);
                } else {
                    proof {
                        assert(string_views(logs@) =~= string_views(logs@) + Seq::<Seq<char>>::empty());
                    }
                }
                let r = (TrackPhase::Resolved(m), TrackAction::ReadSidecar);
                assert(r.0@ == spec_process_track(path@, pv, ev, *opts).0);
                assert(r.1@ == spec_process_track(path@, pv, ev, *opts).1);
                assert(string_views(logs@) == l0 + spec_process_track(path@, pv, ev, *opts).2);
                r
            },
        },
        (TrackPhase::Resolved(m), TrackEvent::Sidecar(state)) => {
            if state == SidecarState::Synced && !opts.force {
                log(opts, 1, line_of("skipped   ", path), logs);
                (TrackPhase::Done, finish_of(Outcome::Skipped, None, opts.dry_run))
            } else {
                proof {
                    assert(string_views(logs@) =~= string_views(logs@) + Seq::<Seq<char>>::empty());
                }
                let again = meta_copy(&m, m.title.clone());
                (TrackPhase::Getting { meta: m, state, retried: false }, TrackAction::Get(again))
            }
        },
        (TrackPhase::Getting { meta, state, retried }, TrackEvent::Got(found)) => {
            if found.is_none() && !opts.no_search_fallback {
                proof {
                    assert(string_views(logs@) =~= string_views(logs@) + Seq::<Seq<char>>::empty());
                }
                let again = meta_copy(&meta, meta.title.clone());
                (TrackPhase::Searching { meta, state, retried }, TrackAction::Search(again))
            } else {
                after_lookup(path, meta, state, retried, found, opts, logs)
            }
        },
        (TrackPhase::Searching { meta, state, retried }, TrackEvent::Searched(cs)) => {
            let album: Option<&str> = match &meta.album {
                Some(a) => Some(a.as_str()),
                None => None,
            };
            let best = pick_best_candidate(&cs, meta.duration, album, opts.duration_tolerance);
            proof {
                let bi = best_among(record_views(cs@), cs@.len() as int, meta.duration, meta@.album, opts.duration_tolerance);
                if let Some(i) = bi {
                    crate::http::lemma_best_is_best(record_views(cs@), cs@.len() as int, meta.duration, meta@.album, opts.duration_tolerance);
                    assert(record_views(cs@)[i] == cs@[i]@);
                }
                assert(match album {
                    Some(a) => Some(a@),
                    None => None,
                } == meta@.album);
            }
            let r = after_lookup(path, meta, state, retried, best, opts, logs);
            assert(r.0@ == spec_process_track(path@, pv, ev, *opts).0);
            assert(r.1@ == spec_process_track(path@, pv, ev, *opts).1);
            r
        },
        (phase, _) => {
            proof {
                assert(false);
            }
            (phase, TrackAction::ReadSidecar)
        },
    }
}

/// A track that already has synced lyrics is skipped without asking the service, unless the
/// run is forced.
pub proof fn lemma_synced_tracks_are_skipped(path: Seq<char>, m: TrackMetaView, opts: Options)
    requires
        !opts.force,
    ensures
        spec_process_track(path, TrackPhaseView::Resolved(m), TrackEventView::Sidecar(SidecarState::Synced), opts).0 == TrackPhaseView::Done,
        spec_process_track(path, TrackPhaseView::Resolved(m), TrackEventView::Sidecar(SidecarState::Synced), opts).1 == finish(Outcome::Skipped, None, opts.dry_run),
{
}

/// Running again is safe: once a run has written synced lyrics (lyrics with a timestamp line)
/// for a track, the next run reads its sidecar back as synced and skips the track without a
/// lookup, unless forced.
pub proof fn lemma_rerun_skips_what_was_synced(
    path: Seq<char>,
    m: TrackMetaView,
    lyrics: Seq<char>,
    k: int,
    txt_exists: bool,
    opts: Options,
)
    requires
        !opts.force,
        0 <= k < lines(lyrics).len(),
        crate::sidecar::spec_is_timestamp_line(lines(lyrics)[k]),
    ensures
        ({
            let state = spec_state_of(spec_sidecar_detail(true, Some(spec_normalize(lyrics)), txt_exists));
            let (phase, action, _) = spec_process_track(path, TrackPhaseView::Resolved(m), TrackEventView::Sidecar(state), opts);
            phase == TrackPhaseView::Done && action == finish(Outcome::Skipped, None, opts.dry_run)
        }),
{
    lemma_written_synced_lyrics_read_back_as_synced(lyrics, k, txt_exists);
}

/// How many steps a track can still take from a phase.
pub open spec fn steps_left(phase: TrackPhaseView) -> nat {
    match phase {
        TrackPhaseView::Start => 6,
        TrackPhaseView::Resolved(_) => 5,
        TrackPhaseView::Getting { retried, .. } => if retried { 2 } else { 4 },
        TrackPhaseView::Searching { retried, .. } => if retried { 1 } else { 3 },
        TrackPhaseView::Done => 0,
    }
}

/// Processing a track always finishes: every step on the event its phase waits for moves to
/// a phase with fewer steps left, so a track is done after at most six steps, and a step
/// that asks for no more outside work ends it.
pub proof fn lemma_every_track_finishes(path: Seq<char>, phase: TrackPhaseView, event: TrackEventView, opts: Options)
    requires
        expects(phase, event),
    ensures
        steps_left(spec_process_track(path, phase, event, opts).0) < steps_left(phase),
        spec_process_track(path, phase, event, opts).1 is Finish <==> spec_process_track(path, phase, event, opts).0
            == TrackPhaseView::Done,
{
}

/// A dry run writes nothing, whatever the step decides.
pub proof fn lemma_dry_run_writes_nothing(path: Seq<char>, phase: TrackPhaseView, event: TrackEventView, opts: Options)
    requires
        opts.dry_run,
    ensures
        match spec_process_track(path, phase, event, opts).1 {
            TrackActionView::Finish { write, .. } => write is None,
            _ => true,
        },
{
}

/// The instrumental marker is only ever planned for a track with no sidecar at all, and synced
/// or plain lyrics only over a sidecar that is not already synced, unless forced.
pub proof fn lemma_writes_never_clobber(path: Seq<char>, phase: TrackPhaseView, event: TrackEventView, opts: Options)
    ensures
        match (phase, spec_process_track(path, phase, event, opts).1) {
            (TrackPhaseView::Getting { state, .. }, TrackActionView::Finish { write: Some(TrackWriteView::Marker), .. }) => state == SidecarState::Absent,
            (TrackPhaseView::Searching { state, .. }, TrackActionView::Finish { write: Some(TrackWriteView::Marker), .. }) => state == SidecarState::Absent,
            (TrackPhaseView::Getting { state, .. }, TrackActionView::Finish { write: Some(TrackWriteView::Plain(_)), .. }) => state != SidecarState::Plain || opts.force,
            (TrackPhaseView::Searching { state, .. }, TrackActionView::Finish { write: Some(TrackWriteView::Plain(_)), .. }) => state != SidecarState::Plain || opts.force,
            _ => true,
        },
{
}

/// Synced lyrics found for a track are written as an upgrade exactly when the track had a
/// plain sidecar, and as newly fetched otherwise.
pub proof fn lemma_synced_write_is_an_upgrade_over_plain(path: Seq<char>, phase: TrackPhaseView, event: TrackEventView, opts: Options)
    ensures
        match (phase, spec_process_track(path, phase, event, opts).1) {
            (TrackPhaseView::Getting { state, .. }, TrackActionView::Finish { outcome, write: Some(TrackWriteView::Synced(_)) }) =>
                outcome == if state == SidecarState::Plain { Outcome::Upgraded } else { Outcome::Fetched },
            (TrackPhaseView::Searching { state, .. }, TrackActionView::Finish { outcome, write: Some(TrackWriteView::Synced(_)) }) =>
                outcome == if state == SidecarState::Plain { Outcome::Upgraded } else { Outcome::Fetched },
            _ => true,
        },
{
}

/// The title markers are stripped for at most one second lookup: once retried, a lookup that
/// finds nothing ends the track as missing.
pub proof fn lemma_one_retry_without_markers(path: Seq<char>, meta: TrackMetaView, state: SidecarState, opts: Options)
    ensures
        spec_after_lookup(path, meta, state, true, None, opts).0 == TrackPhaseView::Done,
        spec_after_lookup(path, meta, state, true, None, opts).1 == finish(Outcome::Missing, None, opts.dry_run),
{
}

/// The phase a track ends in, and the outside work asked for, when the step is taken on each
/// of `events` in turn, starting from `phase`.
pub open spec fn run_track(path: Seq<char>, phase: TrackPhaseView, events: Seq<TrackEventView>, opts: Options) -> (TrackPhaseView, Seq<TrackActionView>)
    decreases events.len(),
{
    if events.len() == 0 {
        (phase, seq![])
    } else {
        let (next, action, _) = spec_process_track(path, phase, events[0], opts);
        let (last, rest) = run_track(path, next, events.drop_first(), opts);
        (last, seq![action] + rest)
    }
}

/// An action with whatever it would write taken out.
pub open spec fn without_write(a: TrackActionView) -> TrackActionView {
    match a {
        TrackActionView::Finish { outcome, .. } => TrackActionView::Finish { outcome, write: None },
        _ => a,
    }
}

proof fn lemma_dry_decide(path: Seq<char>, r: LyricsRecordView, state: SidecarState, opts: Options)
    ensures
        spec_decide(path, r, state, Options { dry_run: true, ..opts }).0 == without_write(
            spec_decide(path, r, state, Options { dry_run: false, ..opts }).0,
        ),
{
}

proof fn lemma_dry_after_lookup(
    path: Seq<char>,
    meta: TrackMetaView,
    state: SidecarState,
    retried: bool,
    found: Option<LyricsRecordView>,
    opts: Options,
)
    ensures
        ({
            let d = spec_after_lookup(path, meta, state, retried, found, Options { dry_run: true, ..opts });
            let w = spec_after_lookup(path, meta, state, retried, found, Options { dry_run: false, ..opts });
            d.0 == w.0 && d.1 == without_write(w.1)
        }),
{
    match found {
        Some(r) => lemma_dry_decide(path, r, state, opts),
        None => {},
    }
}

#[verifier::rlimit(30)]
proof fn lemma_dry_step(path: Seq<char>, phase: TrackPhaseView, event: TrackEventView, opts: Options)
    ensures
        ({
            let d = spec_process_track(path, phase, event, Options { dry_run: true, ..opts });
            let w = spec_process_track(path, phase, event, Options { dry_run: false, ..opts });
            d.0 == w.0 && d.1 == without_write(w.1)
        }),
{
    match (phase, event) {
        (TrackPhaseView::Getting { meta, state, retried }, TrackEventView::Got(found)) => {
            lemma_dry_after_lookup(path, meta, state, retried, found, opts);
        },
        (TrackPhaseView::Searching { meta, state, retried }, TrackEventView::Searched(cs)) => {
            let best = best_among(cs, cs.len() as int, meta.duration, meta.album, opts.duration_tolerance);
            lemma_dry_after_lookup(path, meta, state, retried, match best {
                Some(i) => Some(cs[i]),
                None => None,
            }, opts);
        },
        _ => {},
    }
}

/// A dry run goes through the same phases and asks for the same work as a real run given the
/// same replies, ends with the same outcome, and writes nothing.
pub proof fn lemma_dry_run_matches_real_run(path: Seq<char>, phase: TrackPhaseView, events: Seq<TrackEventView>, opts: Options)
    ensures
        ({
            let dry = run_track(path, phase, events, Options { dry_run: true, ..opts });
            let wet = run_track(path, phase, events, Options { dry_run: false, ..opts });
            &&& dry.0 == wet.0
            &&& dry.1.len() == wet.1.len()
            &&& forall|i: int| 0 <= i < dry.1.len() ==> #[trigger] dry.1[i] == without_write(wet.1[i])
        }),
    decreases events.len(),
{
    if events.len() > 0 {
        let d = Options { dry_run: true, ..opts };
        let w = Options { dry_run: false, ..opts };
        let sd = spec_process_track(path, phase, events[0], d);
        let sw = spec_process_track(path, phase, events[0], w);
        lemma_dry_step(path, phase, events[0], opts);
        lemma_dry_run_matches_real_run(path, sd.0, events.drop_first(), opts);
        let dry = run_track(path, phase, events, d);
        let wet = run_track(path, phase, events, w);
        let rd = run_track(path, sd.0, events.drop_first(), d);
        let rw = run_track(path, sw.0, events.drop_first(), w);
        assert(dry.1 == seq![sd.1] + rd.1);
        assert(wet.1 == seq![sw.1] + rw.1);
        assert forall|i: int| 0 <= i < dry.1.len() implies #[trigger] dry.1[i] == without_write(wet.1[i]) by {
            if i > 0 {
                assert(dry.1[i] == rd.1[i - 1]);
                assert(wet.1[i] == rw.1[i - 1]);
            }
        }
    }
}

/// How many exact lookups a track can still ask for from a phase.
pub open spec fn gets_left(phase: TrackPhaseView) -> nat {
    match phase {
        TrackPhaseView::Start => 2,
        TrackPhaseView::Resolved(_) => 2,
        TrackPhaseView::Getting { retried, .. } => if retried { 0 } else { 1 },
        TrackPhaseView::Searching { retried, .. } => if retried { 0 } else { 1 },
        TrackPhaseView::Done => 0,
    }
}

/// How many of `actions` are exact lookups.
pub open spec fn count_gets(actions: Seq<TrackActionView>) -> nat
    decreases actions.len(),
{
    if actions.len() == 0 {
        0
    } else {
        (if actions[0] is Get { 1nat } else { 0nat }) + count_gets(actions.drop_first())
    }
}

/// Whatever the replies, a track is looked up by exact match at most twice: once as tagged,
/// and at most once more, with its title's trailing markers stripped.
pub proof fn lemma_at_most_one_retry(path: Seq<char>, phase: TrackPhaseView, events: Seq<TrackEventView>, opts: Options)
    ensures
        count_gets(run_track(path, phase, events, opts).1) <= gets_left(phase),
    decreases events.len(),
{
    if events.len() > 0 {
        let st = spec_process_track(path, phase, events[0], opts);
        assert(if st.1 is Get { gets_left(st.0) + 1 <= gets_left(phase) } else { gets_left(st.0) <= gets_left(phase) });
        lemma_at_most_one_retry(path, st.0, events.drop_first(), opts);
        let acts = run_track(path, phase, events, opts).1;
        let rest = run_track(path, st.0, events.drop_first(), opts).1;
        assert(acts == seq![st.1] + rest);
        assert(acts.drop_first() =~= rest);
    }
}

// ---------------------------------------------------------------------------------------
// Lookup without a file, and scanning
// ---------------------------------------------------------------------------------------

/// The metadata `show` and `tui` look a track up with: no file, no duration.
pub fn lookup_meta(track: &str, artist: &str, album: Option<&str>) -> (r: TrackMeta)
    ensures
        r@.path == "<show>"@,
        r@.title == track@,
        r@.artist == artist@,
        r@.album == match album {
            Some(a) => Some(a@),
            None => None,
        },
        r@.duration is None,
        r@.guessed.len() == 0,
{
    TrackMeta {
        path: owned("<show>"),
        title: owned(track),
        artist: owned(artist),
        album: match album {
            Some(a) => Some(owned(a)),
            None => None,
        },
        duration: None,
        album_artist: None,
        track_number: None,
        disc_number: None,
        year: None,
        guessed: Vec::new(),
    }
}

/// After an exact lookup: search next when it found nothing and searching is on.
pub fn needs_search(found: &Option<LyricsRecord>, opts: &Options) -> (r: bool)
    ensures
        r == (found is None && !opts.no_search_fallback),
{
    found.is_none() && !opts.no_search_fallback
}

pub open spec fn path_le_fn() -> spec_fn(Seq<char>, Seq<char>) -> bool {
    |a: Seq<char>, b: Seq<char>| path_order(a, b) <= 0
}

pub open spec fn audio_only(ps: Seq<Seq<char>>) -> Seq<Seq<char>>
    decreases ps.len(),
{
    if ps.len() == 0 {
        seq![]
    } else if spec_is_audio_file(ps.last()) {
        audio_only(ps.drop_last()).push(ps.last())
    } else {
        audio_only(ps.drop_last())
    }
}

/// The files `scan` processes, in the order it processes them: the audio files among the
/// walked ones, sorted by path.
pub open spec fn spec_scan_order(ps: Seq<Seq<char>>) -> Seq<Seq<char>> {
    sort_by(audio_only(ps), path_le_fn())
}

proof fn lemma_path_le_is_total_preorder()
    ensures
        crate::order::total_preorder(path_le_fn()),
{
    let le = path_le_fn();
    assert forall|a: Seq<char>, b: Seq<char>| #[trigger] le(a, b) || le(b, a) by {
        crate::path::lemma_path_order_laws(a, b, b);
    }
    assert forall|a: Seq<char>, b: Seq<char>, c: Seq<char>| #[trigger] le(a, b) && #[trigger] le(b, c) implies le(a, c) by {
        crate::path::lemma_path_order_laws(a, b, c);
    }
}

proof fn lemma_audio_only_is_audio(ps: Seq<Seq<char>>)
    ensures
        forall|k: int| 0 <= k < audio_only(ps).len() ==> spec_is_audio_file(#[trigger] audio_only(ps)[k]),
    decreases ps.len(),
{
    if ps.len() > 0 {
        lemma_audio_only_is_audio(ps.drop_last());
        let r = audio_only(ps.drop_last());
        assert forall|k: int| 0 <= k < audio_only(ps).len() implies spec_is_audio_file(#[trigger] audio_only(ps)[k]) by {
            if k < r.len() {
                assert(audio_only(ps)[k] == r[k]);
            }
        }
    }
}

/// `scan` visits only audio files, in path order.
pub proof fn lemma_scan_visits_audio_in_path_order(ps: Seq<Seq<char>>)
    ensures
        crate::order::sorted_by(spec_scan_order(ps), path_le_fn()),
        forall|k: int| 0 <= k < spec_scan_order(ps).len() ==> spec_is_audio_file(#[trigger] spec_scan_order(ps)[k]),
{
    lemma_path_le_is_total_preorder();
    crate::order::lemma_sort_by_sorted(audio_only(ps), path_le_fn());
    lemma_audio_only_is_audio(ps);
    let p = |x: Seq<char>| spec_is_audio_file(x);
    assert forall|k: int| 0 <= k < audio_only(ps).len() implies p(#[trigger] audio_only(ps)[k]) by {
    }
    crate::order::lemma_sort_by_all(audio_only(ps), path_le_fn(), p);
    assert forall|k: int| 0 <= k < spec_scan_order(ps).len() implies spec_is_audio_file(#[trigger] spec_scan_order(ps)[k]) by {
        assert(p(spec_scan_order(ps)[k]));
    }
}

fn insert_path(out: &mut Vec<String>, p: String)
    ensures
        string_views(final(out)@) == crate::order::insert_sorted(string_views(old(out)@), p@, path_le_fn()),
    decreases old(out)@.len(),
{
    let n = out.len();
    if n == 0 || path_order_of(out[n - 1].as_str(), p.as_str()) <= 0 {
        let ghost before = string_views(out@);
        out.push(p);
        proof {
            assert(string_views(out@) =~= before.push(p@));
            if n > 0 {
                assert(before.last() == out@[n - 1]@);
            }
        }
    } else {
        let last = out.pop().unwrap();
        let ghost rest = string_views(out@);
        proof {
            assert(rest =~= string_views(old(out)@).drop_last());
            assert(string_views(old(out)@).last() == last@);
        }
        insert_path(out, p);
        let ghost mid = string_views(out@);
        out.push(last);
        proof {
            assert(string_views(out@) =~= mid.push(last@));
        }
    }
}

/// The audio files among `paths`, sorted by path: `scan`'s processing order.
pub fn scan_order(paths: Vec<String>) -> (r: Vec<String>)
    ensures
        string_views(r@) == spec_scan_order(string_views(paths@)),
{
    let ghost pv = string_views(paths@);
    let mut audio: Vec<String> = Vec::new();
    let mut i: usize = 0;
    while i < paths.len()
        invariant
            pv == string_views(paths@),
            i <= paths.len(),
            string_views(audio@) == audio_only(pv.take(i as int)),
        decreases paths.len() - i,
    {
        proof {
            assert(pv.take(i as int + 1).drop_last() =~= pv.take(i as int));
        }
        if is_audio_file(paths[i].as_str()) {
            let ghost before = string_views(audio@);
            audio.push(paths[i].clone());
            proof {
                assert(string_views(audio@) =~= before.push(pv[i as int]));
            }
        }
        i = i + 1;
    }
    proof {
        assert(pv.take(paths.len() as int) =~= pv);
    }
    let ghost av = string_views(audio@);
    let mut sorted: Vec<String> = Vec::new();
    let mut j: usize = 0;
    while j < audio.len()
        invariant
            av == string_views(audio@),
            j <= audio.len(),
            string_views(sorted@) == sort_by(av.take(j as int), path_le_fn()),
        decreases audio.len() - j,
    {
        proof {
            assert(av.take(j as int + 1).drop_last() =~= av.take(j as int));
            assert(av.take(j as int + 1).last() == av[j as int]);
        }
        insert_path(&mut sorted, audio[j].clone());
        j = j + 1;
    }
    proof {
        assert(av.take(audio.len() as int) =~= av);
    }
    sorted
}

// ---------------------------------------------------------------------------------------
// Showing lyrics
// ---------------------------------------------------------------------------------------

pub const GRAY: &'static str = "\x1b[38;5;240m";

pub const RESET: &'static str = "\x1b[0m";

/// One line with its leading timestamp dimmed: a line that opens, after whitespace, with `[`
/// and has a `]` gets the gray from the `[` through the first `]`.
pub open spec fn colorize_line(line: Seq<char>) -> Seq<char> {
    let t = crate::text::trim_start(line);
    let close = crate::text::find_from(t, 0, ']');
    if t.len() > 0 && t[0] == '[' && close < t.len() {
        line.take(line.len() - t.len()) + GRAY@ + t.take(close + 1) + RESET@ + t.skip(close + 1) + seq!['\n']
    } else {
        line + seq!['\n']
    }
}

pub open spec fn colorize_lines(ls: Seq<Seq<char>>) -> Seq<char>
    decreases ls.len(),
{
    if ls.len() == 0 {
        seq![]
    } else {
        colorize_lines(ls.drop_last()) + colorize_line(ls.last())
    }
}

/// The lyrics with every line's timestamp dimmed, each line ending in a newline.
pub open spec fn spec_colorize_timestamps(text: Seq<char>) -> Seq<char> {
    colorize_lines(crate::text::lines(text))
}

/// Wrap LRC timestamps (`[MM:SS.xx]`) in a dark-gray ANSI color.
pub fn colorize_timestamps(text: &str) -> (r: String)
    ensures
        r@ == spec_colorize_timestamps(text@),
{
    let cs = crate::text::chars_of(text);
    let ranges = crate::text::line_ranges(cs.as_slice());
    let ghost ls = crate::text::lines(text@);
    let mut out = String::new();
    let mut k: usize = 0;
    while k < ranges.len()
        invariant
            cs@ == text@,
            ls == crate::text::lines(text@),
            crate::text::ranges_match(cs@, ranges@),
            k <= ranges.len(),
            out@ == colorize_lines(ls.take(k as int)),
        decreases ranges.len() - k,
    {
        let (lo, hi) = ranges[k];
        proof {
            assert(ls.take(k as int + 1).drop_last() =~= ls.take(k as int));
        }
        colorize_one(&mut out, &cs, lo, hi);
        proof {
            assert(ls[k as int] == cs@.subrange(lo as int, hi as int));
        }
        k = k + 1;
    }
    proof {
        assert(ls.take(ranges.len() as int) =~= ls);
    }
    out
}

fn colorize_one(out: &mut String, cs: &Vec<char>, lo: usize, hi: usize)
    requires
        lo <= hi <= cs@.len(),
    ensures
        final(out)@ == old(out)@ + colorize_line(cs@.subrange(lo as int, hi as int)),
{
    let ghost line = cs@.subrange(lo as int, hi as int);
    let a = crate::text::skip_ws(cs.as_slice(), lo, hi);
    let ghost t = cs@.subrange(a as int, hi as int);
    let close = crate::text::find_char(cs.as_slice(), a, hi, ']');
    proof {
        crate::text::lemma_trim_start_is_suffix(line);
        crate::text::lemma_find_shift(cs@.subrange(a as int, hi as int), 0);
    }
    if a < hi && cs[a] == '[' && close < hi {
        crate::text::push_range(out, cs.as_slice(), lo, a);
        push_str(out, GRAY);
        crate::text::push_range(out, cs.as_slice(), a, close + 1);
        push_str(out, RESET);
        crate::text::push_range(out, cs.as_slice(), close + 1, hi);
        push_char(out, '\n');
    } else {
        crate::text::push_range(out, cs.as_slice(), lo, hi);
        push_char(out, '\n');
    }
}

/// The text a pager is given: timestamps dimmed when color is asked for and `NO_COLOR` is not
/// set, else the text as it is.
pub fn pager_text(text: &str, color: bool, no_color_env: bool) -> (r: String)
    ensures
        r@ == if color && !no_color_env {
            spec_colorize_timestamps(text@)
        } else {
            text@
        },
{
    if color && !no_color_env {
        colorize_timestamps(text)
    } else {
        owned(text)
    }
}

/// The text `show` pages: the synced lyrics, else the plain ones, else nothing.
pub fn show_text(record: &LyricsRecord) -> (r: String)
    ensures
        r@ == match (record@.synced_lyrics, record@.plain_lyrics) {
            (Some(s), _) => s,
            (None, Some(p)) => p,
            (None, None) => seq![],
        },
{
    match &record.synced_lyrics {
        Some(s) => s.clone(),
        None => match &record.plain_lyrics {
            Some(p) => p.clone(),
            None => String::new(),
        },
    }
}

/// The synced lyrics the terminal view can play from a record: none for an instrumental.
pub fn playable_lyrics(record: &LyricsRecord) -> (r: Option<String>)
    ensures
        opt_string_view(r) == if record@.instrumental {
            None
        } else {
            record@.synced_lyrics
        },
{
    if record.instrumental {
        None
    } else {
        match &record.synced_lyrics {
            Some(s) => Some(s.clone()),
            None => None,
        }
    }
}

} // verus!
