//! The lyrics service's protocol: request URLs, the retry and throttle policy, and choosing
//! among search results.
//!
//! The contract both known services document: identify the client via User-Agent, throttle
//! requests, and honor `Retry-After` on 429. The requests themselves are made by the caller;
//! this module decides what to ask and what each answer means. Times are nanoseconds.
use vstd::prelude::*;
use vstd::string::StringSliceAdditionalSpecFns;

use crate::meta::{TrackMeta, TrackMetaView};
use crate::path::opt_string_view;
use crate::provider::{ProviderKind, ProviderSpec};
use crate::text::{
    chars_of, decimal, digits_in, eq_ignore_case, is_ws, parse_u32, push_char, push_decimal,
    push_str, range_eq_ignore_case, trim, trim_range, to_ascii_lower,
};

verus! {

/// One lyrics record from the service. Its duration is held in nanoseconds.
#[derive(Debug, Clone)]
pub struct LyricsRecord {
    pub id: i64,
    pub track_name: String,
    pub artist_name: String,
    pub album_name: Option<String>,
    pub duration_ns: Option<u64>,
    pub instrumental: bool,
    pub plain_lyrics: Option<String>,
    pub synced_lyrics: Option<String>,
}

pub struct LyricsRecordView {
    pub album_name: Option<Seq<char>>,
    pub duration_ns: Option<u64>,
    pub instrumental: bool,
    pub plain_lyrics: Option<Seq<char>>,
    pub synced_lyrics: Option<Seq<char>>,
}

impl View for LyricsRecord {
    type V = LyricsRecordView;

    open spec fn view(&self) -> LyricsRecordView {
        LyricsRecordView {
            album_name: opt_string_view(self.album_name),
            duration_ns: self.duration_ns,
            instrumental: self.instrumental,
            plain_lyrics: opt_string_view(self.plain_lyrics),
            synced_lyrics: opt_string_view(self.synced_lyrics),
        }
    }
}

fn clone_opt(o: &Option<String>) -> (r: Option<String>)
    ensures
        opt_string_view(r) == opt_string_view(*o),
{
    match o {
        Some(s) => Some(s.clone()),
        None => None,
    }
}

impl LyricsRecord {
    /// A field-by-field copy.
    pub fn duplicate(&self) -> (r: LyricsRecord)
        ensures
            r@ == self@,
            r.id == self.id,
            r.track_name@ == self.track_name@,
            r.artist_name@ == self.artist_name@,
    {
        LyricsRecord {
            id: self.id,
            track_name: self.track_name.clone(),
            artist_name: self.artist_name.clone(),
            album_name: clone_opt(&self.album_name),
            duration_ns: self.duration_ns,
            instrumental: self.instrumental,
            plain_lyrics: clone_opt(&self.plain_lyrics),
            synced_lyrics: clone_opt(&self.synced_lyrics),
        }
    }
}

/// How to build a client: which service, how to identify, how fast, how persistent.
pub struct ClientConfig {
    pub provider: ProviderKind,
    pub user_agent: Option<String>,
    pub delay_ms: u64,
    pub max_retries: u32,
    pub verbosity: u8,
}

// ---------------------------------------------------------------------------------------
// Request URLs
// ---------------------------------------------------------------------------------------

pub open spec fn hex_upper(d: u8) -> char {
    if d < 10 {
        (('0' as u8) + d) as char
    } else {
        (('A' as u8) + d - 10) as char
    }
}

pub open spec fn is_unreserved(b: u8) -> bool {
    (0x41 <= b <= 0x5a) || (0x61 <= b <= 0x7a) || (0x30 <= b <= 0x39) || b == 0x2d || b == 0x5f
        || b == 0x2e || b == 0x7e
}

/// One byte of a query value, form-encoded.
pub open spec fn encode_byte(b: u8) -> Seq<char> {
    if is_unreserved(b) {
        seq![b as char]
    } else if b == 0x20 {
        seq!['+']
    } else {
        seq!['%', hex_upper(b / 16), hex_upper(b % 16)]
    }
}

pub open spec fn encode_bytes(bs: Seq<u8>) -> Seq<char>
    decreases bs.len(),
{
    if bs.len() == 0 {
        seq![]
    } else {
        encode_bytes(bs.drop_last()) + encode_byte(bs.last())
    }
}

/// `s` percent-encoded for a query parameter (`application/x-www-form-urlencoded`): letters,
/// digits and `-_.~` kept, spaces as `+`, every other UTF-8 byte as `%XX`.
pub open spec fn spec_urlencode(s: Seq<char>) -> Seq<char> {
    encode_bytes(vstd::utf8::encode_utf8(s))
}

/// A character that can stand in a query value without ending it: a letter, a digit, one of
/// `-_.~`, or the `+` and `%` of the encoding itself.
pub open spec fn query_safe(c: char) -> bool {
    ('A' <= c <= 'Z') || ('a' <= c <= 'z') || ('0' <= c <= '9') || c == '-' || c == '_' || c == '.'
        || c == '~' || c == '+' || c == '%'
}

proof fn lemma_encode_bytes_safe(bs: Seq<u8>)
    ensures
        forall|i: int| 0 <= i < encode_bytes(bs).len() ==> query_safe(#[trigger] encode_bytes(bs)[i]),
    decreases bs.len(),
{
    if bs.len() > 0 {
        lemma_encode_bytes_safe(bs.drop_last());
        let a = encode_bytes(bs.drop_last());
        let b = encode_byte(bs.last());
        let x = bs.last();
        assert forall|k: int| 0 <= k < b.len() implies query_safe(#[trigger] b[k]) by {
            if !is_unreserved(x) && x != 0x20 {
                assert(x / 16 < 16 && x % 16 < 16);
            }
        }
        assert forall|i: int| 0 <= i < encode_bytes(bs).len() implies query_safe(#[trigger] encode_bytes(bs)[i]) by {
            if i < a.len() {
                assert(encode_bytes(bs)[i] == a[i]);
            } else {
                assert(encode_bytes(bs)[i] == b[i - a.len()]);
            }
        }
    }
}

/// An encoded value never ends its query parameter early: it holds only letters, digits,
/// `-_.~`, `+` and `%`, so no `&`, `=`, `#` or space from the title or artist gets through.
pub proof fn lemma_urlencode_is_query_safe(s: Seq<char>)
    ensures
        forall|i: int| 0 <= i < spec_urlencode(s).len() ==> query_safe(#[trigger] spec_urlencode(s)[i]),
{
    lemma_encode_bytes_safe(vstd::utf8::encode_utf8(s));
}

fn hex_digit_upper(d: u8) -> (r: char)
    requires
        d < 16,
    ensures
        r == hex_upper(d),
{
    if d < 10 {
        (48u8 + d) as char
    } else {
        (65u8 + d - 10) as char
    }
}

/// Percent-encode a string for use in a query parameter.
pub fn urlencode(s: &str) -> (r: String)
    ensures
        r@ == spec_urlencode(s@),
{
    let bytes = s.as_bytes();
    let mut out = String::new();
    let mut i: usize = 0;
    while i < bytes.len()
        invariant
            i <= bytes@.len(),
            bytes@ == s.spec_bytes(),
            out@ == encode_bytes(bytes@.take(i as int)),
        decreases bytes@.len() - i,
    {
        assert(bytes@.take(i + 1).drop_last() =~= bytes@.take(i as int));
        let b = bytes[i];
        let ghost before = out@;
        if (0x41 <= b && b <= 0x5a) || (0x61 <= b && b <= 0x7a) || (0x30 <= b && b <= 0x39)
            || b == 0x2d || b == 0x5f || b == 0x2e || b == 0x7e {
            push_char(&mut out, b as char);
        } else if b == 0x20 {
            push_char(&mut out, '+');
        } else {
            push_char(&mut out, '%');
            push_char(&mut out, hex_digit_upper(b / 16));
            push_char(&mut out, hex_digit_upper(b % 16));
        }
        assert(out@ =~= before + encode_byte(b));
        i = i + 1;
    }
    assert(bytes@.take(i as int) =~= bytes@);
    out
}

/// The exact-lookup URL for a track: title and artist, then album and duration when known.
pub open spec fn spec_get_url(get_url: Seq<char>, title: Seq<char>, artist: Seq<char>, album: Option<Seq<char>>, duration: Option<u32>) -> Seq<char> {
    get_url + "?track_name="@ + spec_urlencode(title) + "&artist_name="@ + spec_urlencode(artist)
        + match album {
        Some(a) => "&album_name="@ + spec_urlencode(a),
        None => seq![],
    } + match duration {
        Some(d) => "&duration="@ + decimal(d as nat),
        None => seq![],
    }
}

/// The exact-lookup URL for `meta`.
pub fn get_url(spec: &ProviderSpec, meta: &TrackMeta) -> (r: String)
    ensures
        r@ == spec_get_url(spec.get_url@, meta@.title, meta@.artist, meta@.album, meta@.duration),
{
    let mut url = String::new();
    push_str(&mut url, spec.get_url);
    push_str(&mut url, "?track_name=");
    let t = urlencode(meta.title.as_str());
    push_str(&mut url, t.as_str());
    push_str(&mut url, "&artist_name=");
    let a = urlencode(meta.artist.as_str());
    push_str(&mut url, a.as_str());
    let ghost base = url@;
    match &meta.album {
        Some(album) => {
            push_str(&mut url, "&album_name=");
            let e = urlencode(album.as_str());
            push_str(&mut url, e.as_str());
        },
        None => {},
    }
    let ghost mid = url@;
    match meta.duration {
        Some(d) => {
            push_str(&mut url, "&duration=");
            push_decimal(&mut url, d as u64);
        },
        None => {},
    }
    assert(url@ =~= spec_get_url(spec.get_url@, meta@.title, meta@.artist, meta@.album, meta@.duration));
    url
}

/// The search URL for a track: title and artist only. The album is left out on purpose: the
/// service filters search results by album as strictly as exact lookups, so sending it would
/// make the loose fallback fail with the exact one; the album is used to rank candidates.
pub open spec fn spec_search_url(search_url: Seq<char>, title: Seq<char>, artist: Seq<char>) -> Seq<char> {
    search_url + "?track_name="@ + spec_urlencode(title) + "&artist_name="@ + spec_urlencode(artist)
}

pub fn search_url(spec: &ProviderSpec, meta: &TrackMeta) -> (r: String)
    ensures
        r@ == spec_search_url(spec.search_url@, meta@.title, meta@.artist),
{
    let mut url = String::new();
    push_str(&mut url, spec.search_url);
    push_str(&mut url, "?track_name=");
    let t = urlencode(meta.title.as_str());
    push_str(&mut url, t.as_str());
    push_str(&mut url, "&artist_name=");
    let a = urlencode(meta.artist.as_str());
    push_str(&mut url, a.as_str());
    assert(url@ =~= spec_search_url(spec.search_url@, meta@.title, meta@.artist));
    url
}

// ---------------------------------------------------------------------------------------
// Politeness: throttle and retry
// ---------------------------------------------------------------------------------------

/// How long to sleep before a request so at least `delay` has passed since the last one.
pub open spec fn spec_throttle_wait(last_request: Option<u128>, now: u128, delay: u128) -> u128 {
    match last_request {
        Some(last) => {
            let elapsed = if now >= last { now - last } else { 0 };
            if delay >= elapsed { (delay - elapsed) as u128 } else { 0 }
        },
        None => 0,
    }
}

/// Requests are spaced: sleeping the throttle's wait before a request puts it at least
/// `delay` after the previous one, and a request already that late waits not at all.
pub proof fn lemma_throttle_spaces_requests(last: u128, now: u128, delay: u128)
    requires
        last <= now,
    ensures
        now + spec_throttle_wait(Some(last), now, delay) >= last + delay,
        now >= last + delay ==> spec_throttle_wait(Some(last), now, delay) == 0,
        spec_throttle_wait(None, now, delay) == 0,
{
}

pub fn throttle_wait(last_request: Option<u128>, now: u128, delay: u128) -> (r: u128)
    ensures
        r == spec_throttle_wait(last_request, now, delay),
{
    match last_request {
        Some(last) => {
            let elapsed = if now >= last {
                now - last
            } else {
                0
            };
            if delay >= elapsed {
                delay - elapsed
            } else {
                0
            }
        },
        None => 0,
    }
}

/// What came back from one attempt at a request.
#[derive(Debug, Clone, Copy, PartialEq, Eq, Structural)]
pub enum Reply {
    /// The request never got an answer.
    Transport,
    /// An HTTP status, with the wait a 429 asked for, if it named one.
    Status { code: u16, retry_after: Option<u128> },
}

/// Why a request is given up.
#[derive(Debug, Clone, Copy, PartialEq, Eq, Structural)]
pub enum Failure {
    /// No answer, and no retries left.
    Transport,
    /// Rate limited, and no retries left; the wait the service asked for.
    RateLimited(u128),
    /// A server error, and no retries left.
    ServerError(u16),
    /// A client error, which retrying would not fix.
    Refused(u16),
}

/// What to do after an attempt.
#[derive(Debug, Clone, Copy, PartialEq, Eq, Structural)]
pub enum Next {
    /// Sleep this long and try again.
    Retry(u128),
    /// No such record (404): not an error.
    NotFound,
    /// Success: read the body.
    Read,
    /// Give up.
    Fail(Failure),
}

/// Exponential backoff after the `attempt`-th failure: `2^attempt` seconds, saturating.
pub open spec fn backoff(attempt: u32) -> u128 {
    (sat_pow2(attempt as nat) * 1_000_000_000) as u128
}

pub open spec fn sat_pow2(k: nat) -> nat
    decreases k,
{
    if k == 0 {
        1
    } else if 2 * sat_pow2((k - 1) as nat) > u64::MAX {
        u64::MAX as nat
    } else {
        2 * sat_pow2((k - 1) as nat)
    }
}

proof fn lemma_sat_pow2_bound(k: nat)
    ensures
        1 <= sat_pow2(k) <= u64::MAX,
    decreases k,
{
    if k > 0 {
        lemma_sat_pow2_bound((k - 1) as nat);
    }
}

fn backoff_exec(attempt: u32) -> (r: u128)
    ensures
        r == backoff(attempt),
{
    let mut p: u64 = 1;
    let mut k: u32 = 0;
    while k < attempt
        invariant
            k <= attempt,
            p == sat_pow2(k as nat),
        decreases attempt - k,
    {
        proof {
            lemma_sat_pow2_bound(k as nat);
        }
        p = p.saturating_add(p);
        k = k + 1;
    }
    proof {
        lemma_sat_pow2_bound(k as nat);
    }
    (p as u128) * 1_000_000_000
}

pub open spec fn sat_inc(n: u32) -> u32 {
    if n == u32::MAX {
        n
    } else {
        (n + 1) as u32
    }
}

/// The retry policy: after `attempt` failures so far, and this `reply`, the new failure
/// count and what to do. A 404 is no record, a 2xx is read; a transport failure, a 429 or a
/// 5xx is retried with backoff (a 429 waiting as long as the service asked) until more than
/// `max_retries` failures; any other status is given up at once.
pub open spec fn spec_next_step(attempt: u32, max_retries: u32, reply: Reply) -> (u32, Next) {
    match reply {
        Reply::Transport => {
            let a = sat_inc(attempt);
            if a > max_retries {
                (a, Next::Fail(Failure::Transport))
            } else {
                (a, Next::Retry(backoff(a)))
            }
        },
        Reply::Status { code, retry_after } => {
            if code == 404 {
                (attempt, Next::NotFound)
            } else if 200 <= code <= 299 {
                (attempt, Next::Read)
            } else {
                let a = sat_inc(attempt);
                if code == 429 {
                    let wait = match retry_after {
                        Some(w) => w,
                        None => backoff(a),
                    };
                    if a > max_retries {
                        (a, Next::Fail(Failure::RateLimited(wait)))
                    } else {
                        (a, Next::Retry(wait))
                    }
                } else if 500 <= code <= 599 {
                    if a > max_retries {
                        (a, Next::Fail(Failure::ServerError(code)))
                    } else {
                        (a, Next::Retry(backoff(a)))
                    }
                } else {
                    (a, Next::Fail(Failure::Refused(code)))
                }
            }
        },
    }
}

pub fn next_step(attempt: u32, max_retries: u32, reply: Reply) -> (r: (u32, Next))
    ensures
        r == spec_next_step(attempt, max_retries, reply),
{
    match reply {
        Reply::Transport => {
            let a = attempt.saturating_add(1);
            if a > max_retries {
                (a, Next::Fail(Failure::Transport))
            } else {
                (a, Next::Retry(backoff_exec(a)))
            }
        },
        Reply::Status { code, retry_after } => {
            if code == 404 {
                (attempt, Next::NotFound)
            } else if 200 <= code && code <= 299 {
                (attempt, Next::Read)
            } else {
                let a = attempt.saturating_add(1);
                if code == 429 {
                    let wait = match retry_after {
                        Some(w) => w,
                        None => backoff_exec(a),
                    };
                    if a > max_retries {
                        (a, Next::Fail(Failure::RateLimited(wait)))
                    } else {
                        (a, Next::Retry(wait))
                    }
                } else if 500 <= code && code <= 599 {
                    if a > max_retries {
                        (a, Next::Fail(Failure::ServerError(code)))
                    } else {
                        (a, Next::Retry(backoff_exec(a)))
                    }
                } else {
                    (a, Next::Fail(Failure::Refused(code)))
                }
            }
        },
    }
}

/// A request is retried at most `max_retries` times: every retry counts one more failure,
/// and once the count passes the limit the policy gives up.
/// A rate-limited request that may still be retried waits exactly as long as the service's
/// `Retry-After` asked; without one, the wait doubles with each attempt (two seconds after the
/// first failure), until it saturates.
pub proof fn lemma_backoff_honors_the_service(attempt: u32, max_retries: u32, wait: u128)
    requires
        attempt < max_retries,
    ensures
        spec_next_step(attempt, max_retries, Reply::Status { code: 429, retry_after: Some(wait) })
            == (sat_inc(attempt), Next::Retry(wait)),
        backoff(1) == 2_000_000_000,
        sat_pow2(attempt as nat + 1) == if 2 * sat_pow2(attempt as nat) > u64::MAX {
            u64::MAX as nat
        } else {
            2 * sat_pow2(attempt as nat)
        },
{
    assert(sat_pow2(0) == 1);
    assert(sat_pow2(1) == 2);
}

pub proof fn lemma_retries_are_bounded(attempt: u32, max_retries: u32, reply: Reply)
    requires
        attempt <= max_retries,
        max_retries < u32::MAX,
    ensures
        spec_next_step(attempt, max_retries, reply).1 is Retry ==> spec_next_step(attempt, max_retries, reply).0 == attempt + 1
            && spec_next_step(attempt, max_retries, reply).0 <= max_retries,
        spec_next_step(attempt, max_retries, reply).0 <= max_retries + 1,
{
}

// ---------------------------------------------------------------------------------------
// Retry-After
// ---------------------------------------------------------------------------------------

/// `str::parse::<u64>`: an optional `+`, then one or more ASCII digits, within `u64`.
pub open spec fn spec_parse_u64(s: Seq<char>) -> Option<u64> {
    let body = if s.len() > 0 && s[0] == '+' {
        s.drop_first()
    } else {
        s
    };
    if body.len() > 0 && crate::text::all_digits(body) && crate::text::digits_value(body) <= u64::MAX {
        Some(crate::text::digits_value(body) as u64)
    } else {
        None
    }
}

/// The instant an HTTP-date names, in whole seconds since the Unix epoch, as `httpdate`
/// parses it; none when it is not an HTTP-date.
pub uninterp spec fn http_date_seconds(s: Seq<char>) -> Option<u64>;

/// `httpdate::parse_http_date`, read as seconds since the Unix epoch. Claimed: the result is
/// a function of the text alone; an instant before the epoch reads as none.
#[verifier::external_body]
fn parse_http_date_seconds(s: &str) -> (r: Option<u64>)
    ensures
        r == http_date_seconds(s@),
{
    match httpdate::parse_http_date(s) {
        Ok(t) => match t.duration_since(std::time::UNIX_EPOCH) {
            Ok(d) => Some(d.as_secs()),
            Err(_) => None,
        },
        Err(_) => None,
    }
}

/// The wait a `Retry-After` value asks for at `now` (nanoseconds since the Unix epoch):
/// whole seconds, or the time until an HTTP-date; none when it is neither, or the date has
/// passed.
pub open spec fn spec_retry_after(value: Option<Seq<char>>, now: u128) -> Option<u128> {
    match value {
        None => None,
        Some(v) => match spec_parse_u64(trim(v)) {
            Some(secs) => Some((secs * 1_000_000_000) as u128),
            None => match http_date_seconds(trim(v)) {
                Some(t) => if t * 1_000_000_000 >= now {
                    Some((t * 1_000_000_000 - now) as u128)
                } else {
                    None
                },
                None => None,
            },
        },
    }
}

fn parse_u64_exec(cs: &Vec<char>, lo: usize, hi: usize) -> (r: Option<u64>)
    requires
        lo <= hi <= cs@.len(),
    ensures
        r == spec_parse_u64(cs@.subrange(lo as int, hi as int)),
{
    let ghost s = cs@.subrange(lo as int, hi as int);
    let start = if lo < hi && cs[lo] == '+' {
        lo + 1
    } else {
        lo
    };
    proof {
        if lo < hi && cs@[lo as int] == '+' {
            assert(s.drop_first() =~= cs@.subrange(start as int, hi as int));
        } else {
            assert(s =~= cs@.subrange(start as int, hi as int));
        }
    }
    if start == hi || !crate::text::all_digits_in(cs.as_slice(), start, hi) {
        return None;
    }
    digits_in(cs.as_slice(), start, hi, 0xffff_ffff_ffff_ffff)
}

/// The wait a `Retry-After` value asks for at instant `now`.
pub fn retry_after_value(value: Option<&str>, now: u128) -> (r: Option<u128>)
    ensures
        r == spec_retry_after(match value {
            Some(v) => Some(v@),
            None => None,
        }, now),
{
    let v = match value {
        Some(v) => v,
        None => return None,
    };
    let cs = chars_of(v);
    let (lo, hi) = trim_range(cs.as_slice(), 0, cs.len());
    proof {
        assert(cs@.subrange(0, cs@.len() as int) =~= v@);
    }
    match parse_u64_exec(&cs, lo, hi) {
        Some(secs) => Some((secs as u128) * 1_000_000_000),
        None => {
            let trimmed = crate::text::string_of_range(cs.as_slice(), lo, hi);
            match parse_http_date_seconds(trimmed.as_str()) {
                Some(t) => {
                    let at = (t as u128) * 1_000_000_000;
                    if at >= now {
                        Some(at - now)
                    } else {
                        None
                    }
                },
                None => None,
            }
        },
    }
}

/// A signed number in decimal, with a leading `-` when negative.
pub open spec fn signed_decimal(n: int) -> Seq<char> {
    if n < 0 {
        seq!['-'] + crate::text::decimal((-n) as nat)
    } else {
        crate::text::decimal(n as nat)
    }
}

/// An error body the service sends with a refusal, for the log: its name, its code in
/// brackets, and its message, as `NotFound (404): no such track`.
pub fn describe_error(name: &str, code: i64, message: &str) -> (r: String)
    ensures
        r@ == name@ + " ("@ + signed_decimal(code as int) + "): "@ + message@,
{
    let mut out = String::new();
    crate::text::push_str(&mut out, name);
    crate::text::push_str(&mut out, " (");
    if code < 0 {
        crate::text::push_str(&mut out, "-");
        let magnitude: u64 = (-(code as i128)) as u64;
        crate::text::push_decimal(&mut out, magnitude);
    } else {
        crate::text::push_decimal(&mut out, code as u64);
    }
    crate::text::push_str(&mut out, "): ");
    crate::text::push_str(&mut out, message);
    proof {
        reveal_strlit("-");
        assert(out@ =~= name@ + " ("@ + signed_decimal(code as int) + "): "@ + message@);
    }
    out
}

// ---------------------------------------------------------------------------------------
// Choosing among search results
// ---------------------------------------------------------------------------------------

pub open spec fn abs_diff(a: int, b: int) -> int {
    if a >= b { a - b } else { b - a }
}

/// Whether a candidate's duration is within `tolerance` seconds of the track's; always when
/// either is unknown.
pub open spec fn within_tolerance(c: LyricsRecordView, local: Option<u32>, tolerance: u32) -> bool {
    match (local, c.duration_ns) {
        (Some(l), Some(r)) => abs_diff(l * 1_000_000_000, r as int) <= tolerance * 1_000_000_000,
        _ => true,
    }
}

/// How a candidate ranks, smaller first: synced lyrics before none, then the closest
/// duration (unknown last), then a matching album name.
pub open spec fn rank(c: LyricsRecordView, local: Option<u32>, album: Option<Seq<char>>) -> (int, int, int) {
    (
        if c.synced_lyrics is Some { 0 } else { 1 },
        match (local, c.duration_ns) {
            (Some(l), Some(r)) => abs_diff(l * 1_000_000_000, r as int),
            _ => u128::MAX as int,
        },
        match (album, c.album_name) {
            (Some(a), Some(b)) => if eq_ignore_case(a, b) { 0 } else { 1 },
            _ => 1,
        },
    )
}

pub open spec fn rank_lt(a: (int, int, int), b: (int, int, int)) -> bool {
    a.0 < b.0 || (a.0 == b.0 && (a.1 < b.1 || (a.1 == b.1 && a.2 < b.2)))
}

/// Of the first `n` candidates, the index of the best that survives the tolerance, the
/// earliest among equals.
pub open spec fn best_among(cs: Seq<LyricsRecordView>, n: int, local: Option<u32>, album: Option<Seq<char>>, tolerance: u32) -> Option<int>
    decreases n,
{
    if n <= 0 {
        None
    } else {
        let prev = best_among(cs, n - 1, local, album, tolerance);
        let c = cs[n - 1];
        if !within_tolerance(c, local, tolerance) {
            prev
        } else {
            match prev {
                None => Some(n - 1),
                Some(p) => if rank_lt(rank(c, local, album), rank(cs[p], local, album)) {
                    Some(n - 1)
                } else {
                    Some(p)
                },
            }
        }
    }
}

pub open spec fn record_views(v: Seq<LyricsRecord>) -> Seq<LyricsRecordView> {
    v.map_values(|r: LyricsRecord| r@)
}

fn str_eq_ignore_case(a: &str, b: &str) -> (r: bool)
    ensures
        r == eq_ignore_case(a@, b@),
{
    let ac = chars_of(a);
    let bc = chars_of(b);
    proof {
        assert(ac@.subrange(0, ac@.len() as int) =~= ac@);
    }
    range_eq_ignore_case(ac.as_slice(), 0, ac.len(), bc.as_slice())
}

fn rank_of(c: &LyricsRecord, local: Option<u32>, album: Option<&str>) -> (r: (u8, u128, u8))
    ensures
        (r.0 as int, r.1 as int, r.2 as int) == rank(c@, local, match album {
            Some(a) => Some(a@),
            None => None,
        }),
{
    let synced: u8 = if c.synced_lyrics.is_some() {
        0
    } else {
        1
    };
    let delta: u128 = match (local, c.duration_ns) {
        (Some(l), Some(r)) => {
            let lm = (l as u128) * 1_000_000_000;
            let rm = r as u128;
            if lm >= rm {
                lm - rm
            } else {
                rm - lm
            }
        },
        _ => u128::MAX,
    };
    let album_key: u8 = match (album, &c.album_name) {
        (Some(a), Some(b)) => if str_eq_ignore_case(a, b.as_str()) {
            0
        } else {
            1
        },
        _ => 1,
    };
    (synced, delta, album_key)
}

fn rank_less(a: (u8, u128, u8), b: (u8, u128, u8)) -> (r: bool)
    ensures
        r == rank_lt((a.0 as int, a.1 as int, a.2 as int), (b.0 as int, b.1 as int, b.2 as int)),
{
    a.0 < b.0 || (a.0 == b.0 && (a.1 < b.1 || (a.1 == b.1 && a.2 < b.2)))
}

/// The best search candidate: among those within `tolerance` seconds of the track's duration
/// (when both are known), synced lyrics first, then the closest duration, then a matching
/// album; the earliest of equals. None when no candidate survives.
pub fn pick_best_candidate(candidates: &Vec<LyricsRecord>, local_duration: Option<u32>, local_album: Option<&str>, tolerance: u32) -> (r: Option<LyricsRecord>)
    ensures
        match best_among(record_views(candidates@), candidates@.len() as int, local_duration, match local_album {
            Some(a) => Some(a@),
            None => None,
        }, tolerance) {
            Some(i) => r is Some && r->0@ == candidates@[i]@,
            None => r is None,
        },
{
    let ghost cv = record_views(candidates@);
    let ghost album = match local_album {
        Some(a) => Some(a@),
        None => None,
    };
    let mut best: Option<usize> = None;
    let mut best_rank: (u8, u128, u8) = (0, 0, 0);
    let mut i: usize = 0;
    while i < candidates.len()
        invariant
            cv == record_views(candidates@),
            album == match local_album {
                Some(a) => Some(a@),
                None => None,
            },
            i <= candidates.len(),
            match best {
                Some(b) => best_among(cv, i as int, local_duration, album, tolerance) == Some(b as int)
                    && b < i && (best_rank.0 as int, best_rank.1 as int, best_rank.2 as int) == rank(cv[b as int], local_duration, album),
                None => best_among(cv, i as int, local_duration, album, tolerance) is None,
            },
        decreases candidates.len() - i,
    {
        let c = &candidates[i];
        assert(cv[i as int] == c@);
        let survives = match (local_duration, c.duration_ns) {
            (Some(l), Some(r)) => {
                let lm = (l as u128) * 1_000_000_000;
                let rm = r as u128;
                let d = if lm >= rm {
                    lm - rm
                } else {
                    rm - lm
                };
                d <= (tolerance as u128) * 1_000_000_000
            },
            _ => true,
        };
        if survives {
            let k = rank_of(c, local_duration, local_album);
            match best {
                None => {
                    best = Some(i);
                    best_rank = k;
                },
                Some(_) => {
                    if rank_less(k, best_rank) {
                        best = Some(i);
                        best_rank = k;
                    }
                },
            }
        }
        i = i + 1;
    }
    match best {
        Some(b) => {
            Some(candidates[b].duplicate())
        },
        None => None,
    }
}

/// How far a candidate's duration, in nanoseconds, is from the track's, in whole seconds.
pub open spec fn duration_gap(local_secs: u32, remote_ns: u64) -> int {
    let a = local_secs as int * 1_000_000_000;
    if a >= remote_ns as int {
        a - remote_ns as int
    } else {
        remote_ns as int - a
    }
}

/// Whether a candidate is within `tolerance` seconds of the track: always when either
/// duration is unknown.
pub open spec fn survives_tolerance(c: LyricsRecordView, local: Option<u32>, tolerance: u32) -> bool {
    match (local, c.duration_ns) {
        (Some(l), Some(r)) => duration_gap(l, r) <= tolerance as int * 1_000_000_000,
        _ => true,
    }
}

/// The search picks what a listener would: a candidate within the tolerance, with synced
/// lyrics whenever any candidate within it has them, and, among the candidates within it
/// whose lyrics are as synced as its own, one whose duration is at least as close to the
/// track's as any of theirs. It picks none exactly when no candidate is within it.
pub proof fn lemma_best_candidate_is_synced_and_closest(
    cs: Seq<LyricsRecordView>,
    local: Option<u32>,
    album: Option<Seq<char>>,
    tolerance: u32,
)
    ensures
        match best_among(cs, cs.len() as int, local, album, tolerance) {
            Some(b) => {
                &&& 0 <= b < cs.len()
                &&& survives_tolerance(cs[b], local, tolerance)
                &&& forall|j: int| 0 <= j < cs.len() && survives_tolerance(#[trigger] cs[j], local, tolerance) ==> {
                    &&& (cs[j].synced_lyrics is Some ==> cs[b].synced_lyrics is Some)
                    &&& (local is Some && cs[j].duration_ns is Some && (cs[j].synced_lyrics is Some) == (
                    cs[b].synced_lyrics is Some)) ==> {
                        &&& cs[b].duration_ns is Some
                        &&& duration_gap(local->0, cs[b].duration_ns->0) <= duration_gap(local->0, cs[j].duration_ns->0)
                    }
                    &&& (local is Some && cs[j].duration_ns is Some && cs[b].duration_ns is Some && (cs[j].synced_lyrics
                        is Some) == (cs[b].synced_lyrics is Some) && duration_gap(local->0, cs[b].duration_ns->0)
                        == duration_gap(local->0, cs[j].duration_ns->0) && album is Some && cs[j].album_name is Some
                        && eq_ignore_case(album->0, cs[j].album_name->0)) ==> (cs[b].album_name is Some && eq_ignore_case(
                        album->0,
                        cs[b].album_name->0,
                    ))
                }
            },
            None => forall|j: int| 0 <= j < cs.len() ==> !survives_tolerance(#[trigger] cs[j], local, tolerance),
        },
{
    lemma_best_is_best(cs, cs.len() as int, local, album, tolerance);
    match best_among(cs, cs.len() as int, local, album, tolerance) {
        Some(b) => {
            assert forall|j: int| 0 <= j < cs.len() && survives_tolerance(#[trigger] cs[j], local, tolerance) implies {
                &&& (cs[j].synced_lyrics is Some ==> cs[b].synced_lyrics is Some)
                &&& (local is Some && cs[j].duration_ns is Some && (cs[j].synced_lyrics is Some) == (cs[b].synced_lyrics
                    is Some)) ==> {
                    &&& cs[b].duration_ns is Some
                    &&& duration_gap(local->0, cs[b].duration_ns->0) <= duration_gap(local->0, cs[j].duration_ns->0)
                }
                &&& (local is Some && cs[j].duration_ns is Some && cs[b].duration_ns is Some && (cs[j].synced_lyrics
                    is Some) == (cs[b].synced_lyrics is Some) && duration_gap(local->0, cs[b].duration_ns->0)
                    == duration_gap(local->0, cs[j].duration_ns->0) && album is Some && cs[j].album_name is Some
                    && eq_ignore_case(album->0, cs[j].album_name->0)) ==> (cs[b].album_name is Some && eq_ignore_case(
                    album->0,
                    cs[b].album_name->0,
                ))
            } by {
                assert(within_tolerance(cs[j], local, tolerance));
                assert(!rank_lt(rank(cs[j], local, album), rank(cs[b], local, album)));
                if local is Some && cs[j].duration_ns is Some {
                    let l = local->0;
                    let rj = cs[j].duration_ns->0;
                    assert(rank(cs[j], local, album).1 == duration_gap(l, rj));
                    assert(duration_gap(l, rj) < u128::MAX) by (nonlinear_arith)
                        requires
                            l <= 0xffff_ffff,
                            rj <= 0xffff_ffff_ffff_ffff,
                            duration_gap(l, rj) == if l as int * 1_000_000_000 >= rj as int {
                                l as int * 1_000_000_000 - rj as int
                            } else {
                                rj as int - l as int * 1_000_000_000
                            },
                    ;
                    if let Some(rb) = cs[b].duration_ns {
                        assert(rank(cs[b], local, album).1 == duration_gap(l, rb));
                    }
                }
            }
        },
        None => {
            assert forall|j: int| 0 <= j < cs.len() implies !survives_tolerance(#[trigger] cs[j], local, tolerance) by {
                assert(!within_tolerance(cs[j], local, tolerance));
            }
        },
    }
}

/// The chosen candidate survives the tolerance, and none ranks strictly better.
pub proof fn lemma_best_is_best(cs: Seq<LyricsRecordView>, n: int, local: Option<u32>, album: Option<Seq<char>>, tolerance: u32)
    requires
        0 <= n <= cs.len(),
    ensures
        match best_among(cs, n, local, album, tolerance) {
            Some(b) => 0 <= b < n && within_tolerance(cs[b], local, tolerance) && forall|j: int|
                0 <= j < n && within_tolerance(cs[j], local, tolerance) ==> !rank_lt(
                    #[trigger] rank(cs[j], local, album),
                    rank(cs[b], local, album),
                ),
            None => forall|j: int| 0 <= j < n ==> !within_tolerance(#[trigger] cs[j], local, tolerance),
        },
    decreases n,
{
    if n > 0 {
        lemma_best_is_best(cs, n - 1, local, album, tolerance);
    }
}

} // verus!
