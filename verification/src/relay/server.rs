//! The decisions of the relay's HTTP front-end: which endpoint a request is
//! for, how query values are read, what each endpoint does to the store and
//! answers, and the per-IP rate limit. The socket handling and JSON bodies
//! around them live with the binary.
//!
//! | Method & path                 | Purpose                              |
//! |-------------------------------|--------------------------------------|
//! | `POST /publish`               | Upload a bundle + one-time prekeys   |
//! | `GET  /bundle?identity=<b64>` | Fetch a bundle (consumes one OPK)    |
//! | `POST /send`                  | Queue an opaque message for a mailbox|
//! | `GET  /poll?recipient=<b64>`  | Drain queued messages                |
//! | `GET  /health`                | Liveness check                       |
use vstd::prelude::*;

use crate::codec::is_prefix;
use crate::crypto::{spec_base64_decode, spec_base64_encode};
use crate::relay::protocol::{b64, unb64, unb64_key, BundleResponse, OneTimePrekey, PollResponse, PublishRequest, SendRequest};
use crate::relay::store::{after_publish, enqueued, fetched, polled, RelayStore, StoreError, StoreView};
use crate::wire::{spec_bundle_encoding, PreKeyBundle};

verus! {

/// Largest accepted request body. Bundles with a full one-time-prekey batch
/// and padded sealed envelopes are far below this.
pub const MAX_BODY_BYTES: u64 = 4 * 1024 * 1024;

/// How often the expired-mail sweep runs, at most, in seconds.
pub const SWEEP_INTERVAL_SECS: u64 = 60 * 60;

/// Above this many tracked peers the rate limiter forgets stale windows.
pub const RATE_WINDOWS_SOFT_CAP: usize = 10_000;

/// Whether the expired-mail sweep is due: at least [`SWEEP_INTERVAL_SECS`]
/// passed since the last one.
pub fn sweep_due(secs_since_last_sweep: u64) -> (due: bool)
    ensures
        due == (secs_since_last_sweep >= SWEEP_INTERVAL_SECS),
{
    secs_since_last_sweep >= SWEEP_INTERVAL_SECS
}

/// Server options beyond the store's own limits.
#[derive(Debug, Clone, Copy, Default)]
pub struct ServeOptions {
    /// Per-IP request budget per minute; `None` disables rate limiting.
    pub rate_limit_per_min: Option<u32>,
}

/// A request failure with the HTTP status it should map to.
pub struct RequestError {
    pub status: u16,
    pub message: String,
}

impl RequestError {
    /// A `400 Bad Request` with the given message.
    pub fn bad(message: String) -> (e: RequestError)
        ensures
            e.status == 400,
            e.message@ == message@,
    {
        RequestError { status: 400, message }
    }
}

/// The request methods the relay distinguishes.
#[derive(Debug, Clone, Copy, PartialEq, Eq, Structural)]
pub enum HttpMethod {
    Get,
    Post,
    Other,
}

/// The endpoint a request is for.
#[derive(Debug, Clone, Copy, PartialEq, Eq, Structural)]
pub enum Route {
    Health,
    Publish,
    Bundle,
    Send,
    Poll,
    NotFound,
}

/// `"/health"`, `"/publish"`, `"/bundle"`, `"/send"`, `"/poll"`.
pub const PATH_HEALTH: [u8; 7] = [47, 104, 101, 97, 108, 116, 104];
pub const PATH_PUBLISH: [u8; 8] = [47, 112, 117, 98, 108, 105, 115, 104];
pub const PATH_BUNDLE: [u8; 7] = [47, 98, 117, 110, 100, 108, 101];
pub const PATH_SEND: [u8; 5] = [47, 115, 101, 110, 100];
pub const PATH_POLL: [u8; 5] = [47, 112, 111, 108, 108];

/// The endpoint for a method and path.
pub open spec fn spec_route(m: HttpMethod, path: Seq<u8>) -> Route {
    if m == HttpMethod::Get && path == PATH_HEALTH@ {
        Route::Health
    } else if m == HttpMethod::Post && path == PATH_PUBLISH@ {
        Route::Publish
    } else if m == HttpMethod::Get && path == PATH_BUNDLE@ {
        Route::Bundle
    } else if m == HttpMethod::Post && path == PATH_SEND@ {
        Route::Send
    } else if m == HttpMethod::Get && path == PATH_POLL@ {
        Route::Poll
    } else {
        Route::NotFound
    }
}

/// Dispatch a request to its endpoint.
pub fn route(method: HttpMethod, path: &[u8]) -> (r: Route)
    ensures
        r == spec_route(method, path@),
{
    let get = method == HttpMethod::Get;
    let post = method == HttpMethod::Post;
    if get && crate::bytes::bytes_eq(path, PATH_HEALTH.as_slice()) {
        Route::Health
    } else if post && crate::bytes::bytes_eq(path, PATH_PUBLISH.as_slice()) {
        Route::Publish
    } else if get && crate::bytes::bytes_eq(path, PATH_BUNDLE.as_slice()) {
        Route::Bundle
    } else if post && crate::bytes::bytes_eq(path, PATH_SEND.as_slice()) {
        Route::Send
    } else if get && crate::bytes::bytes_eq(path, PATH_POLL.as_slice()) {
        Route::Poll
    } else {
        Route::NotFound
    }
}

// ------------------------------------------------------------ query strings

/// The index of the first `c` in `s` (`s.len()` if there is none).
pub open spec fn find_byte(s: Seq<u8>, c: u8) -> nat
    decreases s.len(),
{
    if s.len() == 0 {
        0
    } else if s[0] == c {
        0
    } else {
        1 + find_byte(s.drop_first(), c)
    }
}

proof fn lemma_find_byte(s: Seq<u8>, c: u8)
    ensures
        find_byte(s, c) <= s.len(),
        find_byte(s, c) < s.len() ==> s[find_byte(s, c) as int] == c,
        forall|j: int| 0 <= j < find_byte(s, c) ==> s[j] != c,
    decreases s.len(),
{
    if s.len() > 0 && s[0] != c {
        lemma_find_byte(s.drop_first(), c);
        assert forall|j: int| 0 <= j < find_byte(s, c) implies s[j] != c by {
            if j > 0 {
                assert(s[j] == s.drop_first()[j - 1]);
            }
        }
    }
}

/// A URL split at its first `?` into path and query (the query is empty
/// when there is no `?`).
pub open spec fn spec_split_url(url: Seq<u8>) -> (Seq<u8>, Seq<u8>) {
    let i = find_byte(url, 63);
    if i < url.len() {
        (url.subrange(0, i as int), url.subrange(i as int + 1, url.len() as int))
    } else {
        (url, Seq::empty())
    }
}

/// The name of a `name=value` query piece: everything before the first `=`.
pub open spec fn piece_name(p: Seq<u8>) -> Seq<u8> {
    p.subrange(0, find_byte(p, 61) as int)
}

/// The raw value of a query piece: everything after the first `=` (empty
/// when there is none).
pub open spec fn piece_raw(p: Seq<u8>) -> Seq<u8> {
    let i = find_byte(p, 61);
    if i < p.len() {
        p.subrange(i as int + 1, p.len() as int)
    } else {
        Seq::empty()
    }
}

/// The raw value of the first `&`-separated piece of `q` named `key`.
pub open spec fn query_raw(q: Seq<u8>, key: Seq<u8>) -> Option<Seq<u8>>
    decreases q.len(),
{
    let e = find_byte(q, 38);
    let piece = q.subrange(0, e as int);
    if piece_name(piece) == key {
        Some(piece_raw(piece))
    } else if e >= q.len() {
        None
    } else {
        query_raw(q.subrange(e as int + 1, q.len() as int), key)
    }
}

/// A UTF-8 continuation byte.
pub open spec fn is_continuation(b: u8) -> bool {
    0x80 <= b < 0xC0
}

/// Position `k` of `s` starts a character (or is the end).
pub open spec fn char_start(s: Seq<u8>, k: int) -> bool {
    k == s.len() || (0 <= k < s.len() && !is_continuation(s[k]))
}

/// The value of a hexadecimal digit.
pub open spec fn hex_value(b: u8) -> Option<u8> {
    if 48 <= b <= 57 {
        Some((b - 48) as u8)
    } else if 97 <= b <= 102 {
        Some((b - 87) as u8)
    } else if 65 <= b <= 70 {
        Some((b - 55) as u8)
    } else {
        None
    }
}

/// The byte two hexadecimal digits spell, as `u8::from_str_radix(_, 16)`
/// reads them: two digits, or a `+` sign and one digit.
pub open spec fn escape_value(b1: u8, b2: u8) -> Option<u8> {
    if b1 == 43 {
        hex_value(b2)
    } else {
        match (hex_value(b1), hex_value(b2)) {
            (Some(x), Some(y)) => Some((16 * x + y) as u8),
            _ => None,
        }
    }
}

/// Percent-decoding from position `i`: `%XX` becomes the byte it spells
/// (as a character), `+` a space, and every other byte the character of the
/// same number; a `%` that does not start an escape stays.
pub open spec fn decode_from(s: Seq<u8>, i: int) -> Seq<char>
    decreases s.len() - i,
{
    if i >= s.len() || i < 0 {
        Seq::empty()
    } else if s[i] == 37 && i + 2 < s.len() {
        match escape_value(s[i + 1], s[i + 2]) {
            Some(b) => seq![b as char] + decode_from(s, i + 3),
            None => seq!['%'] + decode_from(s, i + 1),
        }
    } else if s[i] == 43 {
        seq![' '] + decode_from(s, i + 1)
    } else {
        seq![s[i] as char] + decode_from(s, i + 1)
    }
}

/// Every escape the decoder reads from position `i` on lies on character
/// boundaries of the text (reading one that splits a character is undefined).
pub open spec fn decodable_from(s: Seq<u8>, i: int) -> bool
    decreases s.len() - i,
{
    if i >= s.len() || i < 0 {
        true
    } else if s[i] == 37 && i + 2 < s.len() {
        &&& char_start(s, i + 1)
        &&& char_start(s, i + 3)
        &&& match escape_value(s[i + 1], s[i + 2]) {
            Some(_) => decodable_from(s, i + 3),
            None => decodable_from(s, i + 1),
        }
    } else {
        decodable_from(s, i + 1)
    }
}

/// The value of `key` in `query` is defined: either absent, or decodable.
pub open spec fn query_defined(query: Seq<u8>, key: Seq<u8>) -> bool {
    query_raw(query, key) matches Some(raw) ==> decodable_from(raw, 0)
}

/// `String::from_iter(chars)`: a string of exactly these characters.
#[verifier::external_body]
fn string_from_chars(chars: Vec<char>) -> (s: String)
    ensures
        s@ == chars@,
{
    String::from_iter(chars)
}

fn hex_digit(b: u8) -> (v: Option<u8>)
    ensures
        v == hex_value(b),
{
    if 48 <= b && b <= 57 {
        Some(b - 48)
    } else if 97 <= b && b <= 102 {
        Some(b - 87)
    } else if 65 <= b && b <= 70 {
        Some(b - 55)
    } else {
        None
    }
}

fn escape(b1: u8, b2: u8) -> (v: Option<u8>)
    ensures
        v == escape_value(b1, b2),
{
    if b1 == 43 {
        hex_digit(b2)
    } else {
        match (hex_digit(b1), hex_digit(b2)) {
            (Some(x), Some(y)) => Some(16 * x + y),
            _ => None,
        }
    }
}

/// Percent-decode a query value.
fn url_decode_chars(s: &[u8]) -> (out: Vec<char>)
    requires
        decodable_from(s@, 0),
    ensures
        out@ == decode_from(s@, 0),
{
    let mut out: Vec<char> = Vec::new();
    let mut i: usize = 0;
    let n = s.len();
    while i < n
        invariant
            n == s@.len(),
            i <= n,
            out@ + decode_from(s@, i as int) == decode_from(s@, 0),
        decreases n - i,
    {
        let ghost prev = out@;
        if s[i] == 37 && n - i > 2 {
            match escape(s[i + 1], s[i + 2]) {
                Some(b) => {
                    out.push(b as char);
                    assert(out@ + decode_from(s@, i + 3) =~= prev + decode_from(s@, i as int));
                    i = i + 3;
                },
                None => {
                    out.push('%');
                    assert(out@ + decode_from(s@, i + 1) =~= prev + decode_from(s@, i as int));
                    i = i + 1;
                },
            }
        } else if s[i] == 43 {
            out.push(' ');
            assert(out@ + decode_from(s@, i + 1) =~= prev + decode_from(s@, i as int));
            i = i + 1;
        } else {
            out.push(s[i] as char);
            assert(out@ + decode_from(s@, i + 1) =~= prev + decode_from(s@, i as int));
            i = i + 1;
        }
    }
    assert(out@ =~= decode_from(s@, 0));
    out
}

/// A byte of base64 text (standard alphabet, with padding).
pub open spec fn base64_byte(b: u8) -> bool {
    (65 <= b <= 90) || (97 <= b <= 122) || (48 <= b <= 57) || b == 43 || b == 47 || b == 61
}

/// How a client may put a byte of base64 text into a query: `+` always as
/// `%2B`; `/` and `=` as `%2F` and `%3D` when `escape` is set, else as they
/// are; every other byte as it is.
pub open spec fn escape_byte(b: u8, escape: bool) -> Seq<u8> {
    if b == 43 {
        seq![37u8, 50u8, 66u8]
    } else if escape && b == 47 {
        seq![37u8, 50u8, 70u8]
    } else if escape && b == 61 {
        seq![37u8, 51u8, 68u8]
    } else {
        seq![b]
    }
}

/// Base64 text with each byte escaped as [`escape_byte`] says, the `i`-th
/// with the `i`-th flag of `escape` (unset past its end).
pub open spec fn percent_escaped(t: Seq<u8>, escape: Seq<bool>) -> Seq<u8>
    decreases t.len(),
{
    if t.len() == 0 {
        Seq::empty()
    } else if escape.len() == 0 {
        escape_byte(t[0], false) + percent_escaped(t.drop_first(), escape)
    } else {
        escape_byte(t[0], escape[0]) + percent_escaped(t.drop_first(), escape.drop_first())
    }
}

/// The characters with the numbers of these bytes.
pub open spec fn chars_of(t: Seq<u8>) -> Seq<char> {
    t.map_values(|b: u8| b as char)
}

/// Decoding does not look before where it starts.
proof fn lemma_decode_shift(p: Seq<u8>, y: Seq<u8>, j: int)
    requires
        0 <= j,
    ensures
        decode_from(p + y, p.len() + j) == decode_from(y, j),
        decodable_from(p + y, p.len() + j) == decodable_from(y, j),
    decreases y.len() - j,
{
    let s = p + y;
    let i = p.len() + j;
    if j < y.len() {
        lemma_decode_shift(p, y, j + 1);
        if j + 3 <= y.len() {
            lemma_decode_shift(p, y, j + 3);
        }
        assert(s[i] == y[j]);
        if j + 2 < y.len() {
            assert(s[i + 1] == y[j + 1] && s[i + 2] == y[j + 2]);
        }
        if j + 3 < y.len() {
            assert(s[i + 3] == y[j + 3]);
        }
        if j + 1 < y.len() {
            assert(s[i + 1] == y[j + 1]);
        }
        assert(char_start(s, i + 1) == char_start(y, j + 1));
        assert(char_start(s, i + 3) == char_start(y, j + 3));
    }
}

proof fn lemma_escaped_head(t: Seq<u8>, escape: Seq<bool>)
    requires
        forall|i: int| 0 <= i < t.len() ==> base64_byte(#[trigger] t[i]),
    ensures
        t.len() > 0 ==> percent_escaped(t, escape).len() > 0 && percent_escaped(t, escape)[0] < 0x80,
{
    if t.len() > 0 {
        assert(base64_byte(t[0]));
    }
}

/// Percent-escaping base64 text as a client may put it in a query (`+`
/// always escaped, `/` and `=` escaped or not, each as it likes) is undone by
/// [`url_decode`]: the escaped text is one it is defined on, and it gives
/// the base64 text back.
pub proof fn lemma_url_decode_base64(t: Seq<u8>, escape: Seq<bool>)
    requires
        forall|i: int| 0 <= i < t.len() ==> base64_byte(#[trigger] t[i]),
    ensures
        decodable_from(percent_escaped(t, escape), 0),
        decode_from(percent_escaped(t, escape), 0) == chars_of(t),
    decreases t.len(),
{
    if t.len() == 0 {
        assert(chars_of(t) =~= Seq::<char>::empty());
    } else {
        let b = t[0];
        assert(base64_byte(b));
        let r = t.drop_first();
        let er = if escape.len() == 0 { escape } else { escape.drop_first() };
        let flag = escape.len() > 0 && escape[0];
        assert forall|i: int| 0 <= i < r.len() implies base64_byte(#[trigger] r[i]) by {
            assert(r[i] == t[i + 1]);
        }
        lemma_url_decode_base64(r, er);
        lemma_escaped_head(r, er);
        let e = escape_byte(b, flag);
        let rest = percent_escaped(r, er);
        let s = e + rest;
        assert(percent_escaped(t, escape) == s);
        lemma_decode_shift(e, rest, 0);
        assert(chars_of(t) =~= seq![b as char] + chars_of(r));
        if b == 43 || (flag && (b == 47 || b == 61)) {
            assert(s[0] == 37u8 && s.len() >= 3);
            assert(s[1] == e[1] && s[2] == e[2]);
            assert(escape_value(s[1], s[2]) == Some(b));
            assert(char_start(s, 1));
            assert(rest.len() > 0 ==> s[3] == rest[0]);
            assert(char_start(s, 3));
            assert(decode_from(s, 0) == seq![b as char] + decode_from(s, 3));
        } else {
            assert(s[0] == b);
            assert(decode_from(s, 0) == seq![b as char] + decode_from(s, 1));
        }
    }
}

/// Minimal percent-decoding, sufficient for base64 query values (`+`, `/`,
/// `=`).
pub fn url_decode(s: &[u8]) -> (out: String)
    requires
        decodable_from(s@, 0),
    ensures
        out@ == decode_from(s@, 0),
{
    string_from_chars(url_decode_chars(s))
}

/// Whether [`url_decode`] is defined on `s`.
pub fn url_decodable(s: &[u8]) -> (ok: bool)
    ensures
        ok == decodable_from(s@, 0),
{
    let n = s.len();
    let mut i: usize = 0;
    while i < n
        invariant
            n == s@.len(),
            i <= n,
            decodable_from(s@, 0) == decodable_from(s@, i as int),
        decreases n - i,
    {
        if s[i] == 37 && n - i > 2 {
            let a = s[i + 1] < 0x80 || s[i + 1] >= 0xC0;
            let b = i + 3 == n || s[i + 3] < 0x80 || s[i + 3] >= 0xC0;
            if !a || !b {
                return false;
            }
            match escape(s[i + 1], s[i + 2]) {
                Some(_) => {
                    i = i + 3;
                },
                None => {
                    i = i + 1;
                },
            }
        } else {
            i = i + 1;
        }
    }
    true
}

/// The index of the first `c` in `s[start..]`, as an absolute index (`s.len()`
/// if there is none).
fn find_from(s: &[u8], start: usize, c: u8) -> (i: usize)
    requires
        start <= s@.len(),
    ensures
        i == start + find_byte(s@.subrange(start as int, s@.len() as int), c),
        i <= s@.len(),
{
    proof {
        lemma_find_byte(s@.subrange(start as int, s@.len() as int), c);
    }
    let ghost t = s@.subrange(start as int, s@.len() as int);
    let mut i = start;
    while i < s.len() && s[i] != c
        invariant
            start <= i <= s@.len(),
            t == s@.subrange(start as int, s@.len() as int),
            forall|j: int| start <= j < i ==> s@[j] != c,
            find_byte(t, c) <= t.len(),
            find_byte(t, c) < t.len() ==> t[find_byte(t, c) as int] == c,
            forall|j: int| 0 <= j < find_byte(t, c) ==> t[j] != c,
        decreases s@.len() - i,
    {
        i = i + 1;
    }
    proof {
        let f = find_byte(t, c) as int;
        if i < s@.len() {
            assert(t[i - start] == c);
            if f < i - start {
                assert(s@[start + f] != c);
            }
            if f > i - start {
                assert(t[i - start] != c);
            }
        } else {
            if f < t.len() {
                assert(s@[start + f] == c);
            }
        }
    }
    i
}

/// Split a request URL at its first `?` into path and query.
pub fn split_url(url: &[u8]) -> (r: (Vec<u8>, Vec<u8>))
    ensures
        (r.0@, r.1@) == spec_split_url(url@),
{
    let i = find_from(url, 0, 63);
    assert(url@.subrange(0, url@.len() as int) =~= url@);
    if i < url.len() {
        let path = crate::bytes::slice_to_vec(vstd::slice::slice_subrange(url, 0, i));
        let query = crate::bytes::slice_to_vec(vstd::slice::slice_subrange(url, i + 1, url.len()));
        (path, query)
    } else {
        (crate::bytes::slice_to_vec(url), Vec::new())
    }
}

/// The raw value of the first piece of `query[start..]` named `key`.
fn query_raw_from(query: &[u8], key: &[u8]) -> (r: Option<(usize, usize)>)
    ensures
        match r {
            Some((a, b)) => a <= b <= query@.len() && query_raw(query@, key@) == Some(
                query@.subrange(a as int, b as int),
            ),
            None => query_raw(query@, key@) is None,
        },
{
    let n = query.len();
    let mut start: usize = 0;
    assert(query@.subrange(0, n as int) =~= query@);
    loop
        invariant
            n == query@.len(),
            start <= n,
            query_raw(query@, key@) == query_raw(query@.subrange(start as int, n as int), key@),
        decreases n - start,
    {
        let ghost q = query@.subrange(start as int, n as int);
        let e = find_from(query, start, 38);
        let ghost piece = q.subrange(0, e - start);
        assert(piece =~= query@.subrange(start as int, e as int));
        let eq = find_from(query, start, 61);
        // The first `=` of the piece is the first `=` of the rest when it comes
        // before the piece ends.
        let name_end = if eq < e { eq } else { e };
        proof {
            lemma_find_byte(q, 61);
            lemma_find_byte(piece, 61);
            let fp = find_byte(piece, 61) as int;
            let fq = find_byte(q, 61) as int;
            if fq < e - start {
                assert(piece[fq] == 61);
                if fp < fq {
                    assert(q[fp] != 61);
                }
                if fp > fq {
                    assert(piece[fq] != 61);
                }
            } else {
                if fp < piece.len() {
                    assert(q[fp] == 61);
                }
            }
            assert(start + fp == name_end);
            assert(piece_name(piece) =~= query@.subrange(start as int, name_end as int));
        }
        let same = crate::bytes::bytes_eq(vstd::slice::slice_subrange(query, start, name_end), key);
        if same {
            let raw_start = if name_end < e { name_end + 1 } else { e };
            proof {
                assert(piece_raw(piece) =~= query@.subrange(raw_start as int, e as int));
            }
            return Some((raw_start, e));
        }
        if e >= n {
            return None;
        }
        proof {
            assert(q.subrange(e - start + 1, q.len() as int) =~= query@.subrange(e + 1, n as int));
        }
        start = e + 1;
    }
}

/// The URL-decoded value of `key` in a query string (`a=1&b=2`): the first
/// `&`-separated piece whose name (the text before its first `=`) is `key`
/// gives its value (the text after that `=`, or nothing). `None` when no piece
/// is named `key`.
pub fn query_param(query: &[u8], key: &[u8]) -> (r: Option<String>)
    requires
        query_defined(query@, key@),
    ensures
        match query_raw(query@, key@) {
            Some(raw) => r matches Some(s) && s@ == decode_from(raw, 0),
            None => r is None,
        },
{
    match query_raw_from(query, key) {
        Some((a, b)) => Some(url_decode(vstd::slice::slice_subrange(query, a, b))),
        None => None,
    }
}

/// Whether [`query_param`] is defined on `query` and `key`.
pub fn query_param_defined(query: &[u8], key: &[u8]) -> (ok: bool)
    ensures
        ok == query_defined(query@, key@),
{
    match query_raw_from(query, key) {
        Some((a, b)) => url_decodable(vstd::slice::slice_subrange(query, a, b)),
        None => true,
    }
}

// ------------------------------------------------------------ rate limit

/// Fixed-window per-IP request counter. Peers are told apart by the bytes of
/// their address; windows are minutes since the server started.
pub struct RateLimiter {
    limit: u32,
    windows: Vec<(Vec<u8>, u64, u32)>,
}

/// The mathematical state of a [`RateLimiter`].
pub struct LimiterView {
    pub limit: u32,
    /// (peer, window, requests in that window), first match counts.
    pub windows: Seq<(Seq<u8>, u64, u32)>,
}

pub open spec fn windows_view(w: Seq<(Vec<u8>, u64, u32)>) -> Seq<(Seq<u8>, u64, u32)> {
    w.map_values(|e: (Vec<u8>, u64, u32)| (e.0@, e.1, e.2))
}

impl View for RateLimiter {
    type V = LimiterView;

    closed spec fn view(&self) -> LimiterView {
        LimiterView { limit: self.limit, windows: windows_view(self.windows@) }
    }
}

/// Windows in `w` that are the current one, in order.
pub open spec fn current_windows(w: Seq<(Seq<u8>, u64, u32)>, minute: u64) -> Seq<(Seq<u8>, u64, u32)>
    decreases w.len(),
{
    if w.len() == 0 {
        Seq::empty()
    } else {
        let rest = current_windows(w.drop_last(), minute);
        if w.last().1 == minute {
            rest.push(w.last())
        } else {
            rest
        }
    }
}

pub open spec fn window_ids(w: Seq<(Seq<u8>, u64, u32)>) -> Seq<Seq<u8>> {
    w.map_values(|e: (Seq<u8>, u64, u32)| e.0)
}

/// Once more than [`RATE_WINDOWS_SOFT_CAP`] peers are tracked, stale
/// windows are forgotten.
pub open spec fn pruned(w: Seq<(Seq<u8>, u64, u32)>, minute: u64) -> Seq<(Seq<u8>, u64, u32)> {
    if w.len() > RATE_WINDOWS_SOFT_CAP {
        current_windows(w, minute)
    } else {
        w
    }
}

/// Count a request from `ip` in `minute`: the peer's window restarts if it
/// is from an earlier minute, and its count goes up by one (saturating).
pub open spec fn bumped(w: Seq<(Seq<u8>, u64, u32)>, ip: Seq<u8>, minute: u64) -> Seq<(Seq<u8>, u64, u32)> {
    let ids = window_ids(w);
    if crate::relay::store::has_id(ids, ip) {
        let i = crate::relay::store::first_id(ids, ip);
        let count = if w[i].1 == minute {
            w[i].2
        } else {
            0
        };
        w.update(i, (ip, minute, if count == u32::MAX { count } else { (count + 1) as u32 }))
    } else {
        w.push((ip, minute, 1))
    }
}

/// The request count of `ip` in windows `w`.
pub open spec fn count_of(w: Seq<(Seq<u8>, u64, u32)>, ip: Seq<u8>) -> u32 {
    w[crate::relay::store::first_id(window_ids(w), ip)].2
}

/// `ip` has a window for `minute` holding `c` requests.
pub open spec fn window_at(w: Seq<(Seq<u8>, u64, u32)>, ip: Seq<u8>, minute: u64, c: u32) -> bool {
    let ids = window_ids(w);
    &&& crate::relay::store::has_id(ids, ip)
    &&& w[crate::relay::store::first_id(ids, ip)].1 == minute
    &&& w[crate::relay::store::first_id(ids, ip)].2 == c
}

/// `ip` has no window for `minute` yet.
pub open spec fn no_window_now(w: Seq<(Seq<u8>, u64, u32)>, ip: Seq<u8>, minute: u64) -> bool {
    let ids = window_ids(w);
    crate::relay::store::has_id(ids, ip) ==> w[crate::relay::store::first_id(ids, ip)].1 != minute
}

/// `k` requests in a row from `ip` during `minute`, each counted as
/// [`RateLimiter::allow`] counts it.
pub open spec fn requests(w: Seq<(Seq<u8>, u64, u32)>, ip: Seq<u8>, minute: u64, k: nat) -> Seq<(Seq<u8>, u64, u32)>
    decreases k,
{
    if k == 0 {
        w
    } else {
        bumped(pruned(requests(w, ip, minute, (k - 1) as nat), minute), ip, minute)
    }
}

/// With unique peers, the first entry for a peer is its only one.
proof fn lemma_first_is_only(ids: Seq<Seq<u8>>, ip: Seq<u8>, j: int)
    requires
        ids.no_duplicates(),
        0 <= j < ids.len(),
        ids[j] == ip,
    ensures
        crate::relay::store::has_id(ids, ip),
        crate::relay::store::first_id(ids, ip) == j,
{
    assert(crate::relay::store::has_id(ids, ip));
    let k = crate::relay::store::first_id(ids, ip);
    assert(0 <= k < ids.len() && ids[k] == ip);
}

/// The windows kept for `minute` are windows of `w` for that minute, every
/// such window is kept, and unique peers stay unique.
#[verifier::spinoff_prover]
#[verifier::rlimit(50)]
proof fn lemma_current_windows(w: Seq<(Seq<u8>, u64, u32)>, minute: u64)
    ensures
        forall|j: int| 0 <= j < current_windows(w, minute).len() ==> (#[trigger] current_windows(w, minute)[j]).1 == minute
            && exists|i: int| 0 <= i < w.len() && w[i] == current_windows(w, minute)[j],
        forall|i: int| 0 <= i < w.len() && (#[trigger] w[i]).1 == minute ==> exists|j: int|
            0 <= j < current_windows(w, minute).len() && current_windows(w, minute)[j] == w[i],
        window_ids(w).no_duplicates() ==> window_ids(current_windows(w, minute)).no_duplicates(),
    decreases w.len(),
{
    if w.len() > 0 {
        let d = w.drop_last();
        lemma_current_windows(d, minute);
        let rest = current_windows(d, minute);
        let cw = current_windows(w, minute);
        assert forall|j: int| 0 <= j < cw.len() implies (#[trigger] cw[j]).1 == minute && exists|i: int|
            0 <= i < w.len() && w[i] == cw[j] by {
            if j < rest.len() {
                assert(cw[j] == rest[j]);
                let i = choose|i: int| 0 <= i < d.len() && d[i] == rest[j];
                assert(w[i] == d[i]);
            } else {
                assert(cw[j] == w.last());
                assert(w[w.len() - 1] == w.last());
            }
        }
        assert forall|i: int| 0 <= i < w.len() && (#[trigger] w[i]).1 == minute implies exists|j: int|
            0 <= j < cw.len() && cw[j] == w[i] by {
            if i < d.len() {
                assert(d[i] == w[i]);
                let j = choose|j: int| 0 <= j < rest.len() && rest[j] == d[i];
                assert(cw[j] == rest[j]);
            } else {
                assert(cw[cw.len() - 1] == w.last());
            }
        }
        if window_ids(w).no_duplicates() {
            assert(window_ids(d).no_duplicates()) by {
                assert forall|a: int, b: int| 0 <= a < b < window_ids(d).len() implies window_ids(d)[a] != window_ids(
                    d,
                )[b] by {
                    assert(window_ids(d)[a] == window_ids(w)[a]);
                    assert(window_ids(d)[b] == window_ids(w)[b]);
                }
            }
            if w.last().1 == minute {
                assert forall|a: int, b: int| 0 <= a < b < window_ids(cw).len() implies window_ids(cw)[a] != window_ids(
                    cw,
                )[b] by {
                    if b == rest.len() {
                        assert(cw[a] == rest[a]);
                        let i = choose|i: int| 0 <= i < d.len() && d[i] == rest[a];
                        assert(window_ids(w)[i] == d[i].0);
                        assert(window_ids(w)[w.len() - 1] == w.last().0);
                    } else {
                        assert(cw[a] == rest[a] && cw[b] == rest[b]);
                        assert(window_ids(rest)[a] == rest[a].0 && window_ids(rest)[b] == rest[b].0);
                    }
                }
            }
        }
    }
}

/// Pruning keeps peers unique and keeps a peer's window for `minute`.
proof fn lemma_pruned_keeps(w: Seq<(Seq<u8>, u64, u32)>, ip: Seq<u8>, minute: u64, c: u32)
    requires
        window_ids(w).no_duplicates(),
    ensures
        window_ids(pruned(w, minute)).no_duplicates(),
        window_at(w, ip, minute, c) ==> window_at(pruned(w, minute), ip, minute, c),
        no_window_now(w, ip, minute) ==> no_window_now(pruned(w, minute), ip, minute),
{
    lemma_current_windows(w, minute);
    let p = pruned(w, minute);
    if w.len() > RATE_WINDOWS_SOFT_CAP {
        let ids = window_ids(w);
        let pids = window_ids(p);
        if window_at(w, ip, minute, c) {
            let i = crate::relay::store::first_id(ids, ip);
            assert(w[i].1 == minute);
            let j = choose|j: int| 0 <= j < p.len() && p[j] == w[i];
            assert(pids[j] == ip);
            lemma_first_is_only(pids, ip, j);
        }
        if no_window_now(w, ip, minute) && crate::relay::store::has_id(pids, ip) {
            let j = choose|j: int| 0 <= j < pids.len() && #[trigger] pids[j] == ip;
            lemma_first_is_only(pids, ip, j);
            assert(p[j].1 == minute);
            let i = choose|i: int| 0 <= i < w.len() && w[i] == p[j];
            assert(ids[i] == ip);
            lemma_first_is_only(ids, ip, i);
        }
    }
}

/// Counting one request: peers stay unique, and the peer's window for
/// `minute` goes from `c` to `c + 1` (starting at 1 when it had none).
proof fn lemma_bumped_counts(w: Seq<(Seq<u8>, u64, u32)>, ip: Seq<u8>, minute: u64, c: u32)
    requires
        window_ids(w).no_duplicates(),
        c < u32::MAX,
    ensures
        window_ids(bumped(w, ip, minute)).no_duplicates(),
        window_at(w, ip, minute, c) ==> window_at(bumped(w, ip, minute), ip, minute, (c + 1) as u32),
        no_window_now(w, ip, minute) ==> window_at(bumped(w, ip, minute), ip, minute, 1),
{
    let ids = window_ids(w);
    let b = bumped(w, ip, minute);
    let bids = window_ids(b);
    if crate::relay::store::has_id(ids, ip) {
        let i = crate::relay::store::first_id(ids, ip);
        assert(bids =~= ids.update(i, ip));
        lemma_first_is_only(bids, ip, i);
    } else {
        assert(bids =~= ids.push(ip));
        assert forall|a: int, b2: int| 0 <= a < b2 < bids.len() implies bids[a] != bids[b2] by {
            if b2 == ids.len() {
                assert(ids[a] != ip);
            }
        }
        lemma_first_is_only(bids, ip, ids.len() as int);
    }
}

/// A fixed window per peer: within one minute, the `k`-th request in a row
/// from a peer that had no window for that minute is counted as its `k`-th,
/// so [`RateLimiter::allow`] admits exactly its first `limit` requests and
/// refuses the rest until the minute changes.
pub proof fn lemma_requests_counted(w: Seq<(Seq<u8>, u64, u32)>, ip: Seq<u8>, minute: u64, k: nat, limit: u32)
    requires
        window_ids(w).no_duplicates(),
        no_window_now(w, ip, minute),
        1 <= k <= u32::MAX,
    ensures
        window_ids(requests(w, ip, minute, k)).no_duplicates(),
        window_at(requests(w, ip, minute, k), ip, minute, k as u32),
        count_of(requests(w, ip, minute, k), ip) == k,
        (count_of(requests(w, ip, minute, k), ip) <= limit) == (k <= limit),
    decreases k,
{
    let prev = requests(w, ip, minute, (k - 1) as nat);
    if k == 1 {
        lemma_pruned_keeps(w, ip, minute, 0);
        lemma_bumped_counts(pruned(w, minute), ip, minute, 0);
    } else {
        lemma_requests_counted(w, ip, minute, (k - 1) as nat, limit);
        lemma_pruned_keeps(prev, ip, minute, (k - 1) as u32);
        lemma_bumped_counts(pruned(prev, minute), ip, minute, (k - 1) as u32);
    }
}

fn current_only(w: &Vec<(Vec<u8>, u64, u32)>, minute: u64) -> (kept: Vec<(Vec<u8>, u64, u32)>)
    ensures
        windows_view(kept@) == current_windows(windows_view(w@), minute),
{
    let ghost w0 = windows_view(w@);
    let mut kept: Vec<(Vec<u8>, u64, u32)> = Vec::new();
    let mut i: usize = 0;
    while i < w.len()
        invariant
            i <= w@.len(),
            w0 == windows_view(w@),
            windows_view(kept@) == current_windows(w0.subrange(0, i as int), minute),
        decreases w@.len() - i,
    {
        let ghost sub = w0.subrange(0, i + 1);
        assert(sub.drop_last() =~= w0.subrange(0, i as int));
        if w[i].1 == minute {
            let ghost prev = windows_view(kept@);
            let e = &w[i];
            kept.push((crate::bytes::copy_vec(&e.0), e.1, e.2));
            assert(windows_view(kept@) =~= prev.push(w0[i as int]));
        }
        i = i + 1;
    }
    assert(w0.subrange(0, i as int) =~= w0);
    kept
}

fn find_window(w: &Vec<(Vec<u8>, u64, u32)>, ip: &[u8]) -> (r: Option<usize>)
    ensures
        match r {
            Some(i) => i < w@.len() && crate::relay::store::has_id(window_ids(windows_view(w@)), ip@) && i
                == crate::relay::store::first_id(window_ids(windows_view(w@)), ip@) && window_ids(
                windows_view(w@),
            )[i as int] == ip@,
            None => !crate::relay::store::has_id(window_ids(windows_view(w@)), ip@),
        },
{
    let ghost ids = window_ids(windows_view(w@));
    let mut pos: usize = 0;
    while pos < w.len()
        invariant
            pos <= w@.len(),
            ids == window_ids(windows_view(w@)),
            forall|j: int| 0 <= j < pos ==> #[trigger] ids[j] != ip@,
        decreases w@.len() - pos,
    {
        assert(ids[pos as int] == w@[pos as int].0@);
        if crate::bytes::bytes_eq(w[pos].0.as_slice(), ip) {
            proof {
                assert(crate::relay::store::has_id(ids, ip@));
                let k = crate::relay::store::first_id(ids, ip@);
                assert(0 <= k < ids.len() && ids[k] == ip@);
                if k < pos {
                    assert(ids[k] != ip@);
                }
                if k > pos {
                    assert(ids[pos as int] != ip@);
                }
            }
            return Some(pos);
        }
        pos = pos + 1;
    }
    None
}

#[verifier::spinoff_prover]
fn bump(w: &mut Vec<(Vec<u8>, u64, u32)>, ip: &[u8], minute: u64) -> (count: u32)
    ensures
        windows_view(final(w)@) == bumped(windows_view(old(w)@), ip@, minute),
        count == count_of(windows_view(final(w)@), ip@),
{
    let ghost w1 = windows_view(w@);
    let ghost ids = window_ids(w1);
    match find_window(w, ip) {
        Some(pos) => {
            let old_count = if w[pos].1 == minute { w[pos].2 } else { 0 };
            let count = old_count.saturating_add(1);
            let entry = (crate::bytes::slice_to_vec(ip), minute, count);
            w.set(pos, entry);
            assert(windows_view(w@) =~= w1.update(pos as int, (ip@, minute, count)));
            proof {
                let ids2 = window_ids(windows_view(w@));
                assert(ids2 =~= ids);
            }
            count
        },
        None => {
            w.push((crate::bytes::slice_to_vec(ip), minute, 1));
            assert(windows_view(w@) =~= w1.push((ip@, minute, 1u32)));
            proof {
                let ids2 = window_ids(windows_view(w@));
                assert(ids2 =~= ids.push(ip@));
                assert(ids2[w1.len() as int] == ip@);
                let k = crate::relay::store::first_id(ids2, ip@);
                assert(crate::relay::store::has_id(ids2, ip@));
                assert(0 <= k < ids2.len() && ids2[k] == ip@);
                if k < w1.len() {
                    assert(ids[k] == ids2[k]);
                }
            }
            1
        },
    }
}

impl RateLimiter {
    /// Each peer has at most one window.
    #[verifier::type_invariant]
    spec fn one_window_per_peer(self) -> bool {
        window_ids(self@.windows).no_duplicates()
    }

    /// A limiter allowing `limit` requests per peer per minute.
    pub fn new(limit: u32) -> (r: Self)
        ensures
            r@.limit == limit,
            r@.windows.len() == 0,
            window_ids(r@.windows).no_duplicates(),
    {
        let windows: Vec<(Vec<u8>, u64, u32)> = Vec::new();
        assert(window_ids(windows_view(windows@)) =~= Seq::<Seq<u8>>::empty());
        let r = RateLimiter { limit, windows };
        assert(r@.windows =~= Seq::<(Seq<u8>, u64, u32)>::empty());
        r
    }

    /// Count a request from `ip`, `elapsed_secs` after the server started,
    /// and say whether it is within the peer's budget for this minute.
    #[verifier::spinoff_prover]
    #[verifier::rlimit(80)]
    pub fn allow(&mut self, ip: &[u8], elapsed_secs: u64) -> (ok: bool)
        ensures
            ({
                let w = bumped(pruned(old(self)@.windows, elapsed_secs / 60), ip@, elapsed_secs / 60);
                &&& final(self)@.limit == old(self)@.limit
                &&& final(self)@.windows == w
                &&& ok == (count_of(w, ip@) <= old(self)@.limit)
            }),
            window_ids(final(self)@.windows).no_duplicates(),
    {
        proof {
            use_type_invariant(&*self);
            let m = elapsed_secs / 60;
            lemma_pruned_keeps(self@.windows, ip@, m, 0);
            lemma_bumped_counts(pruned(self@.windows, m), ip@, m, 0);
        }
        let minute = elapsed_secs / 60;
        let mut windows: Vec<(Vec<u8>, u64, u32)> = Vec::new();
        std::mem::swap(&mut windows, &mut self.windows);
        if windows.len() > RATE_WINDOWS_SOFT_CAP {
            windows = current_only(&windows, minute);
        }
        let count = bump(&mut windows, ip, minute);
        self.windows = windows;
        count <= self.limit
    }
}

// ------------------------------------------------------------ endpoints

/// `"identity"` and `"recipient"`, the query keys of `GET /bundle` and
/// `GET /poll`.
pub const QUERY_IDENTITY: [u8; 8] = [105, 100, 101, 110, 116, 105, 116, 121];
pub const QUERY_RECIPIENT: [u8; 9] = [114, 101, 99, 105, 112, 105, 101, 110, 116];

/// What an endpoint answers: a plain-text body with its status, or a `200`
/// with a JSON body.
pub enum Reply {
    Text(u16, String),
    Bundle(BundleResponse),
    Messages(PollResponse),
}

/// A plain-text reply with exactly this status and text.
pub open spec fn is_text(r: Reply, status: u16, text: Seq<char>) -> bool {
    r matches Reply::Text(s, t) && s == status && t@ == text
}

/// The 32-byte key a base64 text spells, if it spells one.
pub open spec fn key_of(text: Seq<char>) -> Option<Seq<u8>> {
    match spec_base64_decode(text) {
        Some(k) => if k.len() == 32 {
            Some(k)
        } else {
            None
        },
        None => None,
    }
}

/// The 32-byte key given as the base64 value of `key` in a query string.
pub open spec fn query_key(query: Seq<u8>, key: Seq<u8>) -> Option<Seq<u8>> {
    match query_raw(query, key) {
        Some(raw) => key_of(decode_from(raw, 0)),
        None => None,
    }
}

/// The one-time prekeys of a publish request with their keys decoded, in
/// order; `None` when some key is not base64 of 32 bytes.
pub open spec fn decoded_pool(entries: Seq<OneTimePrekey>) -> Option<Seq<(u32, Seq<u8>)>>
    decreases entries.len(),
{
    if entries.len() == 0 {
        Some(Seq::empty())
    } else {
        match decoded_pool(entries.drop_last()) {
            Some(p) => match key_of(entries.last().public@) {
                Some(k) => Some(p.push((entries.last().id, k))),
                None => None,
            },
            None => None,
        }
    }
}

/// The pool a publish request gives is every one of its one-time prekeys,
/// in order, each with its id and its key decoded; it is given exactly when
/// every key decodes to 32 bytes.
pub proof fn lemma_decoded_pool_entries(entries: Seq<OneTimePrekey>)
    ensures
        (decoded_pool(entries) is Some) == (forall|i: int|
            0 <= i < entries.len() ==> #[trigger] key_of(entries[i].public@) is Some),
        decoded_pool(entries) matches Some(p) ==> p.len() == entries.len() && forall|i: int|
            0 <= i < entries.len() ==> #[trigger] p[i] == (entries[i].id, key_of(entries[i].public@)->0),
    decreases entries.len(),
{
    if entries.len() > 0 {
        let d = entries.drop_last();
        let l = entries.len() - 1;
        lemma_decoded_pool_entries(d);
        assert(entries.last() == entries[l]);
        assert forall|i: int| 0 <= i < d.len() implies #[trigger] d[i] == entries[i] by {}
        if forall|i: int| 0 <= i < entries.len() ==> #[trigger] key_of(entries[i].public@) is Some {
            assert forall|i: int| 0 <= i < d.len() implies #[trigger] key_of(d[i].public@) is Some by {
                assert(d[i] == entries[i]);
            }
            assert(key_of(entries[l].public@) is Some);
        } else {
            let w = choose|i: int| 0 <= i < entries.len() && !(#[trigger] key_of(entries[i].public@) is Some);
            if w < l {
                assert(d[w] == entries[w]);
                assert(!(key_of(d[w].public@) is Some));
            }
        }
        if decoded_pool(entries) is Some {
            let p = decoded_pool(entries)->0;
            let q = decoded_pool(d)->0;
            assert(p == q.push((entries[l].id, key_of(entries[l].public@)->0)));
            assert forall|i: int| 0 <= i < entries.len() implies #[trigger] p[i] == (
                entries[i].id,
                key_of(entries[i].public@)->0,
            ) by {
                if i < l {
                    assert(p[i] == q[i]);
                    assert(d[i] == entries[i]);
                }
            }
        }
    }
}

/// `bytes` begin with the encoding of some prekey bundle.
pub open spec fn holds_bundle(bytes: Seq<u8>) -> bool {
    exists|b: PreKeyBundle| #[trigger] is_prefix(spec_bundle_encoding(b), bytes)
}

/// The store after publishing a bundle read from `bytes` with `pool`.
pub open spec fn published_from(old: StoreView, new: StoreView, bytes: Seq<u8>, pool: Seq<(u32, Seq<u8>)>) -> bool {
    exists|b: PreKeyBundle| #[trigger] is_prefix(spec_bundle_encoding(b), bytes) && new == after_publish(old, b.identity_ed@, b@, pool)
}

/// Every message is the base64 of the payload at the same position.
pub open spec fn all_base64(msgs: Seq<String>, payloads: Seq<Seq<u8>>) -> bool {
    &&& msgs.len() == payloads.len()
    &&& forall|i: int| 0 <= i < msgs.len() ==> (#[trigger] msgs[i])@ == spec_base64_encode(payloads[i])
}

/// A poll of mailbox `id` at some clock reading that answered `msgs`.
pub open spec fn poll_answered(old: StoreView, new: StoreView, id: Seq<u8>, msgs: Seq<String>) -> bool {
    exists|now: u64, out: Seq<Seq<u8>>| #[trigger] polled(old, new, id, now, out) && all_base64(msgs, out)
}

/// A send to mailbox `id` at some clock reading.
pub open spec fn sent(old: StoreView, new: StoreView, id: Seq<u8>, m: Seq<u8>) -> bool {
    exists|now: u64| #[trigger] enqueued(old, new, id, m, now, Ok(()))
}

/// Decode every one-time prekey of a publish request.
fn decode_pool(entries: &Vec<OneTimePrekey>) -> (r: Result<Vec<(u32, [u8; 32])>, String>)
    ensures
        match r {
            Ok(p) => decoded_pool(entries@) == Some(crate::relay::store::pool_of(p@)),
            Err(_) => decoded_pool(entries@) is None,
        },
{
    let mut pool: Vec<(u32, [u8; 32])> = Vec::new();
    let mut i: usize = 0;
    while i < entries.len()
        invariant
            i <= entries@.len(),
            decoded_pool(entries@.subrange(0, i as int)) == Some(crate::relay::store::pool_of(pool@)),
        decreases entries@.len() - i,
    {
        let ghost sub = entries@.subrange(0, i + 1);
        assert(sub.drop_last() =~= entries@.subrange(0, i as int));
        let key = match unb64_key(entries[i].public.as_str()) {
            Ok(k) => k,
            Err(e) => {
                proof {
                    lemma_pool_none_extends(entries@, i + 1);
                }
                return Err(e);
            },
        };
        let ghost prev = crate::relay::store::pool_of(pool@);
        pool.push((entries[i].id, key));
        assert(crate::relay::store::pool_of(pool@) =~= prev.push((entries@[i as int].id, key@)));
        i = i + 1;
    }
    assert(entries@.subrange(0, i as int) =~= entries@);
    Ok(pool)
}

/// Once a prefix of the entries fails to decode, the whole list does.
proof fn lemma_pool_none_extends(entries: Seq<OneTimePrekey>, k: int)
    requires
        0 <= k <= entries.len(),
        decoded_pool(entries.subrange(0, k)) is None,
    ensures
        decoded_pool(entries) is None,
    decreases entries.len() - k,
{
    if k < entries.len() {
        assert(entries.subrange(0, k + 1).drop_last() =~= entries.subrange(0, k));
        lemma_pool_none_extends(entries, k + 1);
    } else {
        assert(entries.subrange(0, k) =~= entries);
    }
}

/// `POST /publish`: decode the bundle and the one-time pool and publish them.
/// Any decoding failure is a `400` (a bundle that does not parse names the
/// wire error) and leaves the store untouched.
pub fn handle_publish(store: &mut RelayStore, req: &PublishRequest) -> (r: Result<(), RequestError>)
    ensures
        r is Ok <==> (spec_base64_decode(req.bundle@) matches Some(bytes) && holds_bundle(bytes) && decoded_pool(
            req.one_time@,
        ) is Some),
        r is Ok ==> published_from(
            old(store)@,
            final(store)@,
            spec_base64_decode(req.bundle@).unwrap(),
            decoded_pool(req.one_time@).unwrap(),
        ),
        r matches Err(e) ==> e.status == 400 && final(store)@ == old(store)@,
        r is Ok ==> decoded_pool(req.one_time@).unwrap().len() == req.one_time@.len() && forall|i: int|
            0 <= i < req.one_time@.len() ==> #[trigger] decoded_pool(req.one_time@).unwrap()[i] == (
                req.one_time@[i].id,
                key_of(req.one_time@[i].public@)->0,
            ),
        (spec_base64_decode(req.bundle@) matches Some(bytes) && !holds_bundle(bytes)) ==> (r matches Err(e)
            && e.message@ == "wire encoding error: "@ + "malformed prekey bundle"@),
{
    proof {
        lemma_decoded_pool_entries(req.one_time@);
    }
    let bundle_bytes = match unb64(req.bundle.as_str()) {
        Ok(b) => b,
        Err(m) => return Err(RequestError::bad(m)),
    };
    let bundle = match PreKeyBundle::decode(bundle_bytes.as_slice()) {
        Ok(b) => b,
        Err(e) => {
            let r = Err(RequestError::bad(e.to_string()));
            proof {
                reveal_strlit("malformed prekey bundle");
                reveal_strlit("wire encoding error: ");
                assert(!holds_bundle(bundle_bytes@));
            }
            return r;
        },
    };
    let one_time = match decode_pool(&req.one_time) {
        Ok(p) => p,
        Err(m) => return Err(RequestError::bad(m)),
    };
    let ghost pool = crate::relay::store::pool_of(one_time@);
    let ghost b = bundle;
    store.publish(bundle, one_time);
    assert(is_prefix(spec_bundle_encoding(b), bundle_bytes@));
    Ok(())
}

/// `GET /bundle?identity=<b64>`: hand out the identity's bundle (with one
/// one-time prekey, which leaves the pool) as base64 of its encoding; `400`
/// without a well-formed identity, `404` for an unknown one.
pub fn handle_bundle(store: &mut RelayStore, query: &[u8]) -> (r: Reply)
    requires
        query_defined(query@, QUERY_IDENTITY@),
    ensures
        match query_key(query@, QUERY_IDENTITY@) {
            None => is_text(r, 400, "missing identity"@) && final(store)@ == old(store)@,
            Some(id) => final(store)@ == fetched(old(store)@, id).1 && match fetched(old(store)@, id).0 {
                Some(fields) => r matches Reply::Bundle(resp) && resp.bundle@ == spec_base64_encode(
                    crate::codec::ser_fields(fields),
                ),
                None => is_text(r, 404, "unknown identity"@),
            },
        },
{
    proof {
        reveal_strlit("missing identity");
        reveal_strlit("unknown identity");
    }
    let identity = match query_param(query, QUERY_IDENTITY.as_slice()) {
        Some(s) => match unb64_key(s.as_str()) {
            Ok(k) => k,
            Err(_) => return Reply::Text(400, String::from_str("missing identity")),
        },
        None => return Reply::Text(400, String::from_str("missing identity")),
    };
    match store.fetch_bundle(&identity) {
        Some(bundle) => Reply::Bundle(BundleResponse { bundle: b64(bundle.encode().as_slice()) }),
        None => Reply::Text(404, String::from_str("unknown identity")),
    }
}

/// `POST /send`: queue the message for the mailbox. A key or message that is
/// not base64 is a `400`, a message over the size cap a `413`; both leave the
/// store untouched.
pub fn handle_send(store: &mut RelayStore, req: &SendRequest) -> (r: Result<(), RequestError>)
    ensures
        match (key_of(req.recipient@), spec_base64_decode(req.message@)) {
            (Some(k), Some(m)) => if m.len() > old(store)@.limits.max_message_bytes {
                r matches Err(e) && e.status == 413 && e.message@ == "message too large"@ && final(store)@ == old(
                    store,
                )@
            } else {
                r is Ok && sent(old(store)@, final(store)@, k, m)
            },
            _ => r matches Err(e) && e.status == 400 && final(store)@ == old(store)@,
        },
{
    let recipient = match unb64_key(req.recipient.as_str()) {
        Ok(k) => k,
        Err(m) => return Err(RequestError::bad(m)),
    };
    let message = match unb64(req.message.as_str()) {
        Ok(v) => v,
        Err(m) => return Err(RequestError::bad(m)),
    };
    let ghost m = message@;
    let queued = store.enqueue(recipient, message);
    let ghost now = choose|now: u64| #[trigger] enqueued(old(store)@, store@, recipient@, m, now, queued);
    assert(enqueued(old(store)@, store@, recipient@, m, now, queued));
    match queued {
        Ok(()) => {
            assert(enqueued(old(store)@, store@, recipient@, m, now, Ok(())));
            Ok(())
        },
        Err(StoreError::MessageTooLarge) => {
            proof {
                reveal_strlit("message too large");
            }
            Err(RequestError { status: 413, message: String::from_str("message too large") })
        },
    }
}

/// `GET /poll?recipient=<b64>`: drain the mailbox and answer its unexpired
/// messages as base64, in delivery order; `400` without a well-formed
/// recipient.
pub fn handle_poll(store: &mut RelayStore, query: &[u8]) -> (r: Reply)
    requires
        query_defined(query@, QUERY_RECIPIENT@),
    ensures
        match query_key(query@, QUERY_RECIPIENT@) {
            None => is_text(r, 400, "missing recipient"@) && final(store)@ == old(store)@,
            Some(id) => r matches Reply::Messages(resp) && poll_answered(old(store)@, final(store)@, id, resp.messages@),
        },
{
    proof {
        reveal_strlit("missing recipient");
    }
    let recipient = match query_param(query, QUERY_RECIPIENT.as_slice()) {
        Some(s) => match unb64_key(s.as_str()) {
            Ok(k) => k,
            Err(_) => return Reply::Text(400, String::from_str("missing recipient")),
        },
        None => return Reply::Text(400, String::from_str("missing recipient")),
    };
    let polled_msgs = store.poll(&recipient);
    let ghost out = crate::relay::store::bytes_view(polled_msgs@);
    let mut messages: Vec<String> = Vec::new();
    let mut i: usize = 0;
    while i < polled_msgs.len()
        invariant
            i <= polled_msgs@.len(),
            out == crate::relay::store::bytes_view(polled_msgs@),
            messages@.len() == i,
            forall|j: int| 0 <= j < i ==> (#[trigger] messages@[j])@ == spec_base64_encode(out[j]),
        decreases polled_msgs@.len() - i,
    {
        messages.push(b64(polled_msgs[i].as_slice()));
        i = i + 1;
    }
    proof {
        let now = choose|now: u64| #[trigger] polled(old(store)@, store@, recipient@, now, out);
        assert(polled(old(store)@, store@, recipient@, now, out));
        assert(all_base64(messages@, out));
    }
    Reply::Messages(PollResponse { messages })
}

} // verus!
