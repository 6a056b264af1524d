//! Requests to the server: addresses, who gets the device token, compressed bodies, and
//! what errors mean.
use vstd::prelude::*;

use std::io::Write;

use crate::json::{field, text_field, Json, JsonView};
use crate::number::{dec_of, dec_u64};
use crate::seqs::{opt_text, same_opt};
use crate::text::{
    begins_with,
    join2,
    join3,
    law_strip_takes_off_the_ends,
    same_text,
    starts_with,
    strip_end,
    strip_end_of,
    strip_start,
    strip_start_of,
};

verus! {

// ---------------------------------------------------------------------------
// Addresses
// ---------------------------------------------------------------------------

/// The address of `path` on the server `base`.
pub open spec fn joined_url(base: Seq<char>, path: Seq<char>) -> Seq<char> {
    strip_end_of(base, '/', '/') + "/"@ + strip_start_of(path, '/')
}

/// The address of `path` on the server `base`, with one slash between them.
pub fn join(base: &str, path: &str) -> (url: String)
    ensures
        url@ == joined_url(base@, path@),
{
    join3(strip_end(base, '/', '/').as_str(), "/", strip_start(path, '/').as_str())
}

/// The parts of a URL.
#[derive(Debug, PartialEq)]
pub struct UrlParts {
    pub scheme: String,
    pub host: Option<String>,
    /// The port, or the one that the scheme implies.
    pub port: Option<u16>,
    pub path: String,
    pub query: Option<String>,
}

/// What the parts of a URL say.
pub struct UrlView {
    pub scheme: Seq<char>,
    pub host: Option<Seq<char>>,
    pub port: Option<u16>,
    pub path: Seq<char>,
    pub query: Option<Seq<char>>,
}

impl View for UrlParts {
    type V = UrlView;

    open spec fn view(&self) -> UrlView {
        UrlView {
            scheme: self.scheme@,
            host: opt_text(self.host),
            port: self.port,
            path: self.path@,
            query: opt_text(self.query),
        }
    }
}

/// The view of the parts of a URL, if there are any.
pub open spec fn opt_parts(p: Option<UrlParts>) -> Option<UrlView> {
    match p {
        Some(u) => Some(u@),
        None => None,
    }
}

/// The parts of the URL `s`, if it is one.
pub uninterp spec fn parsed_url(s: Seq<char>) -> Option<UrlView>;

/// Calls `url::Url::parse`, and takes the scheme, the host, the port (or the known
/// default one), the path and the query of the URL that it gives.
#[verifier::external_body]
fn parse_url(s: &str) -> (p: Option<UrlParts>)
    ensures
        opt_parts(p) == parsed_url(s@),
{
    url::Url::parse(s).ok().map(
        |u| UrlParts {
            scheme: u.scheme().to_string(),
            host: u.host_str().map(|h| h.to_string()),
            port: u.port_or_known_default(),
            path: u.path().to_string(),
            query: u.query().map(|q| q.to_string()),
        },
    )
}

/// Whether two URLs have the same scheme, host and port.
pub open spec fn origins_agree(a: Option<UrlView>, b: Option<UrlView>) -> bool {
    a is Some && b is Some && a->0.scheme == b->0.scheme && a->0.host == b->0.host && a->0.port
        == b->0.port
}

/// Whether two URLs, given by their parts, have the same scheme, host and port. What is
/// no URL has no origin.
pub fn same_origin_parts(a: &Option<UrlParts>, b: &Option<UrlParts>) -> (same: bool)
    ensures
        same == origins_agree(opt_parts(*a), opt_parts(*b)),
{
    match (a, b) {
        (Some(x), Some(y)) => same_text(x.scheme.as_str(), y.scheme.as_str()) && same_opt(
            &x.host,
            &y.host,
        ) && x.port == y.port,
        _ => false,
    }
}

/// Whether the URLs `a` and `b` have the same scheme, host and port.
pub fn same_origin(a: &str, b: &str) -> (same: bool)
    ensures
        same == origins_agree(parsed_url(a@), parsed_url(b@)),
{
    same_origin_parts(&parse_url(a), &parse_url(b))
}

/// The device token for a download from `url`: only the server's own origin gets it.
pub open spec fn download_token(
    url: Option<UrlView>,
    base: Option<UrlView>,
    token: Option<Seq<char>>,
) -> Option<Seq<char>> {
    if origins_agree(url, base) {
        token
    } else {
        None
    }
}

/// The device token for a download from `url`: only the server's own origin gets it.
pub fn token_for_download(url: &str, base_url: &str, token: Option<String>) -> (t: Option<String>)
    ensures
        opt_text(t) == download_token(parsed_url(url@), parsed_url(base_url@), opt_text(token)),
{
    if same_origin(url, base_url) {
        token
    } else {
        None
    }
}

/// The device token never goes to an address that is not of the server's origin: not with
/// another scheme, host or port, and not to what is no URL.
pub proof fn law_token_stays_with_the_server(
    url: Option<UrlView>,
    base: Option<UrlView>,
    token: Option<Seq<char>>,
)
    ensures
        download_token(url, base, token) is Some ==> {
            &&& url is Some && base is Some
            &&& url->0.scheme == base->0.scheme
            &&& url->0.host == base->0.host
            &&& url->0.port == base->0.port
        },
        origins_agree(url, base) ==> download_token(url, base, token) == token,
{
}

/// Where to download from: an address below `/api/` is taken to the server `base`, with
/// its path and query; any other stays.
pub open spec fn download_url(
    parts: Option<UrlView>,
    url: Seq<char>,
    base: Seq<char>,
) -> Seq<char> {
    if parts is Some && begins_with(parts->0.path, "/api/"@) {
        let plain = strip_end_of(base, '/', '/') + parts->0.path;
        match parts->0.query {
            Some(q) => plain + "?"@ + q,
            None => plain,
        }
    } else {
        url
    }
}

/// Where to download from, given the parts of `url`.
pub fn resolve_parsed_url(parts: &Option<UrlParts>, url: &str, base_url: &str) -> (out: String)
    ensures
        out@ == download_url(opt_parts(*parts), url@, base_url@),
{
    if let Some(u) = parts {
        if starts_with(u.path.as_str(), "/api/") {
            let plain = join2(strip_end(base_url, '/', '/').as_str(), u.path.as_str());
            return match &u.query {
                Some(q) => join3(plain.as_str(), "?", q.as_str()),
                None => plain,
            };
        }
    }
    url.to_string()
}

/// Where to download the file from that the catalog lists under `url`. A wrong host in
/// the address of a server download is put right.
pub fn resolve_download_url(url: &str, base_url: &str) -> (out: String)
    ensures
        out@ == download_url(parsed_url(url@), url@, base_url@),
{
    resolve_parsed_url(&parse_url(url), url, base_url)
}

/// Addresses of other servers are left alone; addresses below `/api/` keep nothing but
/// their path and query.
pub proof fn law_download_goes_to_the_server_or_stays(
    parts: Option<UrlView>,
    url: Seq<char>,
    other: Seq<char>,
    base: Seq<char>,
)
    ensures
        parts is None || !begins_with(parts->0.path, "/api/"@) ==> download_url(parts, url, base)
            == url,
        parts is Some && begins_with(parts->0.path, "/api/"@) ==> download_url(parts, url, base)
            == download_url(parts, other, base),
{
}

/// Resolving an address that was resolved changes nothing: given the parts `again` of the
/// resolved address, which has the path and the query of the address itself where that lies
/// below `/api/`, and is the address itself elsewhere.
pub proof fn law_resolving_again_changes_nothing(
    parts: Option<UrlView>,
    again: Option<UrlView>,
    url: Seq<char>,
    base: Seq<char>,
)
    requires
        if parts is Some && begins_with(parts->0.path, "/api/"@) {
            again is Some && again->0.path == parts->0.path && again->0.query == parts->0.query
        } else {
            again == parts
        },
    ensures
        download_url(again, download_url(parts, url, base), base) == download_url(parts, url, base),
{
}

// ---------------------------------------------------------------------------
// Requests
// ---------------------------------------------------------------------------

/// What a user is told whose device is not paired.
pub open spec fn pair_first() -> Seq<char> {
    "not paired \u{2014} pair this device first"@
}

/// The token to send with a request, if there is one; an error where one is needed.
pub fn bearer(token: Option<String>, require_auth: bool) -> (r: Result<Option<String>, String>)
    ensures
        match r {
            Ok(t) => t == token && (token is Some || !require_auth),
            Err(e) => token is None && require_auth && e@ == pair_first(),
        },
{
    match token {
        Some(t) => Ok(Some(t)),
        None => if require_auth {
            Err("not paired \u{2014} pair this device first".to_string())
        } else {
            Ok(None)
        },
    }
}

/// The bytes `raw` compressed by gzip at the default level.
pub uninterp spec fn gzipped(raw: Seq<u8>) -> Seq<u8>;

/// Calls `flate2::write::GzEncoder` at the default level into a new buffer: all of `raw`
/// is written, and the stream is finished. A buffer takes all that is written to it, so
/// that this does not fail.
#[verifier::external_body]
fn gzip(raw: &[u8]) -> (r: Result<Vec<u8>, String>)
    ensures
        r is Ok,
        r->Ok_0@ == gzipped(raw@),
{
    let mut enc = flate2::write::GzEncoder::new(Vec::new(), flate2::Compression::default());
    enc.write_all(raw).map_err(|e| e.to_string())?;
    enc.finish().map_err(|e| e.to_string())
}

/// A compressed request and the token that goes with it.
#[derive(Debug)]
pub struct GzipRequest {
    pub url: String,
    pub token: String,
    pub body: Vec<u8>,
}

/// The compressed request with the body `raw` to `path` on the server `base`. It needs a
/// token.
pub fn gzip_request(base: &str, path: &str, token: Option<String>, raw: &[u8]) -> (r: Result<
    GzipRequest,
    String,
>)
    ensures
        match r {
            Ok(q) => {
                &&& token is Some
                &&& q.token == token->0
                &&& q.url@ == joined_url(base@, path@)
                &&& q.body@ == gzipped(raw@)
            },
            Err(e) => token is None && e@ == pair_first(),
        },
{
    let tok: String = match token {
        Some(t) => t,
        None => return Err("not paired \u{2014} pair this device first".to_string()),
    };
    match gzip(raw) {
        Ok(body) => Ok(GzipRequest { url: join(base, path), token: tok, body }),
        Err(e) => Err(e),
    }
}

// ---------------------------------------------------------------------------
// Errors
// ---------------------------------------------------------------------------

/// Whether the server says that uploads are paused.
pub open spec fn is_frozen(v: JsonView) -> bool {
    field(v, "frozen"@) == Some(JsonView::Bool(true))
}

/// What is said of an answer with the status `status` (displayed as `shown`) and the JSON
/// body `body`: the server's message where uploads are paused, else its error and what is
/// to be updated, else the status.
pub open spec fn error_said(status: u16, shown: Seq<char>, body: Option<JsonView>) -> Seq<char> {
    if body is Some && is_frozen(body->0) {
        let message = text_field(body->0, "message"@);
        "Uploads paused: "@ + (if message is Some && message->0.len() > 0 {
            message->0
        } else {
            "uploads are temporarily paused \u{2014} try again later"@
        })
    } else if body is Some && text_field(body->0, "error"@) is Some {
        let message = text_field(body->0, "error"@)->0;
        let code = " ("@ + dec_of(status as nat) + ")"@;
        match text_field(body->0, "update"@) {
            Some(what) => message + " \u{2014} please update "@ + what + code,
            None => message + code,
        }
    } else {
        "server returned "@ + shown
    }
}

/// What is said of an answer that is no success.
pub fn server_error(status: u16, shown: &str, body: Option<&Json>) -> (e: String)
    ensures
        e@ == error_said(status, shown@, crate::json::opt_view(body)),
{
    if let Some(v) = body {
        let frozen: bool = match v.get("frozen") {
            Some(f) => match f.as_bool() {
                Some(b) => b,
                None => false,
            },
            None => false,
        };
        if frozen {
            let message: &str = match v.get_str("message") {
                Some(m) => if m.is_empty() {
                    "uploads are temporarily paused \u{2014} try again later"
                } else {
                    m
                },
                None => "uploads are temporarily paused \u{2014} try again later",
            };
            return join2("Uploads paused: ", message);
        }
        if let Some(message) = v.get_str("error") {
            let code = join3(" (", dec_u64(status as u64).as_str(), ")");
            return match v.get_str("update") {
                Some(what) => crate::text::join4(
                    message,
                    " \u{2014} please update ",
                    what,
                    code.as_str(),
                ),
                None => join2(message, code.as_str()),
            };
        }
    }
    join2("server returned ", shown)
}

/// Where uploads are paused, the user reads the server's own words.
pub proof fn law_pause_message_is_verbatim(status: u16, shown: Seq<char>, body: JsonView)
    requires
        is_frozen(body),
        text_field(body, "message"@) is Some,
        text_field(body, "message"@)->0.len() > 0,
    ensures
        error_said(status, shown, Some(body)) == "Uploads paused: "@ + text_field(
            body,
            "message"@,
        )->0,
{
}

/// Whatever slashes a base ends with and a path begins with, exactly one stands between them
/// in the address, and nothing else of either changes.
pub proof fn law_one_slash_joins_base_and_path(
    base: Seq<char>,
    path: Seq<char>,
    behind: Seq<char>,
    before: Seq<char>,
)
    requires
        base.len() == 0 || base.last() != '/',
        path.len() == 0 || path[0] != '/',
        forall|i: int| 0 <= i < behind.len() ==> #[trigger] behind[i] == '/',
        forall|i: int| 0 <= i < before.len() ==> #[trigger] before[i] == '/',
    ensures
        joined_url(base + behind, before + path) == base + "/"@ + path,
{
    law_strip_takes_off_the_ends(base, behind, '/', '/');
    law_strip_takes_off_the_ends(path, before, '/', '/');
}

/// The token goes along exactly where the scheme, the host and the port are those of the
/// server; a difference in any of them keeps it back.
pub proof fn law_token_needs_the_same_origin(a: UrlView, b: UrlView, token: Option<Seq<char>>)
    ensures
        download_token(Some(a), Some(b), token) == if a.scheme == b.scheme && a.host == b.host
            && a.port == b.port {
            token
        } else {
            None
        },
        download_token(None, Some(b), token) is None,
        download_token(Some(a), None, token) is None,
{
}

/// An address below `/api/` keeps its path and its query on the way to the server; any
/// other address stays as it was.
pub proof fn law_download_keeps_path_and_query(
    parts: UrlView,
    url: Seq<char>,
    base: Seq<char>,
    slashes: Seq<char>,
    rest: Seq<char>,
)
    requires
        base.len() == 0 || base.last() != '/',
        forall|i: int| 0 <= i < slashes.len() ==> #[trigger] slashes[i] == '/',
    ensures
        parts.path == "/api/"@ + rest && parts.query is None ==> download_url(
            Some(parts),
            url,
            base + slashes,
        ) == base + "/api/"@ + rest,
        parts.path == "/api/"@ + rest && parts.query is Some ==> download_url(
            Some(parts),
            url,
            base + slashes,
        ) == base + "/api/"@ + rest + "?"@ + parts.query->0,
        !begins_with(parts.path, "/api/"@) ==> download_url(Some(parts), url, base) == url,
        download_url(None, url, base) == url,
{
    law_strip_takes_off_the_ends(base, slashes, '/', '/');
    let api = "/api/"@;
    if parts.path == api + rest {
        assert(parts.path.subrange(0, api.len() as int) =~= api);
        assert(base + api + rest =~= base + (api + rest));
    }
}

/// Uploads are paused exactly where the server says so with a true value; the user then
/// reads that, whatever else the answer says.
pub proof fn law_pause_is_told_apart(
    status: u16,
    shown: Seq<char>,
    m: Map<Seq<char>, JsonView>,
    v: JsonView,
)
    ensures
        is_frozen(JsonView::Obj(m.insert("frozen"@, v))) <==> v == JsonView::Bool(true),
        !is_frozen(JsonView::Obj(m.remove("frozen"@))),
        ({
            let b = JsonView::Obj(m.insert("frozen"@, JsonView::Bool(true)).remove("message"@));
            error_said(status, shown, Some(b)) == "Uploads paused: "@
                + "uploads are temporarily paused \u{2014} try again later"@
        }),
{
    reveal_strlit("frozen");
    reveal_strlit("message");
    assert("frozen"@.len() != "message"@.len());
}

/// The server's own error reaches the user with the status, and with what is to be updated
/// where the server says it; without an error in the answer, the status alone does.
pub proof fn law_error_of_the_server_is_told(
    status: u16,
    shown: Seq<char>,
    body: JsonView,
)
    requires
        !is_frozen(body),
    ensures
        text_field(body, "error"@) is Some && text_field(body, "update"@) is None ==> error_said(
            status,
            shown,
            Some(body),
        ) == text_field(body, "error"@)->0 + (" ("@ + dec_of(status as nat) + ")"@),
        text_field(body, "error"@) is Some && text_field(body, "update"@) is Some ==> error_said(
            status,
            shown,
            Some(body),
        ) == text_field(body, "error"@)->0 + " \u{2014} please update "@ + text_field(
            body,
            "update"@,
        )->0 + (" ("@ + dec_of(status as nat) + ")"@),
        text_field(body, "error"@) is None ==> error_said(status, shown, Some(body))
            == "server returned "@ + shown,
        error_said(status, shown, None) == "server returned "@ + shown,
{
}

} // verus!
