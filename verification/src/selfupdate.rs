//! Updates of the app itself: where it asks, and what it makes of the answers.
use vstd::prelude::*;

use crate::config::AppConfig;
use crate::number::{dec_of, dec_u64};
use crate::seqs::opt_text;
use crate::text::{
    contains_text,
    join2,
    join3,
    lowercase_of,
    occurs_in,
    same_text,
    strip_end,
    strip_end_of,
    to_lowercase,
    trim,
    trim_of,
};

verus! {

/// What a check for updates of the app found.
#[derive(Debug, PartialEq)]
pub enum SelfUpdateStatus {
    UpToDate,
    Available { version: String, notes: Option<String> },
    /// The server refused the channel `was`. The app is back on the public one.
    ChannelRevoked { was: String },
}

/// What the status of an update says.
pub enum StatusView {
    UpToDate,
    Available { version: Seq<char>, notes: Option<Seq<char>> },
    ChannelRevoked { was: Seq<char> },
}

impl View for SelfUpdateStatus {
    type V = StatusView;

    open spec fn view(&self) -> StatusView {
        match *self {
            SelfUpdateStatus::UpToDate => StatusView::UpToDate,
            SelfUpdateStatus::Available { version, notes } => StatusView::Available {
                version: version@,
                notes: opt_text(notes),
            },
            SelfUpdateStatus::ChannelRevoked { was } => StatusView::ChannelRevoked { was: was@ },
        }
    }
}

/// The address of the newest build on a channel.
pub open spec fn manifest_of(base: Seq<char>, channel: Seq<char>) -> Seq<char> {
    strip_end_of(base, '/', '/') + "/api/uplink/latest.json?channel="@ + channel
}

/// The address of the newest build on a channel.
pub fn manifest_url(base: &str, channel: &str) -> (url: String)
    ensures
        url@ == manifest_of(base@, channel@),
{
    join3(strip_end(base, '/', '/').as_str(), "/api/uplink/latest.json?channel=", channel)
}

/// The address of the newest build on a channel for a platform. The updater puts the name
/// of the platform in place of `{{target}}`.
pub fn updater_endpoint(base: &str, channel: &str) -> (url: String)
    ensures
        url@ == manifest_of(base@, channel@) + "&target={{target}}"@,
{
    join2(manifest_url(base, channel).as_str(), "&target={{target}}")
}

/// The address that is set in place of the server, trimmed, unless it is blank.
pub open spec fn override_of(url: Option<Seq<char>>) -> Option<Seq<char>> {
    if url is Some && trim_of(url->0).len() > 0 {
        Some(trim_of(url->0))
    } else {
        None
    }
}

/// The address that is set in place of the server, trimmed, unless it is blank.
pub fn dev_override_url(cfg: &AppConfig) -> (url: Option<String>)
    ensures
        opt_text(url) == override_of(opt_text(cfg.dev_update_url)),
{
    match &cfg.dev_update_url {
        Some(u) => {
            let t = trim(u.as_str());
            if t.as_str().is_empty() {
                None
            } else {
                Some(t)
            }
        },
        None => None,
    }
}

/// Where the updater fetches from, and whether the device token goes along.
#[derive(Debug, PartialEq)]
pub struct Endpoint {
    pub url: String,
    pub attach_bearer: bool,
}

/// Where an update is installed from: the address that is set in place of the server,
/// which gets no token, else the server.
pub fn install_endpoint(cfg: &AppConfig) -> (e: Endpoint)
    ensures
        match override_of(opt_text(cfg.dev_update_url)) {
            Some(url) => e.url@ == url && !e.attach_bearer,
            None => e.url@ == manifest_of(cfg.base_url@, cfg.self_update_channel@)
                + "&target={{target}}"@ && e.attach_bearer,
        },
{
    match dev_override_url(cfg) {
        Some(url) => Endpoint { url, attach_bearer: false },
        None => Endpoint {
            url: updater_endpoint(cfg.base_url.as_str(), cfg.self_update_channel.as_str()),
            attach_bearer: true,
        },
    }
}

/// How a check for updates begins.
#[derive(Debug, PartialEq)]
pub enum CheckStart {
    /// Fetch from an address that stands in for the server.
    Direct(Endpoint),
    /// Ask the server at `url` for a status first.
    Probe { base: String, channel: String, url: String },
}

/// How a check for updates begins.
pub fn begin_check(cfg: &AppConfig) -> (start: CheckStart)
    ensures
        match override_of(opt_text(cfg.dev_update_url)) {
            Some(url) => start matches CheckStart::Direct(e) && e.url@ == url && !e.attach_bearer,
            None => start matches CheckStart::Probe { base, channel, url } && base@
                == cfg.base_url@ && channel@ == cfg.self_update_channel@ && url@ == manifest_of(
                cfg.base_url@,
                cfg.self_update_channel@,
            ),
        },
{
    match dev_override_url(cfg) {
        Some(url) => CheckStart::Direct(Endpoint { url, attach_bearer: false }),
        None => CheckStart::Probe {
            base: cfg.base_url.clone(),
            channel: cfg.self_update_channel.clone(),
            url: manifest_url(cfg.base_url.as_str(), cfg.self_update_channel.as_str()),
        },
    }
}

/// What follows from the status that the server answered.
#[derive(Debug, PartialEq)]
pub enum ProbeOutcome {
    /// The check is over.
    Done(SelfUpdateStatus),
    /// Let the updater fetch.
    Fetch(Endpoint),
}

/// What follows from the status that the server answered for the channel `channel`: on
/// 403 the channel is gone and the app goes back to the public one; on 204 there is
/// nothing newer; on 200 the updater fetches.
pub fn after_probe(cfg: &mut AppConfig, base: &str, channel: &str, status: u16) -> (r: Result<
    ProbeOutcome,
    String,
>)
    ensures
        match r {
            Ok(ProbeOutcome::Done(s)) => {
                ||| status == 403 && s@ == StatusView::ChannelRevoked { was: channel@ }
                ||| status == 204 && s@ == StatusView::UpToDate
            },
            Ok(ProbeOutcome::Fetch(e)) => {
                &&& status == 200
                &&& e.url@ == manifest_of(base@, channel@) + "&target={{target}}"@
                &&& e.attach_bearer
            },
            Err(e) => {
                &&& status != 403 && status != 204 && status != 200
                &&& e@ == "update check failed (HTTP "@ + dec_of(status as nat) + ")"@
            },
        },
        final(cfg).self_update_channel@ == channel_after(
            old(cfg).self_update_channel@,
            channel@,
            status,
        ),
        if status == 403 && channel@ != "public"@ {
            &&& final(cfg).self_update_channel@ == "public"@
            &&& *final(cfg) == (AppConfig {
                self_update_channel: final(cfg).self_update_channel,
                ..*old(cfg)
            })
        } else {
            *final(cfg) == *old(cfg)
        },
{
    if status == 403 {
        if !same_text(channel, "public") {
            cfg.self_update_channel = "public".to_string();
        }
        return Ok(
            ProbeOutcome::Done(SelfUpdateStatus::ChannelRevoked { was: channel.to_string() }),
        );
    }
    if status == 204 {
        return Ok(ProbeOutcome::Done(SelfUpdateStatus::UpToDate));
    }
    if status == 200 {
        return Ok(
            ProbeOutcome::Fetch(
                Endpoint { url: updater_endpoint(base, channel), attach_bearer: true },
            ),
        );
    }
    Err(join3("update check failed (HTTP ", dec_u64(status as u64).as_str(), ")"))
}

/// A build that the updater found.
#[derive(Debug, PartialEq)]
pub struct FoundBuild {
    pub version: String,
    pub notes: Option<String>,
}

/// Whether an error of the updater only means that there is no build for this platform.
pub open spec fn means_no_build(error: Seq<char>) -> bool {
    let m = lowercase_of(error);
    occurs_in("target"@, m) || occurs_in("platform"@, m) || occurs_in("not found"@, m)
}

/// What follows from what the updater found. From the server (`served`), an error that
/// only means that there is no build for this platform is no failure.
pub fn after_fetch(found: Result<Option<FoundBuild>, String>, served: bool) -> (r: Result<
    SelfUpdateStatus,
    String,
>)
    ensures
        (r is Err) == (found is Err && !(served && means_no_build(found->Err_0@))),
        match found {
            Ok(Some(b)) => r is Ok && r->Ok_0@ == (StatusView::Available {
                version: b.version@,
                notes: opt_text(b.notes),
            }),
            Ok(None) => r is Ok && r->Ok_0@ == StatusView::UpToDate,
            Err(e) => if served && means_no_build(e@) {
                r is Ok && r->Ok_0@ == StatusView::UpToDate
            } else {
                r is Err && r->Err_0@ == e@
            },
        },
{
    match found {
        Ok(Some(b)) => Ok(SelfUpdateStatus::Available { version: b.version, notes: b.notes }),
        Ok(None) => Ok(SelfUpdateStatus::UpToDate),
        Err(e) => {
            if served {
                let m = to_lowercase(e.as_str());
                if contains_text(m.as_str(), "target") || contains_text(m.as_str(), "platform")
                    || contains_text(m.as_str(), "not found") {
                    return Ok(SelfUpdateStatus::UpToDate);
                }
            }
            Err(e)
        },
    }
}

/// The build that the daily pass installs: one that is available, unless this is a
/// Flatpak build, which cannot replace itself.
pub fn pass_installs(found: &Result<SelfUpdateStatus, String>, is_flatpak: bool) -> (version: Option<
    String,
>)
    ensures
        opt_text(version) == match *found {
            Ok(SelfUpdateStatus::Available { version: v, notes: _ }) => if is_flatpak {
                None
            } else {
                Some(v@)
            },
            _ => None,
        },
{
    if is_flatpak {
        return None;
    }
    match found {
        Ok(SelfUpdateStatus::Available { version, notes: _ }) => Some(version.clone()),
        _ => None,
    }
}

/// The newest build of a channel is asked for at the server, whatever slashes its address
/// ends with, and by the name of the channel.
pub proof fn law_build_is_asked_for_by_channel(
    base: Seq<char>,
    slashes: Seq<char>,
    channel: Seq<char>,
)
    requires
        base.len() == 0 || base.last() != '/',
        forall|i: int| 0 <= i < slashes.len() ==> #[trigger] slashes[i] == '/',
    ensures
        manifest_of(base + slashes, channel) == base + "/api/uplink/latest.json?channel="@ + channel,
{
    crate::text::law_strip_takes_off_the_ends(base, slashes, '/', '/');
}

/// An address that is set in place of the server is used without the white space around it,
/// and not where it is blank.
pub proof fn law_blank_override_is_none(url: Seq<char>)
    ensures
        override_of(None) is None,
        trim_of(url).len() == 0 ==> override_of(Some(url)) is None,
        trim_of(url).len() > 0 ==> override_of(Some(url)) == Some(trim_of(url)),
{
}

/// An error means that there is no build for this platform exactly where it speaks of a
/// target, of a platform, or of something that was not found, in letters of any case.
pub proof fn law_missing_build_is_told_apart(error: Seq<char>, before: Seq<char>, behind: Seq<char>)
    ensures
        lowercase_of(error) == before + "target"@ + behind ==> means_no_build(error),
        lowercase_of(error) == before + "platform"@ + behind ==> means_no_build(error),
        lowercase_of(error) == before + "not found"@ + behind ==> means_no_build(error),
        !occurs_in("target"@, lowercase_of(error)) && !occurs_in("platform"@, lowercase_of(error))
            && !occurs_in("not found"@, lowercase_of(error)) ==> !means_no_build(error),
{
    let m = lowercase_of(error);
    let i = before.len() as int;
    if m == before + "target"@ + behind {
        assert(m.subrange(i, i + "target"@.len()) =~= "target"@);
        assert(crate::text::stands_at(m, "target"@, i));
    }
    if m == before + "platform"@ + behind {
        assert(m.subrange(i, i + "platform"@.len()) =~= "platform"@);
        assert(crate::text::stands_at(m, "platform"@, i));
    }
    if m == before + "not found"@ + behind {
        assert(m.subrange(i, i + "not found"@.len()) =~= "not found"@);
        assert(crate::text::stands_at(m, "not found"@, i));
    }
}

/// The channel that is followed after the one that was asked for answered with `status`.
pub open spec fn channel_after(current: Seq<char>, asked: Seq<char>, status: u16) -> Seq<char> {
    if status == 403 && asked != "public"@ {
        "public"@
    } else {
        current
    }
}

/// A channel that the server refuses is left for the public one; no other answer changes the
/// channel, and the public one is never left.
pub proof fn law_refused_channel_is_left(current: Seq<char>, asked: Seq<char>, status: u16)
    ensures
        status != 403 ==> channel_after(current, asked, status) == current,
        status == 403 && asked != "public"@ ==> channel_after(current, asked, status) == "public"@,
        channel_after("public"@, asked, status) == "public"@,
{
}

} // verus!
