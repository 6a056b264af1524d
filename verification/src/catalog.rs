//! The delivery catalog and the pairing messages.
use vstd::prelude::*;

use crate::config::{Account, AppConfig};
use crate::seqs::{clone_opt, clone_texts, first_at, lemma_first_at, opt_text};
use crate::text::{eq_ignore_ascii_case, same_but_case, same_text, texts, to_uppercase, trim};
use crate::text::{is_space, law_trim_takes_off_outer_space, trim_of, uppercase_of};
use crate::textmap::TextMap;

verus! {

/// A delivery channel.
#[derive(Debug, PartialEq)]
pub struct ChannelDef {
    pub slug: String,
    pub name: String,
    pub badge: String,
    pub sort: i64,
}

/// The newest release on a channel.
#[derive(Debug, PartialEq)]
pub struct ChannelLatest {
    pub version: String,
    pub url: String,
}

/// A release on a channel.
#[derive(Debug, PartialEq)]
pub struct ReleaseRow {
    pub channel: String,
    pub version: String,
    pub url: String,
    pub published_at: String,
}

/// An addon that can be delivered.
#[derive(Debug, PartialEq)]
pub struct CatalogAddon {
    pub slug: String,
    pub name: String,
    pub short: String,
    pub status: String,
    pub blurb: String,
    pub github_repo: Option<String>,
    pub channels: TextMap<ChannelLatest>,
    pub releases: Vec<ReleaseRow>,
    /// The flavors that it supports. Empty means all of them.
    pub flavors: Vec<String>,
}

/// A version and where it is downloaded from.
pub open spec fn release_said(version: String, url: String) -> (Seq<char>, Seq<char>) {
    (version@, url@)
}

/// What the releases are found by: their channel and version.
pub open spec fn release_keys(releases: Seq<ReleaseRow>) -> Seq<(Seq<char>, Seq<char>)> {
    Seq::new(releases.len(), |i: int| (releases[i].channel@, releases[i].version@))
}

impl CatalogAddon {
    /// Whether the addon supports a flavor: it names it, whatever the case of its letters,
    /// or none at all.
    pub open spec fn runs_on(self, flavor: Seq<char>) -> bool {
        self.flavors@.len() == 0 || exists|i: int|
            0 <= i < self.flavors@.len() && same_but_case(
                (#[trigger] self.flavors@[i])@,
                flavor,
            )
    }

    /// Whether the addon supports a flavor.
    pub fn supports_flavor(&self, flavor: &str) -> (yes: bool)
        ensures
            yes == self.runs_on(flavor@),
    {
        if self.flavors.len() == 0 {
            return true;
        }
        let mut i: usize = 0;
        while i < self.flavors.len()
            invariant
                i <= self.flavors@.len(),
                self.flavors@.len() > 0,
                forall|j: int|
                    0 <= j < i ==> !same_but_case((#[trigger] self.flavors@[j])@, flavor@),
            decreases self.flavors@.len() - i,
        {
            if eq_ignore_ascii_case(self.flavors[i].as_str(), flavor) {
                proof {
                    assert(same_but_case(self.flavors@[i as int]@, flavor@));
                }
                return true;
            }
            i = i + 1;
        }
        false
    }

    /// The newest release on a channel; on the public one if the channel has none.
    pub open spec fn newest_on(self, channel: Seq<char>) -> Option<ChannelLatest> {
        if self.channels@.contains_key(channel) {
            Some(self.channels@[channel])
        } else if self.channels@.contains_key("public"@) {
            Some(self.channels@["public"@])
        } else {
            None
        }
    }

    /// The newest release on a channel; on the public one if the channel has none.
    pub fn latest_for<'a>(&'a self, channel: &str) -> (l: Option<&'a ChannelLatest>)
        ensures
            match l {
                Some(x) => self.newest_on(channel@) == Some(*x),
                None => self.newest_on(channel@) is None,
            },
    {
        match self.channels.get(channel) {
            Some(l) => Some(l),
            None => self.channels.get("public"),
        }
    }

    /// Where the release of a version on a channel stands; the number of releases if there
    /// is none.
    pub open spec fn release_at(self, channel: Seq<char>, version: Seq<char>) -> int {
        first_at(release_keys(self.releases@), (channel, version))
    }

    /// The release of a version on a channel, if there is one.
    pub fn release<'a>(&'a self, channel: &str, version: &str) -> (r: Option<&'a ReleaseRow>)
        ensures
            match r {
                Some(x) => self.release_at(channel@, version@) < self.releases@.len() && *x
                    == self.releases@[self.release_at(channel@, version@)],
                None => self.release_at(channel@, version@) == self.releases@.len(),
            },
    {
        let ghost keys = release_keys(self.releases@);
        let ghost key = (channel@, version@);
        proof {
            lemma_first_at(keys, key);
        }
        let mut i: usize = 0;
        while i < self.releases.len()
            invariant
                keys == release_keys(self.releases@),
                key == (channel@, version@),
                i <= first_at(keys, key) <= self.releases@.len(),
                first_at(keys, key) < self.releases@.len() ==> keys[first_at(keys, key)] == key,
                forall|j: int| 0 <= j < first_at(keys, key) ==> keys[j] != key,
            decreases self.releases@.len() - i,
        {
            let same: bool = same_text(self.releases[i].channel.as_str(), channel) && same_text(
                self.releases[i].version.as_str(),
                version,
            );
            proof {
                assert(same == (keys[i as int] == key));
            }
            if same {
                return Some(&self.releases[i]);
            }
            i = i + 1;
        }
        None
    }

    /// The release that an addon should be on: the pinned version on the channel, if one is
    /// pinned, else the newest.
    pub open spec fn target(self, channel: Seq<char>, pinned: Option<Seq<char>>) -> Option<
        (Seq<char>, Seq<char>),
    > {
        match pinned {
            Some(v) => {
                let p = self.release_at(channel, v);
                if p < self.releases@.len() {
                    Some(release_said(self.releases@[p].version, self.releases@[p].url))
                } else {
                    None
                }
            },
            None => match self.newest_on(channel) {
                Some(l) => Some(release_said(l.version, l.url)),
                None => None,
            },
        }
    }

    /// The version and address of the release that an addon should be on.
    pub fn target_for(&self, channel: &str, pinned: &Option<String>) -> (t: Option<(String, String)>)
        ensures
            match t {
                Some((v, u)) => self.target(channel@, opt_text(*pinned)) == Some((v@, u@)),
                None => self.target(channel@, opt_text(*pinned)) is None,
            },
    {
        match pinned {
            Some(v) => match self.release(channel, v.as_str()) {
                Some(r) => Some((r.version.clone(), r.url.clone())),
                None => None,
            },
            None => match self.latest_for(channel) {
                Some(l) => Some((l.version.clone(), l.url.clone())),
                None => None,
            },
        }
    }
}

/// The catalog of addons.
#[derive(Debug, PartialEq)]
pub struct Catalog {
    pub schema: String,
    pub channel_defs: Vec<ChannelDef>,
    pub addons: Vec<CatalogAddon>,
}

/// The slugs of a row of catalog addons.
pub open spec fn catalog_slugs(addons: Seq<CatalogAddon>) -> Seq<Seq<char>> {
    Seq::new(addons.len(), |i: int| addons[i].slug@)
}

impl Catalog {
    /// Where the addon `slug` stands; the number of addons if it is not there.
    pub open spec fn addon_at(self, slug: Seq<char>) -> int {
        first_at(catalog_slugs(self.addons@), slug)
    }

    /// Whether the catalog lists the addon `slug`.
    pub open spec fn lists(self, slug: Seq<char>) -> bool {
        self.addon_at(slug) < self.addons@.len()
    }

    /// The addon `slug`, if the catalog lists it.
    pub fn addon<'a>(&'a self, slug: &str) -> (a: Option<&'a CatalogAddon>)
        ensures
            match a {
                Some(x) => self.lists(slug@) && *x == self.addons@[self.addon_at(slug@)] && x.slug@
                    == slug@,
                None => !self.lists(slug@),
            },
            self.addon_at(slug@) <= self.addons@.len(),
    {
        let ghost keys = catalog_slugs(self.addons@);
        proof {
            lemma_first_at(keys, slug@);
        }
        let mut i: usize = 0;
        while i < self.addons.len()
            invariant
                keys == catalog_slugs(self.addons@),
                i <= first_at(keys, slug@) <= self.addons@.len(),
                first_at(keys, slug@) < self.addons@.len() ==> keys[first_at(keys, slug@)] == slug@,
                forall|j: int| 0 <= j < first_at(keys, slug@) ==> keys[j] != slug@,
            decreases self.addons@.len() - i,
        {
            if same_text(self.addons[i].slug.as_str(), slug) {
                proof {
                    assert(keys[i as int] == slug@);
                }
                return Some(&self.addons[i]);
            }
            proof {
                assert(keys[i as int] != slug@);
            }
            i = i + 1;
        }
        None
    }
}

// ---------------------------------------------------------------------------
// Pairing
// ---------------------------------------------------------------------------

/// What is sent to pair this device.
#[derive(Debug)]
pub struct PairRequest {
    pub code: String,
    pub name: String,
    pub platform: String,
    pub app: String,
    pub app_version: String,
}

/// The account in the answer to a pairing.
#[derive(Debug)]
pub struct PairAccount {
    pub handle: String,
    pub tier: Option<String>,
    pub role: String,
    pub channels: Vec<String>,
}

/// The answer to a pairing.
#[derive(Debug)]
pub struct PairResponse {
    pub token: String,
    pub device_id: i64,
    /// The name of the device as it was set on the website.
    pub name: Option<String>,
    pub account: PairAccount,
}

/// The pairing code that is sent where the user typed `code`.
pub open spec fn pair_code(code: Seq<char>) -> Seq<char> {
    uppercase_of(trim_of(code))
}

/// The name of the device where the server gives `given`: trimmed, and the one that it had
/// where that is blank.
pub open spec fn name_given(had: Option<Seq<char>>, given: Option<Seq<char>>) -> Option<Seq<char>> {
    if given is Some && trim_of(given->0).len() > 0 {
        Some(trim_of(given->0))
    } else {
        had
    }
}

/// The pairing code is what the user typed in upper case; white space around it does not
/// matter.
pub proof fn law_code_is_taken_without_space(before: Seq<char>, code: Seq<char>, behind: Seq<char>)
    requires
        forall|i: int| 0 <= i < before.len() ==> is_space(#[trigger] before[i]),
        forall|i: int| 0 <= i < behind.len() ==> is_space(#[trigger] behind[i]),
        code.len() > 0,
        !is_space(code[0]) && !is_space(code.last()),
    ensures
        pair_code(before + code + behind) == uppercase_of(code),
        pair_code(code) == uppercase_of(code),
{
    law_trim_takes_off_outer_space(before, code, behind);
    let none = Seq::<char>::empty();
    law_trim_takes_off_outer_space(none, code, none);
    assert(none + code + none =~= code);
}

/// A name that the server gives replaces the one that there was; a blank one, or none, does
/// not.
pub proof fn law_given_name_replaces_the_old_one(had: Option<Seq<char>>, given: Seq<char>)
    ensures
        trim_of(given).len() > 0 ==> name_given(had, Some(given)) == Some(trim_of(given)),
        trim_of(given).len() == 0 ==> name_given(had, Some(given)) == had,
        name_given(had, None) == had,
{
}

/// What is sent to pair this device with the code `code`: the code trimmed and in upper
/// case. The name is left to the server.
pub fn pair_request(code: &str, platform: &str, app_version: &str) -> (r: PairRequest)
    ensures
        r.code@ == pair_code(code@),
        r.name@ == Seq::<char>::empty(),
        r.platform@ == platform@,
        r.app@ == "gec-uplink"@,
        r.app_version@ == app_version@,
{
    PairRequest {
        code: to_uppercase(trim(code).as_str()),
        name: String::new(),
        platform: platform.to_string(),
        app: "gec-uplink".to_string(),
        app_version: app_version.to_string(),
    }
}

/// Takes in the answer to a pairing: the account and the device id, and the name unless
/// it is blank. Returns the account.
pub fn apply_pairing(cfg: &mut AppConfig, resp: &PairResponse) -> (account: Account)
    ensures
        account.handle@ == resp.account.handle@,
        opt_text(account.tier) == opt_text(resp.account.tier),
        account.role@ == resp.account.role@,
        texts(account.channels@) == texts(resp.account.channels@),
        final(cfg).device_id == Some(resp.device_id),
        final(cfg).account is Some,
        crate::config::same_account(final(cfg).account->0, account),
        opt_text(final(cfg).device_name) == name_given(
            opt_text(old(cfg).device_name),
            opt_text(resp.name),
        ),
        *final(cfg) == (AppConfig {
            device_id: final(cfg).device_id,
            device_name: final(cfg).device_name,
            account: final(cfg).account,
            ..*old(cfg)
        }),
{
    let account = Account {
        handle: resp.account.handle.clone(),
        tier: clone_opt(&resp.account.tier),
        role: resp.account.role.clone(),
        channels: clone_texts(&resp.account.channels),
    };
    cfg.device_id = Some(resp.device_id);
    if let Some(n) = &resp.name {
        let t = trim(n.as_str());
        if !t.as_str().is_empty() {
            cfg.device_name = Some(t);
        }
    }
    cfg.account = Some(account.clone());
    account
}

/// Undoes a pairing: the account and the device id are gone.
pub fn unpair(cfg: &mut AppConfig)
    ensures
        *final(cfg) == (AppConfig { account: None, device_id: None, ..*old(cfg) }),
{
    cfg.account = None;
    cfg.device_id = None;
}

// ---------------------------------------------------------------------------
// What the catalog offers
// ---------------------------------------------------------------------------

/// An addon that names no flavor runs on all of them; any other runs on those that it
/// names, however their letters are written, and on no more.
pub proof fn law_flavors_are_those_that_are_named(a: CatalogAddon, i: int, flavor: Seq<char>)
    ensures
        a.flavors@.len() == 0 ==> a.runs_on(flavor),
        0 <= i < a.flavors@.len() && same_but_case(a.flavors@[i]@, flavor) ==> a.runs_on(flavor),
        a.flavors@.len() > 0 && (forall|j: int|
            0 <= j < a.flavors@.len() ==> !same_but_case((#[trigger] a.flavors@[j])@, flavor))
            ==> !a.runs_on(flavor),
{
}

/// An addon follows its channel to the newest release there. Only where the channel has
/// none does it follow the public one, and never any other.
pub proof fn law_channel_is_followed(a: CatalogAddon, channel: Seq<char>)
    ensures
        a.channels@.contains_key(channel) ==> a.target(channel, None) == Some(
            (a.channels@[channel].version@, a.channels@[channel].url@),
        ),
        !a.channels@.contains_key(channel) && a.channels@.contains_key("public"@) ==> a.target(
            channel,
            None,
        ) == Some((a.channels@["public"@].version@, a.channels@["public"@].url@)),
        !a.channels@.contains_key(channel) && !a.channels@.contains_key("public"@) ==> a.target(
            channel,
            None,
        ) is None,
{
}

/// A pinned addon is on the release of just that version on just its channel: it is offered
/// that one where there is one, and nothing else where there is none.
pub proof fn law_pin_is_exact(a: CatalogAddon, channel: Seq<char>, version: Seq<char>)
    ensures
        match a.target(channel, Some(version)) {
            Some((v, url)) => v == version && exists|i: int|
                0 <= i < a.releases@.len() && (#[trigger] a.releases@[i]).channel@ == channel
                    && a.releases@[i].version@ == version && a.releases@[i].url@ == url,
            None => forall|i: int|
                0 <= i < a.releases@.len() ==> (#[trigger] a.releases@[i]).channel@ != channel
                    || a.releases@[i].version@ != version,
        },
        a.release_at(channel, version) < a.releases@.len() ==> a.target(channel, Some(version)) is Some,
{
    let keys = release_keys(a.releases@);
    let key = (channel, version);
    lemma_first_at(keys, key);
    let p = a.release_at(channel, version);
    if p < a.releases@.len() {
        assert(keys[p] == key);
        assert(a.releases@[p].channel@ == channel);
    } else {
        assert forall|i: int| 0 <= i < a.releases@.len() implies (#[trigger] a.releases@[i]).channel@
            != channel || a.releases@[i].version@ != version by {
            assert(keys[i] != key);
        }
    }
}

/// The catalog lists an addon exactly where one of its addons has that slug, and finds the
/// first that has it.
pub proof fn law_catalog_lists_its_addons(cat: Catalog, slug: Seq<char>, i: int)
    ensures
        cat.lists(slug) <==> catalog_slugs(cat.addons@).contains(slug),
        0 <= i < cat.addons@.len() && (forall|j: int|
            0 <= j < i ==> (#[trigger] cat.addons@[j]).slug@ != cat.addons@[i].slug@) ==> cat.lists(
            cat.addons@[i].slug@,
        ) && cat.addon_at(cat.addons@[i].slug@) == i,
        (forall|j: int| 0 <= j < cat.addons@.len() ==> (#[trigger] cat.addons@[j]).slug@ != slug)
            ==> !cat.lists(slug),
{
    let keys = catalog_slugs(cat.addons@);
    lemma_first_at(keys, slug);
    if 0 <= i < cat.addons@.len() && (forall|j: int|
        0 <= j < i ==> (#[trigger] cat.addons@[j]).slug@ != cat.addons@[i].slug@) {
        assert(keys[i] == cat.addons@[i].slug@);
        assert forall|j: int| 0 <= j < i implies keys[j] != keys[i] by {
            assert(keys[j] == cat.addons@[j].slug@);
        }
        crate::seqs::law_different_keys_are_each_found(keys, i);
    }
    if forall|j: int| 0 <= j < cat.addons@.len() ==> (#[trigger] cat.addons@[j]).slug@ != slug {
        let p = first_at(keys, slug);
        if p < keys.len() {
            assert(keys[p] == cat.addons@[p].slug@);
        }
    }
}

} // verus!
