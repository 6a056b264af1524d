//! The persisted configuration: installs, their addons, preferences, and the sync
//! state of every stream.
use vstd::prelude::*;

use crate::number::{dec_of, dec_u64};
use crate::seqs::{clone_opt, clone_texts, first_at, lemma_first_at, opt_text};
use crate::text::{is_less, join5, same_text, text_less, texts, trim, trim_of};
use crate::text::{law_text_order_is_strict_and_total, law_trim_is_idempotent};
use crate::textmap::{keys_ascend, lemma_key_once, TextMap};

verus! {

/// The server that is used unless another is configured.
pub const DEFAULT_BASE_URL: &'static str = "https://goblineng.co";

/// The server to start with: `env_override` (the `UPLINK_BASE_URL` variable) where it
/// is set, else the default.
pub fn default_base_url(env_override: Option<String>) -> (url: String)
    ensures
        match env_override {
            Some(u) => url@ == u@,
            None => url@ == DEFAULT_BASE_URL@,
        },
{
    match env_override {
        Some(u) => u,
        None => DEFAULT_BASE_URL.to_string(),
    }
}

/// The delivery channel of a new install.
pub fn default_channel() -> (s: String)
    ensures
        s@ == "public"@,
{
    "public".to_string()
}

/// What a switch is that defaults to on.
pub fn default_true() -> (b: bool)
    ensures
        b,
{
    true
}

/// Seconds between two background syncs.
pub fn default_sync_interval() -> (secs: u64)
    ensures
        secs == 900,
{
    900
}

/// The theme to start with.
pub fn default_theme() -> (s: String)
    ensures
        s@ == "workshop"@,
{
    "workshop".to_string()
}

/// The channel that the app itself is updated from.
pub fn default_self_update_channel() -> (s: String)
    ensures
        s@ == "public"@,
{
    "public".to_string()
}

/// The local time of the daily update pass.
pub fn default_auto_update_time() -> (s: String)
    ensures
        s@ == "03:00"@,
{
    "03:00".to_string()
}

// ---------------------------------------------------------------------------
// Account and installs
// ---------------------------------------------------------------------------

/// The account that this device is paired with.
#[derive(Debug, PartialEq)]
pub struct Account {
    pub handle: String,
    pub tier: Option<String>,
    pub role: String,
    pub channels: Vec<String>,
}

/// Whether two accounts hold the same.
pub open spec fn same_account(a: Account, b: Account) -> bool {
    a.handle == b.handle && a.tier == b.tier && a.role == b.role && a.channels@ == b.channels@
}

impl Clone for Account {
    fn clone(&self) -> (copy: Self)
        ensures
            same_account(copy, *self),
    {
        Account {
            handle: self.handle.clone(),
            tier: clone_opt(&self.tier),
            role: self.role.clone(),
            channels: clone_texts(&self.channels),
        }
    }
}

/// One addon of one install.
#[derive(Debug, PartialEq)]
pub struct InstalledAddon {
    pub slug: String,
    pub enabled: bool,
    pub installed_version: Option<String>,
    pub pinned_version: Option<String>,
    pub channel_override: Option<String>,
    /// Whether the daily pass updates it.
    pub auto_update: bool,
    /// Whether its data is swept.
    pub sync: bool,
    /// The folder that it was installed to.
    pub folder: Option<String>,
}

impl InstalledAddon {
    /// What a record is that nothing has touched yet: not enabled, but with updates and
    /// sync on.
    pub open spec fn is_new(self, slug: Seq<char>) -> bool {
        &&& self.slug@ == slug
        &&& !self.enabled
        &&& self.installed_version is None
        &&& self.pinned_version is None
        &&& self.channel_override is None
        &&& self.auto_update
        &&& self.sync
        &&& self.folder is None
    }

    /// A new record for `slug`.
    pub fn new(slug: &str) -> (a: Self)
        ensures
            a.is_new(slug@),
    {
        InstalledAddon {
            slug: slug.to_string(),
            enabled: false,
            installed_version: None,
            pinned_version: None,
            channel_override: None,
            auto_update: true,
            sync: true,
            folder: None,
        }
    }

    /// Whether the data of this addon may be uploaded: it is enabled and its sync is on.
    pub open spec fn syncs(self) -> bool {
        self.enabled && self.sync
    }

    /// Whether the data of this addon may be uploaded.
    pub fn may_sync(&self) -> (yes: bool)
        ensures
            yes == self.syncs(),
    {
        self.enabled && self.sync
    }
}

impl Clone for InstalledAddon {
    fn clone(&self) -> (copy: Self)
        ensures
            copy == *self,
    {
        InstalledAddon {
            slug: self.slug.clone(),
            enabled: self.enabled,
            installed_version: clone_opt(&self.installed_version),
            pinned_version: clone_opt(&self.pinned_version),
            channel_override: clone_opt(&self.channel_override),
            auto_update: self.auto_update,
            sync: self.sync,
            folder: clone_opt(&self.folder),
        }
    }
}

/// What the record of an addon says.
pub struct AddonView {
    pub slug: Seq<char>,
    pub enabled: bool,
    pub installed_version: Option<Seq<char>>,
    pub pinned_version: Option<Seq<char>>,
    pub channel_override: Option<Seq<char>>,
    pub auto_update: bool,
    pub sync: bool,
    pub folder: Option<Seq<char>>,
}

impl View for InstalledAddon {
    type V = AddonView;

    open spec fn view(&self) -> AddonView {
        AddonView {
            slug: self.slug@,
            enabled: self.enabled,
            installed_version: opt_text(self.installed_version),
            pinned_version: opt_text(self.pinned_version),
            channel_override: opt_text(self.channel_override),
            auto_update: self.auto_update,
            sync: self.sync,
            folder: opt_text(self.folder),
        }
    }
}

/// What a row of addon records says.
pub open spec fn addon_rows(addons: Seq<InstalledAddon>) -> Seq<AddonView> {
    Seq::new(addons.len(), |i: int| addons[i]@)
}

/// The slugs of a row of addon records.
pub open spec fn row_slugs(rows: Seq<AddonView>) -> Seq<Seq<char>> {
    Seq::new(rows.len(), |i: int| rows[i].slug)
}

/// What a new record says.
pub open spec fn new_addon_row(slug: Seq<char>) -> AddonView {
    AddonView {
        slug,
        enabled: false,
        installed_version: None,
        pinned_version: None,
        channel_override: None,
        auto_update: true,
        sync: true,
        folder: None,
    }
}

/// What the record of the addon `slug` says: the first one that there is, else a new one.
pub open spec fn addon_row_at(rows: Seq<AddonView>, slug: Seq<char>) -> AddonView {
    let k = first_at(row_slugs(rows), slug);
    if k < rows.len() {
        rows[k]
    } else {
        new_addon_row(slug)
    }
}

/// `rows` with `row` for the addon `slug`: in place of the first record that there is,
/// else last.
pub open spec fn with_addon_row(rows: Seq<AddonView>, slug: Seq<char>, row: AddonView) -> Seq<
    AddonView,
> {
    let k = first_at(row_slugs(rows), slug);
    if k < rows.len() {
        rows.update(k, row)
    } else {
        rows.push(row)
    }
}

/// Records have the slugs that their rows have.
pub proof fn lemma_row_slugs(addons: Seq<InstalledAddon>)
    ensures
        row_slugs(addon_rows(addons)) == slugs(addons),
{
    assert(row_slugs(addon_rows(addons)) =~= slugs(addons));
}

/// One game install.
#[derive(Debug, PartialEq)]
pub struct Install {
    pub id: String,
    pub label: String,
    /// Its `Interface/AddOns` directory.
    pub path: String,
    pub flavor: String,
    pub channel: String,
    /// Whether new addons of it are updated daily.
    pub auto_update: bool,
    /// The account folders that the user lets sync. Empty means none.
    pub sync_accounts: Vec<String>,
    /// Whether `sync_accounts` was ever given its first value.
    pub accounts_initialized: bool,
    pub addons: Vec<InstalledAddon>,
    /// Whether the path is there. Filled in on reading.
    pub online: bool,
}

/// The slugs of a row of addons.
pub open spec fn slugs(addons: Seq<InstalledAddon>) -> Seq<Seq<char>> {
    Seq::new(addons.len(), |i: int| addons[i].slug@)
}

/// Whether two installs hold the same, apart from `online`.
pub open spec fn same_install(a: Install, b: Install) -> bool {
    &&& a.id == b.id
    &&& a.label == b.label
    &&& a.path == b.path
    &&& a.flavor == b.flavor
    &&& a.channel == b.channel
    &&& a.auto_update == b.auto_update
    &&& a.sync_accounts@ == b.sync_accounts@
    &&& a.accounts_initialized == b.accounts_initialized
    &&& a.addons@ == b.addons@
}

/// Where the addon `slug` first stands; the number of addons if it does not.
pub fn addon_position(addons: &Vec<InstalledAddon>, slug: &str) -> (p: usize)
    ensures
        p == first_at(slugs(addons@), slug@),
        p <= addons@.len(),
        p < addons@.len() ==> addons@[p as int].slug@ == slug@,
{
    proof {
        lemma_first_at(slugs(addons@), slug@);
    }
    let ghost keys = slugs(addons@);
    let mut i: usize = 0;
    while i < addons.len()
        invariant
            keys == slugs(addons@),
            i <= first_at(keys, slug@) <= addons@.len(),
            first_at(keys, slug@) < addons@.len() ==> keys[first_at(keys, slug@)] == slug@,
            forall|j: int| 0 <= j < first_at(keys, slug@) ==> keys[j] != slug@,
        decreases addons@.len() - i,
    {
        if same_text(addons[i].slug.as_str(), slug) {
            proof {
                assert(keys[i as int] == slug@);
            }
            return i;
        }
        proof {
            assert(keys[i as int] != slug@);
        }
        i = i + 1;
    }
    i
}

impl Install {
    /// The record of the addon `slug`: the first one that there is, else a new one that
    /// is put last.
    pub fn addon_mut(&mut self, slug: &str) -> (addon: &mut InstalledAddon)
        ensures
            ({
                let p = first_at(slugs(old(self).addons@), slug@);
                if p < old(self).addons@.len() {
                    &&& *addon == old(self).addons@[p]
                    &&& final(self).addons@ == old(self).addons@.update(p, *final(addon))
                } else {
                    &&& addon.is_new(slug@)
                    &&& final(self).addons@ == old(self).addons@.push(*final(addon))
                }
            }),
            *final(self) == (Install { addons: final(self).addons, ..*old(self) }),
    {
        let p: usize = addon_position(&self.addons, slug);
        if p == self.addons.len() {
            self.addons.push(InstalledAddon::new(slug));
        }
        &mut self.addons[p]
    }

    /// The channel that the addon `slug` is delivered from: its own where it has one,
    /// else that of the install.
    pub open spec fn channel_of(self, slug: Seq<char>) -> Seq<char> {
        let p = first_at(slugs(self.addons@), slug);
        if p < self.addons@.len() && self.addons@[p].channel_override is Some {
            self.addons@[p].channel_override->0@
        } else {
            self.channel@
        }
    }

    /// The channel that the addon `slug` is delivered from.
    pub fn channel_for(&self, slug: &str) -> (channel: String)
        ensures
            channel@ == self.channel_of(slug@),
    {
        let p: usize = addon_position(&self.addons, slug);
        if p < self.addons.len() {
            if let Some(c) = &self.addons[p].channel_override {
                return c.clone();
            }
        }
        self.channel.clone()
    }
}

impl Clone for Install {
    fn clone(&self) -> (copy: Self)
        ensures
            same_install(copy, *self),
            copy.online == self.online,
    {
        let mut addons: Vec<InstalledAddon> = Vec::new();
        let mut i: usize = 0;
        while i < self.addons.len()
            invariant
                i <= self.addons@.len(),
                addons@ == self.addons@.take(i as int),
            decreases self.addons@.len() - i,
        {
            addons.push(self.addons[i].clone());
            proof {
                assert(self.addons@.take(i as int + 1) =~= self.addons@.take(i as int).push(
                    self.addons@[i as int],
                ));
            }
            i = i + 1;
        }
        proof {
            assert(self.addons@.take(i as int) =~= self.addons@);
        }
        Install {
            id: self.id.clone(),
            label: self.label.clone(),
            path: self.path.clone(),
            flavor: self.flavor.clone(),
            channel: self.channel.clone(),
            auto_update: self.auto_update,
            sync_accounts: clone_texts(&self.sync_accounts),
            accounts_initialized: self.accounts_initialized,
            addons,
            online: self.online,
        }
    }
}

// ---------------------------------------------------------------------------
// Stream states
// ---------------------------------------------------------------------------

/// The sync state of one stream of one addon, in one account of one install.
#[derive(Debug, PartialEq)]
pub struct StreamState {
    pub install_id: String,
    pub account: String,
    /// The addon's slug.
    pub addon: String,
    pub stream: String,
    /// The highest number that the server has acknowledged. Moved by acknowledgements
    /// only; empty before the first.
    pub cursor: String,
    /// Records ahead of the cursor when the file was last read.
    pub queued: u64,
    /// Records in the stream when the file was last read.
    pub total: u64,
    /// When the stream was last uploaded, in seconds since the epoch.
    pub last_sync: Option<i64>,
    pub last_accepted: u64,
    /// The modification time of the file that was last read.
    pub file_mtime: Option<i64>,
    /// Whether the last sync left records queued and the cursor where it was.
    pub stuck: bool,
}

/// What a stream state is found by.
pub struct StreamKey {
    pub install_id: Seq<char>,
    pub account: Seq<char>,
    pub addon: Seq<char>,
    pub stream: Seq<char>,
}

/// The key of the given names.
pub open spec fn stream_key(
    install_id: Seq<char>,
    account: Seq<char>,
    addon: Seq<char>,
    stream: Seq<char>,
) -> StreamKey {
    StreamKey { install_id, account, addon, stream }
}

/// The keys of a row of stream states.
pub open spec fn stream_keys(sync: Seq<StreamState>) -> Seq<StreamKey> {
    Seq::new(sync.len(), |i: int| sync[i].key())
}

impl StreamState {
    /// What this state is found by.
    pub open spec fn key(self) -> StreamKey {
        stream_key(self.install_id@, self.account@, self.addon@, self.stream@)
    }

    /// What a state is before the first sync.
    pub open spec fn is_new(self, key: StreamKey) -> bool {
        &&& self.key() == key
        &&& self.cursor@ == Seq::<char>::empty()
        &&& self.queued == 0
        &&& self.total == 0
        &&& self.last_sync is None
        &&& self.last_accepted == 0
        &&& self.file_mtime is None
        &&& !self.stuck
    }

    /// Whether this is the state of the named stream.
    pub fn matches(&self, install_id: &str, account: &str, addon: &str, stream: &str) -> (yes: bool)
        ensures
            yes == (self.key() == stream_key(install_id@, account@, addon@, stream@)),
    {
        same_text(self.install_id.as_str(), install_id) && same_text(
            self.account.as_str(),
            account,
        ) && same_text(self.addon.as_str(), addon) && same_text(self.stream.as_str(), stream)
    }
}

/// What a stream state says.
pub struct StateRow {
    pub key: StreamKey,
    pub cursor: Seq<char>,
    pub queued: u64,
    pub total: u64,
    pub last_sync: Option<i64>,
    pub last_accepted: u64,
    pub file_mtime: Option<i64>,
    pub stuck: bool,
}

impl View for StreamState {
    type V = StateRow;

    open spec fn view(&self) -> StateRow {
        StateRow {
            key: self.key(),
            cursor: self.cursor@,
            queued: self.queued,
            total: self.total,
            last_sync: self.last_sync,
            last_accepted: self.last_accepted,
            file_mtime: self.file_mtime,
            stuck: self.stuck,
        }
    }
}

/// What a row of stream states says.
pub open spec fn state_rows(sync: Seq<StreamState>) -> Seq<StateRow> {
    Seq::new(sync.len(), |i: int| sync[i]@)
}

/// The keys of a row of states.
pub open spec fn row_keys(rows: Seq<StateRow>) -> Seq<StreamKey> {
    Seq::new(rows.len(), |i: int| rows[i].key)
}

/// What a state says before the first sync.
pub open spec fn new_row(key: StreamKey) -> StateRow {
    StateRow {
        key,
        cursor: Seq::empty(),
        queued: 0,
        total: 0,
        last_sync: None,
        last_accepted: 0,
        file_mtime: None,
        stuck: false,
    }
}

/// What the state with the key `key` says: the first one that there is, else a new one.
pub open spec fn row_at(rows: Seq<StateRow>, key: StreamKey) -> StateRow {
    let p = first_at(row_keys(rows), key);
    if p < rows.len() {
        rows[p]
    } else {
        new_row(key)
    }
}

/// `rows` with `row` for the state with the key `key`: in place of the first one that
/// there is, else last.
pub open spec fn with_row(rows: Seq<StateRow>, key: StreamKey, row: StateRow) -> Seq<StateRow> {
    let p = first_at(row_keys(rows), key);
    if p < rows.len() {
        rows.update(p, row)
    } else {
        rows.push(row)
    }
}

/// States have the keys that their rows have.
pub proof fn lemma_row_keys(sync: Seq<StreamState>)
    ensures
        row_keys(state_rows(sync)) == stream_keys(sync),
{
    assert(row_keys(state_rows(sync)) =~= stream_keys(sync));
}

impl Clone for StreamState {
    fn clone(&self) -> (copy: Self)
        ensures
            copy == *self,
    {
        StreamState {
            install_id: self.install_id.clone(),
            account: self.account.clone(),
            addon: self.addon.clone(),
            stream: self.stream.clone(),
            cursor: self.cursor.clone(),
            queued: self.queued,
            total: self.total,
            last_sync: self.last_sync,
            last_accepted: self.last_accepted,
            file_mtime: self.file_mtime,
            stuck: self.stuck,
        }
    }
}

// ---------------------------------------------------------------------------
// The configuration
// ---------------------------------------------------------------------------

/// All that is kept between two runs. The device token is not here.
#[derive(Debug, PartialEq)]
pub struct AppConfig {
    pub base_url: String,
    pub theme: String,
    pub device_name: Option<String>,
    pub device_id: Option<i64>,
    pub account: Option<Account>,
    pub installs: Vec<Install>,
    pub sync_while_running: bool,
    pub sync_interval_secs: u64,
    pub sync: Vec<StreamState>,
    pub dismissed_broadcast: Option<i64>,
    pub onboarded: bool,
    /// The last resync request of the server that was honored.
    pub last_resync_honored: Option<String>,
    /// The fingerprint of the addon catalog that was last seen.
    pub catalog_stamp: Option<String>,
    /// Whether there is a device token. Filled in on reading.
    pub paired: bool,
    /// Whether this is a Flatpak build. Filled in on reading.
    pub is_flatpak: bool,
    /// The channel that the app itself is updated from.
    pub self_update_channel: String,
    /// Whether the daily update pass runs.
    pub auto_update_enabled: bool,
    /// The local time (`HH:MM`) of the daily update pass.
    pub auto_update_time: String,
    /// Where to take updates of the app from in place of the server.
    pub dev_update_url: Option<String>,
    /// Whether to start without a window.
    pub start_in_tray: bool,
    /// Display names of account folders. Nothing but the display uses them.
    pub account_aliases: TextMap<String>,
}

/// The ids of a row of installs.
pub open spec fn install_ids(installs: Seq<Install>) -> Seq<Seq<char>> {
    Seq::new(installs.len(), |i: int| installs[i].id@)
}

/// How many of the states have a cursor.
pub open spec fn cursors_in(sync: Seq<StreamState>) -> nat
    decreases sync.len(),
{
    if sync.len() == 0 {
        0
    } else {
        cursors_in(sync.drop_last()) + if sync.last().cursor@.len() > 0 {
            1nat
        } else {
            0nat
        }
    }
}

/// Whether `b` is `a` sent back to the start: no cursor, to be read anew, and all of its
/// records queued.
pub open spec fn rewound(a: StreamState, b: StreamState) -> bool {
    &&& b.cursor@ == Seq::<char>::empty()
    &&& b == (StreamState { cursor: b.cursor, file_mtime: None, queued: a.total, ..a })
}

/// Whether each of the states `b` is the one of `a` sent back to the start.
pub open spec fn all_rewound(a: Seq<StreamState>, b: Seq<StreamState>) -> bool {
    &&& a.len() == b.len()
    &&& forall|i: int| 0 <= i < a.len() ==> rewound(#[trigger] a[i], b[i])
}

/// Whether the server's resync request `stamp` is newer than the one honored last. An
/// absent or blank request never is; any other is newer than none.
pub open spec fn resync_is_new(honored: Option<Seq<char>>, stamp: Option<Seq<char>>) -> bool {
    &&& stamp is Some
    &&& trim_of(stamp->0).len() > 0
    &&& {
        ||| honored is None
        ||| trim_of(honored->0).len() == 0
        ||| text_less(trim_of(honored->0), trim_of(stamp->0))
    }
}

/// The pause between two passes where `secs` seconds are asked for: never below half a
/// minute.
pub open spec fn pause_of(secs: u64) -> u64 {
    if secs < 30 {
        30
    } else {
        secs
    }
}

/// The view of an optional text slice.
pub open spec fn opt_str(s: Option<&str>) -> Option<Seq<char>> {
    match s {
        Some(t) => Some(t@),
        None => None,
    }
}

impl AppConfig {
    /// What the first configuration is, with the given server.
    pub open spec fn is_initial(self, base_url: Seq<char>) -> bool {
        &&& self.base_url@ == base_url
        &&& self.theme@ == "workshop"@
        &&& self.device_name is None
        &&& self.device_id is None
        &&& self.account is None
        &&& self.installs@.len() == 0
        &&& !self.sync_while_running
        &&& self.sync_interval_secs == 900
        &&& self.sync@.len() == 0
        &&& self.dismissed_broadcast is None
        &&& !self.onboarded
        &&& self.last_resync_honored is None
        &&& self.catalog_stamp is None
        &&& !self.paired
        &&& !self.is_flatpak
        &&& self.self_update_channel@ == "public"@
        &&& self.auto_update_enabled
        &&& self.auto_update_time@ == "03:00"@
        &&& self.dev_update_url is None
        &&& self.start_in_tray
        &&& self.account_aliases@ == Map::<Seq<char>, String>::empty()
    }

    /// The first configuration. `env_override` is the `UPLINK_BASE_URL` variable.
    pub fn with_env(env_override: Option<String>) -> (cfg: Self)
        ensures
            cfg.is_initial(
                match env_override {
                    Some(u) => u@,
                    None => DEFAULT_BASE_URL@,
                },
            ),
    {
        AppConfig {
            base_url: default_base_url(env_override),
            theme: default_theme(),
            device_name: None,
            device_id: None,
            account: None,
            installs: Vec::new(),
            sync_while_running: false,
            sync_interval_secs: default_sync_interval(),
            sync: Vec::new(),
            dismissed_broadcast: None,
            onboarded: false,
            last_resync_honored: None,
            catalog_stamp: None,
            paired: false,
            is_flatpak: false,
            self_update_channel: default_self_update_channel(),
            auto_update_enabled: true,
            auto_update_time: default_auto_update_time(),
            dev_update_url: None,
            start_in_tray: true,
            account_aliases: TextMap::new(),
        }
    }

    /// Where the install `id` first stands; the number of installs if it does not.
    pub fn install_position(&self, id: &str) -> (p: usize)
        ensures
            p == first_at(install_ids(self.installs@), id@),
            p <= self.installs@.len(),
            p < self.installs@.len() ==> self.installs@[p as int].id@ == id@,
    {
        let ghost keys = install_ids(self.installs@);
        proof {
            lemma_first_at(keys, id@);
        }
        let mut i: usize = 0;
        while i < self.installs.len()
            invariant
                keys == install_ids(self.installs@),
                i <= first_at(keys, id@) <= self.installs@.len(),
                first_at(keys, id@) < self.installs@.len() ==> keys[first_at(keys, id@)] == id@,
                forall|j: int| 0 <= j < first_at(keys, id@) ==> keys[j] != id@,
            decreases self.installs@.len() - i,
        {
            if same_text(self.installs[i].id.as_str(), id) {
                proof {
                    assert(keys[i as int] == id@);
                }
                return i;
            }
            proof {
                assert(keys[i as int] != id@);
            }
            i = i + 1;
        }
        i
    }

    /// The install `id`, if there is one.
    pub fn install_mut(&mut self, id: &str) -> (install: Option<&mut Install>)
        ensures
            ({
                let p = first_at(install_ids(old(self).installs@), id@);
                match install {
                    Some(i) => {
                        &&& 0 <= p < old(self).installs@.len()
                        &&& *i == old(self).installs@[p]
                        &&& final(self).installs@ == old(self).installs@.update(p, *final(i))
                    },
                    None => {
                        &&& p == old(self).installs@.len()
                        &&& *final(self) == *old(self)
                    },
                }
            }),
            *final(self) == (AppConfig { installs: final(self).installs, ..*old(self) }),
    {
        let p: usize = self.install_position(id);
        if p < self.installs.len() {
            Some(&mut self.installs[p])
        } else {
            None
        }
    }

    /// Where the state of the named stream first stands; their number if it does not.
    fn stream_position(&self, install_id: &str, account: &str, addon: &str, stream: &str) -> (p:
        usize)
        ensures
            p == first_at(
                stream_keys(self.sync@),
                stream_key(install_id@, account@, addon@, stream@),
            ),
            p <= self.sync@.len(),
    {
        let ghost key = stream_key(install_id@, account@, addon@, stream@);
        let ghost keys = stream_keys(self.sync@);
        proof {
            lemma_first_at(keys, key);
        }
        let mut i: usize = 0;
        while i < self.sync.len()
            invariant
                key == stream_key(install_id@, account@, addon@, stream@),
                keys == stream_keys(self.sync@),
                i <= first_at(keys, key) <= self.sync@.len(),
                first_at(keys, key) < self.sync@.len() ==> keys[first_at(keys, key)] == key,
                forall|j: int| 0 <= j < first_at(keys, key) ==> keys[j] != key,
            decreases self.sync@.len() - i,
        {
            if self.sync[i].matches(install_id, account, addon, stream) {
                proof {
                    assert(keys[i as int] == key);
                }
                return i;
            }
            proof {
                assert(keys[i as int] != key);
            }
            i = i + 1;
        }
        i
    }

    /// The state of the named stream: the first one that there is, else a new one that is
    /// put last.
    pub fn stream_state_mut(
        &mut self,
        install_id: &str,
        account: &str,
        addon: &str,
        stream: &str,
    ) -> (state: &mut StreamState)
        ensures
            ({
                let key = stream_key(install_id@, account@, addon@, stream@);
                let p = first_at(stream_keys(old(self).sync@), key);
                if p < old(self).sync@.len() {
                    &&& *state == old(self).sync@[p]
                    &&& final(self).sync@ == old(self).sync@.update(p, *final(state))
                } else {
                    &&& state.is_new(key)
                    &&& final(self).sync@ == old(self).sync@.push(*final(state))
                }
            }),
            *final(self) == (AppConfig { sync: final(self).sync, ..*old(self) }),
    {
        let p: usize = self.stream_position(install_id, account, addon, stream);
        if p == self.sync.len() {
            self.sync.push(
                StreamState {
                    install_id: install_id.to_string(),
                    account: account.to_string(),
                    addon: addon.to_string(),
                    stream: stream.to_string(),
                    cursor: String::new(),
                    queued: 0,
                    total: 0,
                    last_sync: None,
                    last_accepted: 0,
                    file_mtime: None,
                    stuck: false,
                },
            );
        }
        &mut self.sync[p]
    }

    /// The cursor of the stream with the key `key`; empty where there is no state for it.
    pub open spec fn cursor_at(self, key: StreamKey) -> Seq<char> {
        let p = first_at(stream_keys(self.sync@), key);
        if p < self.sync@.len() {
            self.sync@[p].cursor@
        } else {
            Seq::empty()
        }
    }

    /// The cursor of the named stream; empty where there is no state for it.
    pub fn cursor_of(&self, install_id: &str, account: &str, addon: &str, stream: &str) -> (cursor:
        String)
        ensures
            cursor@ == self.cursor_at(stream_key(install_id@, account@, addon@, stream@)),
    {
        let p: usize = self.stream_position(install_id, account, addon, stream);
        if p < self.sync.len() {
            self.sync[p].cursor.clone()
        } else {
            String::new()
        }
    }

    /// Sends every stream back to the start, so that the next sync sends all of it again.
    /// Returns how many cursors there were.
    pub fn zero_all_cursors(&mut self) -> (cleared: u64)
        ensures
            cleared == cursors_in(old(self).sync@),
            all_rewound(old(self).sync@, final(self).sync@),
            *final(self) == (AppConfig { sync: final(self).sync, ..*old(self) }),
    {
        let mut cleared: u64 = 0;
        let mut i: usize = 0;
        let ghost before = self.sync@;
        proof {
            assert(before.take(0) =~= Seq::<StreamState>::empty());
        }
        while i < self.sync.len()
            invariant
                before == old(self).sync@,
                self.sync@.len() == before.len(),
                i <= before.len(),
                cleared == cursors_in(before.take(i as int)),
                cleared <= i,
                forall|j: int| 0 <= j < i ==> rewound(#[trigger] before[j], self.sync@[j]),
                forall|j: int| i <= j < before.len() ==> self.sync@[j] == before[j],
                *self == (AppConfig { sync: self.sync, ..*old(self) }),
            decreases before.len() - i,
        {
            proof {
                assert(before.take(i as int + 1).drop_last() =~= before.take(i as int));
                assert(before.take(i as int + 1).last() == before[i as int]);
            }
            if !self.sync[i].cursor.as_str().is_empty() {
                cleared = cleared + 1;
            }
            self.sync[i].cursor = String::new();
            self.sync[i].file_mtime = None;
            self.sync[i].queued = self.sync[i].total;
            i = i + 1;
        }
        proof {
            assert(before.take(i as int) =~= before);
        }
        cleared
    }

    /// Honors the server's resync request: where `stamp` is newer than the last one, sends
    /// every stream back to the start, remembers the stamp, and returns `true`. Else
    /// nothing changes.
    pub fn honor_resync_signal(&mut self, stamp: Option<&str>) -> (triggered: bool)
        ensures
            triggered == resync_is_new(
                opt_text(old(self).last_resync_honored),
                opt_str(stamp),
            ),
            !triggered ==> *final(self) == *old(self),
            triggered ==> {
                &&& all_rewound(old(self).sync@, final(self).sync@)
                &&& final(self).last_resync_honored is Some
                &&& final(self).last_resync_honored->0@ == trim_of(stamp->0@)
                &&& *final(self) == (AppConfig {
                    sync: final(self).sync,
                    last_resync_honored: final(self).last_resync_honored,
                    ..*old(self)
                })
            },
    {
        let stamp: String = match stamp {
            Some(s) => trim(s),
            None => return false,
        };
        if stamp.as_str().is_empty() {
            return false;
        }
        let is_new = match &self.last_resync_honored {
            Some(prev) => {
                let prev = trim(prev.as_str());
                prev.as_str().is_empty() || is_less(prev.as_str(), stamp.as_str())
            },
            None => true,
        };
        if !is_new {
            return false;
        }
        self.zero_all_cursors();
        self.last_resync_honored = Some(stamp);
        true
    }

    /// Forgets all sync state. Returns how many states were dropped.
    pub fn purge_sync_state(&mut self) -> (dropped: u64)
        ensures
            dropped == old(self).sync@.len(),
            final(self).sync@.len() == 0,
            *final(self) == (AppConfig { sync: final(self).sync, ..*old(self) }),
    {
        let n: u64 = self.sync.len() as u64;
        self.sync.clear();
        n
    }
}

impl Default for AppConfig {
    fn default() -> (cfg: Self)
        ensures
            cfg.is_initial(DEFAULT_BASE_URL@),
    {
        AppConfig::with_env(None)
    }
}

// ---------------------------------------------------------------------------
// Laws of the resync signal and of the cursors
// ---------------------------------------------------------------------------

/// A resync request triggers once: when it has been honored, neither it nor an older one
/// is new, while any newer one still is.
pub proof fn law_resync_triggers_once(honored: Option<Seq<char>>, stamp: Seq<char>, other: Seq<char>)
    requires
        resync_is_new(honored, Some(stamp)),
    ensures
        !resync_is_new(Some(trim_of(stamp)), Some(stamp)),
        !resync_is_new(Some(trim_of(stamp)), honored),
        resync_is_new(Some(trim_of(stamp)), Some(other)) <==> text_less(
            trim_of(stamp),
            trim_of(other),
        ) && trim_of(other).len() > 0,
{
    law_trim_is_idempotent(stamp);
    law_text_order_is_strict_and_total(trim_of(stamp), trim_of(stamp), trim_of(stamp));
    if honored is Some {
        law_text_order_is_strict_and_total(trim_of(honored->0), trim_of(stamp), trim_of(stamp));
    }
}

/// Absent and blank requests never trigger.
pub proof fn law_blank_resync_never_triggers(honored: Option<Seq<char>>, stamp: Option<Seq<char>>)
    requires
        stamp is None || trim_of(stamp->0).len() == 0,
    ensures
        !resync_is_new(honored, stamp),
{
}

/// States that were sent back to the start have no cursor left, and sending them back
/// again changes nothing more.
pub proof fn law_rewinding_is_idempotent(
    a: Seq<StreamState>,
    b: Seq<StreamState>,
    c: Seq<StreamState>,
)
    requires
        all_rewound(a, b),
        all_rewound(b, c),
    ensures
        cursors_in(b) == 0,
        forall|i: int|
            0 <= i < a.len() ==> (#[trigger] c[i]).cursor@ == b[i].cursor@ && c[i] == (StreamState {
                cursor: c[i].cursor,
                ..b[i]
            }),
{
    assert forall|i: int| 0 <= i < b.len() implies (#[trigger] b[i]).cursor@.len() == 0 by {
        assert(rewound(a[i], b[i]));
    }
    lemma_no_cursors(b);
    assert forall|i: int| 0 <= i < a.len() implies (#[trigger] c[i]).cursor@ == b[i].cursor@ && c[i]
        == (StreamState { cursor: c[i].cursor, ..b[i] }) by {
        assert(rewound(a[i], b[i]));
        assert(rewound(b[i], c[i]));
    }
}

proof fn lemma_no_cursors(b: Seq<StreamState>)
    requires
        forall|i: int| 0 <= i < b.len() ==> (#[trigger] b[i]).cursor@.len() == 0,
    ensures
        cursors_in(b) == 0,
    decreases b.len(),
{
    if b.len() > 0 {
        assert forall|i: int| 0 <= i < b.drop_last().len() implies (#[trigger] b.drop_last()[i]).cursor@.len()
            == 0 by {
            assert(b.drop_last()[i] == b[i]);
        }
        lemma_no_cursors(b.drop_last());
    }
}

// ---------------------------------------------------------------------------
// Runtime state
// ---------------------------------------------------------------------------

/// Whether two optional accounts hold the same.
pub open spec fn same_opt_account(a: Option<Account>, b: Option<Account>) -> bool {
    match (a, b) {
        (Some(x), Some(y)) => same_account(x, y),
        (None, None) => true,
        _ => false,
    }
}

/// Whether two rows of installs hold the same, apart from `online`.
pub open spec fn same_installs(a: Seq<Install>, b: Seq<Install>) -> bool {
    &&& a.len() == b.len()
    &&& forall|i: int| 0 <= i < a.len() ==> same_install(#[trigger] a[i], b[i])
}

/// Whether two configurations hold the same, apart from what is filled in on reading.
pub open spec fn same_config(a: AppConfig, b: AppConfig) -> bool {
    &&& a.base_url == b.base_url
    &&& a.theme == b.theme
    &&& a.device_name == b.device_name
    &&& a.device_id == b.device_id
    &&& same_opt_account(a.account, b.account)
    &&& same_installs(a.installs@, b.installs@)
    &&& a.sync_while_running == b.sync_while_running
    &&& a.sync_interval_secs == b.sync_interval_secs
    &&& a.sync@ == b.sync@
    &&& a.dismissed_broadcast == b.dismissed_broadcast
    &&& a.onboarded == b.onboarded
    &&& a.last_resync_honored == b.last_resync_honored
    &&& a.catalog_stamp == b.catalog_stamp
    &&& a.self_update_channel == b.self_update_channel
    &&& a.auto_update_enabled == b.auto_update_enabled
    &&& a.auto_update_time == b.auto_update_time
    &&& a.dev_update_url == b.dev_update_url
    &&& a.start_in_tray == b.start_in_tray
    &&& a.account_aliases@ == b.account_aliases@
}

fn clone_states(v: &Vec<StreamState>) -> (w: Vec<StreamState>)
    ensures
        w@ == v@,
{
    let mut w: Vec<StreamState> = Vec::new();
    let mut i: usize = 0;
    while i < v.len()
        invariant
            i <= v@.len(),
            w@ == v@.take(i as int),
        decreases v@.len() - i,
    {
        w.push(v[i].clone());
        proof {
            assert(v@.take(i as int + 1) =~= v@.take(i as int).push(v@[i as int]));
        }
        i = i + 1;
    }
    proof {
        assert(v@.take(i as int) =~= v@);
    }
    w
}

fn clone_installs(v: &Vec<Install>) -> (w: Vec<Install>)
    ensures
        same_installs(w@, v@),
        forall|i: int| 0 <= i < v@.len() ==> (#[trigger] w@[i]).online == v@[i].online,
{
    let mut w: Vec<Install> = Vec::new();
    let mut i: usize = 0;
    while i < v.len()
        invariant
            i == w@.len(),
            i <= v@.len(),
            forall|j: int|
                0 <= j < i ==> same_install(#[trigger] w@[j], v@[j]) && w@[j].online == v@[j].online,
        decreases v@.len() - i,
    {
        w.push(v[i].clone());
        i = i + 1;
    }
    w
}

/// A copy of a map of texts.
pub fn clone_text_map(m: &TextMap<String>) -> (w: TextMap<String>)
    ensures
        w@ == m@,
{
    let mut w: TextMap<String> = TextMap::new();
    let n: usize = m.len();
    let mut i: usize = 0;
    while i < n
        invariant
            i <= n == m.pairs().len(),
            keys_ascend(m.pairs()),
            forall|k: Seq<char>| #[trigger]
                w@.contains_key(k) <==> exists|j: int| 0 <= j < i && #[trigger] m.pairs()[j].0 == k,
            forall|j: int| 0 <= j < i ==> #[trigger] w@[m.pairs()[j].0] == m.pairs()[j].1,
        decreases n - i,
    {
        let ghost before = w@;
        let ghost key = m.pairs()[i as int].0;
        w.insert(m.key_at(i).clone(), m.value_at(i).clone());
        proof {
            assert forall|k: Seq<char>| #[trigger] w@.contains_key(k) <==> exists|j: int|
                0 <= j < i + 1 && #[trigger] m.pairs()[j].0 == k by {
                assert(w@.contains_key(k) <==> k == key || before.contains_key(k));
            }
            assert forall|j: int| 0 <= j < i + 1 implies #[trigger] w@[m.pairs()[j].0]
                == m.pairs()[j].1 by {
                lemma_key_once(m.pairs(), j);
                lemma_key_once(m.pairs(), i as int);
                if j < i {
                    assert(before[m.pairs()[j].0] == m.pairs()[j].1);
                }
            }
        }
        i = i + 1;
    }
    proof {
        assert forall|k: Seq<char>| #[trigger] w@.contains_key(k) implies w@[k] == m@[k] by {
            let j = choose|j: int| 0 <= j < i && #[trigger] m.pairs()[j].0 == k;
            lemma_key_once(m.pairs(), j);
        }
        assert(w@ =~= m@);
    }
    w
}

impl Clone for AppConfig {
    fn clone(&self) -> (copy: Self)
        ensures
            same_config(copy, *self),
            copy.paired == self.paired,
            copy.is_flatpak == self.is_flatpak,
            forall|i: int|
                0 <= i < self.installs@.len() ==> (#[trigger] copy.installs@[i]).online
                    == self.installs@[i].online,
    {
        AppConfig {
            base_url: self.base_url.clone(),
            theme: self.theme.clone(),
            device_name: clone_opt(&self.device_name),
            device_id: self.device_id,
            account: match &self.account {
                Some(a) => Some(a.clone()),
                None => None,
            },
            installs: clone_installs(&self.installs),
            sync_while_running: self.sync_while_running,
            sync_interval_secs: self.sync_interval_secs,
            sync: clone_states(&self.sync),
            dismissed_broadcast: self.dismissed_broadcast,
            onboarded: self.onboarded,
            last_resync_honored: clone_opt(&self.last_resync_honored),
            catalog_stamp: clone_opt(&self.catalog_stamp),
            paired: self.paired,
            is_flatpak: self.is_flatpak,
            self_update_channel: self.self_update_channel.clone(),
            auto_update_enabled: self.auto_update_enabled,
            auto_update_time: self.auto_update_time.clone(),
            dev_update_url: clone_opt(&self.dev_update_url),
            start_in_tray: self.start_in_tray,
            account_aliases: clone_text_map(&self.account_aliases),
        }
    }
}

/// Whether this runs in a Flatpak sandbox: the `FLATPAK_ID` variable is set, or the file
/// `/.flatpak-info` is there.
pub fn is_flatpak(flatpak_id_set: bool, flatpak_info_exists: bool) -> (yes: bool)
    ensures
        yes == (flatpak_id_set || flatpak_info_exists),
{
    flatpak_id_set || flatpak_info_exists
}

/// The configuration, and where it is kept.
pub struct AppState {
    pub config: AppConfig,
    pub config_path: String,
}

impl AppState {
    /// A copy of the configuration with the fields filled in that are not kept:
    /// `online[i]` says whether the directory of the install at `i` is there.
    pub fn snapshot(&self, paired: bool, is_flatpak: bool, online: &Vec<bool>) -> (cfg: AppConfig)
        requires
            online@.len() == self.config.installs@.len(),
        ensures
            same_config(cfg, self.config),
            cfg.paired == paired,
            cfg.is_flatpak == is_flatpak,
            forall|i: int|
                0 <= i < online@.len() ==> (#[trigger] cfg.installs@[i]).online == online@[i],
    {
        let mut cfg = self.config.clone();
        cfg.paired = paired;
        cfg.is_flatpak = is_flatpak;
        let ghost copied = cfg;
        let mut i: usize = 0;
        while i < online.len()
            invariant
                i <= online@.len() == cfg.installs@.len(),
                same_config(cfg, self.config),
                cfg.paired == paired,
                cfg.is_flatpak == is_flatpak,
                forall|j: int| 0 <= j < i ==> (#[trigger] cfg.installs@[j]).online == online@[j],
            decreases online@.len() - i,
        {
            let ghost before = cfg.installs@;
            cfg.installs[i].online = online[i];
            proof {
                assert forall|j: int| 0 <= j < before.len() implies same_install(
                    #[trigger] cfg.installs@[j],
                    self.config.installs@[j],
                ) by {
                    assert(same_install(before[j], self.config.installs@[j]));
                }
            }
            i = i + 1;
        }
        cfg
    }
}

/// The name of the file that a save writes before it takes the place of the target:
/// hidden, and different for each process and each save.
pub fn save_temp_name(file_name: Option<&str>, pid: u64, seq: u64) -> (name: String)
    ensures
        name@ == "."@ + (match file_name {
            Some(n) => n@,
            None => "config.json"@,
        }) + "."@ + (dec_of(pid as nat) + "."@) + (dec_of(seq as nat) + ".tmp"@),
{
    let file: &str = match file_name {
        Some(n) => n,
        None => "config.json",
    };
    let mut pid_text: String = dec_u64(pid);
    pid_text.append(".");
    let mut seq_text: String = dec_u64(seq);
    seq_text.append(".tmp");
    join5(".", file, ".", pid_text.as_str(), seq_text.as_str())
}

/// A record that was put in is found again, and no other record changes by it: what was
/// found under another slug still is, and nothing leaves its place.
pub proof fn law_addon_record_is_found_again(
    rows: Seq<AddonView>,
    slug: Seq<char>,
    row: AddonView,
    other: Seq<char>,
)
    requires
        row.slug == slug,
        other != slug,
    ensures
        ({
            let after = with_addon_row(rows, slug, row);
            &&& row_slugs(after).contains(slug)
            &&& addon_row_at(after, slug) == row
            &&& addon_row_at(after, other) == addon_row_at(rows, other)
            &&& row_slugs(after).contains(other) <==> row_slugs(rows).contains(other)
            &&& after.len() == if row_slugs(rows).contains(slug) {
                rows.len()
            } else {
                rows.len() + 1
            }
            &&& forall|i: int| 0 <= i < rows.len() && rows[i].slug != slug ==> after[i] == #[trigger] rows[i]
        }),
{
    let keys = row_slugs(rows);
    let after = with_addon_row(rows, slug, row);
    lemma_first_at(keys, slug);
    lemma_first_at(keys, other);
    lemma_first_at(row_slugs(after), slug);
    lemma_first_at(row_slugs(after), other);
    let k = first_at(keys, slug);
    if k < rows.len() {
        assert(row_slugs(after) =~= keys);
        assert forall|i: int| 0 <= i < rows.len() && rows[i].slug != slug implies after[i]
            == #[trigger] rows[i] by {
            assert(keys[k] == slug);
        }
        let m = first_at(keys, other);
        if m < rows.len() {
            assert(keys[m] == other);
            assert(keys[k] == slug);
        }
    } else {
        assert(row_slugs(after) =~= keys.push(slug));
        crate::seqs::lemma_first_at_push(keys, slug, other);
    }
}

/// A stream's state that was put in is found again, and the state of no other stream
/// changes by it.
pub proof fn law_stream_state_is_found_again(
    rows: Seq<StateRow>,
    key: StreamKey,
    row: StateRow,
    other: StreamKey,
)
    requires
        row.key == key,
        other != key,
    ensures
        ({
            let after = with_row(rows, key, row);
            &&& row_keys(after).contains(key)
            &&& row_at(after, key) == row
            &&& row_at(after, other) == row_at(rows, other)
            &&& row_keys(after).contains(other) <==> row_keys(rows).contains(other)
            &&& after.len() == if row_keys(rows).contains(key) {
                rows.len()
            } else {
                rows.len() + 1
            }
            &&& forall|i: int| 0 <= i < rows.len() && rows[i].key != key ==> after[i] == #[trigger] rows[i]
        }),
{
    let keys = row_keys(rows);
    let after = with_row(rows, key, row);
    lemma_first_at(keys, key);
    lemma_first_at(keys, other);
    lemma_first_at(row_keys(after), key);
    lemma_first_at(row_keys(after), other);
    let k = first_at(keys, key);
    if k < rows.len() {
        assert(row_keys(after) =~= keys);
        assert forall|i: int| 0 <= i < rows.len() && rows[i].key != key implies after[i]
            == #[trigger] rows[i] by {
            assert(keys[k] == key);
        }
        let m = first_at(keys, other);
        if m < rows.len() {
            assert(keys[m] == other);
            assert(keys[k] == key);
        }
    } else {
        assert(row_keys(after) =~= keys.push(key));
        crate::seqs::lemma_first_at_push(keys, key, other);
    }
}

/// A record that nobody made yet says that the addon is not enabled, that nothing is
/// installed, pinned or overridden, and that it is updated and synced once it is enabled. A
/// stream that was never synced has no cursor and nothing behind it.
pub proof fn law_nothing_is_known_at_first(slug: Seq<char>, key: StreamKey)
    ensures
        ({
            let a = addon_row_at(Seq::empty(), slug);
            &&& a.slug == slug && !a.enabled && a.auto_update && a.sync
            &&& a.installed_version is None && a.pinned_version is None
            &&& a.channel_override is None && a.folder is None
        }),
        ({
            let s = row_at(Seq::empty(), key);
            &&& s.key == key && s.cursor.len() == 0 && s.queued == 0 && s.total == 0
            &&& s.last_sync is None && s.last_accepted == 0 && s.file_mtime is None && !s.stuck
        }),
{
}

/// An addon is delivered from its own channel where it has one, and else from that of its
/// install; no other record of the install matters.
pub proof fn law_own_channel_comes_first(inst: Install, i: int)
    requires
        0 <= i < inst.addons@.len(),
        forall|j: int| 0 <= j < i ==> (#[trigger] inst.addons@[j]).slug@ != inst.addons@[i].slug@,
    ensures
        inst.addons@[i].channel_override matches Some(c) ==> inst.channel_of(inst.addons@[i].slug@)
            == c@,
        inst.addons@[i].channel_override is None ==> inst.channel_of(inst.addons@[i].slug@)
            == inst.channel@,
        forall|slug: Seq<char>|
            (forall|j: int| 0 <= j < inst.addons@.len() ==> (#[trigger] inst.addons@[j]).slug@ != slug)
                ==> #[trigger] inst.channel_of(slug) == inst.channel@,
{
    let keys = slugs(inst.addons@);
    assert(keys[i] == inst.addons@[i].slug@);
    assert forall|j: int| 0 <= j < i implies keys[j] != keys[i] by {
        assert(keys[j] == inst.addons@[j].slug@);
    }
    crate::seqs::law_different_keys_are_each_found(keys, i);
    assert forall|slug: Seq<char>|
        (forall|j: int| 0 <= j < inst.addons@.len() ==> (#[trigger] inst.addons@[j]).slug@ != slug)
        implies #[trigger] inst.channel_of(slug) == inst.channel@ by {
        lemma_first_at(keys, slug);
        let p = first_at(keys, slug);
        if p < keys.len() {
            assert(keys[p] == inst.addons@[p].slug@);
        }
    }
}

/// Data is swept only of an addon that is enabled and whose sync is on.
pub proof fn law_sync_takes_both_switches(a: InstalledAddon)
    ensures
        a.syncs() <==> a.enabled && a.sync,
{
}

/// How many cursors there are is how many streams have one.
pub proof fn law_cursors_are_counted(sync: Seq<StreamState>)
    ensures
        cursors_in(sync) == sync.filter(|s: StreamState| s.cursor@.len() > 0).len(),
    decreases sync.len(),
{
    let has = |s: StreamState| s.cursor@.len() > 0;
    reveal(Seq::filter);
    if sync.len() > 0 {
        law_cursors_are_counted(sync.drop_last());
    }
}

/// A stream that was sent back to the start keeps its name and its total, has no cursor,
/// counts all of its records as queued, and its file is read again.
pub proof fn law_rewound_stream_starts_over(a: Seq<StreamState>, b: Seq<StreamState>, i: int)
    requires
        all_rewound(a, b),
        0 <= i < a.len(),
    ensures
        a.len() == b.len(),
        b[i].key() == a[i].key(),
        b[i].cursor@.len() == 0,
        b[i].queued == a[i].total,
        b[i].total == a[i].total,
        b[i].file_mtime is None,
        b[i].last_sync == a[i].last_sync,
        b[i].last_accepted == a[i].last_accepted,
        b[i].stuck == a[i].stuck,
{
    assert(rewound(a[i], b[i]));
}

/// A resync request is new exactly where it is not blank and either none was honored or it
/// comes behind the one that was, white space around either aside.
pub proof fn law_later_resync_is_new(honored: Seq<char>, stamp: Seq<char>)
    requires
        trim_of(stamp).len() > 0,
    ensures
        resync_is_new(None, Some(stamp)),
        trim_of(honored).len() == 0 ==> resync_is_new(Some(honored), Some(stamp)),
        trim_of(honored).len() > 0 ==> (resync_is_new(Some(honored), Some(stamp)) <==> text_less(
            trim_of(honored),
            trim_of(stamp),
        )),
        !resync_is_new(Some(stamp), Some(stamp)),
        resync_is_new(Some(honored), Some(stamp)) <==> resync_is_new(
            Some(trim_of(honored)),
            Some(trim_of(stamp)),
        ),
{
    crate::text::law_text_order_is_strict_and_total(trim_of(stamp), trim_of(stamp), trim_of(stamp));
    crate::text::law_trim_is_idempotent(honored);
    crate::text::law_trim_is_idempotent(stamp);
}

/// The pause is what was asked for, but never shorter than half a minute; asking for longer
/// never makes it shorter.
pub proof fn law_pause_is_never_too_short(secs: u64, more: u64)
    requires
        secs <= more,
    ensures
        pause_of(secs) >= 30,
        secs >= 30 ==> pause_of(secs) == secs,
        pause_of(secs) == secs || pause_of(secs) == 30,
        pause_of(secs) <= pause_of(more),
{
}

/// The record of an addon tells all that it holds, and so does the state of a stream.
pub proof fn law_records_tell_all_they_hold(a: InstalledAddon, s: StreamState)
    ensures
        a@.slug == a.slug@ && a@.enabled == a.enabled && a@.auto_update == a.auto_update && a@.sync
            == a.sync,
        a@.installed_version == opt_text(a.installed_version) && a@.pinned_version == opt_text(
            a.pinned_version,
        ),
        a@.channel_override == opt_text(a.channel_override) && a@.folder == opt_text(a.folder),
        s@.key == s.key() && s@.cursor == s.cursor@ && s@.queued == s.queued && s@.total == s.total,
        s@.last_sync == s.last_sync && s@.last_accepted == s.last_accepted && s@.file_mtime
            == s.file_mtime && s@.stuck == s.stuck,
        s.key().install_id == s.install_id@ && s.key().account == s.account@ && s.key().addon
            == s.addon@ && s.key().stream == s.stream@,
        a.is_new(a.slug@) <==> addon_row_at(Seq::empty(), a.slug@) == a@,
        s.is_new(s.key()) <==> row_at(Seq::empty(), s.key()) == s@,
{
    lemma_first_at(row_slugs(Seq::empty()), a.slug@);
    lemma_first_at(row_keys(Seq::empty()), s.key());
    assert(s.is_new(s.key()) ==> s@.cursor =~= Seq::empty());
}

/// The cursor of a stream is that of the first state that has its key, and empty where none
/// has.
pub proof fn law_cursor_is_found_by_its_key(cfg: AppConfig, i: int, key: StreamKey)
    ensures
        0 <= i < cfg.sync@.len() && (forall|j: int|
            0 <= j < i ==> (#[trigger] cfg.sync@[j]).key() != cfg.sync@[i].key()) ==> cfg.cursor_at(
            cfg.sync@[i].key(),
        ) == cfg.sync@[i].cursor@,
        (forall|j: int| 0 <= j < cfg.sync@.len() ==> (#[trigger] cfg.sync@[j]).key() != key)
            ==> cfg.cursor_at(key).len() == 0,
{
    let keys = stream_keys(cfg.sync@);
    if 0 <= i < cfg.sync@.len() && (forall|j: int|
        0 <= j < i ==> (#[trigger] cfg.sync@[j]).key() != cfg.sync@[i].key()) {
        assert(keys[i] == cfg.sync@[i].key());
        assert forall|j: int| 0 <= j < i implies keys[j] != keys[i] by {
            assert(keys[j] == cfg.sync@[j].key());
        }
        crate::seqs::law_different_keys_are_each_found(keys, i);
    }
    lemma_first_at(keys, key);
    if forall|j: int| 0 <= j < cfg.sync@.len() ==> (#[trigger] cfg.sync@[j]).key() != key {
        let p = first_at(keys, key);
        if p < keys.len() {
            assert(keys[p] == cfg.sync@[p].key());
        }
    }
}

/// The first configuration asks nothing of the user and does nothing on its own but update:
/// it knows no account, no install and no cursor, does not sync while the game runs, and
/// follows the public channel.
pub proof fn law_first_configuration_is_bare(cfg: AppConfig, base_url: Seq<char>, key: StreamKey)
    requires
        cfg.is_initial(base_url),
    ensures
        cfg.base_url@ == base_url,
        cfg.account is None && cfg.device_id is None && !cfg.onboarded,
        cfg.installs@.len() == 0 && cfg.sync@.len() == 0,
        cfg.cursor_at(key).len() == 0,
        !cfg.sync_while_running && cfg.auto_update_enabled && cfg.start_in_tray,
        cfg.self_update_channel@ == "public"@,
        cfg.auto_update_time@ == "03:00"@,
        pause_of(cfg.sync_interval_secs) == 900,
        cfg.last_resync_honored is None && cfg.dev_update_url is None,
{
    lemma_first_at(stream_keys(cfg.sync@), key);
}

/// Installs and accounts that hold the same agree in every field; only whether an install is
/// there may differ.
pub proof fn law_the_same_agrees_in_every_field(a: Install, b: Install, x: Account, y: Account)
    ensures
        same_install(a, b) ==> a.id == b.id && a.label == b.label && a.path == b.path && a.flavor
            == b.flavor && a.channel == b.channel && a.auto_update == b.auto_update
            && a.accounts_initialized == b.accounts_initialized && texts(a.sync_accounts@) == texts(
            b.sync_accounts@,
        ) && addon_rows(a.addons@) == addon_rows(b.addons@),
        same_account(x, y) ==> x.handle == y.handle && x.tier == y.tier && x.role == y.role && texts(
            x.channels@,
        ) == texts(y.channels@),
{
}

/// Configurations that hold the same agree in all that is kept: the server, the account and
/// the device, every install, every cursor, and every choice of the user.
pub proof fn law_same_configuration_keeps_everything(a: AppConfig, b: AppConfig, i: int)
    requires
        same_config(a, b),
    ensures
        a.base_url == b.base_url && a.device_id == b.device_id && a.device_name == b.device_name,
        a.account is Some <==> b.account is Some,
        a.account is Some ==> a.account->0.handle == b.account->0.handle,
        a.installs@.len() == b.installs@.len(),
        0 <= i < a.installs@.len() ==> a.installs@[i].id == b.installs@[i].id && a.installs@[i].path
            == b.installs@[i].path && addon_rows(a.installs@[i].addons@) == addon_rows(
            b.installs@[i].addons@,
        ),
        state_rows(a.sync@) == state_rows(b.sync@),
        a.theme == b.theme && a.sync_while_running == b.sync_while_running,
        a.sync_interval_secs == b.sync_interval_secs && a.onboarded == b.onboarded,
        a.dismissed_broadcast == b.dismissed_broadcast && a.last_resync_honored
            == b.last_resync_honored,
        a.catalog_stamp == b.catalog_stamp && a.self_update_channel == b.self_update_channel,
        a.auto_update_enabled == b.auto_update_enabled && a.auto_update_time == b.auto_update_time,
        a.dev_update_url == b.dev_update_url && a.start_in_tray == b.start_in_tray,
        a.account_aliases@ == b.account_aliases@,
{
    if 0 <= i < a.installs@.len() {
        assert(same_install(a.installs@[i], b.installs@[i]));
    }
}

} // verus!
