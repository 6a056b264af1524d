//! What the server's answer to the home request changes.
use vstd::prelude::*;

use crate::config::{all_rewound, resync_is_new, Account, AppConfig};
use crate::json::{field, str_value, text_field, views, Json, JsonView};
use crate::seqs::{opt_text, same_opt};
use crate::sweep::{home_stamp, poll_resync_signal};
use crate::text::{
    law_text_order_is_strict_and_total,
    law_trim_is_idempotent,
    same_text,
    texts,
    trim,
    trim_of,
};

verus! {

/// What an account says.
pub struct AccountView {
    pub handle: Seq<char>,
    pub tier: Option<Seq<char>>,
    pub role: Seq<char>,
    pub channels: Seq<Seq<char>>,
}

impl View for Account {
    type V = AccountView;

    open spec fn view(&self) -> AccountView {
        AccountView {
            handle: self.handle@,
            tier: opt_text(self.tier),
            role: self.role@,
            channels: texts(self.channels@),
        }
    }
}

/// What an optional account says.
pub open spec fn opt_account(a: Option<Account>) -> Option<AccountView> {
    match a {
        Some(a) => Some(a@),
        None => None,
    }
}

/// The texts among the first `n` values.
pub open spec fn texts_among(v: Seq<JsonView>, n: int) -> Seq<Seq<char>>
    decreases n,
{
    if n <= 0 {
        Seq::empty()
    } else {
        let before = texts_among(v, n - 1);
        match str_value(v[n - 1]) {
            Some(s) => before.push(s),
            None => before,
        }
    }
}

/// The account that an answer states: none if it has no handle. Without a role the role
/// is that of a user.
pub open spec fn home_account(me: JsonView) -> Option<AccountView> {
    match text_field(me, "handle"@) {
        Some(handle) => Some(
            AccountView {
                handle,
                tier: text_field(me, "tier"@),
                role: match text_field(me, "role"@) {
                    Some(role) => role,
                    None => "user"@,
                },
                channels: match field(me, "channels"@) {
                    Some(JsonView::Arr(v)) => texts_among(v, v.len() as int),
                    _ => Seq::empty(),
                },
            },
        ),
        None => None,
    }
}

/// The name of this device in an answer, trimmed, unless it is blank.
pub open spec fn home_device(me: JsonView) -> Option<Seq<char>> {
    match field(me, "device"@) {
        Some(d) => match text_field(d, "name"@) {
            Some(name) => if trim_of(name).len() > 0 {
                Some(trim_of(name))
            } else {
                None
            },
            None => None,
        },
        None => None,
    }
}

/// The fingerprint of the addon catalog in an answer.
pub open spec fn home_catalog(me: JsonView) -> Option<Seq<char>> {
    match field(me, "stamps"@) {
        Some(s) => text_field(s, "catalog"@),
        None => None,
    }
}

/// What of a configuration an answer can change, but for the sync state.
pub struct HomeState {
    pub account: Option<AccountView>,
    pub device_name: Option<Seq<char>>,
    pub honored: Option<Seq<char>>,
    pub catalog_stamp: Option<Seq<char>>,
}

/// What of a configuration an answer can change, but for the sync state.
pub open spec fn home_state(cfg: AppConfig) -> HomeState {
    HomeState {
        account: opt_account(cfg.account),
        device_name: opt_text(cfg.device_name),
        honored: opt_text(cfg.last_resync_honored),
        catalog_stamp: opt_text(cfg.catalog_stamp),
    }
}

/// `new` where there is one, else `old_value`.
pub open spec fn newer_of(old_value: Option<Seq<char>>, new: Option<Seq<char>>) -> Option<
    Seq<char>,
> {
    if new is Some {
        new
    } else {
        old_value
    }
}

/// The state after the answer `me`: the account is that of the answer if there is one
/// before and in the answer; so are the name and the fingerprint if the answer has them.
pub open spec fn home_applied(s: HomeState, me: JsonView) -> HomeState {
    HomeState {
        account: if s.account is Some && home_account(me) is Some {
            home_account(me)
        } else {
            s.account
        },
        device_name: newer_of(s.device_name, home_device(me)),
        honored: if resync_is_new(s.honored, home_stamp(me)) {
            Some(trim_of(home_stamp(me)->0))
        } else {
            s.honored
        },
        catalog_stamp: newer_of(s.catalog_stamp, home_catalog(me)),
    }
}

/// What an answer changed.
#[derive(Debug, Clone, Copy, PartialEq, Eq, Structural)]
pub struct HomeChange {
    /// Whether the configuration is to be kept again.
    pub changed: bool,
    /// Whether the catalog is to be fetched again.
    pub catalog_changed: bool,
}

fn text_list(v: &Vec<Json>) -> (out: Vec<String>)
    ensures
        texts(out@) == texts_among(views(v@), v@.len() as int),
{
    let ghost said = views(v@);
    let mut out: Vec<String> = Vec::new();
    let mut i: usize = 0;
    proof {
        assert(texts(out@) =~= Seq::<Seq<char>>::empty());
    }
    while i < v.len()
        invariant
            said == views(v@),
            i <= v@.len(),
            texts(out@) == texts_among(said, i as int),
        decreases v@.len() - i,
    {
        proof {
            assert(said[i as int] == v@[i as int]@);
        }
        if let Some(s) = v[i].as_str() {
            let ghost before = texts(out@);
            out.push(s.to_string());
            proof {
                assert(texts(out@) =~= before.push(s@));
            }
        }
        i = i + 1;
    }
    out
}

fn account_in(me: &Json) -> (a: Option<Account>)
    ensures
        opt_account(a) == home_account(me@),
{
    let handle: &str = match me.get_str("handle") {
        Some(h) => h,
        None => return None,
    };
    let tier: Option<String> = match me.get_str("tier") {
        Some(t) => Some(t.to_string()),
        None => None,
    };
    let role: String = match me.get_str("role") {
        Some(r) => r.to_string(),
        None => "user".to_string(),
    };
    let mut channels: Vec<String> = Vec::new();
    proof {
        assert(texts(channels@) =~= Seq::<Seq<char>>::empty());
    }
    if let Some(v) = me.get("channels") {
        if let Some(items) = v.as_array() {
            channels = text_list(items);
        }
    }
    Some(Account { handle: handle.to_string(), tier, role, channels })
}

fn device_in(me: &Json) -> (name: Option<String>)
    ensures
        opt_text(name) == home_device(me@),
{
    let device: &Json = match me.get("device") {
        Some(d) => d,
        None => return None,
    };
    match device.get_str("name") {
        Some(n) => {
            let name = trim(n);
            if name.as_str().is_empty() {
                None
            } else {
                Some(name)
            }
        },
        None => None,
    }
}

fn catalog_in(me: &Json) -> (stamp: Option<String>)
    ensures
        opt_text(stamp) == home_catalog(me@),
{
    match me.get("stamps") {
        Some(s) => match s.get_str("catalog") {
            Some(t) => Some(t.to_string()),
            None => None,
        },
        None => None,
    }
}

fn same_texts(a: &Vec<String>, b: &Vec<String>) -> (same: bool)
    ensures
        same == (texts(a@) == texts(b@)),
{
    if a.len() != b.len() {
        proof {
            assert(texts(a@).len() != texts(b@).len());
        }
        return false;
    }
    let mut i: usize = 0;
    while i < a.len()
        invariant
            a@.len() == b@.len(),
            i <= a@.len(),
            forall|j: int| 0 <= j < i ==> (#[trigger] a@[j])@ == b@[j]@,
        decreases a@.len() - i,
    {
        if !same_text(a[i].as_str(), b[i].as_str()) {
            proof {
                assert(texts(a@)[i as int] != texts(b@)[i as int]);
            }
            return false;
        }
        i = i + 1;
    }
    proof {
        assert(texts(a@) =~= texts(b@));
    }
    true
}

fn says_the_same(a: &Account, b: &Account) -> (same: bool)
    ensures
        same == (a@ == b@),
{
    same_text(a.handle.as_str(), b.handle.as_str()) && same_opt(&a.tier, &b.tier) && same_text(
        a.role.as_str(),
        b.role.as_str(),
    ) && same_texts(&a.channels, &b.channels)
}

/// Takes in the server's answer `me` to the home request: the account is refreshed if
/// this device is paired, the name of the device and the fingerprint of the catalog are
/// kept, and a new resync request sends every stream back to the start.
pub fn apply_home(cfg: &mut AppConfig, me: &Json) -> (change: HomeChange)
    ensures
        home_state(*final(cfg)) == home_applied(home_state(*old(cfg)), me@),
        change.changed == (home_state(*final(cfg)) != home_state(*old(cfg))),
        change.catalog_changed == (opt_text(final(cfg).catalog_stamp) != opt_text(
            old(cfg).catalog_stamp,
        )),
        if resync_is_new(opt_text(old(cfg).last_resync_honored), home_stamp(me@)) {
            all_rewound(old(cfg).sync@, final(cfg).sync@)
        } else {
            final(cfg).sync == old(cfg).sync
        },
        *final(cfg) == (AppConfig {
            account: final(cfg).account,
            device_name: final(cfg).device_name,
            last_resync_honored: final(cfg).last_resync_honored,
            catalog_stamp: final(cfg).catalog_stamp,
            sync: final(cfg).sync,
            ..*old(cfg)
        }),
{
    let ghost start = home_state(*cfg);
    let mut changed = false;
    if let Some(fresh) = account_in(me) {
        let stale: bool = match &cfg.account {
            Some(a) => !says_the_same(a, &fresh),
            None => false,
        };
        if stale {
            cfg.account = Some(fresh);
            changed = true;
        }
    }
    if let Some(name) = device_in(me) {
        let known = Some(name);
        if !same_opt(&cfg.device_name, &known) {
            cfg.device_name = known;
            changed = true;
        }
    }
    if poll_resync_signal(cfg, me) {
        changed = true;
        proof {
            law_trim_is_idempotent(home_stamp(me@)->0);
            let t = trim_of(home_stamp(me@)->0);
            law_text_order_is_strict_and_total(t, t, t);
            assert(start.honored != Some(t));
        }
    }
    let mut catalog_changed = false;
    if let Some(stamp) = catalog_in(me) {
        let seen = Some(stamp);
        if !same_opt(&cfg.catalog_stamp, &seen) {
            cfg.catalog_stamp = seen;
            changed = true;
            catalog_changed = true;
        }
    }
    HomeChange { changed, catalog_changed }
}

/// The same answer changes nothing the second time.
pub proof fn law_home_applies_once(s: HomeState, me: JsonView)
    ensures
        home_applied(home_applied(s, me), me) == home_applied(s, me),
{
    if resync_is_new(s.honored, home_stamp(me)) {
        law_trim_is_idempotent(home_stamp(me)->0);
        let t = trim_of(home_stamp(me)->0);
        law_text_order_is_strict_and_total(t, t, t);
    }
}

/// An answer never pairs a device that is not paired, nor does it unpair one.
pub proof fn law_home_never_pairs(s: HomeState, me: JsonView)
    ensures
        home_applied(s, me).account is Some == s.account is Some,
{
}

/// An answer that states an account is taken at its word: the handle, the tier, the role
/// and every channel that it lists, in order. Without a role the role is that of a user;
/// without a handle there is no account.
pub proof fn law_account_is_taken_as_stated(
    m: Map<Seq<char>, JsonView>,
    handle: Seq<char>,
    tier: Seq<char>,
    role: Seq<char>,
    channels: Seq<Seq<char>>,
)
    ensures
        ({
            let listed = JsonView::Arr(Seq::new(channels.len(), |i: int| JsonView::Str(channels[i])));
            let plain = m.insert("handle"@, JsonView::Str(handle)).insert(
                "tier"@,
                JsonView::Str(tier),
            ).insert("channels"@, listed);
            let full = JsonView::Obj(plain.insert("role"@, JsonView::Str(role)));
            let bare = JsonView::Obj(plain.remove("role"@).remove("tier"@).remove("channels"@));
            &&& home_account(full) == Some(AccountView { handle, tier: Some(tier), role, channels })
            &&& home_account(bare) == Some(
                AccountView { handle, tier: None, role: "user"@, channels: Seq::empty() },
            )
            &&& home_account(JsonView::Obj(m.remove("handle"@))) is None
        }),
{
    let listed = Seq::new(channels.len(), |i: int| JsonView::Str(channels[i]));
    lemma_all_texts(listed, channels, channels.len() as int);
    assert(channels.take(channels.len() as int) =~= channels);
    reveal_strlit("handle");
    reveal_strlit("tier");
    reveal_strlit("role");
    reveal_strlit("channels");
    assert("handle"@.len() == 6 && "tier"@.len() == 4 && "role"@.len() == 4 && "channels"@.len() == 8);
    assert("tier"@[0] == 't' && "role"@[0] == 'r');
}

proof fn lemma_all_texts(v: Seq<JsonView>, s: Seq<Seq<char>>, n: int)
    requires
        0 <= n <= s.len(),
        v.len() == s.len(),
        forall|i: int| 0 <= i < s.len() ==> #[trigger] v[i] == JsonView::Str(s[i]),
    ensures
        texts_among(v, n) == s.take(n),
    decreases n,
{
    if n > 0 {
        lemma_all_texts(v, s, n - 1);
        assert(v[n - 1] == JsonView::Str(s[n - 1]));
        assert(s.take(n) =~= s.take(n - 1).push(s[n - 1]));
    } else {
        assert(texts_among(v, 0) =~= s.take(0));
    }
}

/// The texts among values are all that are texts, in their order.
pub proof fn law_only_texts_are_taken(v: Seq<JsonView>, n: int)
    requires
        0 <= n <= v.len(),
    ensures
        texts_among(v, n) == v.take(n).filter(|x: JsonView| x is Str).map_values(
            |x: JsonView| x->Str_0,
        ),
    decreases n,
{
    let keep = |x: JsonView| x is Str;
    let get = |x: JsonView| x->Str_0;
    if n > 0 {
        law_only_texts_are_taken(v, n - 1);
        crate::seqs::lemma_filter_take(v, n, keep);
        let before = v.take(n - 1).filter(keep);
        assert(before.push(v[n - 1]).map_values(get) =~= before.map_values(get).push(get(v[n - 1])));
    } else {
        reveal(Seq::filter);
        assert(v.take(0).filter(keep).map_values(get) =~= Seq::empty());
    }
}

/// The name of the device and the fingerprint of the catalog are taken from where the answer
/// states them, the name without white space around it and not where it is blank.
pub proof fn law_name_and_stamp_are_taken_as_stated(
    m: Map<Seq<char>, JsonView>,
    d: Map<Seq<char>, JsonView>,
    text: Seq<char>,
)
    ensures
        ({
            let named = JsonView::Obj(
                m.insert("device"@, JsonView::Obj(d.insert("name"@, JsonView::Str(text)))),
            );
            let stamped = JsonView::Obj(
                m.insert("stamps"@, JsonView::Obj(d.insert("catalog"@, JsonView::Str(text)))),
            );
            &&& trim_of(text).len() > 0 ==> home_device(named) == Some(trim_of(text))
            &&& trim_of(text).len() == 0 ==> home_device(named) is None
            &&& home_catalog(stamped) == Some(text)
            &&& home_device(JsonView::Obj(m.remove("device"@))) is None
            &&& home_catalog(JsonView::Obj(m.remove("stamps"@))) is None
        }),
{
}

/// What an answer does not state stays as it was, and what it states replaces what was
/// there; an account only where there is one to replace.
pub proof fn law_answer_changes_what_it_states(s: HomeState, me: JsonView)
    ensures
        ({
            let after = home_applied(s, me);
            &&& home_account(me) is None ==> after.account == s.account
            &&& s.account is Some && home_account(me) is Some ==> after.account == home_account(me)
            &&& s.account is None ==> after.account is None
            &&& home_device(me) is None ==> after.device_name == s.device_name
            &&& home_device(me) is Some ==> after.device_name == home_device(me)
            &&& home_catalog(me) is None ==> after.catalog_stamp == s.catalog_stamp
            &&& home_catalog(me) is Some ==> after.catalog_stamp == home_catalog(me)
            &&& resync_is_new(s.honored, home_stamp(me)) ==> after.honored == Some(
                trim_of(home_stamp(me)->0),
            )
            &&& !resync_is_new(s.honored, home_stamp(me)) ==> after.honored == s.honored
        }),
{
}

} // verus!
