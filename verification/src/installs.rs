//! Game installs: their flavors, where to look for them, and what was found there.
use vstd::prelude::*;

use crate::paths::{
    file_name,
    file_name_of,
    has_drive,
    is_bare_share,
    is_name,
    is_part,
    join_of,
    join_path,
    law_joined_part_comes_last,
    law_plain_path_is_the_same,
    names_something,
    path_of,
    path_pieces,
    path_text,
    path_with_parts,
    pieces_of,
    split_path,
    PathStyle,
    PathView,
};
use crate::seqs::contains;
use crate::text::{
    eq_ignore_ascii_case,
    first_chars,
    join2,
    lemma_split_nonempty,
    lowercase_of,
    same_but_case,
    same_text,
    split,
    split_on,
    strip_end,
    strip_end_of,
    strip_start,
    strip_start_of,
    texts,
    to_chars,
    to_lowercase,
    trim,
    trim_of,
};

verus! {

/// An install that was found on this machine.
#[derive(Debug, PartialEq)]
pub struct DetectedInstall {
    pub path: String,
    pub label: String,
    pub flavor: String,
    pub already_added: bool,
}

/// What an install that was found says.
pub struct DetectedView {
    pub path: Seq<char>,
    pub label: Seq<char>,
    pub flavor: Seq<char>,
    pub already_added: bool,
}

impl View for DetectedInstall {
    type V = DetectedView;

    open spec fn view(&self) -> DetectedView {
        DetectedView {
            path: self.path@,
            label: self.label@,
            flavor: self.flavor@,
            already_added: self.already_added,
        }
    }
}

/// What a row of installs says.
pub open spec fn detected(v: Seq<DetectedInstall>) -> Seq<DetectedView> {
    Seq::new(v.len(), |i: int| v[i]@)
}

// ---------------------------------------------------------------------------
// Flavors
// ---------------------------------------------------------------------------

/// The flavor folders and the names of their flavors, in order of preference.
pub open spec fn flavor_table() -> Seq<(Seq<char>, Seq<char>)> {
    seq![
        ("_retail_"@, "Retail"@),
        ("_ptr_"@, "PTR"@),
        ("_xptr_"@, "PTR"@),
        ("_beta_"@, "Beta"@),
        ("_classic_"@, "Classic"@),
        ("_classic_era_"@, "Classic Era"@),
        ("_classic_ptr_"@, "Classic PTR"@),
        ("_classic_era_ptr_"@, "Classic Era PTR"@),
    ]
}

/// The flavor folders and the names of their flavors, in order of preference.
pub fn flavors() -> (v: Vec<(&'static str, &'static str)>)
    ensures
        v@.len() == 8,
        forall|i: int| 0 <= i < 8 ==> ((#[trigger] v@[i]).0@, v@[i].1@) == flavor_table()[i],
{
    let v: Vec<(&'static str, &'static str)> = vec![
        ("_retail_", "Retail"),
        ("_ptr_", "PTR"),
        ("_xptr_", "PTR"),
        ("_beta_", "Beta"),
        ("_classic_", "Classic"),
        ("_classic_era_", "Classic Era"),
        ("_classic_ptr_", "Classic PTR"),
        ("_classic_era_ptr_", "Classic Era PTR"),
    ];
    v
}

/// The name of the first flavor, from the one at `i` on, whose folder the path `lower` goes
/// through.
pub open spec fn flavor_in(lower: Seq<char>, i: int) -> Seq<char>
    decreases 8 - i,
{
    if i < 0 || i >= 8 {
        "Unknown"@
    } else if pieces_of(lower).contains(flavor_table()[i].0) {
        flavor_table()[i].1
    } else {
        flavor_in(lower, i + 1)
    }
}

/// The display name of the flavor whose folder the path `path` goes through.
pub fn flavor_from_path(path: &str) -> (name: String)
    ensures
        name@ == flavor_in(lowercase_of(path@), 0),
{
    let lower = to_lowercase(path);
    let pieces = path_pieces(lower.as_str());
    let table = flavors();
    let mut i: usize = 0;
    while i < table.len()
        invariant
            i <= 8,
            texts(pieces@) == pieces_of(lower@),
            table@.len() == 8,
            forall|j: int|
                0 <= j < 8 ==> ((#[trigger] table@[j]).0@, table@[j].1@) == flavor_table()[j],
            lower@ == lowercase_of(path@),
            flavor_in(lower@, 0) == flavor_in(lower@, i as int),
        decreases 8 - i,
    {
        proof {
            assert((table@[i as int].0@, table@[i as int].1@) == flavor_table()[i as int]);
        }
        if contains(&pieces, table[i].0) {
            return table[i].1.to_string();
        }
        i = i + 1;
    }
    "Unknown".to_string()
}

/// The wire token of the path part `s`, if it is a flavor folder: what stands between the
/// underscores, in lower case, cut to 20 characters.
pub open spec fn part_token(s: Seq<char>) -> Option<Seq<char>> {
    let inner = lowercase_of(strip_start_of(strip_end_of(s, '_', '_'), '_'));
    if s.len() >= 3 && s[0] == '_' && s.last() == '_' && inner.len() > 0 {
        Some(
            if inner.len() >= 20 {
                inner.take(20)
            } else {
                inner
            },
        )
    } else {
        None
    }
}

/// The wire token of the first part from `i` on that has one; empty if none has.
pub open spec fn token_in(parts: Seq<Seq<char>>, i: int) -> Seq<char>
    decreases parts.len() - i,
{
    if i < 0 || i >= parts.len() {
        Seq::empty()
    } else {
        match part_token(parts[i]) {
            Some(t) => t,
            None => token_in(parts, i + 1),
        }
    }
}

/// The wire token of the flavor that the path `path` lies in. Folders that are not known
/// give a token too; it is empty only where there is no flavor folder.
pub fn flavor_token_from_path(style: PathStyle, path: &str) -> (token: String)
    ensures
        token@ == token_in(path_of(style, path@).parts, 0),
{
    let p = split_path(style, path);
    let ghost parts = p@.parts;
    let mut i: usize = 0;
    while i < p.parts.len()
        invariant
            i <= p.parts@.len(),
            p@ == path_of(style, path@),
            parts == p@.parts,
            token_in(parts, 0) == token_in(parts, i as int),
        decreases p.parts@.len() - i,
    {
        let part: &String = &p.parts[i];
        proof {
            assert(parts[i as int] == part@);
        }
        let c = to_chars(part.as_str());
        if c.len() >= 3 && c[0] == '_' && c[c.len() - 1] == '_' {
            let inner = to_lowercase(
                strip_start(strip_end(part.as_str(), '_', '_').as_str(), '_').as_str(),
            );
            if !inner.as_str().is_empty() {
                let token = first_chars(inner.as_str(), 20);
                proof {
                    assert(inner@.take(20) =~= inner@ || inner@.len() != 20);
                }
                return token;
            }
        }
        i = i + 1;
    }
    String::new()
}

// ---------------------------------------------------------------------------
// The machine's name
// ---------------------------------------------------------------------------

/// The part of a host name before its first dot, trimmed.
pub open spec fn short_host(raw: Seq<char>) -> Seq<char> {
    trim_of(split_on(raw, '.')[0])
}

fn short_host_text(raw: &str) -> (s: String)
    ensures
        s@ == short_host(raw@),
{
    let pieces = split(raw, '.');
    proof {
        lemma_split_nonempty(raw@, '.');
        assert(texts(pieces@).len() == pieces@.len());
        assert(texts(pieces@)[0] == pieces@[0]@);
    }
    trim(pieces[0].as_str())
}

/// The host name to show, if the system's is of any use: not empty, not `localhost`.
pub open spec fn useful_host(raw: Seq<char>) -> Option<Seq<char>> {
    let s = short_host(raw);
    if s.len() > 0 && !same_but_case(s, "localhost"@) {
        Some(s)
    } else {
        None
    }
}

/// The host name to show, if the system's (`raw`) is of any use.
pub fn os_hostname(raw: &str) -> (name: Option<String>)
    ensures
        match name {
            Some(n) => useful_host(raw@) == Some(n@),
            None => useful_host(raw@) is None,
        },
{
    let s = short_host_text(raw);
    if !s.as_str().is_empty() && !eq_ignore_ascii_case(s.as_str(), "localhost") {
        Some(s)
    } else {
        None
    }
}

/// The first of the host variables, from the one at `i` on, that gives a name.
pub open spec fn env_host(vars: Seq<Option<String>>, i: int) -> Option<Seq<char>>
    decreases vars.len() - i,
{
    if i < 0 || i >= vars.len() {
        None
    } else if vars[i] is Some && short_host(vars[i]->0@).len() > 0 {
        Some(short_host(vars[i]->0@))
    } else {
        env_host(vars, i + 1)
    }
}

/// The label of this machine: the system's host name `raw`, else the first useful one of
/// the variables `host_vars`, else the name of its user.
pub open spec fn label_of(
    raw: Option<Seq<char>>,
    host_vars: Seq<Option<String>>,
    user: Option<Seq<char>>,
) -> Seq<char> {
    if raw is Some && useful_host(raw->0) is Some {
        useful_host(raw->0)->0
    } else if env_host(host_vars, 0) is Some {
        env_host(host_vars, 0)->0
    } else if user is Some && user->0.len() > 0 {
        user->0 + "'s PC"@
    } else {
        "This PC"@
    }
}

/// The label of this machine. `raw` is the system's host name, `host_vars` the values of
/// the variables to try in order, and `user` the name of the user.
pub fn machine_label(
    raw: Option<&str>,
    host_vars: &Vec<Option<String>>,
    user: Option<&str>,
) -> (label: String)
    ensures
        label@ == label_of(
            crate::config::opt_str(raw),
            host_vars@,
            crate::config::opt_str(user),
        ),
{
    if let Some(r) = raw {
        if let Some(h) = os_hostname(r) {
            return h;
        }
    }
    let mut i: usize = 0;
    while i < host_vars.len()
        invariant
            i <= host_vars@.len(),
            env_host(host_vars@, 0) == env_host(host_vars@, i as int),
            raw is Some ==> useful_host(raw->0@) is None,
        decreases host_vars@.len() - i,
    {
        if let Some(v) = &host_vars[i] {
            let s = short_host_text(v.as_str());
            if !s.as_str().is_empty() {
                return s;
            }
        }
        i = i + 1;
    }
    if let Some(u) = user {
        if !u.is_empty() {
            return join2(u, "'s PC");
        }
    }
    "This PC".to_string()
}

// ---------------------------------------------------------------------------
// Where to look
// ---------------------------------------------------------------------------

/// A system that the app runs on.
#[derive(Debug, Clone, Copy, PartialEq, Eq, Structural)]
pub enum Platform {
    MacOs,
    Windows,
    Linux,
}

/// The folders below the home directory that Linux setups use.
pub open spec fn linux_roots() -> Seq<Seq<char>> {
    seq![
        "Games/world-of-warcraft/drive_c/Program Files (x86)/World of Warcraft"@,
        ".wine/drive_c/Program Files (x86)/World of Warcraft"@,
        ".var/app/net.lutris.Lutris/data/lutris/World of Warcraft"@,
    ]
}

/// The folders that Windows setups use.
pub open spec fn windows_roots() -> Seq<Seq<char>> {
    seq![
        "C:\\Program Files (x86)\\World of Warcraft"@,
        "C:\\Program Files\\World of Warcraft"@,
        "C:\\World of Warcraft"@,
        "D:\\World of Warcraft"@,
        "D:\\Program Files (x86)\\World of Warcraft"@,
        "E:\\World of Warcraft"@,
        "E:\\Program Files (x86)\\World of Warcraft"@,
        "F:\\World of Warcraft"@,
        "F:\\Program Files (x86)\\World of Warcraft"@,
        "G:\\World of Warcraft"@,
        "G:\\Program Files (x86)\\World of Warcraft"@,
    ]
}

/// The folders to look for the game in. `volumes` are the paths of the mounted drives.
pub open spec fn roots_of(
    platform: Platform,
    home: Option<Seq<char>>,
    volumes: Seq<Seq<char>>,
) -> Seq<Seq<char>> {
    let apps = "Applications/World of Warcraft"@;
    match platform {
        Platform::MacOs => seq!["/Applications/World of Warcraft"@] + (match home {
            Some(h) => seq![join_of(PathStyle::Unix, h, apps)],
            None => Seq::empty(),
        }) + Seq::new(volumes.len(), |i: int| join_of(PathStyle::Unix, volumes[i], apps)),
        Platform::Windows => windows_roots(),
        Platform::Linux => match home {
            Some(h) => Seq::new(3, |i: int| join_of(PathStyle::Unix, h, linux_roots()[i])),
            None => Seq::empty(),
        },
    }
}

/// The folders to look for the game in: for each of them, every flavor is tried.
pub fn candidate_roots(platform: Platform, home: Option<&str>, volumes: &Vec<String>) -> (roots: Vec<
    String,
>)
    ensures
        texts(roots@) == roots_of(platform, crate::config::opt_str(home), texts(volumes@)),
{
    let mut roots: Vec<String> = Vec::new();
    match platform {
        Platform::MacOs => {
            roots.push("/Applications/World of Warcraft".to_string());
            if let Some(h) = home {
                roots.push(join_path(PathStyle::Unix, h, "Applications/World of Warcraft"));
            }
            let ghost start = texts(roots@);
            let mut i: usize = 0;
            proof {
                assert(texts(roots@) =~= start + Seq::<Seq<char>>::empty());
            }
            while i < volumes.len()
                invariant
                    i <= volumes@.len(),
                    texts(roots@) == start + Seq::new(
                        i as nat,
                        |j: int|
                            join_of(
                                PathStyle::Unix,
                                texts(volumes@)[j],
                                "Applications/World of Warcraft"@,
                            ),
                    ),
                decreases volumes@.len() - i,
            {
                let ghost before = texts(roots@);
                roots.push(
                    join_path(
                        PathStyle::Unix,
                        volumes[i].as_str(),
                        "Applications/World of Warcraft",
                    ),
                );
                proof {
                    assert(texts(volumes@)[i as int] == volumes@[i as int]@);
                    assert(texts(roots@) =~= before.push(
                        join_of(
                            PathStyle::Unix,
                            volumes@[i as int]@,
                            "Applications/World of Warcraft"@,
                        ),
                    ));
                    assert(texts(roots@) =~= start + Seq::new(
                        (i + 1) as nat,
                        |j: int|
                            join_of(
                                PathStyle::Unix,
                                texts(volumes@)[j],
                                "Applications/World of Warcraft"@,
                            ),
                    ));
                }
                i = i + 1;
            }
        },
        Platform::Windows => {
            roots.push("C:\\Program Files (x86)\\World of Warcraft".to_string());
            roots.push("C:\\Program Files\\World of Warcraft".to_string());
            roots.push("C:\\World of Warcraft".to_string());
            roots.push("D:\\World of Warcraft".to_string());
            roots.push("D:\\Program Files (x86)\\World of Warcraft".to_string());
            roots.push("E:\\World of Warcraft".to_string());
            roots.push("E:\\Program Files (x86)\\World of Warcraft".to_string());
            roots.push("F:\\World of Warcraft".to_string());
            roots.push("F:\\Program Files (x86)\\World of Warcraft".to_string());
            roots.push("G:\\World of Warcraft".to_string());
            roots.push("G:\\Program Files (x86)\\World of Warcraft".to_string());
        },
        Platform::Linux => {
            if let Some(h) = home {
                roots.push(
                    join_path(
                        PathStyle::Unix,
                        h,
                        "Games/world-of-warcraft/drive_c/Program Files (x86)/World of Warcraft",
                    ),
                );
                roots.push(
                    join_path(
                        PathStyle::Unix,
                        h,
                        ".wine/drive_c/Program Files (x86)/World of Warcraft",
                    ),
                );
                roots.push(
                    join_path(
                        PathStyle::Unix,
                        h,
                        ".var/app/net.lutris.Lutris/data/lutris/World of Warcraft",
                    ),
                );
            }
        },
    }
    proof {
        assert(texts(roots@) =~= roots_of(
            platform,
            crate::config::opt_str(home),
            texts(volumes@),
        ));
    }
    roots
}

/// The addon folder of the flavor folder `seg` below `root`.
pub open spec fn flavor_addons(style: PathStyle, root: Seq<char>, seg: Seq<char>) -> Seq<char> {
    join_of(style, join_of(style, join_of(style, root, seg), "Interface"@), "AddOns"@)
}

fn flavor_addons_path(style: PathStyle, root: &str, seg: &str) -> (s: String)
    ensures
        s@ == flavor_addons(style, root@, seg@),
{
    let a = join_path(style, root, seg);
    let b = join_path(style, a.as_str(), "Interface");
    join_path(style, b.as_str(), "AddOns")
}

/// The addon folders to try below `root`, one for each flavor.
pub fn flavor_probes(style: PathStyle, root: &str) -> (probes: Vec<String>)
    ensures
        texts(probes@) == Seq::new(8, |i: int| flavor_addons(style, root@, flavor_table()[i].0)),
{
    let table = flavors();
    let mut probes: Vec<String> = Vec::new();
    let mut i: usize = 0;
    while i < table.len()
        invariant
            i <= 8,
            table@.len() == 8,
            forall|j: int|
                0 <= j < 8 ==> ((#[trigger] table@[j]).0@, table@[j].1@) == flavor_table()[j],
            probes@.len() == i,
            forall|j: int|
                0 <= j < i ==> (#[trigger] probes@[j])@ == flavor_addons(
                    style,
                    root@,
                    flavor_table()[j].0,
                ),
        decreases 8 - i,
    {
        proof {
            assert((table@[i as int].0@, table@[i as int].1@) == flavor_table()[i as int]);
        }
        probes.push(flavor_addons_path(style, root, table[i].0));
        i = i + 1;
    }
    proof {
        assert(texts(probes@) =~= Seq::new(
            8,
            |i: int| flavor_addons(style, root@, flavor_table()[i].0),
        ));
    }
    probes
}

// ---------------------------------------------------------------------------
// What was found
// ---------------------------------------------------------------------------

/// What two paths are compared by: without separators at the end, and in lower case.
pub open spec fn norm_of(p: Seq<char>) -> Seq<char> {
    lowercase_of(strip_end_of(p, '/', '\\'))
}

/// What two paths are compared by.
pub fn norm(p: &str) -> (s: String)
    ensures
        s@ == norm_of(p@),
{
    to_lowercase(strip_end(p, '/', '\\').as_str())
}

/// What the flavors at which a folder was found say, up to the one at `n`.
pub open spec fn found_installs(
    found: Seq<Option<String>>,
    known: Seq<Seq<char>>,
    label: Seq<char>,
    n: int,
) -> Seq<DetectedView>
    decreases n,
{
    if n <= 0 {
        Seq::empty()
    } else {
        let before = found_installs(found, known, label, n - 1);
        match found[n - 1] {
            Some(path) => before.push(
                DetectedView {
                    path: path@,
                    label,
                    flavor: flavor_table()[n - 1].1,
                    already_added: known.contains(norm_of(path@)),
                },
            ),
            None => before,
        }
    }
}

/// The installs below one root. `found` holds, for each flavor, the real path of its
/// addon folder where there is one; `known` the keys of the installs that were added.
pub fn enumerate_at(found: &Vec<Option<String>>, known: &Vec<String>, label: &str) -> (out: Vec<
    DetectedInstall,
>)
    requires
        found@.len() == 8,
    ensures
        detected(out@) == found_installs(found@, texts(known@), label@, 8),
{
    let table = flavors();
    let mut out: Vec<DetectedInstall> = Vec::new();
    let mut i: usize = 0;
    proof {
        assert(detected(out@) =~= Seq::<DetectedView>::empty());
    }
    while i < found.len()
        invariant
            i <= 8,
            found@.len() == 8,
            table@.len() == 8,
            forall|j: int|
                0 <= j < 8 ==> ((#[trigger] table@[j]).0@, table@[j].1@) == flavor_table()[j],
            detected(out@) == found_installs(found@, texts(known@), label@, i as int),
        decreases 8 - i,
    {
        proof {
            assert((table@[i as int].0@, table@[i as int].1@) == flavor_table()[i as int]);
        }
        let ghost before = detected(out@);
        if let Some(path) = &found[i] {
            let n = norm(path.as_str());
            let d = DetectedInstall {
                path: path.clone(),
                label: label.to_string(),
                flavor: table[i].1.to_string(),
                already_added: contains(known, n.as_str()),
            };
            let ghost view = d@;
            out.push(d);
            proof {
                assert(detected(out@) =~= before.push(view));
            }
        }
        i = i + 1;
    }
    out
}

/// What the first `n` of `all` say, without those whose path came before.
pub open spec fn without_repeats(all: Seq<DetectedView>, n: int) -> Seq<DetectedView>
    decreases n,
{
    if n <= 0 {
        Seq::empty()
    } else {
        let before = without_repeats(all, n - 1);
        if path_keys(before).contains(norm_of(all[n - 1].path)) {
            before
        } else {
            before.push(all[n - 1])
        }
    }
}

/// What the paths of the installs are compared by.
pub open spec fn path_keys(v: Seq<DetectedView>) -> Seq<Seq<char>> {
    Seq::new(v.len(), |i: int| norm_of(v[i].path))
}

/// The installs that were found below all roots, each path once.
pub fn detect(all: Vec<DetectedInstall>) -> (out: Vec<DetectedInstall>)
    ensures
        detected(out@) == without_repeats(detected(all@), all@.len() as int),
{
    let ghost given = detected(all@);
    let ghost n = all@.len();
    let mut rest = all;
    let mut out: Vec<DetectedInstall> = Vec::new();
    let mut seen: Vec<String> = Vec::new();
    let mut i: usize = 0;
    let count: usize = rest.len();
    proof {
        assert(detected(out@) =~= Seq::<DetectedView>::empty());
        assert(texts(seen@) =~= path_keys(detected(out@)));
    }
    while i < count
        invariant
            i <= count == n,
            rest@.len() == n,
            given.len() == n,
            forall|j: int| i <= j < n ==> (#[trigger] rest@[j])@ == given[j],
            detected(out@) == without_repeats(given, i as int),
            texts(seen@) == path_keys(detected(out@)),
        decreases count - i,
    {
        let mut d = DetectedInstall {
            path: String::new(),
            label: String::new(),
            flavor: String::new(),
            already_added: false,
        };
        std::mem::swap(&mut d, &mut rest[i]);
        let key = norm(d.path.as_str());
        let ghost view = d@;
        let ghost before = detected(out@);
        let ghost seen_before = texts(seen@);
        proof {
            assert(view == given[i as int]);
        }
        if !contains(&seen, key.as_str()) {
            let ghost key_view = key@;
            seen.push(key);
            out.push(d);
            proof {
                assert(detected(out@) =~= before.push(view));
                assert(texts(seen@) =~= seen_before.push(key_view));
                assert(path_keys(detected(out@)) =~= path_keys(before).push(key_view));
            }
        }
        i = i + 1;
    }
    out
}

/// No path is reported twice.
pub proof fn law_detected_paths_differ(all: Seq<DetectedView>, n: int)
    requires
        0 <= n <= all.len(),
    ensures
        forall|i: int, j: int|
            0 <= i < j < without_repeats(all, n).len() ==> norm_of(
                (#[trigger] without_repeats(all, n)[i]).path,
            ) != norm_of((#[trigger] without_repeats(all, n)[j]).path),
        forall|i: int|
            0 <= i < n ==> path_keys(without_repeats(all, n)).contains(
                norm_of((#[trigger] all[i]).path),
            ),
    decreases n,
{
    if n > 0 {
        law_detected_paths_differ(all, n - 1);
        let before = without_repeats(all, n - 1);
        let after = without_repeats(all, n);
        let key = norm_of(all[n - 1].path);
        if path_keys(before).contains(key) {
            assert(after == before);
        } else {
            assert forall|i: int, j: int| 0 <= i < j < after.len() implies norm_of(
                (#[trigger] after[i]).path,
            ) != norm_of((#[trigger] after[j]).path) by {
                assert(path_keys(before)[i] == norm_of(before[i].path));
                if j < before.len() {
                    assert(after[j] == before[j]);
                }
                assert(after[i] == before[i]);
            }
            assert(path_keys(after) =~= path_keys(before).push(key));
            assert forall|i: int| 0 <= i < n implies path_keys(after).contains(
                norm_of((#[trigger] all[i]).path),
            ) by {
                if i < n - 1 {
                    let k = norm_of(all[i].path);
                    let p = choose|p: int| 0 <= p < before.len() && path_keys(before)[p] == k;
                    assert(path_keys(after)[p] == k);
                } else {
                    assert(path_keys(after)[before.len() as int] == key);
                }
            }
        }
    }
}

// ---------------------------------------------------------------------------
// A folder that the user picked
// ---------------------------------------------------------------------------

/// Whether `lower` is one of the flavor folders, from the one at `i` on.
pub open spec fn is_flavor_from(lower: Seq<char>, i: int) -> bool
    decreases 8 - i,
{
    0 <= i < 8 && (flavor_table()[i].0 == lower || is_flavor_from(lower, i + 1))
}

/// Whether the path part `name` is a flavor folder, whatever its case.
pub open spec fn is_flavor_name(name: Seq<char>) -> bool {
    is_name(name) && is_flavor_from(lowercase_of(name), 0)
}

fn is_flavor(name: &str) -> (yes: bool)
    ensures
        yes == is_flavor_name(name@),
{
    if !names_something(name) {
        return false;
    }
    let lower = to_lowercase(name);
    let table = flavors();
    let mut i: usize = 0;
    while i < table.len()
        invariant
            i <= 8,
            is_name(name@),
            table@.len() == 8,
            forall|j: int|
                0 <= j < 8 ==> ((#[trigger] table@[j]).0@, table@[j].1@) == flavor_table()[j],
            lower@ == lowercase_of(name@),
            is_flavor_from(lower@, 0) == is_flavor_from(lower@, i as int),
        decreases 8 - i,
    {
        proof {
            assert((table@[i as int].0@, table@[i as int].1@) == flavor_table()[i as int]);
        }
        if same_text(lower.as_str(), table[i].0) {
            return true;
        }
        i = i + 1;
    }
    false
}

/// Where, from `i` on, the first flavor folder among `parts` stands; their number if
/// there is none.
pub open spec fn flavor_part(parts: Seq<Seq<char>>, i: int) -> int
    decreases parts.len() - i,
{
    if i < 0 || i >= parts.len() {
        parts.len() as int
    } else if is_flavor_name(parts[i]) {
        i
    } else {
        flavor_part(parts, i + 1)
    }
}

/// The root of the game that `picked` lies in: the folder above its first flavor folder,
/// else `picked` itself.
pub open spec fn root_of_picked(style: PathStyle, picked: Seq<char>) -> Seq<char> {
    let v = path_of(style, picked);
    let i = flavor_part(v.parts, 0);
    if i < v.parts.len() {
        path_text(style, PathView { parts: v.parts.take(i), ..v })
    } else {
        picked
    }
}

/// The root of the game that `picked` lies in.
pub fn wow_root_from_picked(style: PathStyle, picked: &str) -> (root: String)
    ensures
        root@ == root_of_picked(style, picked@),
{
    let p = split_path(style, picked);
    let ghost parts = p@.parts;
    let mut i: usize = 0;
    while i < p.parts.len()
        invariant
            i <= p.parts@.len(),
            p@ == path_of(style, picked@),
            parts == texts(p.parts@),
            flavor_part(parts, 0) == flavor_part(parts, i as int),
        decreases p.parts@.len() - i,
    {
        proof {
            assert(parts[i as int] == p.parts@[i as int]@);
        }
        if is_flavor(p.parts[i].as_str()) {
            return path_with_parts(style, &p, i);
        }
        i = i + 1;
    }
    picked.to_string()
}

proof fn lemma_first_flavor(parts: Seq<Seq<char>>, more: Seq<Seq<char>>, i: int)
    requires
        0 <= i <= parts.len() < more.len(),
        more.take(parts.len() as int) == parts,
        is_flavor_name(more[parts.len() as int]),
        flavor_part(parts, i) == parts.len(),
    ensures
        flavor_part(more, i) == parts.len(),
    decreases parts.len() - i,
{
    if i < parts.len() {
        assert(more[i] == more.take(parts.len() as int)[i]);
        lemma_first_flavor(parts, more, i + 1);
    }
}

/// Whichever folder of an install the user picks, the root is the same: the root itself,
/// a flavor folder below it, the `Interface` folder there and the `AddOns` folder in that
/// all lead to it. A root that is picked itself is given back as it was written; from the
/// others it comes written out plainly, which is the same path.
pub proof fn law_picks_lead_to_one_root(style: PathStyle, root: Seq<char>, seg: Seq<char>)
    requires
        flavor_part(path_of(style, root).parts, 0) == path_of(style, root).parts.len(),
        is_part(style, seg),
        is_flavor_name(seg),
        !is_bare_share(style, root),
        !has_drive(seg),
    ensures
        ({
            let flavor = join_of(style, root, seg);
            let interface = join_of(style, flavor, "Interface"@);
            let addons = join_of(style, interface, "AddOns"@);
            let plain = path_text(style, path_of(style, root));
            &&& root_of_picked(style, root) == root
            &&& root_of_picked(style, flavor) == plain
            &&& root_of_picked(style, interface) == plain
            &&& root_of_picked(style, addons) == plain
            &&& path_of(style, plain) == path_of(style, root)
        }),
{
    reveal_strlit("Interface");
    reveal_strlit("AddOns");
    reveal_strlit(".");
    reveal_strlit("..");
    let flavor = join_of(style, root, seg);
    let interface = join_of(style, flavor, "Interface"@);
    let addons = join_of(style, interface, "AddOns"@);
    assert("Interface"@.len() == 9 && "AddOns"@.len() == 6 && "."@.len() == 1 && ".."@.len() == 2);
    law_plain_path_is_the_same(style, root);
    law_joined_part_comes_last(style, root, seg);
    law_joined_part_comes_last(style, flavor, "Interface"@);
    law_joined_part_comes_last(style, interface, "AddOns"@);
    let v = path_of(style, root);
    let n = v.parts.len() as int;
    let a = path_of(style, flavor).parts;
    let b = path_of(style, interface).parts;
    let c = path_of(style, addons).parts;
    assert(a.take(n) =~= v.parts);
    assert(b.take(n) =~= v.parts);
    assert(c.take(n) =~= v.parts);
    lemma_first_flavor(v.parts, a, 0);
    lemma_first_flavor(v.parts, b, 0);
    lemma_first_flavor(v.parts, c, 0);
}

/// The folders that may be the addon folder of `picked`: the two below it, then one for
/// each flavor.
pub open spec fn candidates_of(style: PathStyle, picked: Seq<char>) -> Seq<Seq<char>> {
    seq![
        join_of(style, picked, "AddOns"@),
        join_of(style, picked, join_of(style, "Interface"@, "AddOns"@)),
    ] + Seq::new(8, |i: int| flavor_addons(style, picked, flavor_table()[i].0))
}

/// The folders that may be the addon folder of `picked`.
pub fn addons_candidates(style: PathStyle, picked: &str) -> (v: Vec<String>)
    ensures
        texts(v@) == candidates_of(style, picked@),
{
    let mut v: Vec<String> = Vec::new();
    v.push(join_path(style, picked, "AddOns"));
    let inner = join_path(style, "Interface", "AddOns");
    v.push(join_path(style, picked, inner.as_str()));
    let ghost two = texts(v@);
    let mut probes = flavor_probes(style, picked);
    let ghost eight = texts(probes@);
    v.append(&mut probes);
    proof {
        assert(texts(v@) =~= two + eight);
        assert(texts(v@) =~= candidates_of(style, picked@));
    }
    v
}

/// Where, from `i` on and before `end`, the first folder stands that is there; `end` if
/// none is.
pub open spec fn first_present(present: Seq<bool>, i: int, end: int) -> int
    decreases end - i,
{
    if i >= end || present[i] {
        i
    } else {
        first_present(present, i + 1, end)
    }
}

/// Whether the last part of `picked` is `name`, whatever the case of its letters.
pub open spec fn is_named(style: PathStyle, picked: Seq<char>, name: Seq<char>) -> bool {
    file_name_of(style, picked) is Some && same_but_case(file_name_of(style, picked)->0, name)
}

/// The addon folder that `picked` stands for, if it does for one. `present` says which of
/// its candidates are there.
pub open spec fn resolved(style: PathStyle, picked: Seq<char>, present: Seq<bool>) -> Option<
    Seq<char>,
> {
    let candidates = candidates_of(style, picked);
    if is_named(style, picked, "AddOns"@) {
        Some(picked)
    } else if first_present(present, 0, 2) < 2 {
        Some(candidates[first_present(present, 0, 2)])
    } else if is_named(style, picked, "Interface"@) {
        Some(join_of(style, picked, "AddOns"@))
    } else if first_present(present, 2, 10) < 10 {
        Some(candidates[first_present(present, 2, 10)])
    } else {
        None
    }
}

/// What the user is told who picked some other folder.
pub open spec fn not_a_game_folder() -> Seq<char> {
    "That doesn't look like a WoW folder. Pick your World of Warcraft folder, a _retail_/_classic_ folder, or its Interface/AddOns folder."@
}

fn has_name(style: PathStyle, picked: &str, name: &str) -> (yes: bool)
    ensures
        yes == is_named(style, picked@, name@),
{
    match file_name(style, picked) {
        Some(n) => eq_ignore_ascii_case(n.as_str(), name),
        None => false,
    }
}

fn find_present(present: &Vec<bool>, from: usize, end: usize) -> (i: usize)
    requires
        from <= end <= present@.len(),
    ensures
        i == first_present(present@, from as int, end as int),
        from <= i <= end,
{
    let mut i: usize = from;
    while i < end && !present[i]
        invariant
            from <= i <= end <= present@.len(),
            first_present(present@, from as int, end as int) == first_present(
                present@,
                i as int,
                end as int,
            ),
        decreases end - i,
    {
        i = i + 1;
    }
    i
}

/// The addon folder that `picked` stands for. `present[i]` says whether the candidate at
/// `i` is a folder that is there.
pub fn resolve_addons_path(style: PathStyle, picked: &str, present: &Vec<bool>) -> (r: Result<
    String,
    String,
>)
    requires
        present@.len() == 10,
    ensures
        match r {
            Ok(p) => resolved(style, picked@, present@) == Some(p@),
            Err(e) => resolved(style, picked@, present@) is None && e@ == not_a_game_folder(),
        },
{
    if has_name(style, picked, "AddOns") {
        return Ok(picked.to_string());
    }
    let candidates = addons_candidates(style, picked);
    proof {
        assert(texts(candidates@).len() == candidates@.len());
    }
    let i: usize = find_present(present, 0, 2);
    if i < 2 {
        proof {
            assert(texts(candidates@)[i as int] == candidates@[i as int]@);
        }
        return Ok(candidates[i].clone());
    }
    if has_name(style, picked, "Interface") {
        return Ok(join_path(style, picked, "AddOns"));
    }
    let i: usize = find_present(present, 2, 10);
    if i < 10 {
        proof {
            assert(texts(candidates@)[i as int] == candidates@[i as int]@);
        }
        return Ok(candidates[i].clone());
    }
    Err(
        "That doesn't look like a WoW folder. Pick your World of Warcraft folder, a _retail_/_classic_ folder, or its Interface/AddOns folder.".to_string(),
    )
}

/// The installs below the folder that the user picked: those of the flavors below its
/// root (`found`), else the one custom folder that it stands for, whose real path is
/// `custom`.
pub fn enumerate_picked(
    found: Vec<DetectedInstall>,
    custom: Option<&str>,
    known: &Vec<String>,
    label: &str,
) -> (out: Vec<DetectedInstall>)
    ensures
        detected(out@) == if found@.len() > 0 {
            detected(found@)
        } else {
            match custom {
                Some(folder) => seq![
                    (DetectedView {
                        path: folder@,
                        label: label@,
                        flavor: flavor_in(lowercase_of(folder@), 0),
                        already_added: texts(known@).contains(norm_of(folder@)),
                    }),
                ],
                None => Seq::empty(),
            }
        },
{
    if found.len() > 0 {
        return found;
    }
    let mut out: Vec<DetectedInstall> = Vec::new();
    if let Some(folder) = custom {
        let n = norm(folder);
        out.push(
            DetectedInstall {
                path: folder.to_string(),
                label: label.to_string(),
                flavor: flavor_from_path(folder),
                already_added: contains(known, n.as_str()),
            },
        );
        proof {
            assert(detected(out@) =~= seq![out@[0]@]);
        }
    } else {
        proof {
            assert(detected(out@) =~= Seq::<DetectedView>::empty());
        }
    }
    out
}

// ---------------------------------------------------------------------------
// What detecting is for
// ---------------------------------------------------------------------------

/// The flavor of a path is that of the first flavor folder in order of preference that the
/// path goes through; a path that goes through none is of no known flavor.
pub proof fn law_path_has_the_flavor_it_goes_through(lower: Seq<char>, i: int, k: int)
    requires
        0 <= i <= k < 8,
        forall|j: int|
            i <= j < k ==> !pieces_of(lower).contains((#[trigger] flavor_table()[j]).0),
    ensures
        pieces_of(lower).contains(flavor_table()[k].0) ==> flavor_in(lower, i) == flavor_table()[k].1,
        k == 7 && !pieces_of(lower).contains(flavor_table()[k].0) ==> flavor_in(lower, i)
            == "Unknown"@,
    decreases k - i,
{
    if i < k {
        assert(!pieces_of(lower).contains(flavor_table()[i].0));
        law_path_has_the_flavor_it_goes_through(lower, i + 1, k);
    } else if k == 7 {
        assert(flavor_in(lower, 8) == "Unknown"@);
    }
}

/// The token of a flavor folder is what stands between its underscores, in lower case, and
/// no longer than 20 characters; a folder without underscores around its name has none.
pub proof fn law_token_stands_between_underscores(inner: Seq<char>, other: Seq<char>)
    requires
        inner.len() > 0,
        inner[0] != '_',
        inner.last() != '_',
        other.len() == 0 || other[0] != '_' || other.last() != '_',
    ensures
        ({
            let s = lowercase_of(inner);
            let token = part_token(seq!['_'] + inner + seq!['_']);
            &&& s.len() == 0 ==> token is None
            &&& 0 < s.len() <= 20 ==> token == Some(s)
            &&& s.len() > 20 ==> token == Some(s.take(20))
        }),
        part_token(other) is None,
{
    let s = seq!['_'] + inner + seq!['_'];
    let front = seq!['_'] + inner;
    assert(front.last() == inner.last());
    crate::text::law_strip_takes_off_the_ends(front, seq!['_'], '_', '_');
    crate::text::law_strip_takes_off_the_ends(inner, seq!['_'], '_', '_');
    let low = lowercase_of(inner);
    assert(low.len() == 20 ==> low.take(20) =~= low);
}

/// The token of a path is that of the first of its parts that has one; parts before it and
/// behind it do not matter. A path without such a part has an empty one.
pub proof fn law_token_is_that_of_the_first_flavor_folder(parts: Seq<Seq<char>>, i: int, k: int)
    requires
        0 <= i <= k <= parts.len(),
        forall|j: int| i <= j < k ==> part_token(#[trigger] parts[j]) is None,
    ensures
        k < parts.len() && part_token(parts[k]) is Some ==> token_in(parts, i) == part_token(
            parts[k],
        )->0,
        k == parts.len() ==> token_in(parts, i).len() == 0,
    decreases k - i,
{
    if i < k {
        assert(part_token(parts[i]) is None);
        law_token_is_that_of_the_first_flavor_folder(parts, i + 1, k);
    }
}

/// A host is shown by its name before the first dot, without white space around it; one that
/// only says that it is this machine, in letters of any case, is of no use.
pub proof fn law_host_is_shown_by_its_first_name(name: Seq<char>, rest: Seq<char>)
    requires
        !name.contains('.'),
    ensures
        short_host(name) == trim_of(name),
        short_host(name + seq!['.'] + rest) == trim_of(name),
        useful_host(name) == if trim_of(name).len() > 0 && !same_but_case(
            trim_of(name),
            "localhost"@,
        ) {
            Some(trim_of(name))
        } else {
            None
        },
{
    let none = Seq::<char>::empty();
    crate::text::lemma_split_append(none, name, '.');
    assert(split_on(none, '.') =~= seq![none]);
    assert(none + name =~= name);
    assert(split_on(name, '.')[0] =~= name);
    lemma_first_piece_stays(name, rest);
}

proof fn lemma_first_piece_stays(name: Seq<char>, rest: Seq<char>)
    requires
        split_on(name, '.').len() == 1,
        split_on(name, '.')[0] == name,
    ensures
        split_on(name + seq!['.'] + rest, '.').len() >= 2,
        split_on(name + seq!['.'] + rest, '.')[0] == name,
    decreases rest.len(),
{
    let s = name + seq!['.'] + rest;
    if rest.len() == 0 {
        assert(s.drop_last() =~= name);
        assert(s.last() == '.');
    } else {
        assert(s.drop_last() =~= name + seq!['.'] + rest.drop_last());
        lemma_first_piece_stays(name, rest.drop_last());
    }
}

/// The label of a machine is its host name if that is of use, else the first name that one
/// of the variables gives, else the name of its user, and it always has one.
pub proof fn law_machine_has_a_label(
    raw: Option<Seq<char>>,
    vars: Seq<Option<String>>,
    user: Option<Seq<char>>,
)
    ensures
        raw is Some && useful_host(raw->0) is Some ==> label_of(raw, vars, user) == useful_host(
            raw->0,
        )->0,
        (raw is None || useful_host(raw->0) is None) && env_host(vars, 0) is Some ==> label_of(
            raw,
            vars,
            user,
        ) == env_host(vars, 0)->0,
        (raw is None || useful_host(raw->0) is None) && env_host(vars, 0) is None && user is Some
            && user->0.len() > 0 ==> label_of(raw, vars, user) == user->0 + "'s PC"@,
        (raw is None || useful_host(raw->0) is None) && env_host(vars, 0) is None && (user is None
            || user->0.len() == 0) ==> label_of(raw, vars, user) == "This PC"@,
{
}

/// Of the variables, the first that gives a name is taken.
pub proof fn law_first_variable_with_a_name_is_taken(vars: Seq<Option<String>>, i: int, k: int)
    requires
        0 <= i <= k <= vars.len(),
        forall|j: int|
            i <= j < k ==> (#[trigger] vars[j]) is None || short_host(vars[j]->0@).len() == 0,
    ensures
        k < vars.len() && vars[k] is Some && short_host(vars[k]->0@).len() > 0 ==> env_host(vars, i)
            == Some(short_host(vars[k]->0@)),
        k == vars.len() ==> env_host(vars, i) is None,
    decreases k - i,
{
    if i < k {
        assert(vars[i] is None || short_host(vars[i]->0@).len() == 0);
        law_first_variable_with_a_name_is_taken(vars, i + 1, k);
    }
}

/// Paths are compared without the separators that they end with, and in lower case; nothing
/// else of them is left out.
pub proof fn law_paths_are_compared_without_end_and_case(p: Seq<char>, seps: Seq<char>)
    requires
        p.len() == 0 || p.last() != '/' && p.last() != '\\',
        forall|i: int| 0 <= i < seps.len() ==> #[trigger] seps[i] == '/' || seps[i] == '\\',
    ensures
        norm_of(p + seps) == lowercase_of(p),
        norm_of(p) == lowercase_of(p),
{
    crate::text::law_strip_takes_off_the_ends(p, seps, '/', '\\');
    let none = Seq::<char>::empty();
    crate::text::law_strip_takes_off_the_ends(p, none, '/', '\\');
    assert(p + none =~= p);
}

/// Every flavor that was found is reported with its own name and its path, and told to be
/// known exactly where an install with that path is; flavors that were not found are not
/// reported.
pub proof fn law_every_flavor_found_is_reported(
    found: Seq<Option<String>>,
    known: Seq<Seq<char>>,
    label: Seq<char>,
    n: int,
)
    requires
        0 <= n <= found.len(),
        n <= flavor_table().len(),
    ensures
        forall|i: int|
            0 <= i < n && (#[trigger] found[i]) is Some ==> found_installs(
                found,
                known,
                label,
                n,
            ).contains(
                DetectedView {
                    path: found[i]->0@,
                    label,
                    flavor: flavor_table()[i].1,
                    already_added: known.contains(norm_of(found[i]->0@)),
                },
            ),
        (forall|i: int| 0 <= i < n ==> (#[trigger] found[i]) is None) ==> found_installs(
            found,
            known,
            label,
            n,
        ).len() == 0,
        (forall|i: int| 0 <= i < n ==> (#[trigger] found[i]) is Some) ==> found_installs(
            found,
            known,
            label,
            n,
        ).len() == n,
        found_installs(found, known, label, n).len() <= n,
    decreases n,
{
    if n > 0 {
        law_every_flavor_found_is_reported(found, known, label, n - 1);
        let before = found_installs(found, known, label, n - 1);
        let all = found_installs(found, known, label, n);
        assert forall|i: int| 0 <= i < n && (#[trigger] found[i]) is Some implies all.contains(
            DetectedView {
                path: found[i]->0@,
                label,
                flavor: flavor_table()[i].1,
                already_added: known.contains(norm_of(found[i]->0@)),
            },
        ) by {
            let d = DetectedView {
                path: found[i]->0@,
                label,
                flavor: flavor_table()[i].1,
                already_added: known.contains(norm_of(found[i]->0@)),
            };
            if i < n - 1 {
                let k = before.index_of(d);
                assert(all[k] == d);
            } else {
                assert(all[all.len() - 1] == d);
            }
        }
        assert(found[n - 1] is Some || found[n - 1] is None);
    }
}

/// Leaving out repeats leaves out nothing else: every path is still there, as the first of
/// those that are the same told it.
pub proof fn law_no_path_is_lost(all: Seq<DetectedView>, n: int, i: int)
    requires
        0 <= i < n <= all.len(),
    ensures
        path_keys(without_repeats(all, n)).contains(norm_of(all[i].path)),
        (forall|j: int| 0 <= j < i ==> norm_of((#[trigger] all[j]).path) != norm_of(all[i].path))
            ==> without_repeats(all, n).contains(all[i]),
    decreases n,
{
    let before = without_repeats(all, n - 1);
    let after = without_repeats(all, n);
    let key = norm_of(all[i].path);
    if i < n - 1 {
        law_no_path_is_lost(all, n - 1, i);
        let k = path_keys(before).index_of(key);
        assert(path_keys(after)[k] == key);
        if forall|j: int| 0 <= j < i ==> norm_of((#[trigger] all[j]).path) != key {
            let m = before.index_of(all[i]);
            assert(after[m] == all[i]);
        }
    } else {
        if path_keys(before).contains(key) {
            if forall|j: int| 0 <= j < i ==> norm_of((#[trigger] all[j]).path) != key {
                let k = path_keys(before).index_of(key);
                lemma_kept_from(all, n - 1, k);
                let j = choose|j: int| 0 <= j < n - 1 && #[trigger] all[j] == before[k];
                assert(norm_of(all[j].path) != key);
            }
        } else {
            assert(after[after.len() - 1] == all[i]);
            assert(path_keys(after)[after.len() - 1] == key);
        }
    }
}

proof fn lemma_kept_from(all: Seq<DetectedView>, n: int, k: int)
    requires
        0 <= n <= all.len(),
        0 <= k < without_repeats(all, n).len(),
    ensures
        exists|j: int| 0 <= j < n && #[trigger] all[j] == without_repeats(all, n)[k],
    decreases n,
{
    if n > 0 {
        let before = without_repeats(all, n - 1);
        if k < before.len() {
            lemma_kept_from(all, n - 1, k);
        } else {
            assert(all[n - 1] == without_repeats(all, n)[k]);
        }
    }
}

/// The first folder that is there is there, and none before it is.
proof fn lemma_first_present(present: Seq<bool>, i: int, end: int)
    requires
        0 <= i <= end <= present.len(),
    ensures
        i <= first_present(present, i, end) <= end,
        first_present(present, i, end) < end ==> present[first_present(present, i, end)],
        forall|j: int| i <= j < first_present(present, i, end) ==> !present[j],
    decreases end - i,
{
    if i < end && !present[i] {
        lemma_first_present(present, i + 1, end);
    }
}

/// The addon folder that a picked folder stands for is that folder itself, one of those that
/// were looked for and are there, or the one below a picked interface folder. One is found
/// exactly where there is any of these, and a folder that was picked by its right name comes
/// first.
pub proof fn law_picked_folder_is_resolved(style: PathStyle, picked: Seq<char>, present: Seq<bool>)
    requires
        present.len() == 10,
    ensures
        is_named(style, picked, "AddOns"@) ==> resolved(style, picked, present) == Some(picked),
        !is_named(style, picked, "AddOns"@) && present[0] ==> resolved(style, picked, present) == Some(
            join_of(style, picked, "AddOns"@),
        ),
        !is_named(style, picked, "AddOns"@) && !present[0] && present[1] ==> resolved(
            style,
            picked,
            present,
        ) == Some(join_of(style, picked, join_of(style, "Interface"@, "AddOns"@))),
        !is_named(style, picked, "AddOns"@) && !present[0] && !present[1] && is_named(
            style,
            picked,
            "Interface"@,
        ) ==> resolved(style, picked, present) == Some(join_of(style, picked, "AddOns"@)),
        forall|k: int|
            !is_named(style, picked, "AddOns"@) && !is_named(style, picked, "Interface"@) && 2 <= k
                < 10 && #[trigger] present[k] && (forall|j: int| 0 <= j < k ==> !present[j])
                ==> resolved(style, picked, present) == Some(
                flavor_addons(style, picked, flavor_table()[k - 2].0),
            ),
        resolved(style, picked, present) is None <==> !is_named(style, picked, "AddOns"@)
            && !is_named(style, picked, "Interface"@) && forall|j: int| 0 <= j < 10 ==> !present[j],
{
    lemma_first_present(present, 0, 2);
    lemma_first_present(present, 2, 10);
    let a = first_present(present, 0, 2);
    let b = first_present(present, 2, 10);
    if !is_named(style, picked, "AddOns"@) && !is_named(style, picked, "Interface"@) {
        if forall|j: int| 0 <= j < 10 ==> !present[j] {
            assert(!present[a] || a == 2);
        } else {
            let j = choose|j: int| 0 <= j < 10 && present[j];
            assert(j < 2 ==> a < 2);
            assert(j >= 2 ==> b < 10);
        }
    }
}

/// The addon folder of a flavor stands in its interface folder, three levels below the root.
pub proof fn law_addons_stand_below_their_flavor(style: PathStyle, root: Seq<char>, seg: Seq<char>)
    requires
        is_part(style, seg),
        !is_bare_share(style, root),
        root.len() > 0,
    ensures
        path_of(style, flavor_addons(style, root, seg)).parts == path_of(style, root).parts.push(
            seg,
        ).push("Interface"@).push("AddOns"@),
{
    reveal_strlit("Interface");
    reveal_strlit("AddOns");
    reveal_strlit(".");
    assert("Interface"@.len() == 9 && "AddOns"@.len() == 6 && "."@.len() == 1);
    let a = join_of(style, root, seg);
    let b = join_of(style, a, "Interface"@);
    law_joined_part_comes_last(style, root, seg);
    law_joined_part_comes_last(style, a, "Interface"@);
    law_joined_part_comes_last(style, b, "AddOns"@);
}

/// The game is looked for in every folder that setups of the platform use: on Linux below the
/// home directory, on macOS among the applications of the machine, the user and each mounted
/// drive.
pub proof fn law_every_usual_folder_is_looked_in(
    home: Seq<char>,
    volumes: Seq<Seq<char>>,
    i: int,
    v: int,
)
    requires
        0 <= i < linux_roots().len(),
        0 <= v < volumes.len(),
    ensures
        roots_of(Platform::Linux, Some(home), volumes).contains(
            join_of(PathStyle::Unix, home, linux_roots()[i]),
        ),
        roots_of(Platform::Linux, Some(home), volumes).len() == linux_roots().len(),
        roots_of(Platform::Linux, None, volumes).len() == 0,
        roots_of(Platform::Windows, None, volumes) == windows_roots(),
        roots_of(Platform::Windows, Some(home), volumes) == windows_roots(),
        roots_of(Platform::MacOs, Some(home), volumes).contains("/Applications/World of Warcraft"@),
        roots_of(Platform::MacOs, Some(home), volumes).contains(
            join_of(PathStyle::Unix, home, "Applications/World of Warcraft"@),
        ),
        roots_of(Platform::MacOs, Some(home), volumes).contains(
            join_of(PathStyle::Unix, volumes[v], "Applications/World of Warcraft"@),
        ),
        roots_of(Platform::MacOs, None, volumes).contains(
            join_of(PathStyle::Unix, volumes[v], "Applications/World of Warcraft"@),
        ),
{
    let l = roots_of(Platform::Linux, Some(home), volumes);
    assert(l[i] == join_of(PathStyle::Unix, home, linux_roots()[i]));
    let m = roots_of(Platform::MacOs, Some(home), volumes);
    assert(m[0] == "/Applications/World of Warcraft"@);
    assert(m[1] == join_of(PathStyle::Unix, home, "Applications/World of Warcraft"@));
    assert(m[2 + v] == join_of(PathStyle::Unix, volumes[v], "Applications/World of Warcraft"@));
    let w = roots_of(Platform::MacOs, None, volumes);
    assert(w[1 + v] == join_of(PathStyle::Unix, volumes[v], "Applications/World of Warcraft"@));
}

/// A folder is a flavor folder exactly where its name in lower case is one of the known ones.
pub proof fn law_flavor_folders_are_the_known_ones(name: Seq<char>, k: int)
    ensures
        is_name(name) && 0 <= k < 8 && lowercase_of(name) == flavor_table()[k].0 ==> is_flavor_name(
            name,
        ),
        is_flavor_name(name) ==> exists|j: int|
            0 <= j < 8 && lowercase_of(name) == (#[trigger] flavor_table()[j]).0,
{
    lemma_flavor_from(lowercase_of(name), 0, k);
}

proof fn lemma_flavor_from(lower: Seq<char>, i: int, k: int)
    requires
        0 <= i <= 8,
    ensures
        i <= k < 8 && lower == flavor_table()[k].0 ==> is_flavor_from(lower, i),
        is_flavor_from(lower, i) ==> exists|j: int|
            i <= j < 8 && lower == (#[trigger] flavor_table()[j]).0,
    decreases 8 - i,
{
    if i < 8 {
        lemma_flavor_from(lower, i + 1, k);
        if is_flavor_from(lower, i) && flavor_table()[i].0 == lower {
            assert(lower == flavor_table()[i].0);
        }
    }
}

} // verus!
