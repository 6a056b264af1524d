//! Delivery of addons: unpacking a release, and what is installed.
use std::io::Read;

use vstd::prelude::*;

use crate::paths::{
    is_name,
    join_of,
    join_path,
    names_something,
    path_of,
    split_path,
    PathStyle,
    PathView,
};
use crate::seqs::contains;
use crate::text::{
    begins_with,
    eq_ignore_ascii_case,
    is_space_char,
    join2,
    lowercase_of,
    same_but_case,
    same_text,
    split,
    split_on,
    starts_with,
    text_of,
    texts,
    to_chars,
    to_lowercase,
    trim,
    trim_of,
    trim_start_of,
};

verus! {

// ---------------------------------------------------------------------------
// Archives
// ---------------------------------------------------------------------------

/// The type `zip::ZipArchive`: an archive that was opened.
#[verifier::external_type_specification]
#[verifier::external_body]
#[verifier::reject_recursive_types(R)]
pub struct ExZipArchive<R>(zip::ZipArchive<R>);

/// The type `std::io::Cursor`: bytes that are read like a file.
#[verifier::external_type_specification]
#[verifier::external_body]
#[verifier::reject_recursive_types(T)]
pub struct ExCursor<T>(std::io::Cursor<T>);

/// What an entry of an archive holds: its name, whether it is a folder, and its bytes
/// unpacked; or what is said where it cannot be opened, or its bytes cannot be unpacked.
pub struct EntryView {
    pub name: Seq<char>,
    pub is_dir: bool,
    pub data: Seq<u8>,
    pub header_error: Option<Seq<char>>,
    pub data_error: Option<Seq<char>>,
}

/// The entries of the archive that the bytes are.
pub uninterp spec fn zip_entries(bytes: Seq<u8>) -> Seq<EntryView>;

/// What is said of bytes that are no archive; none of those that are one.
pub uninterp spec fn zip_problem(bytes: Seq<u8>) -> Option<Seq<char>>;

/// The entries of an archive that was opened.
pub uninterp spec fn archive_entries(z: zip::ZipArchive<std::io::Cursor<Vec<u8>>>) -> Seq<EntryView>;

/// Calls `zip::ZipArchive::new` on the bytes, which alone decide whether it fails. The
/// archive has the entries that the bytes list.
#[verifier::external_body]
fn open_archive(bytes: Vec<u8>) -> (r: Result<zip::ZipArchive<std::io::Cursor<Vec<u8>>>, String>)
    ensures
        match r {
            Ok(z) => zip_problem(bytes@) is None && archive_entries(z) == zip_entries(bytes@),
            Err(e) => zip_problem(bytes@) == Some(e@),
        },
{
    zip::ZipArchive::new(std::io::Cursor::new(bytes)).map_err(|e| e.to_string())
}

/// Calls `zip::ZipArchive::len`: how many entries there are.
#[verifier::external_body]
fn entry_count(z: &zip::ZipArchive<std::io::Cursor<Vec<u8>>>) -> (n: usize)
    ensures
        n == archive_entries(*z).len(),
{
    z.len()
}

/// An entry of an archive without its bytes.
#[derive(Debug)]
pub struct EntryHeader {
    pub name: String,
    pub is_dir: bool,
}

/// Calls `zip::ZipArchive::by_index`, and `name` and `is_dir` on the entry. It fails where
/// the entry cannot be opened, such as one that is encrypted.
#[verifier::external_body]
fn entry_header(z: &mut zip::ZipArchive<std::io::Cursor<Vec<u8>>>, i: usize) -> (r: Result<
    EntryHeader,
    String,
>)
    requires
        i < archive_entries(*old(z)).len(),
    ensures
        archive_entries(*final(z)) == archive_entries(*old(z)),
        ({
            let e = archive_entries(*old(z))[i as int];
            match r {
                Ok(h) => e.header_error is None && h.name@ == e.name && h.is_dir == e.is_dir,
                Err(m) => e.header_error == Some(m@),
            }
        }),
{
    let entry = z.by_index(i).map_err(|e| e.to_string())?;
    Ok(EntryHeader { name: entry.name().to_string(), is_dir: entry.is_dir() })
}

/// Calls `zip::ZipArchive::by_index` and `read_to_end` on an entry that can be opened: its
/// bytes unpacked. It fails where they cannot be, such as where their checksum is wrong.
#[verifier::external_body]
fn entry_data(z: &mut zip::ZipArchive<std::io::Cursor<Vec<u8>>>, i: usize) -> (r: Result<
    Vec<u8>,
    String,
>)
    requires
        i < archive_entries(*old(z)).len(),
        archive_entries(*old(z))[i as int].header_error is None,
    ensures
        archive_entries(*final(z)) == archive_entries(*old(z)),
        ({
            let e = archive_entries(*old(z))[i as int];
            match r {
                Ok(d) => e.data_error is None && d@ == e.data,
                Err(m) => e.data_error == Some(m@),
            }
        }),
{
    let mut data = Vec::new();
    z.by_index(i).map_err(|e| e.to_string())?.read_to_end(&mut data).map_err(|e| e.to_string())?;
    Ok(data)
}

// ---------------------------------------------------------------------------
// Unpacking
// ---------------------------------------------------------------------------

/// What came of an installation: the top folders that were written, and how many files.
#[derive(Debug)]
pub struct InstallOutcome {
    pub folders: Vec<String>,
    pub files: usize,
}

/// Whether a path stays below the folder that it is joined to: it has no drive and no
/// root, and never goes up.
pub open spec fn stays_below(v: PathView) -> bool {
    &&& v.prefix.len() == 0
    &&& !v.rooted
    &&& forall|i: int| 0 <= i < v.parts.len() ==> #[trigger] v.parts[i] != ".."@
}

/// Whether an entry of this name may be unpacked: it holds no null character, and stays
/// below the folder that it is unpacked to.
pub open spec fn is_safe_entry(style: PathStyle, name: Seq<char>) -> bool {
    !name.contains('\0') && stays_below(path_of(style, name))
}

/// The top folders with the one of the entry `name`, which is put last unless it is there.
/// A file that lies in no folder has none, nor has a path from the folder at hand.
pub open spec fn with_top(
    style: PathStyle,
    folders: Seq<Seq<char>>,
    name: Seq<char>,
    is_dir: bool,
) -> Seq<Seq<char>> {
    let parts = path_of(style, name).parts;
    if parts.len() == 0 || parts.len() == 1 && !is_dir || !is_name(parts[0]) || folders.contains(
        parts[0],
    ) {
        folders
    } else {
        folders.push(parts[0])
    }
}

/// What is said of an entry that leads elsewhere.
pub open spec fn unsafe_entry(name: Seq<char>) -> Seq<char> {
    "unsafe zip entry: "@ + name
}

fn part_goes_up(parts: &Vec<String>) -> (yes: bool)
    ensures
        yes == exists|i: int| 0 <= i < parts@.len() && #[trigger] texts(parts@)[i] == ".."@,
{
    let mut i: usize = 0;
    while i < parts.len()
        invariant
            i <= parts@.len(),
            forall|j: int| 0 <= j < i ==> #[trigger] texts(parts@)[j] != ".."@,
        decreases parts@.len() - i,
    {
        proof {
            assert(texts(parts@)[i as int] == parts@[i as int]@);
        }
        if same_text(parts[i].as_str(), "..") {
            return true;
        }
        i = i + 1;
    }
    false
}

fn holds_null(s: &str) -> (yes: bool)
    ensures
        yes == s@.contains('\0'),
{
    let v = to_chars(s);
    let mut i: usize = 0;
    while i < v.len()
        invariant
            v@ == s@,
            i <= v@.len(),
            forall|j: int| 0 <= j < i ==> v@[j] != '\0',
        decreases v@.len() - i,
    {
        if v[i] == '\0' {
            proof {
                assert(s@[i as int] == '\0');
            }
            return true;
        }
        i = i + 1;
    }
    false
}

/// Admits an entry that may be unpacked, and notes its top folder in `folders`.
pub fn admit_entry(
    style: PathStyle,
    name: &str,
    is_dir: bool,
    folders: &mut Vec<String>,
) -> (r: Result<(), String>)
    ensures
        match r {
            Ok(_) => {
                &&& is_safe_entry(style, name@)
                &&& texts(final(folders)@) == with_top(style, texts(old(folders)@), name@, is_dir)
            },
            Err(e) => {
                &&& !is_safe_entry(style, name@)
                &&& e@ == unsafe_entry(name@)
                &&& *final(folders) == *old(folders)
            },
        },
{
    let p = split_path(style, name);
    proof {
        assert(texts(p.parts@).len() == p.parts@.len());
    }
    let goes_up: bool = part_goes_up(&p.parts);
    proof {
        let parts = path_of(style, name@).parts;
        assert(parts == texts(p.parts@));
        if goes_up {
            let i = choose|i: int| 0 <= i < p.parts@.len() && #[trigger] texts(p.parts@)[i] == ".."@;
            assert(parts[i] == ".."@);
            assert(!stays_below(path_of(style, name@)));
        } else {
            assert forall|i: int| 0 <= i < parts.len() implies #[trigger] parts[i] != ".."@ by {
                assert(texts(p.parts@)[i] != ".."@);
            }
        }
    }
    if holds_null(name) || !p.prefix.as_str().is_empty() || p.rooted || goes_up {
        return Err(join2("unsafe zip entry: ", name));
    }
    if p.parts.len() > 1 || p.parts.len() == 1 && is_dir {
        let top: &String = &p.parts[0];
        proof {
            assert(texts(p.parts@)[0] == top@);
        }
        if names_something(top.as_str()) && !contains(folders, top.as_str()) {
            let ghost before = texts(folders@);
            folders.push(top.clone());
            proof {
                assert(texts(folders@) =~= before.push(top@));
            }
        }
    }
    Ok(())
}

/// An archive that is being unpacked.
pub struct Unzip {
    archive: zip::ZipArchive<std::io::Cursor<Vec<u8>>>,
    index: usize,
    folders: Vec<String>,
    files: usize,
}

/// What is to be done for an entry. The path is below the folder to unpack to.
#[derive(Debug)]
pub enum UnzipAction {
    MakeDir(String),
    WriteFile(String, Vec<u8>),
}

/// The path that an action is about.
pub open spec fn action_path(a: UnzipAction) -> Seq<char> {
    match a {
        UnzipAction::MakeDir(p) => p@,
        UnzipAction::WriteFile(p, _) => p@,
    }
}

/// Whether `a` unpacks the entry `e` to the folder `dir`.
pub open spec fn unpacks(style: PathStyle, dir: Seq<char>, e: EntryView, a: UnzipAction) -> bool {
    &&& is_safe_entry(style, e.name)
    &&& action_path(a) == join_of(style, dir, e.name)
    &&& match a {
        UnzipAction::MakeDir(_) => e.is_dir,
        UnzipAction::WriteFile(_, d) => !e.is_dir && d@ == e.data,
    }
}

/// What is said of an entry that is not unpacked: that it cannot be opened, leads
/// elsewhere, or holds bytes that cannot be unpacked.
pub open spec fn entry_problem(style: PathStyle, e: EntryView) -> Option<Seq<char>> {
    if e.header_error is Some {
        e.header_error
    } else if !is_safe_entry(style, e.name) {
        Some(unsafe_entry(e.name))
    } else if e.is_dir {
        None
    } else {
        e.data_error
    }
}

/// The bytes are a zip archive by their first two, and long enough.
pub open spec fn looks_zipped(bytes: Seq<u8>) -> bool {
    bytes.len() >= 4 && bytes[0] == 0x50 && bytes[1] == 0x4b
}

impl Unzip {
    /// The entries of the archive.
    pub closed spec fn entries(self) -> Seq<EntryView> {
        archive_entries(self.archive)
    }

    /// How many entries are done.
    pub closed spec fn done(self) -> int {
        self.index as int
    }

    /// The top folders of the entries that are done.
    pub closed spec fn tops(self) -> Seq<Seq<char>> {
        texts(self.folders@)
    }

    /// How many of the entries that are done are files.
    pub closed spec fn written(self) -> int {
        self.files as int
    }

    /// Whether not more is done than there is.
    pub open spec fn wf(self) -> bool {
        0 <= self.written() <= self.done() <= self.entries().len()
    }

    /// Opens the archive that was downloaded.
    pub fn new(bytes: Vec<u8>) -> (r: Result<Unzip, String>)
        ensures
            match r {
                Ok(u) => {
                    &&& looks_zipped(bytes@)
                    &&& zip_problem(bytes@) is None
                    &&& u.wf()
                    &&& u.entries() == zip_entries(bytes@)
                    &&& u.done() == 0
                    &&& u.written() == 0
                    &&& u.tops().len() == 0
                },
                Err(e) => if looks_zipped(bytes@) {
                    zip_problem(bytes@) is Some && e@ == "bad zip: "@ + zip_problem(bytes@)->0
                } else {
                    e@ == "downloaded file is not a zip archive"@
                },
            },
    {
        if bytes.len() < 4 || bytes[0] != 0x50 || bytes[1] != 0x4b {
            return Err("downloaded file is not a zip archive".to_string());
        }
        match open_archive(bytes) {
            Ok(archive) => Ok(Unzip { archive, index: 0, folders: Vec::new(), files: 0 }),
            Err(e) => Err(join2("bad zip: ", e.as_str())),
        }
    }

    /// What is to be done for the next entry, if there is one: it is unpacked to `dir`,
    /// or refused if it leads elsewhere.
    pub fn next_action(&mut self, style: PathStyle, dir: &str) -> (a: Option<
        Result<UnzipAction, String>,
    >)
        requires
            old(self).wf(),
        ensures
            final(self).wf(),
            final(self).entries() == old(self).entries(),
            match a {
                None => {
                    &&& old(self).done() == old(self).entries().len()
                    &&& *final(self) == *old(self)
                },
                Some(Ok(act)) => {
                    let e = old(self).entries()[old(self).done()];
                    &&& old(self).done() < old(self).entries().len()
                    &&& entry_problem(style, e) is None
                    &&& unpacks(style, dir@, e, act)
                    &&& final(self).done() == old(self).done() + 1
                    &&& final(self).tops() == with_top(style, old(self).tops(), e.name, e.is_dir)
                    &&& final(self).written() == old(self).written() + if e.is_dir {
                        0int
                    } else {
                        1int
                    }
                },
                Some(Err(m)) => {
                    let e = old(self).entries()[old(self).done()];
                    &&& old(self).done() < old(self).entries().len()
                    &&& entry_problem(style, e) == Some(m@)
                    &&& final(self).done() == old(self).done()
                    &&& final(self).written() == old(self).written()
                    &&& final(self).tops() == if e.header_error is None && is_safe_entry(
                        style,
                        e.name,
                    ) {
                        with_top(style, old(self).tops(), e.name, e.is_dir)
                    } else {
                        old(self).tops()
                    }
                },
            },
    {
        if self.index == entry_count(&self.archive) {
            return None;
        }
        let i: usize = self.index;
        let header: EntryHeader = match entry_header(&mut self.archive, i) {
            Ok(h) => h,
            Err(e) => return Some(Err(e)),
        };
        match admit_entry(style, header.name.as_str(), header.is_dir, &mut self.folders) {
            Ok(_) => {},
            Err(e) => return Some(Err(e)),
        }
        let out = join_path(style, dir, header.name.as_str());
        if header.is_dir {
            self.index = i + 1;
            return Some(Ok(UnzipAction::MakeDir(out)));
        }
        let data: Vec<u8> = match entry_data(&mut self.archive, i) {
            Ok(d) => d,
            Err(e) => return Some(Err(e)),
        };
        self.index = i + 1;
        self.files = self.files + 1;
        Some(Ok(UnzipAction::WriteFile(out, data)))
    }

    /// What came of it when all entries are done.
    pub fn finish(self) -> (r: Result<InstallOutcome, String>)
        ensures
            match r {
                Ok(o) => {
                    &&& self.tops().len() > 0
                    &&& texts(o.folders@) == self.tops()
                    &&& o.files == self.written()
                },
                Err(e) => self.tops().len() == 0 && e@ == "zip contained no addon folder"@,
            },
    {
        proof {
            assert(texts(self.folders@).len() == self.folders@.len());
        }
        if self.folders.len() == 0 {
            return Err("zip contained no addon folder".to_string());
        }
        Ok(InstallOutcome { folders: self.folders, files: self.files })
    }
}

/// Nothing is written outside the folder that an archive is unpacked to: every action is
/// about a path that is joined to it, without root or drive, and that never goes up.
pub proof fn law_unpacking_stays_below(
    style: PathStyle,
    dir: Seq<char>,
    e: EntryView,
    a: UnzipAction,
)
    requires
        unpacks(style, dir, e, a),
    ensures
        action_path(a) == join_of(style, dir, e.name),
        path_of(style, e.name).prefix.len() == 0,
        !path_of(style, e.name).rooted,
        !path_of(style, e.name).parts.contains(".."@),
{
}

/// What is said of an addon folder that is not there.
pub open spec fn folder_not_found(dir: Seq<char>) -> Seq<char> {
    "AddOns folder not found (offline?): "@ + dir
}

/// An error where the addon folder `dir` is not there.
pub fn require_folder(dir: &str, is_dir: bool) -> (r: Result<(), String>)
    ensures
        match r {
            Ok(_) => is_dir,
            Err(e) => !is_dir && e@ == folder_not_found(dir@),
        },
{
    if is_dir {
        Ok(())
    } else {
        Err(join2("AddOns folder not found (offline?): ", dir))
    }
}

// ---------------------------------------------------------------------------
// Folders on disk
// ---------------------------------------------------------------------------

/// The addon folder of a slug.
pub open spec fn guessed_folder(slug: Seq<char>) -> Seq<char> {
    let s = lowercase_of(slug);
    if s == "sbf"@ {
        "SBF"@
    } else if s == "haul"@ {
        "Haul"@
    } else if s == "megaphone"@ || s == "towncryer"@ || s == "town-cryer"@ || s == "cryer"@ {
        "Megaphone"@
    } else if s == "recall"@ {
        "Recall"@
    } else if s == "gec-console"@ || s == "console"@ {
        "GEC-Console"@
    } else {
        slug
    }
}

/// The addon folder of a slug, also of one that was renamed.
pub fn folder_guess(slug: &str) -> (folder: String)
    ensures
        folder@ == guessed_folder(slug@),
{
    let lower = to_lowercase(slug);
    let s: &str = lower.as_str();
    if same_text(s, "sbf") {
        "SBF".to_string()
    } else if same_text(s, "haul") {
        "Haul".to_string()
    } else if same_text(s, "megaphone") || same_text(s, "towncryer") || same_text(s, "town-cryer")
        || same_text(s, "cryer") {
        "Megaphone".to_string()
    } else if same_text(s, "recall") {
        "Recall".to_string()
    } else if same_text(s, "gec-console") || same_text(s, "console") {
        "GEC-Console".to_string()
    } else {
        slug.to_string()
    }
}

/// An entry of a folder.
#[derive(Debug)]
pub struct DirEntry {
    pub name: String,
    pub is_dir: bool,
}

/// Whether an entry is the folder `name`, whatever the case of its letters.
pub open spec fn is_folder(e: DirEntry, name: Seq<char>) -> bool {
    e.is_dir && same_but_case(e.name@, name)
}

/// The first of the entries that is the folder `folder`, if one is.
pub fn find_folder<'a>(entries: &'a Vec<DirEntry>, folder: &str) -> (name: Option<&'a String>)
    ensures
        match name {
            Some(n) => exists|i: int|
                0 <= i < entries@.len() && is_folder(#[trigger] entries@[i], folder@)
                    && *n == entries@[i].name && forall|j: int|
                    0 <= j < i ==> !is_folder(#[trigger] entries@[j], folder@),
            None => forall|i: int|
                0 <= i < entries@.len() ==> !is_folder(#[trigger] entries@[i], folder@),
        },
{
    let mut i: usize = 0;
    while i < entries.len()
        invariant
            i <= entries@.len(),
            forall|j: int| 0 <= j < i ==> !is_folder(#[trigger] entries@[j], folder@),
        decreases entries@.len() - i,
    {
        if entries[i].is_dir && eq_ignore_ascii_case(entries[i].name.as_str(), folder) {
            proof {
                assert(is_folder(entries@[i as int], folder@));
            }
            return Some(&entries[i].name);
        }
        i = i + 1;
    }
    None
}

/// The names of those among the first `n` entries that are the folder `folder`.
pub open spec fn matching_folders(entries: Seq<DirEntry>, folder: Seq<char>, n: int) -> Seq<
    Seq<char>,
>
    decreases n,
{
    if n <= 0 {
        Seq::empty()
    } else {
        let before = matching_folders(entries, folder, n - 1);
        if is_folder(entries[n - 1], folder) {
            before.push(entries[n - 1].name@)
        } else {
            before
        }
    }
}

/// The folders to remove for an addon: all that have its name, whatever the case. That
/// there is none is no error.
pub fn uninstall(entries: &Vec<DirEntry>, folder_name: &str) -> (names: Vec<String>)
    ensures
        texts(names@) == matching_folders(entries@, folder_name@, entries@.len() as int),
{
    let mut names: Vec<String> = Vec::new();
    let mut i: usize = 0;
    proof {
        assert(texts(names@) =~= Seq::<Seq<char>>::empty());
    }
    while i < entries.len()
        invariant
            i <= entries@.len(),
            texts(names@) == matching_folders(entries@, folder_name@, i as int),
        decreases entries@.len() - i,
    {
        if entries[i].is_dir && eq_ignore_ascii_case(entries[i].name.as_str(), folder_name) {
            let ghost before = texts(names@);
            names.push(entries[i].name.clone());
            proof {
                assert(texts(names@) =~= before.push(entries@[i as int].name@));
            }
        }
        i = i + 1;
    }
    names
}

/// Where the last dot of a name stands, if it has one.
pub open spec fn last_dot(name: Seq<char>) -> int
    decreases name.len(),
{
    if name.len() == 0 {
        -1
    } else if name.last() == '.' {
        name.len() - 1
    } else {
        last_dot(name.drop_last())
    }
}

/// Whether the extension of the file `name` is `toc`, whatever the case of its letters. A
/// dot at the start begins no extension.
pub open spec fn is_toc(name: Seq<char>) -> bool {
    last_dot(name) > 0 && same_but_case(name.skip(last_dot(name) + 1), "toc"@)
}

fn has_toc_extension(name: &str) -> (yes: bool)
    ensures
        yes == is_toc(name@),
{
    let v = to_chars(name);
    let mut j: usize = v.len();
    proof {
        assert(v@.take(v@.len() as int) =~= v@);
    }
    while j > 0 && v[j - 1] != '.'
        invariant
            j <= v@.len(),
            v@ == name@,
            last_dot(name@) == last_dot(v@.take(j as int)),
        decreases j,
    {
        proof {
            assert(v@.take(j as int).drop_last() =~= v@.take(j as int - 1));
        }
        j = j - 1;
    }
    if j <= 1 {
        return false;
    }
    let ext = text_of(&v, j, v.len());
    proof {
        assert(v@.subrange(j as int, v@.len() as int) =~= name@.skip(j as int));
    }
    eq_ignore_ascii_case(ext.as_str(), "toc")
}

/// The file that states an addon's version: the one named after its folder if that is
/// there, else the first with the extension.
pub fn choose_toc(folder: &str, named_is_file: bool, files: &Vec<String>) -> (toc: Option<String>)
    ensures
        match toc {
            Some(t) => if named_is_file {
                t@ == folder@ + ".toc"@
            } else {
                exists|i: int|
                    0 <= i < files@.len() && is_toc((#[trigger] files@[i])@) && t@ == files@[i]@
                        && forall|j: int| 0 <= j < i ==> !is_toc((#[trigger] files@[j])@)
            },
            None => !named_is_file && forall|i: int|
                0 <= i < files@.len() ==> !is_toc((#[trigger] files@[i])@),
        },
{
    if named_is_file {
        return Some(join2(folder, ".toc"));
    }
    let mut i: usize = 0;
    while i < files.len()
        invariant
            i <= files@.len(),
            !named_is_file,
            forall|j: int| 0 <= j < i ==> !is_toc((#[trigger] files@[j])@),
        decreases files@.len() - i,
    {
        if has_toc_extension(files[i].as_str()) {
            proof {
                assert(is_toc(files@[i as int]@));
            }
            return Some(files[i].clone());
        }
        i = i + 1;
    }
    None
}

/// The version that a line states, if it is `## Version:` and more.
pub open spec fn line_version(line: Seq<char>) -> Option<Seq<char>> {
    let t = trim_start_of(line);
    if begins_with(t, "##"@) {
        let rest = trim_start_of(t.skip(2));
        let v = trim_of(rest.skip(8));
        if rest.len() >= 8 && same_but_case(rest.take(8), "version:"@) && v.len() > 0 {
            Some(v)
        } else {
            None
        }
    } else {
        None
    }
}

/// The version that the first of the lines, from the one at `i` on, states.
pub open spec fn lines_version(lines: Seq<Seq<char>>, i: int) -> Option<Seq<char>>
    decreases lines.len() - i,
{
    if i < 0 || i >= lines.len() {
        None
    } else {
        match line_version(lines[i]) {
            Some(v) => Some(v),
            None => lines_version(lines, i + 1),
        }
    }
}

fn trim_start(s: &str) -> (t: String)
    ensures
        t@ == trim_start_of(s@),
{
    let v = to_chars(s);
    let n: usize = v.len();
    let mut i: usize = 0;
    proof {
        assert(v@.subrange(0, n as int) =~= v@);
    }
    while i < n && is_space_char(v[i])
        invariant
            i <= n,
            n == v@.len(),
            trim_start_of(s@) == trim_start_of(v@.subrange(i as int, n as int)),
        decreases n - i,
    {
        proof {
            assert(v@.subrange(i as int, n as int).drop_first() =~= v@.subrange(
                i as int + 1,
                n as int,
            ));
        }
        i = i + 1;
    }
    text_of(&v, i, n)
}

fn version_in_line(line: &str) -> (v: Option<String>)
    ensures
        crate::seqs::opt_text(v) == line_version(line@),
{
    let t = trim_start(line);
    if !starts_with(t.as_str(), "##") {
        return None;
    }
    proof {
        reveal_strlit("##");
        reveal_strlit("version:");
    }
    let c = to_chars(t.as_str());
    let rest = trim_start(text_of(&c, 2, c.len()).as_str());
    proof {
        assert(c@.subrange(2, c@.len() as int) =~= t@.skip(2));
    }
    let r = to_chars(rest.as_str());
    if r.len() < 8 {
        return None;
    }
    let word = text_of(&r, 0, 8);
    let value = trim(text_of(&r, 8, r.len()).as_str());
    proof {
        assert(r@.subrange(0, 8) =~= rest@.take(8));
        assert(r@.subrange(8, r@.len() as int) =~= rest@.skip(8));
    }
    if eq_ignore_ascii_case(word.as_str(), "version:") && !value.as_str().is_empty() {
        Some(value)
    } else {
        None
    }
}

/// The version that the text of a `.toc` file states: that of its first `## Version:`
/// line with a value.
pub fn installed_version(toc: &str) -> (v: Option<String>)
    ensures
        crate::seqs::opt_text(v) == lines_version(split_on(toc@, '\n'), 0),
{
    let lines = split(toc, '\n');
    let ghost all = split_on(toc@, '\n');
    let mut i: usize = 0;
    while i < lines.len()
        invariant
            all == split_on(toc@, '\n'),
            texts(lines@) == all,
            i <= lines@.len(),
            lines_version(all, 0) == lines_version(all, i as int),
        decreases lines@.len() - i,
    {
        proof {
            assert(texts(lines@)[i as int] == lines@[i as int]@);
        }
        let v = version_in_line(lines[i].as_str());
        if v.is_some() {
            return v;
        }
        i = i + 1;
    }
    proof {
        assert(all.len() == lines@.len());
    }
    None
}

// ---------------------------------------------------------------------------
// What unpacking and looking up are for
// ---------------------------------------------------------------------------

/// An entry is unpacked whole: a file is written with the bytes that the archive holds for
/// it, at its own path below the folder, and a folder is made there.
pub proof fn law_entry_is_unpacked_whole(
    style: PathStyle,
    dir: Seq<char>,
    e: EntryView,
    a: UnzipAction,
)
    requires
        unpacks(style, dir, e, a),
    ensures
        e.is_dir ==> (a matches UnzipAction::MakeDir(p) && p@ == join_of(style, dir, e.name)),
        !e.is_dir ==> (a matches UnzipAction::WriteFile(p, d) && p@ == join_of(style, dir, e.name)
            && d@ == e.data),
{
}

/// An entry is unpacked exactly where it can be read and its name leads nowhere but below
/// the folder: no drive, no root, no part that goes up, and no null character.
pub proof fn law_entry_is_refused_for_a_reason(style: PathStyle, e: EntryView)
    ensures
        ({
            let v = path_of(style, e.name);
            let below = v.prefix.len() == 0 && !v.rooted && !v.parts.contains(".."@)
                && !e.name.contains('\0');
            &&& entry_problem(style, e) is None <==> e.header_error is None && below && (e.is_dir
                || e.data_error is None)
            &&& e.header_error is Some ==> entry_problem(style, e) == e.header_error
            &&& e.header_error is None && !below ==> entry_problem(style, e) == Some(
                "unsafe zip entry: "@ + e.name,
            )
        }),
{
    let v = path_of(style, e.name);
    if v.parts.contains(".."@) {
        let i = v.parts.index_of(".."@);
        assert(v.parts[i] == ".."@);
    }
    if !stays_below(v) && v.prefix.len() == 0 && !v.rooted {
        let i = choose|i: int| 0 <= i < v.parts.len() && #[trigger] v.parts[i] == ".."@;
        assert(v.parts.contains(v.parts[i]));
    }
}

/// A top folder is noted once, when the first entry in it comes: what was noted stays where
/// it was, and besides it there is nothing but the top folder of the entry. A file beside
/// the folders adds none.
pub proof fn law_top_folders_are_noted_once(
    style: PathStyle,
    folders: Seq<Seq<char>>,
    name: Seq<char>,
    is_dir: bool,
)
    requires
        folders.no_duplicates(),
    ensures
        ({
            let after = with_top(style, folders, name, is_dir);
            let parts = path_of(style, name).parts;
            let top = parts.len() > 1 || parts.len() == 1 && is_dir;
            &&& folders.is_prefix_of(after)
            &&& after.no_duplicates()
            &&& top && is_name(parts[0]) ==> after.contains(parts[0]) && after.len()
                <= folders.len() + 1
            &&& !top || !is_name(parts[0]) ==> after == folders
            &&& forall|f: Seq<char>| #[trigger]
                after.contains(f) ==> folders.contains(f) || top && f == parts[0]
        }),
{
    let after = with_top(style, folders, name, is_dir);
    let parts = path_of(style, name).parts;
    assert(after.subrange(0, folders.len() as int) =~= folders);
    if after != folders {
        assert(after[after.len() - 1] == parts[0]);
        assert forall|f: Seq<char>| #[trigger] after.contains(f) implies folders.contains(f) || f
            == parts[0] by {
            let i = after.index_of(f);
            if i < folders.len() {
                assert(folders[i] == f);
            }
        }
        assert forall|i: int, j: int| 0 <= i < after.len() && 0 <= j < after.len() && i != j implies after[i]
            != after[j] by {
            if i == folders.len() {
                assert(folders.contains(folders[j]));
            } else if j == folders.len() {
                assert(folders.contains(folders[i]));
            }
        }
    }
}

/// Bytes look like an archive exactly where they begin as one does and are long enough for
/// one.
pub proof fn law_archive_is_told_by_its_start(rest: Seq<u8>)
    ensures
        rest.len() >= 2 ==> looks_zipped(seq![0x50u8, 0x4bu8] + rest),
        rest.len() < 4 ==> !looks_zipped(rest),
        rest.len() >= 2 && (rest[0] != 0x50 || rest[1] != 0x4b) ==> !looks_zipped(rest),
{
}

/// The folder of an addon that is delivered under another name than its slug is known; any
/// other slug is taken for the folder, just as it is written.
pub proof fn law_known_slugs_have_their_folder(slug: Seq<char>)
    ensures
        ({
            let s = lowercase_of(slug);
            &&& s == "sbf"@ ==> guessed_folder(slug) == "SBF"@
            &&& s == "haul"@ ==> guessed_folder(slug) == "Haul"@
            &&& s == "megaphone"@ || s == "towncryer"@ || s == "town-cryer"@ || s == "cryer"@
                ==> guessed_folder(slug) == "Megaphone"@
            &&& s == "recall"@ ==> guessed_folder(slug) == "Recall"@
            &&& s == "gec-console"@ || s == "console"@ ==> guessed_folder(slug) == "GEC-Console"@
            &&& s != "sbf"@ && s != "haul"@ && s != "megaphone"@ && s != "towncryer"@ && s
                != "town-cryer"@ && s != "cryer"@ && s != "recall"@ && s != "gec-console"@ && s
                != "console"@ ==> guessed_folder(slug) == slug
        }),
{
    reveal_strlit("sbf");
    reveal_strlit("haul");
    reveal_strlit("megaphone");
    reveal_strlit("towncryer");
    reveal_strlit("town-cryer");
    reveal_strlit("cryer");
    reveal_strlit("recall");
    reveal_strlit("gec-console");
    reveal_strlit("console");
    assert("sbf"@.len() == 3 && "haul"@.len() == 4 && "megaphone"@.len() == 9 && "towncryer"@.len()
        == 9 && "town-cryer"@.len() == 10 && "cryer"@.len() == 5 && "recall"@.len() == 6
        && "gec-console"@.len() == 11 && "console"@.len() == 7);
}

/// The folders that match are all that have the name, in letters of any case, in their
/// order; a file never does.
pub proof fn law_all_folders_of_the_name_match(entries: Seq<DirEntry>, folder: Seq<char>, n: int)
    requires
        0 <= n <= entries.len(),
    ensures
        matching_folders(entries, folder, n) == entries.take(n).filter(
            |e: DirEntry| e.is_dir && same_but_case(e.name@, folder),
        ).map_values(|e: DirEntry| e.name@),
    decreases n,
{
    let keep = |e: DirEntry| e.is_dir && same_but_case(e.name@, folder);
    let get = |e: DirEntry| e.name@;
    if n > 0 {
        law_all_folders_of_the_name_match(entries, folder, n - 1);
        crate::seqs::lemma_filter_take(entries, n, keep);
        let before = entries.take(n - 1).filter(keep);
        assert(before.push(entries[n - 1]).map_values(get) =~= before.map_values(get).push(
            get(entries[n - 1]),
        ));
    } else {
        reveal(Seq::filter);
        assert(entries.take(0).filter(keep).map_values(get) =~= Seq::empty());
    }
}

/// A file is a table of contents exactly where something stands before its last dot and
/// `toc` behind it, in letters of any case.
pub proof fn law_contents_are_told_by_extension(stem: Seq<char>, ext: Seq<char>)
    requires
        !ext.contains('.'),
    ensures
        is_toc(stem + seq!['.'] + ext) <==> stem.len() > 0 && same_but_case(ext, "toc"@),
        !is_toc(ext),
{
    let name = stem + seq!['.'] + ext;
    lemma_last_dot(stem.push('.'), ext);
    assert(name =~= stem.push('.') + ext);
    assert(last_dot(stem.push('.')) == stem.len());
    assert(name.skip(stem.len() as int + 1) =~= ext);
    lemma_last_dot(Seq::empty(), ext);
    assert(Seq::<char>::empty() + ext =~= ext);
}

proof fn lemma_last_dot(s: Seq<char>, more: Seq<char>)
    requires
        !more.contains('.'),
    ensures
        last_dot(s + more) == last_dot(s),
    decreases more.len(),
{
    if more.len() == 0 {
        assert(s + more =~= s);
    } else {
        let less = more.drop_last();
        assert(more[more.len() - 1] != '.');
        assert(!less.contains('.')) by {
            if less.contains('.') {
                let i = choose|i: int| 0 <= i < less.len() && less[i] == '.';
                assert(more[i] == '.');
            }
        }
        assert((s + more).drop_last() =~= s + less);
        lemma_last_dot(s, less);
    }
}

/// A line states a version where the word for it follows two hashes, in letters of any case,
/// with white space allowed before either; the version is what follows, without white space
/// around it. A line that does not begin with two hashes states none.
pub proof fn law_line_states_its_version(
    before: Seq<char>,
    between: Seq<char>,
    word: Seq<char>,
    rest: Seq<char>,
    other: Seq<char>,
)
    requires
        forall|i: int| 0 <= i < before.len() ==> crate::text::is_space(#[trigger] before[i]),
        forall|i: int| 0 <= i < between.len() ==> crate::text::is_space(#[trigger] between[i]),
        same_but_case(word, "version:"@),
        trim_start_of(other).len() == 0 || trim_start_of(other)[0] != '#',
    ensures
        line_version(before + "##"@ + between + word + rest) == if trim_of(rest).len() > 0 {
            Some(trim_of(rest))
        } else {
            None
        },
        line_version(other) is None,
{
    reveal_strlit("##");
    reveal_strlit("version:");
    let line = before + "##"@ + between + word + rest;
    let tail = "##"@ + (between + (word + rest));
    assert(line =~= before + tail);
    crate::text::lemma_trim_start_over(before, tail);
    assert(tail[0] == '#');
    assert(trim_start_of(tail) == tail);
    assert(tail.subrange(0, 2) =~= "##"@);
    assert(tail.skip(2) =~= between + (word + rest));
    crate::text::lemma_trim_start_over(between, word + rest);
    crate::text::law_case_is_all_that_may_differ(word, "version:"@);
    assert(word.len() == 8);
    assert(word[0] == "version:"@[0] || 'A' <= word[0] && word[0] <= 'Z');
    assert(!crate::text::is_space(word[0]));
    assert((word + rest)[0] == word[0]);
    assert(trim_start_of(word + rest) == word + rest);
    assert((word + rest).take(8) =~= word);
    assert((word + rest).skip(8) =~= rest);
    let t = trim_start_of(other);
    if begins_with(t, "##"@) {
        assert(t.subrange(0, 2)[0] == '#');
    }
}

/// The version of a table of contents is that of the first line that states one.
pub proof fn law_first_version_counts(lines: Seq<Seq<char>>, i: int, k: int)
    requires
        0 <= i <= k <= lines.len(),
        forall|j: int| i <= j < k ==> line_version(#[trigger] lines[j]) is None,
    ensures
        k < lines.len() && line_version(lines[k]) is Some ==> lines_version(lines, i) == line_version(
            lines[k],
        ),
        k == lines.len() ==> lines_version(lines, i) is None,
    decreases k - i,
{
    if i < k {
        assert(line_version(lines[i]) is None);
        law_first_version_counts(lines, i + 1, k);
    }
}

} // verus!
