//! File paths as texts, in the style of Unix or of Windows. Nothing here looks at a disk.
use vstd::prelude::*;

use crate::text::{join2, join3, same_text, split, split_on, text_of, texts, to_chars, from_chars};

verus! {

/// How paths are written on a system.
#[derive(Debug, Clone, Copy, PartialEq, Eq, Structural)]
pub enum PathStyle {
    Unix,
    Windows,
}

/// The character that is put between two parts.
pub open spec fn separator(style: PathStyle) -> char {
    match style {
        PathStyle::Unix => '/',
        PathStyle::Windows => '\\',
    }
}

/// Whether `c` separates two parts.
pub open spec fn is_separator(style: PathStyle, c: char) -> bool {
    c == '/' || style == PathStyle::Windows && c == '\\'
}

/// `s` with `/` for each separator.
pub open spec fn slashed(style: PathStyle, s: Seq<char>) -> Seq<char> {
    Seq::new(
        s.len(),
        |i: int|
            if is_separator(style, s[i]) {
                '/'
            } else {
                s[i]
            },
    )
}

/// What stands between the separators of the path `s`, whatever the style.
pub open spec fn pieces_of(s: Seq<char>) -> Seq<Seq<char>> {
    split_on(slashed(PathStyle::Windows, s), '/')
}

/// What a path says: the drive or share that it begins with, whether it goes on from a
/// root, and its parts.
pub struct PathView {
    pub prefix: Seq<char>,
    pub rooted: bool,
    pub parts: Seq<Seq<char>>,
}

/// A path that was taken apart.
#[derive(Debug)]
pub struct PathParts {
    pub prefix: String,
    pub rooted: bool,
    pub parts: Vec<String>,
}

impl View for PathParts {
    type V = PathView;

    open spec fn view(&self) -> PathView {
        PathView { prefix: self.prefix@, rooted: self.rooted, parts: texts(self.parts@) }
    }
}

/// The pieces that are parts of a path wherever they stand: not empty, and not `.`.
pub open spec fn real_parts(pieces: Seq<Seq<char>>) -> Seq<Seq<char>>
    decreases pieces.len(),
{
    if pieces.len() == 0 {
        Seq::empty()
    } else {
        let before = real_parts(pieces.drop_last());
        if pieces.last().len() == 0 || pieces.last() == "."@ {
            before
        } else {
            before.push(pieces.last())
        }
    }
}

/// The parts of a path with the given pieces. A `.` counts only where it comes first: it
/// stands for the folder at hand.
pub open spec fn parts_of(pieces: Seq<Seq<char>>) -> Seq<Seq<char>> {
    if pieces.len() > 0 && pieces[0] == "."@ {
        seq!["."@] + real_parts(pieces.skip(1))
    } else {
        real_parts(pieces)
    }
}

/// Whether `t` begins with a slash.
pub open spec fn starts_rooted(t: Seq<char>) -> bool {
    t.len() > 0 && t[0] == '/'
}

/// Whether the pieces are those of a share: `//server/share` and what follows.
pub open spec fn is_share(pieces: Seq<Seq<char>>) -> bool {
    pieces.len() >= 4 && pieces[0].len() == 0 && pieces[1].len() == 0 && pieces[2].len() > 0
        && pieces[3].len() > 0
}

/// Whether `t` begins with a drive, such as `C:`.
pub open spec fn has_drive(t: Seq<char>) -> bool {
    t.len() >= 2 && t[1] == ':' && ('a' <= t[0] && t[0] <= 'z' || 'A' <= t[0] && t[0] <= 'Z')
}

/// What the path `s` says.
pub open spec fn path_of(style: PathStyle, s: Seq<char>) -> PathView {
    let t = slashed(style, s);
    let pieces = split_on(t, '/');
    if style == PathStyle::Windows && is_share(pieces) {
        PathView {
            prefix: "\\\\"@ + pieces[2] + "\\"@ + pieces[3],
            rooted: true,
            parts: real_parts(pieces.skip(4)),
        }
    } else if style == PathStyle::Windows && has_drive(t) {
        let rest = t.skip(2);
        PathView {
            prefix: t.take(2),
            rooted: starts_rooted(rest),
            parts: parts_of(split_on(rest, '/')),
        }
    } else {
        PathView { prefix: Seq::empty(), rooted: starts_rooted(t), parts: parts_of(pieces) }
    }
}

/// `parts` with `sep` between them.
pub open spec fn joined(parts: Seq<Seq<char>>, sep: char) -> Seq<char>
    decreases parts.len(),
{
    if parts.len() == 0 {
        Seq::empty()
    } else if parts.len() == 1 {
        parts[0]
    } else {
        joined(parts.drop_last(), sep).push(sep) + parts.last()
    }
}

/// The text of a path.
pub open spec fn path_text(style: PathStyle, v: PathView) -> Seq<char> {
    let head = if v.rooted {
        v.prefix.push(separator(style))
    } else {
        v.prefix
    };
    head + joined(v.parts, separator(style))
}

/// The path without its last part, if it has one.
pub open spec fn parent_of(style: PathStyle, s: Seq<char>) -> Option<Seq<char>> {
    let v = path_of(style, s);
    if v.parts.len() == 0 {
        None
    } else {
        Some(path_text(style, PathView { parts: v.parts.drop_last(), ..v }))
    }
}

/// Whether a part is the name of a file or folder, and not `.` or `..`.
pub open spec fn is_name(part: Seq<char>) -> bool {
    part != "."@ && part != ".."@
}

/// The last part, if there is one and it is a name.
pub open spec fn file_name_of(style: PathStyle, s: Seq<char>) -> Option<Seq<char>> {
    let v = path_of(style, s);
    if v.parts.len() == 0 || !is_name(v.parts.last()) {
        None
    } else {
        Some(v.parts.last())
    }
}

/// Whether something must stand between the path `base` and a further part.
pub open spec fn needs_separator(style: PathStyle, base: Seq<char>) -> bool {
    &&& base.len() > 0
    &&& !is_separator(style, base.last())
    &&& !(style == PathStyle::Windows && base.len() == 2 && has_drive(base))
}

/// The path `name` seen from `base`: `name` itself where it begins with a separator.
pub open spec fn join_of(style: PathStyle, base: Seq<char>, name: Seq<char>) -> Seq<char> {
    if name.len() > 0 && is_separator(style, name[0]) {
        name
    } else if needs_separator(style, base) {
        base.push(separator(style)) + name
    } else {
        base + name
    }
}

// ---------------------------------------------------------------------------
// Laws of joining
// ---------------------------------------------------------------------------

/// Whether `s` is one part of a path: something without separators that is not `.`.
pub open spec fn is_part(style: PathStyle, s: Seq<char>) -> bool {
    &&& s.len() > 0
    &&& s != "."@
    &&& forall|i: int| 0 <= i < s.len() ==> !is_separator(style, #[trigger] s[i])
}

/// Whether the path `s` begins as a share does, but names none.
pub open spec fn is_bare_share(style: PathStyle, s: Seq<char>) -> bool {
    let pieces = split_on(slashed(style, s), '/');
    &&& style == PathStyle::Windows
    &&& pieces.len() >= 3 && pieces[0].len() == 0 && pieces[1].len() == 0
    &&& !is_share(pieces)
}

/// Whether `after` are the pieces `before` with one more, which takes the place of an empty
/// one at the end.
spec fn one_more(before: Seq<Seq<char>>, after: Seq<Seq<char>>, part: Seq<char>) -> bool {
    &&& before.len() > 0
    &&& if before.last().len() > 0 {
        after == before.push(part)
    } else {
        after == before.drop_last().push(part)
    }
}

proof fn lemma_one_more(t: Seq<char>, u: Seq<char>, part: Seq<char>)
    requires
        !part.contains('/'),
        u == if t.len() > 0 && t.last() != '/' {
            t.push('/') + part
        } else {
            t + part
        },
    ensures
        one_more(split_on(t, '/'), split_on(u, '/'), part),
{
    let pieces = split_on(t, '/');
    crate::text::lemma_split_nonempty(t, '/');
    if t.len() > 0 && t.last() != '/' {
        let longer = t.push('/');
        assert(longer.drop_last() =~= t);
        crate::text::lemma_split_append(longer, part, '/');
        assert(split_on(longer, '/') =~= pieces.push(Seq::empty()));
        assert(split_on(longer, '/').drop_last() =~= pieces);
        assert(Seq::<char>::empty() + part =~= part);
    } else {
        crate::text::lemma_split_append(t, part, '/');
        assert(pieces.last() =~= Seq::<char>::empty());
        assert(Seq::<char>::empty() + part =~= part);
    }
}

proof fn lemma_real_parts_more(before: Seq<Seq<char>>, after: Seq<Seq<char>>, part: Seq<char>)
    requires
        part.len() > 0,
        part != "."@,
        after == before.push(part) || before.len() > 0 && before.last().len() == 0 && after
            == before.drop_last().push(part),
    ensures
        real_parts(after) == real_parts(before).push(part),
{
    if after == before.push(part) {
        assert(after.drop_last() =~= before);
    } else {
        assert(after.drop_last() =~= before.drop_last());
    }
}

proof fn lemma_parts_more(before: Seq<Seq<char>>, after: Seq<Seq<char>>, part: Seq<char>)
    requires
        part.len() > 0,
        part != "."@,
        one_more(before, after, part),
    ensures
        parts_of(after) == parts_of(before).push(part),
{
    reveal_strlit(".");
    lemma_real_parts_more(before, after, part);
    if before[0] == "."@ {
        assert(before[0].len() == 1);
        assert(after[0] == before[0]);
        if before.last().len() > 0 {
            assert(after.skip(1) =~= before.skip(1).push(part));
        } else {
            assert(before.skip(1).drop_last() =~= before.drop_last().skip(1));
            assert(after.skip(1) =~= before.skip(1).drop_last().push(part));
        }
        lemma_real_parts_more(before.skip(1), after.skip(1), part);
        assert(parts_of(after) =~= parts_of(before).push(part));
    } else {
        assert(after[0] != "."@) by {
            if before.len() > 1 || before.last().len() > 0 {
                assert(after[0] == before[0]);
            } else {
                assert(after[0] == part);
            }
        }
    }
}

/// A part that is joined to a path comes last in it, and nothing else changes: the drive,
/// the root and the other parts stay. A path that begins as a share does and names none is
/// left out, as a part may complete it, and so is a drive for a part of nothing.
pub proof fn law_joined_part_comes_last(style: PathStyle, base: Seq<char>, part: Seq<char>)
    requires
        is_part(style, part),
        !is_bare_share(style, base),
        base.len() > 0 || style == PathStyle::Unix || !has_drive(part),
    ensures
        path_of(style, join_of(style, base, part)) == (PathView {
            parts: path_of(style, base).parts.push(part),
            ..path_of(style, base)
        }),
        !is_bare_share(style, join_of(style, base, part)),
{
    let whole = join_of(style, base, part);
    let t = slashed(style, base);
    let u = slashed(style, whole);
    let before = split_on(t, '/');
    let after = split_on(u, '/');
    let windows = style == PathStyle::Windows;
    assert(!is_separator(style, part[0]));
    assert(slashed(style, part) =~= part) by {
        assert forall|i: int| 0 <= i < part.len() implies slashed(style, part)[i] == part[i] by {
            assert(!is_separator(style, part[i]));
        }
    }
    assert(!part.contains('/')) by {
        if part.contains('/') {
            let i = choose|i: int| 0 <= i < part.len() && part[i] == '/';
            assert(!is_separator(style, part[i]));
        }
    }
    crate::text::lemma_split_nonempty(t, '/');
    assert(t.len() > 0 ==> (t.last() == '/' <==> is_separator(style, base.last())));
    let bare = windows && base.len() == 2 && has_drive(base);
    if bare {
        assert(whole == base + part);
        assert(u =~= t + part);
        reveal_with_fuel(split_on, 4);
        assert(t.drop_last().drop_last() =~= Seq::<char>::empty());
        crate::text::lemma_split_append(t, part, '/');
        assert(before.len() == 1 && after.len() == 1);
        assert(t.skip(2) =~= Seq::<char>::empty());
        assert(u.skip(2) =~= part);
        assert(u.take(2) =~= t.take(2));
        lemma_one_more(t.skip(2), u.skip(2), part);
        lemma_parts_more(split_on(t.skip(2), '/'), split_on(u.skip(2), '/'), part);
    } else {
        if t.len() > 0 && t.last() != '/' {
            assert(whole == base.push(separator(style)) + part);
            assert(u =~= t.push('/') + part);
        } else {
            assert(whole == base + part);
            assert(u =~= t + part);
        }
        lemma_one_more(t, u, part);
        lemma_parts_more(before, after, part);
        assert(windows ==> is_share(after) == is_share(before));
        if windows && is_share(before) {
            if before.last().len() > 0 {
                assert(after.skip(4) =~= before.skip(4).push(part));
            } else {
                assert(before.len() > 4);
                assert(before.skip(4).drop_last() =~= before.drop_last().skip(4));
                assert(after.skip(4) =~= before.skip(4).drop_last().push(part));
            }
            lemma_real_parts_more(before.skip(4), after.skip(4), part);
        } else if windows && has_drive(t) {
            let rest = t.skip(2);
            let longer = u.skip(2);
            assert(u.take(2) =~= t.take(2));
            assert(has_drive(u));
            assert(rest.len() > 0 && rest.last() == t.last());
            if t.last() != '/' {
                assert(longer =~= rest.push('/') + part);
            } else {
                assert(longer =~= rest + part);
            }
            lemma_one_more(rest, longer, part);
            lemma_parts_more(split_on(rest, '/'), split_on(longer, '/'), part);
        } else {
            assert(windows ==> !has_drive(u)) by {
                if windows && has_drive(u) {
                    if t.len() == 0 {
                        assert(u =~= part);
                    } else {
                        assert(u[0] == t[0]);
                        if t.len() == 1 {
                            assert(u[1] == '/' || t[0] == '/');
                        } else {
                            assert(u[1] == t[1]);
                        }
                    }
                }
            }
        }
    }
}

/// Whether `v` can be what a path says.
spec fn is_taken_apart(style: PathStyle, v: PathView) -> bool {
    let windows = style == PathStyle::Windows;
    &&& forall|k: int|
        0 <= k < v.parts.len() ==> is_part(style, #[trigger] v.parts[k]) || k == 0 && v.parts[k]
            == "."@ && !v.rooted
    &&& windows && v.prefix.len() == 0 && !v.rooted && v.parts.len() > 0 ==> !has_drive(v.parts[0])
    &&& v.prefix.len() > 0 ==> windows && (has_drive(v.prefix) && v.prefix.len() == 2
        || v.rooted && exists|server: Seq<char>, share: Seq<char>| #[trigger]
            is_share_name(v.prefix, server, share))
}

/// Whether `prefix` is the share `share` on `server`.
spec fn is_share_name(prefix: Seq<char>, server: Seq<char>, share: Seq<char>) -> bool {
    &&& prefix == "\\\\"@ + server + "\\"@ + share
    &&& server.len() > 0 && share.len() > 0
    &&& forall|i: int| 0 <= i < server.len() ==> #[trigger] server[i] != '/' && server[i] != '\\'
    &&& forall|i: int| 0 <= i < share.len() ==> #[trigger] share[i] != '/' && share[i] != '\\'
}

proof fn lemma_real_parts_are_parts(style: PathStyle, pieces: Seq<Seq<char>>)
    requires
        forall|k: int, i: int|
            0 <= k < pieces.len() && 0 <= i < pieces[k].len() ==> !is_separator(
                style,
                #[trigger] pieces[k][i],
            ),
    ensures
        forall|k: int|
            0 <= k < real_parts(pieces).len() ==> is_part(style, #[trigger] real_parts(pieces)[k]),
    decreases pieces.len(),
{
    if pieces.len() > 0 {
        let shorter = pieces.drop_last();
        assert forall|k: int, i: int|
            0 <= k < shorter.len() && 0 <= i < shorter[k].len() implies !is_separator(
            style,
            #[trigger] shorter[k][i],
        ) by {
            assert(shorter[k][i] == pieces[k][i]);
        }
        lemma_real_parts_are_parts(style, shorter);
        let last = pieces.last();
        assert forall|i: int| 0 <= i < last.len() implies !is_separator(style, #[trigger] last[i]) by {
            assert(last[i] == pieces[pieces.len() - 1][i]);
        }
        let before = real_parts(shorter);
        assert forall|k: int| 0 <= k < real_parts(pieces).len() implies is_part(
            style,
            #[trigger] real_parts(pieces)[k],
        ) by {
            if k < before.len() {
                assert(real_parts(pieces)[k] == before[k]);
            }
        }
    }
}

proof fn lemma_parts_are_parts(style: PathStyle, pieces: Seq<Seq<char>>)
    requires
        forall|k: int, i: int|
            0 <= k < pieces.len() && 0 <= i < pieces[k].len() ==> !is_separator(
                style,
                #[trigger] pieces[k][i],
            ),
    ensures
        forall|k: int|
            0 <= k < parts_of(pieces).len() ==> is_part(style, #[trigger] parts_of(pieces)[k]) || k
                == 0 && parts_of(pieces)[k] == "."@ && pieces.len() > 0 && pieces[0] == "."@,
{
    lemma_real_parts_are_parts(style, pieces);
    if pieces.len() > 0 && pieces[0] == "."@ {
        let rest = pieces.skip(1);
        assert forall|k: int, i: int|
            0 <= k < rest.len() && 0 <= i < rest[k].len() implies !is_separator(
            style,
            #[trigger] rest[k][i],
        ) by {
            assert(rest[k][i] == pieces[k + 1][i]);
        }
        lemma_real_parts_are_parts(style, rest);
        assert forall|k: int|
            0 <= k < parts_of(pieces).len() implies is_part(style, #[trigger] parts_of(pieces)[k])
            || k == 0 && parts_of(pieces)[k] == "."@ by {
            if k > 0 {
                assert(parts_of(pieces)[k] == real_parts(rest)[k - 1]);
            }
        }
    }
}

/// No piece of a text with `/` for each separator holds a separator.
proof fn lemma_no_separators(style: PathStyle, s: Seq<char>, t: Seq<char>)
    requires
        forall|i: int| 0 <= i < t.len() ==> slashed(style, s).contains(#[trigger] t[i]),
    ensures
        forall|k: int, i: int|
            0 <= k < split_on(t, '/').len() && 0 <= i < split_on(t, '/')[k].len()
                ==> !is_separator(style, #[trigger] split_on(t, '/')[k][i]),
{
    crate::text::lemma_split_pieces(t, '/');
    let pieces = split_on(t, '/');
    assert forall|k: int, i: int|
        0 <= k < pieces.len() && 0 <= i < pieces[k].len() implies !is_separator(
        style,
        #[trigger] pieces[k][i],
    ) by {
        assert(pieces[k][i] != '/' && t.contains(pieces[k][i]));
        let j = choose|j: int| 0 <= j < t.len() && t[j] == pieces[k][i];
        assert(slashed(style, s).contains(t[j]));
        let m = choose|m: int| 0 <= m < s.len() && slashed(style, s)[m] == t[j];
    }
}

/// The parts that are left of pieces whose first one is not empty begin with that one.
proof fn lemma_first_part(pieces: Seq<Seq<char>>)
    requires
        pieces.len() > 0,
        pieces[0].len() > 0,
    ensures
        parts_of(pieces).len() > 0,
        parts_of(pieces)[0] == pieces[0],
    decreases pieces.len(),
{
    if pieces[0] != "."@ {
        if pieces.len() == 1 {
            assert(pieces.drop_last() =~= Seq::<Seq<char>>::empty());
            reveal_with_fuel(real_parts, 2);
        } else {
            assert(pieces.drop_last()[0] == pieces[0]);
            lemma_first_part(pieces.drop_last());
        }
    }
}

proof fn lemma_taken_apart(style: PathStyle, s: Seq<char>)
    ensures
        is_taken_apart(style, path_of(style, s)),
{
    let t = slashed(style, s);
    let pieces = split_on(t, '/');
    let windows = style == PathStyle::Windows;
    let v = path_of(style, s);
    crate::text::lemma_split_nonempty(t, '/');
    lemma_no_separators(style, s, t);
    lemma_parts_are_parts(style, pieces);
    if windows && is_share(pieces) {
        let rest = pieces.skip(4);
        assert forall|k: int, i: int|
            0 <= k < rest.len() && 0 <= i < rest[k].len() implies !is_separator(
            style,
            #[trigger] rest[k][i],
        ) by {
            assert(rest[k][i] == pieces[k + 4][i]);
        }
        lemma_real_parts_are_parts(style, rest);
        assert forall|i: int| 0 <= i < pieces[2].len() implies #[trigger] pieces[2][i] != '/'
            && pieces[2][i] != '\\' by {
            assert(!is_separator(style, pieces[2][i]));
        }
        assert forall|i: int| 0 <= i < pieces[3].len() implies #[trigger] pieces[3][i] != '/'
            && pieces[3][i] != '\\' by {
            assert(!is_separator(style, pieces[3][i]));
        }
        assert(is_share_name(v.prefix, pieces[2], pieces[3]));
    } else if windows && has_drive(t) {
        let rest = t.skip(2);
        assert forall|i: int| 0 <= i < rest.len() implies t.contains(#[trigger] rest[i]) by {
            assert(t[i + 2] == rest[i]);
        }
        lemma_no_separators(style, s, rest);
        lemma_parts_are_parts(style, split_on(rest, '/'));
        lemma_dot_has_no_root(rest);
        assert(has_drive(t.take(2)));
    } else {
        lemma_dot_has_no_root(t);
        if t.len() > 0 && !starts_rooted(t) {
            lemma_first_piece(t);
            lemma_first_part(pieces);
            crate::text::lemma_split_pieces(t, '/');
            let first = pieces[0];
            if has_drive(first) {
                assert(t.take(first.len() as int)[0] == t[0] && t.take(first.len() as int)[1] == t[1]);
            }
        } else if t.len() == 0 {
            assert(pieces =~= seq![Seq::<char>::empty()]);
            reveal_with_fuel(real_parts, 2);
            reveal_strlit(".");
            assert(pieces[0].len() == 0);
        }
    }
}

/// The first piece is empty only where a separator comes first, or nothing does.
proof fn lemma_first_piece(t: Seq<char>)
    requires
        t.len() > 0,
        t[0] != '/',
    ensures
        split_on(t, '/')[0].len() > 0,
    decreases t.len(),
{
    let shorter = t.drop_last();
    crate::text::lemma_split_nonempty(shorter, '/');
    if t.len() > 1 {
        assert(shorter[0] == t[0]);
        lemma_first_piece(shorter);
    }
}

proof fn lemma_dot_has_no_root(t: Seq<char>)
    ensures
        starts_rooted(t) ==> split_on(t, '/')[0] != "."@,
{
    if starts_rooted(t) {
        reveal_strlit(".");
        crate::text::lemma_split_pieces(t, '/');
        crate::text::lemma_split_nonempty(t, '/');
        let first = split_on(t, '/')[0];
        if first.len() > 0 {
            assert(t.take(first.len() as int)[0] == t[0]);
            assert(first[0] != '/');
        }
    }
}

/// The text of a path with `n` of the parts of `v`.
spec fn text_with(style: PathStyle, v: PathView, n: int) -> Seq<char> {
    path_text(style, PathView { parts: v.parts.take(n), ..v })
}

/// A path without parts reads back: a root, a drive or a share, or nothing.
proof fn lemma_head_reads_back(style: PathStyle, v: PathView)
    requires
        is_taken_apart(style, v),
    ensures
        path_of(style, text_with(style, v, 0)) == (PathView { parts: Seq::empty(), ..v }),
        !is_bare_share(style, text_with(style, v, 0)),
        v.prefix.len() == 0 && !v.rooted ==> text_with(style, v, 0).len() == 0,
        v.prefix.len() > 0 || v.rooted ==> text_with(style, v, 0).len() > 0,
        !needs_separator(style, text_with(style, v, 0)),
{
    let head = text_with(style, v, 0);
    let t = slashed(style, head);
    let windows = style == PathStyle::Windows;
    let empty = Seq::<char>::empty();
    reveal_strlit(".");
    assert(v.parts.take(0) =~= Seq::<Seq<char>>::empty());
    reveal_with_fuel(split_on, 5);
    reveal_with_fuel(real_parts, 3);
    if v.prefix.len() == 0 {
        assert(v.prefix =~= empty);
        if v.rooted {
            assert(head =~= seq![separator(style)]);
            assert(t =~= seq!['/']);
            assert(t.drop_last() =~= empty);
            assert(split_on(t, '/') =~= seq![empty, empty]);
            assert(seq![empty, empty].drop_last() =~= seq![empty]);
            assert(seq![empty].drop_last() =~= Seq::<Seq<char>>::empty());
        } else {
            assert(head =~= empty);
            assert(t =~= empty);
            assert(seq![empty].drop_last() =~= Seq::<Seq<char>>::empty());
        }
    } else if has_drive(v.prefix) && v.prefix.len() == 2 {
        let rest = t.skip(2);
        assert(head.take(2) =~= v.prefix);
        assert(t[0] == head[0] && t[1] == head[1]);
        assert(t.take(2) =~= v.prefix);
        assert(seq![empty].drop_last() =~= Seq::<Seq<char>>::empty());
        if v.rooted {
            assert(head =~= v.prefix.push('\\'));
            assert(t =~= v.prefix.push('/'));
            assert(t.drop_last() =~= v.prefix);
            assert(rest =~= seq!['/']);
            assert(rest.drop_last() =~= empty);
            assert(split_on(rest, '/') =~= seq![empty, empty]);
            assert(seq![empty, empty].drop_last() =~= seq![empty]);
        } else {
            assert(head =~= v.prefix);
            assert(t =~= v.prefix);
            assert(rest =~= empty);
        }
        assert(v.prefix.drop_last().drop_last() =~= empty);
        assert(split_on(v.prefix, '/').len() == 1);
    } else {
        let (server, share) = choose|server: Seq<char>, share: Seq<char>| #[trigger]
            is_share_name(v.prefix, server, share);
        lemma_share_reads_back(v.prefix, server, share);
        assert(head =~= v.prefix.push('\\'));
    }
}

/// A share with a root behind it reads back.
proof fn lemma_share_reads_back(prefix: Seq<char>, server: Seq<char>, share: Seq<char>)
    requires
        is_share_name(prefix, server, share),
    ensures
        ({
            let pieces = split_on(slashed(PathStyle::Windows, prefix.push('\\')), '/');
            &&& pieces.len() == 5 && is_share(pieces)
            &&& pieces[2] == server && pieces[3] == share
            &&& path_of(PathStyle::Windows, prefix.push('\\')) == (PathView {
                prefix,
                rooted: true,
                parts: Seq::empty(),
            })
        }),
{
    reveal_strlit("\\\\");
    reveal_strlit("\\");
    reveal_strlit(".");
    let empty = Seq::<char>::empty();
    let two = seq!['/', '/'];
    let t = slashed(PathStyle::Windows, prefix.push('\\'));
    assert(!server.contains('/')) by {
        if server.contains('/') {
            let i = choose|i: int| 0 <= i < server.len() && server[i] == '/';
            assert(server[i] != '/');
        }
    }
    assert(!share.contains('/')) by {
        if share.contains('/') {
            let i = choose|i: int| 0 <= i < share.len() && share[i] == '/';
            assert(share[i] != '/');
        }
    }
    let a = two + server;
    let b = a.push('/') + share;
    assert(t =~= b.push('/'));
    reveal_with_fuel(split_on, 4);
    assert(two.drop_last() =~= seq!['/']);
    assert(seq!['/'].drop_last() =~= empty);
    assert(split_on(two, '/') =~= seq![empty, empty, empty]);
    crate::text::lemma_split_append(two, server, '/');
    assert(empty + server =~= server);
    assert(split_on(a, '/') =~= seq![empty, empty, server]);
    assert(a.push('/').drop_last() =~= a);
    assert(split_on(a.push('/'), '/') =~= seq![empty, empty, server, empty]);
    crate::text::lemma_split_append(a.push('/'), share, '/');
    assert(empty + share =~= share);
    assert(split_on(b, '/') =~= seq![empty, empty, server, share]);
    assert(b.push('/').drop_last() =~= b);
    let pieces = split_on(t, '/');
    assert(pieces =~= seq![empty, empty, server, share, empty]);
    assert(pieces.skip(4) =~= seq![empty]);
    assert(seq![empty].drop_last() =~= Seq::<Seq<char>>::empty());
    reveal_with_fuel(real_parts, 2);
    assert(real_parts(pieces.skip(4)) =~= Seq::<Seq<char>>::empty());
}

proof fn lemma_text_reads_back(style: PathStyle, v: PathView, n: int)
    requires
        is_taken_apart(style, v),
        0 <= n <= v.parts.len(),
    ensures
        path_of(style, text_with(style, v, n)) == (PathView { parts: v.parts.take(n), ..v }),
        !is_bare_share(style, text_with(style, v, n)),
        n > 0 ==> text_with(style, v, n).len() > 0,
        n > 0 ==> needs_separator(style, text_with(style, v, n)),
    decreases n,
{
    let windows = style == PathStyle::Windows;
    let head = text_with(style, v, 0);
    lemma_head_reads_back(style, v);
    reveal_strlit(".");
    assert(v.parts.take(0) =~= Seq::<Seq<char>>::empty());
    if n > 0 {
        let before = text_with(style, v, n - 1);
        let text = text_with(style, v, n);
        let part = v.parts[n - 1];
        lemma_text_reads_back(style, v, n - 1);
        assert(v.parts.take(n).drop_last() =~= v.parts.take(n - 1));
        assert(v.parts.take(n).last() == part);
        assert(v.parts.take(n) =~= v.parts.take(n - 1).push(part));
        assert(part.len() > 0);
        assert(is_part(style, part) || n == 1 && part == "."@ && !v.rooted);
        assert(!is_separator(style, part[part.len() - 1])) by {
            if is_part(style, part) {
                assert(!is_separator(style, part[part.len() - 1]));
            }
        }
        if n == 1 {
            assert(text =~= before + part);
        } else {
            assert(text =~= before.push(separator(style)) + part);
        }
        assert(text.last() == part.last());
        if is_part(style, part) {
            assert(!is_separator(style, part[0]));
            assert(text =~= join_of(style, before, part));
            assert(n > 1 || v.prefix.len() > 0 || v.rooted ==> before.len() > 0);
            law_joined_part_comes_last(style, before, part);
        } else {
            lemma_dot_reads_back(style, v, text);
        }
        if windows && text.len() == 2 && has_drive(text) {
            if n == 1 && v.prefix.len() == 0 && !v.rooted {
                assert(text =~= part);
            } else if v.prefix.len() > 0 {
                assert(before.len() >= 2);
            }
            assert(text[0] == before[0] || before.len() == 0);
            if before.len() == 1 {
                if n == 1 {
                    assert(before =~= seq![separator(style)]);
                } else {
                    assert(text[1] == separator(style));
                }
            }
        }
    }
}

/// A dot for the folder at hand reads back.
proof fn lemma_dot_reads_back(style: PathStyle, v: PathView, text: Seq<char>)
    requires
        is_taken_apart(style, v),
        v.parts.len() > 0,
        v.parts[0] == "."@,
        !v.rooted,
        text == text_with(style, v, 0) + "."@,
    ensures
        path_of(style, text) == (PathView { parts: v.parts.take(1), ..v }),
        !is_bare_share(style, text),
{
    reveal_strlit(".");
    let empty = Seq::<char>::empty();
    let dot = "."@;
    let t = slashed(style, text);
    assert(v.parts.take(0) =~= Seq::<Seq<char>>::empty());
    assert(v.parts.take(1) =~= seq![dot]);
    reveal_with_fuel(split_on, 5);
    reveal_with_fuel(real_parts, 2);
    assert(dot =~= seq!['.']);
    assert(dot.drop_last() =~= empty);
    assert(split_on(dot, '/') =~= seq![dot]);
    assert(seq![dot].skip(1) =~= Seq::<Seq<char>>::empty());
    assert(parts_of(seq![dot]) =~= seq![dot]);
    if v.prefix.len() == 0 {
        assert(v.prefix =~= empty);
        assert(text =~= dot);
        assert(t =~= dot);
    } else {
        assert(has_drive(v.prefix) && v.prefix.len() == 2);
        assert(text =~= v.prefix + dot);
        assert(t =~= v.prefix + dot);
        assert(t.skip(2) =~= dot);
        assert(t.take(2) =~= v.prefix);
        assert(t.drop_last() =~= v.prefix);
        assert(v.prefix.drop_last().drop_last() =~= empty);
        assert(split_on(t, '/').len() == 1);
    }
}

/// A path that is written out plainly says what it said before: the same drive and root,
/// and the same parts.
pub proof fn law_plain_path_is_the_same(style: PathStyle, s: Seq<char>)
    ensures
        path_of(style, path_text(style, path_of(style, s))) == path_of(style, s),
{
    let v = path_of(style, s);
    lemma_taken_apart(style, s);
    lemma_text_reads_back(style, v, v.parts.len() as int);
    assert(v.parts.take(v.parts.len() as int) =~= v.parts);
}

fn separates(style: PathStyle, c: char) -> (yes: bool)
    ensures
        yes == is_separator(style, c),
{
    c == '/' || (style == PathStyle::Windows && c == '\\')
}

fn separator_text(style: PathStyle) -> (s: &'static str)
    ensures
        s@ == seq![separator(style)],
{
    match style {
        PathStyle::Unix => {
            proof {
                reveal_strlit("/");
            }
            "/"
        },
        PathStyle::Windows => {
            proof {
                reveal_strlit("\\");
            }
            "\\"
        },
    }
}

fn slash_chars(style: PathStyle, s: &str) -> (t: Vec<char>)
    ensures
        t@ == slashed(style, s@),
{
    let v = to_chars(s);
    let mut t: Vec<char> = Vec::new();
    let mut i: usize = 0;
    while i < v.len()
        invariant
            v@ == s@,
            i <= v@.len(),
            t@ == slashed(style, s@).take(i as int),
        decreases v@.len() - i,
    {
        if separates(style, v[i]) {
            t.push('/');
        } else {
            t.push(v[i]);
        }
        proof {
            assert(slashed(style, s@).take(i as int + 1) =~= slashed(style, s@).take(i as int).push(
                slashed(style, s@)[i as int],
            ));
        }
        i = i + 1;
    }
    proof {
        assert(slashed(style, s@).take(i as int) =~= slashed(style, s@));
    }
    t
}

/// What stands between the separators of the path `s`, whatever the style.
pub fn path_pieces(s: &str) -> (pieces: Vec<String>)
    ensures
        texts(pieces@) == pieces_of(s@),
{
    let t = slash_chars(PathStyle::Windows, s);
    let text: String = from_chars(&t);
    split(text.as_str(), '/')
}

/// The pieces from `from` on that are parts.
fn keep_parts(pieces: &Vec<String>, from: usize) -> (parts: Vec<String>)
    requires
        from <= pieces@.len(),
    ensures
        texts(parts@) == real_parts(texts(pieces@).skip(from as int)),
{
    let ghost all = texts(pieces@).skip(from as int);
    let mut parts: Vec<String> = Vec::new();
    let mut i: usize = from;
    proof {
        assert(all.take(0) =~= Seq::<Seq<char>>::empty());
        assert(texts(parts@) =~= Seq::<Seq<char>>::empty());
    }
    while i < pieces.len()
        invariant
            from <= i <= pieces@.len(),
            all == texts(pieces@).skip(from as int),
            texts(parts@) == real_parts(all.take(i - from)),
        decreases pieces@.len() - i,
    {
        let ghost before = texts(parts@);
        proof {
            assert(all.take(i - from + 1).drop_last() =~= all.take(i - from));
            assert(all.take(i - from + 1).last() == pieces@[i as int]@);
        }
        if !(pieces[i].as_str().is_empty() || same_text(pieces[i].as_str(), ".")) {
            parts.push(pieces[i].clone());
            proof {
                assert(texts(parts@) =~= before.push(pieces@[i as int]@));
            }
        }
        i = i + 1;
    }
    proof {
        assert(all.take(i - from) =~= all);
    }
    parts
}

/// The parts of a path with the given pieces.
fn all_parts(pieces: &Vec<String>) -> (parts: Vec<String>)
    ensures
        texts(parts@) == parts_of(texts(pieces@)),
{
    proof {
        assert(texts(pieces@).skip(0) =~= texts(pieces@));
        assert(texts(pieces@).len() == pieces@.len());
    }
    if pieces.len() > 0 && same_text(pieces[0].as_str(), ".") {
        let mut parts: Vec<String> = Vec::new();
        parts.push(pieces[0].clone());
        let mut rest = keep_parts(pieces, 1);
        let ghost others = texts(rest@);
        parts.append(&mut rest);
        proof {
            assert(texts(parts@) =~= seq!["."@] + others);
        }
        return parts;
    }
    keep_parts(pieces, 0)
}

/// Whether a part is the name of a file or folder.
pub fn names_something(part: &str) -> (yes: bool)
    ensures
        yes == is_name(part@),
{
    !same_text(part, ".") && !same_text(part, "..")
}

/// Takes the path `s` apart.
pub fn split_path(style: PathStyle, s: &str) -> (p: PathParts)
    ensures
        p@ == path_of(style, s@),
{
    let t = slash_chars(style, s);
    let text: String = from_chars(&t);
    let pieces = split(text.as_str(), '/');
    proof {
        assert(pieces@.len() == texts(pieces@).len());
    }
    let windows: bool = style == PathStyle::Windows;
    if windows && pieces.len() >= 4 && pieces[0].as_str().is_empty()
        && pieces[1].as_str().is_empty() && !pieces[2].as_str().is_empty()
        && !pieces[3].as_str().is_empty() {
        let prefix = crate::text::join4(
            "\\\\",
            pieces[2].as_str(),
            "\\",
            pieces[3].as_str(),
        );
        let parts = keep_parts(&pieces, 4);
        return PathParts { prefix, rooted: true, parts };
    }
    if windows && t.len() >= 2 && t[1] == ':' && (('a' <= t[0] && t[0] <= 'z') || ('A' <= t[0]
        && t[0] <= 'Z')) {
        let prefix = text_of(&t, 0, 2);
        let rest = text_of(&t, 2, t.len());
        proof {
            assert(t@.subrange(0, 2) =~= t@.take(2));
            assert(t@.subrange(2, t@.len() as int) =~= t@.skip(2));
        }
        let rooted: bool = t.len() > 2 && t[2] == '/';
        let rest_pieces = split(rest.as_str(), '/');
        let parts = all_parts(&rest_pieces);
        return PathParts { prefix, rooted, parts };
    }
    let rooted: bool = t.len() > 0 && t[0] == '/';
    let parts = all_parts(&pieces);
    PathParts { prefix: String::new(), rooted, parts }
}

/// The text of the path with the first `n` parts of `p`.
pub fn path_with_parts(style: PathStyle, p: &PathParts, n: usize) -> (s: String)
    requires
        n <= p.parts@.len(),
    ensures
        s@ == path_text(style, PathView { parts: p@.parts.take(n as int), ..p@ }),
{
    let sep = separator_text(style);
    let ghost parts = p@.parts;
    let mut head: String = p.prefix.clone();
    if p.rooted {
        head.append(sep);
    }
    let ghost start = head@;
    proof {
        assert(p.rooted ==> start =~= p.prefix@.push(separator(style)));
    }
    let mut s: String = String::new();
    let mut i: usize = 0;
    proof {
        assert(parts.take(0) =~= Seq::<Seq<char>>::empty());
    }
    while i < n
        invariant
            i <= n <= p.parts@.len(),
            parts == texts(p.parts@),
            sep@ == seq![separator(style)],
            s@ == joined(parts.take(i as int), separator(style)),
        decreases n - i,
    {
        proof {
            assert(parts.take(i as int + 1).drop_last() =~= parts.take(i as int));
            assert(parts.take(i as int + 1).last() == p.parts@[i as int]@);
        }
        if i > 0 {
            let ghost before = s@;
            s.append(sep);
            proof {
                assert(s@ =~= before.push(separator(style)));
            }
        }
        let ghost before = s@;
        s.append(p.parts[i].as_str());
        proof {
            if i == 0 {
                assert(s@ =~= p.parts@[0]@);
            }
        }
        i = i + 1;
    }
    join2(head.as_str(), s.as_str())
}

/// The path without its last part, if it has one.
pub fn parent(style: PathStyle, s: &str) -> (p: Option<String>)
    ensures
        match p {
            Some(q) => parent_of(style, s@) == Some(q@),
            None => parent_of(style, s@) is None,
        },
{
    let p = split_path(style, s);
    proof {
        assert(texts(p.parts@).len() == p.parts@.len());
    }
    if p.parts.len() == 0 {
        return None;
    }
    proof {
        assert(p@.parts.take(p.parts@.len() - 1) =~= p@.parts.drop_last());
    }
    Some(path_with_parts(style, &p, p.parts.len() - 1))
}

/// The last part, if there is one and it is a name.
pub fn file_name(style: PathStyle, s: &str) -> (n: Option<String>)
    ensures
        match n {
            Some(q) => file_name_of(style, s@) == Some(q@),
            None => file_name_of(style, s@) is None,
        },
{
    let p = split_path(style, s);
    proof {
        assert(texts(p.parts@).len() == p.parts@.len());
    }
    if p.parts.len() == 0 {
        return None;
    }
    let last: &String = &p.parts[p.parts.len() - 1];
    proof {
        assert(texts(p.parts@).last() == last@);
    }
    if names_something(last.as_str()) {
        Some(last.clone())
    } else {
        None
    }
}

/// The path `name` seen from `base`.
pub fn join_path(style: PathStyle, base: &str, name: &str) -> (s: String)
    ensures
        s@ == join_of(style, base@, name@),
{
    let n = to_chars(name);
    if n.len() > 0 && separates(style, n[0]) {
        return name.to_string();
    }
    let b = to_chars(base);
    let bare_drive: bool = style == PathStyle::Windows && b.len() == 2 && b[1] == ':' && (('a' <= b[0]
        && b[0] <= 'z') || ('A' <= b[0] && b[0] <= 'Z'));
    if b.len() > 0 && !separates(style, b[b.len() - 1]) && !bare_drive {
        let s = join3(base, separator_text(style), name);
        proof {
            assert(s@ =~= base@.push(separator(style)) + name@);
        }
        s
    } else {
        join2(base, name)
    }
}

/// Taking a text apart at a separator and putting it together again changes nothing, and
/// no piece holds the separator.
pub proof fn law_pieces_make_up_the_text(s: Seq<char>, sep: char)
    ensures
        joined(split_on(s, sep), sep) == s,
        forall|k: int| 0 <= k < split_on(s, sep).len() ==> !(#[trigger] split_on(s, sep)[k]).contains(sep),
    decreases s.len(),
{
    crate::text::lemma_split_pieces(s, sep);
    crate::text::lemma_split_nonempty(s, sep);
    let pieces = split_on(s, sep);
    assert forall|k: int| 0 <= k < pieces.len() implies !(#[trigger] pieces[k]).contains(sep) by {
        if pieces[k].contains(sep) {
            let i = choose|i: int| 0 <= i < pieces[k].len() && pieces[k][i] == sep;
            assert(pieces[k][i] != sep);
        }
    }
    if s.len() == 0 {
        assert(joined(pieces, sep) =~= s);
    } else {
        let shorter = s.drop_last();
        let before = split_on(shorter, sep);
        crate::text::lemma_split_nonempty(shorter, sep);
        law_pieces_make_up_the_text(shorter, sep);
        if s.last() == sep {
            assert(pieces.drop_last() =~= before);
            assert(joined(pieces, sep) =~= shorter.push(sep));
        } else {
            assert(pieces.drop_last() =~= before.drop_last());
            assert(joined(pieces, sep) =~= joined(before, sep).push(s.last()));
        }
        assert(s =~= shorter.push(s.last()));
    }
}

/// Pieces that do not hold the separator are found again in the text that they make up.
pub proof fn law_joined_pieces_are_found_again(pieces: Seq<Seq<char>>, sep: char)
    requires
        pieces.len() > 0,
        forall|k: int| 0 <= k < pieces.len() ==> !(#[trigger] pieces[k]).contains(sep),
    ensures
        split_on(joined(pieces, sep), sep) == pieces,
    decreases pieces.len(),
{
    let last = pieces.last();
    assert(!pieces[pieces.len() - 1].contains(sep));
    if pieces.len() == 1 {
        let none = Seq::<char>::empty();
        assert(joined(pieces, sep) =~= none + last);
        crate::text::lemma_split_append(none, last, sep);
        assert(split_on(none, sep) =~= seq![none]);
        assert(none + last =~= last);
        assert(split_on(joined(pieces, sep), sep) =~= pieces);
    } else {
        let before = pieces.drop_last();
        law_joined_pieces_are_found_again(before, sep);
        let head = joined(before, sep).push(sep);
        assert(head.drop_last() =~= joined(before, sep));
        assert(split_on(head, sep) =~= before.push(Seq::empty()));
        crate::text::lemma_split_append(head, last, sep);
        assert(Seq::<char>::empty() + last =~= last);
        assert(before.push(Seq::empty()).drop_last() =~= before);
        assert(joined(pieces, sep) =~= head + last);
        assert(pieces =~= before.push(last));
    }
}

/// Going up from a part that was joined to a path leads back to that path.
pub proof fn law_parent_undoes_join(style: PathStyle, base: Seq<char>, part: Seq<char>)
    requires
        is_part(style, part),
        !is_bare_share(style, base),
        base.len() > 0 || style == PathStyle::Unix || !has_drive(part),
    ensures
        parent_of(style, join_of(style, base, part)) == Some(path_text(style, path_of(style, base))),
        is_name(part) ==> file_name_of(style, join_of(style, base, part)) == Some(part),
{
    law_joined_part_comes_last(style, base, part);
    let v = path_of(style, join_of(style, base, part));
    assert(v.parts.drop_last() =~= path_of(style, base).parts);
    assert(v.parts.last() == part);
}

/// A path that is written as its parts with slashes between them has just those parts: from
/// the root where a slash stands first, and without one from where it is seen.
pub proof fn law_unix_path_is_its_parts(parts: Seq<Seq<char>>)
    requires
        parts.len() > 0,
        forall|i: int| 0 <= i < parts.len() ==> is_part(PathStyle::Unix, #[trigger] parts[i]),
    ensures
        path_of(PathStyle::Unix, joined(parts, '/')) == (PathView {
            prefix: Seq::empty(),
            rooted: false,
            parts,
        }),
        path_of(PathStyle::Unix, seq!['/'] + joined(parts, '/')) == (PathView {
            prefix: Seq::empty(),
            rooted: true,
            parts,
        }),
    decreases parts.len(),
{
    let unix = PathStyle::Unix;
    let last = parts.last();
    assert(is_part(unix, parts[parts.len() - 1]));
    if parts.len() == 1 {
        let none = Seq::<char>::empty();
        let root = seq!['/'];
        reveal_strlit(".");
        assert("."@.len() == 1);
        assert(slashed(unix, none) =~= none);
        assert(split_on(none, '/') =~= seq![none]);
        assert(real_parts(seq![none]) =~= Seq::empty()) by {
            reveal_with_fuel(real_parts, 2);
            assert(seq![none].drop_last() =~= Seq::empty());
        }
        law_joined_part_comes_last(unix, none, last);
        assert(none + last =~= joined(parts, '/'));
        assert(path_of(unix, none).parts =~= Seq::empty());
        assert(slashed(unix, root) =~= root);
        assert(root.drop_last() =~= none);
        assert(split_on(root, '/') =~= seq![none, none]);
        assert(real_parts(seq![none, none]) =~= Seq::empty()) by {
            reveal_with_fuel(real_parts, 3);
            assert(seq![none, none].drop_last() =~= seq![none]);
            assert(seq![none].drop_last() =~= Seq::empty());
        }
        law_joined_part_comes_last(unix, root, last);
        assert(path_of(unix, root).parts =~= Seq::empty());
        assert(root + last =~= seq!['/'] + joined(parts, '/'));
        assert(path_of(unix, joined(parts, '/')).parts =~= parts);
        assert(path_of(unix, seq!['/'] + joined(parts, '/')).parts =~= parts);
    } else {
        let before = parts.drop_last();
        assert forall|i: int| 0 <= i < before.len() implies is_part(unix, #[trigger] before[i]) by {
            assert(is_part(unix, parts[i]));
        }
        law_unix_path_is_its_parts(before);
        let a = joined(before, '/');
        let b = seq!['/'] + a;
        assert(is_part(unix, before[before.len() - 1]));
        assert(a.len() > 0 && !is_separator(unix, a.last())) by {
            let p = before.last();
            if before.len() > 1 {
                assert(a =~= joined(before.drop_last(), '/').push('/') + p);
            }
            assert(a.last() == p.last());
            assert(!is_separator(unix, p[p.len() - 1]));
        }
        law_joined_part_comes_last(unix, a, last);
        law_joined_part_comes_last(unix, b, last);
        assert(!is_separator(unix, last[0]));
        assert(join_of(unix, a, last) =~= joined(parts, '/'));
        assert(join_of(unix, b, last) =~= seq!['/'] + joined(parts, '/'));
        assert(parts =~= before.push(last));
    }
}

} // verus!
