//! Which Lua files are plain data: those that loop nowhere and call nothing.
use vstd::prelude::*;

use crate::text::{from_chars, same_text};

verus! {

/// What stands before a place in a file, as far as it matters.
#[derive(Debug, Clone, Copy, PartialEq, Eq, Structural)]
pub enum Before {
    /// Something that can be called: a name, or the end of an index or of parentheses.
    Callee,
    /// The head of a function up to its parameters.
    Header,
    Other,
}

/// Whether a byte belongs to a word.
pub open spec fn is_word_byte(c: u8) -> bool {
    0x30 <= c && c <= 0x39 || 0x41 <= c && c <= 0x5a || c == 0x5f || 0x61 <= c && c <= 0x7a
}

/// Whether a byte is white space.
pub open spec fn is_blank(c: u8) -> bool {
    9 <= c && c <= 13 || c == 32
}

/// Where the word that goes on at `i` ends.
pub open spec fn word_end(src: Seq<u8>, i: int) -> int
    decreases src.len() - i,
{
    if 0 <= i < src.len() && is_word_byte(src[i]) {
        word_end(src, i + 1)
    } else {
        i
    }
}

/// The word from `i` to `j`.
pub open spec fn word_at(src: Seq<u8>, i: int, j: int) -> Seq<char> {
    Seq::new((j - i) as nat, |k: int| src[i + k] as char)
}

/// Where the string that goes on at `i` ends, which the quote `q` closes. What stands
/// behind a backslash does not close it.
pub open spec fn quoted_end(src: Seq<u8>, i: int, q: u8) -> int
    decreases src.len() - i,
{
    if i < 0 || i >= src.len() {
        src.len() as int
    } else if src[i] == q {
        i + 1
    } else if src[i] == 0x5c && i + 2 >= src.len() {
        src.len() as int
    } else if src[i] == 0x5c {
        quoted_end(src, i + 2, q)
    } else {
        quoted_end(src, i + 1, q)
    }
}

/// Where the line that goes on at `i` ends.
pub open spec fn line_end(src: Seq<u8>, i: int) -> int
    decreases src.len() - i,
{
    if i < 0 || i >= src.len() {
        src.len() as int
    } else if src[i] == 10 || src[i] == 13 {
        i
    } else {
        line_end(src, i + 1)
    }
}

/// Where the equals signs that go on at `i` end.
pub open spec fn equals_end(src: Seq<u8>, i: int) -> int
    decreases src.len() - i,
{
    if 0 <= i < src.len() && src[i] == 0x3d {
        equals_end(src, i + 1)
    } else {
        i
    }
}

/// Where the inside of the long bracket at `i` begins, if there is one: two brackets with
/// any number of equals signs between them.
pub open spec fn long_start(src: Seq<u8>, i: int) -> Option<int> {
    let j = equals_end(src, i + 1);
    if 0 <= i < src.len() && src[i] == 0x5b && j < src.len() && src[j] == 0x5b {
        Some(j + 1)
    } else {
        None
    }
}

/// Whether a long bracket with `level` equals signs is closed at `i`.
pub open spec fn closes(src: Seq<u8>, i: int, level: int) -> bool {
    let j = equals_end(src, i + 1);
    0 <= i < src.len() && src[i] == 0x5d && j == i + 1 + level && j < src.len() && src[j] == 0x5d
}

/// Where the long bracket with `level` equals signs ends that goes on at `i`.
pub open spec fn long_end(src: Seq<u8>, i: int, level: int) -> int
    decreases src.len() - i,
{
    if i < 0 || i >= src.len() {
        src.len() as int
    } else if closes(src, i, level) {
        i + level + 2
    } else {
        long_end(src, i + 1, level)
    }
}

/// Whether a word begins a loop, or a jump that may lead back.
pub open spec fn is_loop_word(w: Seq<char>) -> bool {
    w == "while"@ || w == "for"@ || w == "repeat"@ || w == "goto"@
}

/// Whether a word is one of the language and names nothing, among those that begin no loop.
pub open spec fn is_keyword(w: Seq<char>) -> bool {
    ||| w == "and"@ || w == "break"@ || w == "do"@ || w == "else"@ || w == "elseif"@
    ||| w == "end"@ || w == "false"@ || w == "if"@ || w == "in"@ || w == "local"@
    ||| w == "nil"@ || w == "not"@ || w == "or"@ || w == "return"@ || w == "then"@
    ||| w == "true"@ || w == "until"@
}

/// What stands before what follows the word `w`. A word that begins with a digit is a
/// number.
pub open spec fn after_word(before: Before, w: Seq<char>) -> Before {
    if w == "function"@ || before == Before::Header {
        Before::Header
    } else if is_keyword(w) || w.len() > 0 && '0' <= w[0] && w[0] <= '9' {
        Before::Other
    } else {
        Before::Callee
    }
}

proof fn lemma_ends(src: Seq<u8>, i: int, q: u8, level: int)
    requires
        0 <= i,
        0 <= level,
    ensures
        word_end(src, i) >= i,
        i < src.len() && is_word_byte(src[i]) ==> word_end(src, i) > i,
        i <= src.len() ==> word_end(src, i) <= src.len(),
        i <= src.len() ==> i <= quoted_end(src, i, q) <= src.len(),
        i <= src.len() ==> i <= line_end(src, i) <= src.len(),
        i <= equals_end(src, i),
        i <= src.len() ==> equals_end(src, i) <= src.len(),
        i <= src.len() ==> i <= long_end(src, i, level) <= src.len(),
    decreases src.len() - i,
{
    if i < src.len() {
        lemma_ends(src, i + 1, q, level);
        if src[i] == 0x5c && i + 2 <= src.len() {
            lemma_ends(src, i + 2, q, level);
        }
    }
}

/// Whether the file `src` is plain data from `i` on: outside of strings and comments, no
/// word begins a loop or a jump, and nothing that can be called stands before what would
/// be handed to it (an open parenthesis, a table or a string).
pub open spec fn is_data_from(src: Seq<u8>, i: int, before: Before) -> bool
    decreases src.len() - i,
{
    if i < 0 || i >= src.len() {
        true
    } else {
        let c = src[i];
        if c == 0x22 || c == 0x27 {
            let j = quoted_end(src, i + 1, c);
            before != Before::Callee && i < j <= src.len() && is_data_from(src, j, Before::Other)
        } else if c == 0x2d && i + 1 < src.len() && src[i + 1] == 0x2d {
            let j = match long_start(src, i + 2) {
                Some(s) => long_end(src, s, s - i - 4),
                None => line_end(src, i + 2),
            };
            i < j <= src.len() && is_data_from(src, j, before)
        } else if long_start(src, i) is Some {
            let s = long_start(src, i)->0;
            let j = long_end(src, s, s - i - 2);
            before != Before::Callee && i < j <= src.len() && is_data_from(src, j, Before::Other)
        } else if is_word_byte(c) {
            let j = word_end(src, i);
            let w = word_at(src, i, j);
            !is_loop_word(w) && i < j <= src.len() && is_data_from(src, j, after_word(before, w))
        } else if c == 0x28 || c == 0x7b {
            before != Before::Callee && is_data_from(src, i + 1, Before::Other)
        } else if c == 0x29 || c == 0x5d {
            is_data_from(src, i + 1, Before::Callee)
        } else if is_blank(c) || before == Before::Header && (c == 0x2e || c == 0x3a) {
            is_data_from(src, i + 1, before)
        } else {
            is_data_from(src, i + 1, Before::Other)
        }
    }
}

/// Whether the file `src` is plain data: it loops nowhere and calls nothing, so that each
/// of its instructions runs once at most. It may define functions.
pub open spec fn is_data(src: Seq<u8>) -> bool {
    is_data_from(src, 0, Before::Other)
}

fn word_byte(c: u8) -> (yes: bool)
    ensures
        yes == is_word_byte(c),
{
    0x30 <= c && c <= 0x39 || 0x41 <= c && c <= 0x5a || c == 0x5f || 0x61 <= c && c <= 0x7a
}

/// The word at `i`, and where it ends.
fn read_word(src: &[u8], i: usize) -> (r: (String, usize))
    requires
        i <= src@.len(),
    ensures
        r.1 == word_end(src@, i as int),
        r.1 <= src@.len(),
        r.0@ == word_at(src@, i as int, r.1 as int),
{
    let mut w: Vec<char> = Vec::new();
    let mut j: usize = i;
    proof {
        lemma_ends(src@, i as int, 0, 0);
    }
    while j < src.len() && word_byte(src[j])
        invariant
            i <= j <= src@.len(),
            word_end(src@, i as int) == word_end(src@, j as int),
            w@ == word_at(src@, i as int, j as int),
        decreases src@.len() - j,
    {
        w.push(src[j] as char);
        j = j + 1;
        proof {
            assert(w@ =~= word_at(src@, i as int, j as int));
        }
    }
    (from_chars(&w), j)
}

fn skip_quoted(src: &[u8], i: usize, q: u8) -> (j: usize)
    requires
        i <= src@.len(),
    ensures
        j == quoted_end(src@, i as int, q),
        i <= j <= src@.len(),
{
    proof {
        lemma_ends(src@, i as int, q, 0);
    }
    let mut k: usize = i;
    while k < src.len()
        invariant
            i <= k <= src@.len(),
            quoted_end(src@, i as int, q) == quoted_end(src@, k as int, q),
            i <= quoted_end(src@, i as int, q) <= src@.len(),
        decreases src@.len() - k,
    {
        if src[k] == q {
            return k + 1;
        }
        if src[k] == 0x5c {
            if src.len() - k <= 2 {
                return src.len();
            }
            k = k + 2;
        } else {
            k = k + 1;
        }
    }
    src.len()
}

fn skip_line(src: &[u8], i: usize) -> (j: usize)
    requires
        i <= src@.len(),
    ensures
        j == line_end(src@, i as int),
        i <= j <= src@.len(),
{
    let mut k: usize = i;
    while k < src.len() && src[k] != 10 && src[k] != 13
        invariant
            i <= k <= src@.len(),
            line_end(src@, i as int) == line_end(src@, k as int),
        decreases src@.len() - k,
    {
        k = k + 1;
    }
    k
}

fn skip_equals(src: &[u8], i: usize) -> (j: usize)
    requires
        i <= src@.len(),
    ensures
        j == equals_end(src@, i as int),
        i <= j <= src@.len(),
{
    let mut k: usize = i;
    while k < src.len() && src[k] == 0x3d
        invariant
            i <= k <= src@.len(),
            equals_end(src@, i as int) == equals_end(src@, k as int),
        decreases src@.len() - k,
    {
        k = k + 1;
    }
    k
}

fn find_long(src: &[u8], i: usize) -> (s: Option<usize>)
    requires
        i <= src@.len(),
    ensures
        match s {
            Some(j) => long_start(src@, i as int) == Some(j as int) && i + 2 <= j <= src@.len(),
            None => long_start(src@, i as int) is None,
        },
{
    if i == src.len() || src[i] != 0x5b {
        return None;
    }
    let j: usize = skip_equals(src, i + 1);
    if j < src.len() && src[j] == 0x5b {
        Some(j + 1)
    } else {
        None
    }
}

fn skip_long(src: &[u8], i: usize, level: usize) -> (j: usize)
    requires
        i <= src@.len(),
    ensures
        j == long_end(src@, i as int, level as int),
        i <= j <= src@.len(),
{
    proof {
        lemma_ends(src@, i as int, 0, level as int);
    }
    let mut k: usize = i;
    while k < src.len()
        invariant
            i <= k <= src@.len(),
            long_end(src@, i as int, level as int) == long_end(src@, k as int, level as int),
            i <= long_end(src@, i as int, level as int) <= src@.len(),
        decreases src@.len() - k,
    {
        if src[k] == 0x5d {
            let e: usize = skip_equals(src, k + 1);
            if e - (k + 1) == level && e < src.len() && src[e] == 0x5d {
                return e + 1;
            }
        }
        k = k + 1;
    }
    src.len()
}

fn loop_word(w: &str) -> (yes: bool)
    ensures
        yes == is_loop_word(w@),
{
    same_text(w, "while") || same_text(w, "for") || same_text(w, "repeat") || same_text(w, "goto")
}

fn keyword(w: &str) -> (yes: bool)
    ensures
        yes == is_keyword(w@),
{
    same_text(w, "and") || same_text(w, "break") || same_text(w, "do") || same_text(w, "else")
        || same_text(w, "elseif") || same_text(w, "end") || same_text(w, "false")
        || same_text(w, "if") || same_text(w, "in") || same_text(w, "local")
        || same_text(w, "nil") || same_text(w, "not") || same_text(w, "or")
        || same_text(w, "return") || same_text(w, "then") || same_text(w, "true")
        || same_text(w, "until")
}

/// Whether the file `src` is plain data.
pub fn plain_data(src: &[u8]) -> (yes: bool)
    ensures
        yes == is_data(src@),
{
    let mut before: Before = Before::Other;
    let mut i: usize = 0;
    while i < src.len()
        invariant
            i <= src@.len(),
            is_data(src@) == is_data_from(src@, i as int, before),
        decreases src@.len() - i,
    {
        let c: u8 = src[i];
        let callee: bool = before == Before::Callee;
        if c == 0x22 || c == 0x27 {
            if callee {
                return false;
            }
            i = skip_quoted(src, i + 1, c);
            before = Before::Other;
        } else if c == 0x2d && i + 1 < src.len() && src[i + 1] == 0x2d {
            i =
            match find_long(src, i + 2) {
                Some(s) => skip_long(src, s, s - i - 4),
                None => skip_line(src, i + 2),
            };
        } else if let Some(s) = find_long(src, i) {
            if callee {
                return false;
            }
            i = skip_long(src, s, s - i - 2);
            before = Before::Other;
        } else if word_byte(c) {
            proof {
                lemma_ends(src@, i as int, 0, 0);
            }
            let (w, j) = read_word(src, i);
            if loop_word(w.as_str()) {
                return false;
            }
            let digit: bool = 0x30 <= c && c <= 0x39;
            proof {
                assert(w@[0] == c as char);
                assert(digit == ('0' <= w@[0] && w@[0] <= '9'));
            }
            before =
            if same_text(w.as_str(), "function") || before == Before::Header {
                Before::Header
            } else if keyword(w.as_str()) || digit {
                Before::Other
            } else {
                Before::Callee
            };
            i = j;
        } else if c == 0x28 || c == 0x7b {
            if callee {
                return false;
            }
            before = Before::Other;
            i = i + 1;
        } else if c == 0x29 || c == 0x5d {
            before = Before::Callee;
            i = i + 1;
        } else if (9 <= c && c <= 13) || c == 32 || (before == Before::Header && (c == 0x2e || c
            == 0x3a)) {
            i = i + 1;
        } else {
            before = Before::Other;
            i = i + 1;
        }
    }
    true
}

/// A file that loops or calls is no plain data: wherever a word begins a loop or a jump, and
/// wherever something that can be called stands before an open parenthesis, a table or a
/// string, the file is none from there on.
pub proof fn law_loops_and_calls_are_no_data(src: Seq<u8>, i: int, before: Before)
    requires
        0 <= i < src.len(),
    ensures
        is_word_byte(src[i]) && ({
            let w = word_at(src, i, word_end(src, i));
            w == "while"@ || w == "for"@ || w == "repeat"@ || w == "goto"@
        }) ==> !is_data_from(src, i, before),
        before == Before::Callee && (src[i] == 0x28 || src[i] == 0x7b || src[i] == 0x22 || src[i]
            == 0x27) ==> !is_data_from(src, i, before),
        before == Before::Callee && src[i] == 0x5b && i + 1 < src.len() && src[i + 1] == 0x5b
            ==> !is_data_from(src, i, before),
{
    assert(equals_end(src, i + 1) == i + 1 || src[i + 1] == 0x3d || i + 1 >= src.len());
}

/// What can be called is told by what comes before: behind a name that is no word of the
/// language, behind a closing bracket and behind a closing parenthesis, with white space or
/// without, what follows would be handed to a call.
pub proof fn law_names_can_be_called(src: Seq<u8>, i: int, before: Before, name: Seq<char>)
    requires
        0 <= i < src.len(),
        name.len() > 0,
        !is_keyword(name),
        name != "function"@,
        !('0' <= name[0] && name[0] <= '9'),
    ensures
        before != Before::Header ==> after_word(before, name) == Before::Callee,
        src[i] == 0x29 || src[i] == 0x5d ==> is_data_from(src, i, before) == is_data_from(
            src,
            i + 1,
            Before::Callee,
        ),
        src[i] == 0x20 || src[i] == 0x0a ==> is_data_from(src, i, before) == is_data_from(
            src,
            i + 1,
            before,
        ),
{
}

/// A string ends at the first quote of its own kind that no backslash stands before, and a
/// comment at the end of its line; what stands in them does not matter.
pub proof fn law_strings_and_comments_hide_what_they_hold(
    src: Seq<u8>,
    i: int,
    j: int,
    q: u8,
)
    requires
        0 <= i <= j < src.len(),
        q == 0x22 || q == 0x27,
        forall|k: int| i <= k < j ==> (#[trigger] src[k]) != q && src[k] != 0x5c,
    ensures
        src[j] == q ==> quoted_end(src, i, q) == j + 1,
        src[j] == 0x0a && (forall|k: int| i <= k < j ==> (#[trigger] src[k]) != 0x0a && src[k]
            != 0x0d) ==> line_end(src, i) == j,
    decreases j - i,
{
    if i < j {
        assert(src[i] != q && src[i] != 0x5c);
        law_strings_and_comments_hide_what_they_hold(src, i + 1, j, q);
    }
}

/// A long bracket ends at the first place where it is closed with as many equals signs as it
/// was opened with.
pub proof fn law_long_bracket_ends_where_it_is_closed(src: Seq<u8>, i: int, j: int, level: int)
    requires
        0 <= i <= j < src.len(),
        closes(src, j, level),
        forall|k: int| i <= k < j ==> !#[trigger] closes(src, k, level),
    ensures
        long_end(src, i, level) == j + level + 2,
        src[j] == 0x5d,
        src[j + level + 1] == 0x5d,
    decreases j - i,
{
    if i < j {
        assert(!closes(src, i, level));
        law_long_bracket_ends_where_it_is_closed(src, i + 1, j, level);
    }
}

} // verus!
