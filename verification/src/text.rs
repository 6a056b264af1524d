//! Text helpers over `char` sequences.
//!
//! Every executable function here works on a `&str` or on the `Vec<char>` of one,
//! and is specified on `Seq<char>`.
use vstd::prelude::*;
use vstd::string::*;
use vstd::utf8::*;

verus! {

/// `String::push` appends one character.
pub assume_specification[ String::push ](s: &mut String, c: char)
    ensures
        final(s)@ == old(s)@.push(c),
;

// ---------------------------------------------------------------------------
// Conversions
// ---------------------------------------------------------------------------

/// The characters of `s`, in order.
pub fn to_chars(s: &str) -> (v: Vec<char>)
    ensures
        v@ == s@,
{
    let mut v: Vec<char> = Vec::new();
    for c in it: s.chars()
        invariant
            v@ == it.seq().take(it.index() as int),
            it.seq() == s@,
    {
        v.push(c);
        proof {
            assert(it.seq().take(it.index() as int + 1) =~= it.seq().take(it.index() as int).push(c));
        }
    }
    proof {
        assert(s@.take(s@.len() as int) =~= s@);
    }
    v
}

/// The text of `v[i..j]`.
pub fn text_of(v: &Vec<char>, i: usize, j: usize) -> (s: String)
    requires
        i <= j <= v@.len(),
    ensures
        s@ == v@.subrange(i as int, j as int),
{
    let mut s: String = String::new();
    let mut k: usize = i;
    while k < j
        invariant
            i <= k <= j <= v@.len(),
            s@ == v@.subrange(i as int, k as int),
        decreases j - k,
    {
        s.push(v[k]);
        proof {
            assert(v@.subrange(i as int, k as int + 1) =~= v@.subrange(i as int, k as int).push(
                v@[k as int],
            ));
        }
        k = k + 1;
    }
    s
}

/// The text of all of `v`.
pub fn from_chars(v: &Vec<char>) -> (s: String)
    ensures
        s@ == v@,
{
    proof {
        assert(v@.subrange(0, v@.len() as int) =~= v@);
    }
    text_of(v, 0, v.len())
}

// ---------------------------------------------------------------------------
// Equality and order
// ---------------------------------------------------------------------------

/// Two texts with the same bytes are the same text.
pub proof fn lemma_bytes_determine_text(a: Seq<char>, b: Seq<char>)
    ensures
        encode_utf8(a) == encode_utf8(b) <==> a == b,
{
    encode_utf8_decode_utf8(a);
    encode_utf8_decode_utf8(b);
}

/// Whether two texts are equal.
pub fn same_text(a: &str, b: &str) -> (same: bool)
    ensures
        same == (a@ == b@),
{
    proof {
        lemma_bytes_determine_text(a@, b@);
    }
    let x = a.as_bytes();
    let y = b.as_bytes();
    if x.len() != y.len() {
        return false;
    }
    let mut i: usize = 0;
    while i < x.len()
        invariant
            i <= x@.len(),
            x@.len() == y@.len(),
            x@ == encode_utf8(a@),
            y@ == encode_utf8(b@),
            encode_utf8(a@) == encode_utf8(b@) <==> a@ == b@,
            forall|j: int| 0 <= j < i ==> x@[j] == y@[j],
        decreases x@.len() - i,
    {
        if x[i] != y[i] {
            return false;
        }
        i = i + 1;
    }
    proof {
        assert(x@ =~= y@);
    }
    true
}

/// Whether `a` comes strictly before `b` in the dictionary order of their elements.
pub open spec fn lex_less(a: Seq<u8>, b: Seq<u8>) -> bool
    decreases a.len(),
{
    if b.len() == 0 {
        false
    } else if a.len() == 0 {
        true
    } else if a[0] != b[0] {
        a[0] < b[0]
    } else {
        lex_less(a.drop_first(), b.drop_first())
    }
}

/// The order of texts: the dictionary order of their UTF-8 bytes.
pub open spec fn text_less(a: Seq<char>, b: Seq<char>) -> bool {
    lex_less(encode_utf8(a), encode_utf8(b))
}

/// `lex_less` is irreflexive.
pub proof fn lemma_lex_irreflexive(a: Seq<u8>)
    ensures
        !lex_less(a, a),
    decreases a.len(),
{
    if a.len() > 0 {
        lemma_lex_irreflexive(a.drop_first());
    }
}

/// `lex_less` is transitive.
pub proof fn lemma_lex_transitive(a: Seq<u8>, b: Seq<u8>, c: Seq<u8>)
    requires
        lex_less(a, b),
        lex_less(b, c),
    ensures
        lex_less(a, c),
    decreases a.len(),
{
    if a.len() > 0 && a[0] == b[0] && b[0] == c[0] {
        lemma_lex_transitive(a.drop_first(), b.drop_first(), c.drop_first());
    }
}

/// Two different sequences are ordered one way or the other.
pub proof fn lemma_lex_total(a: Seq<u8>, b: Seq<u8>)
    ensures
        a == b || lex_less(a, b) || lex_less(b, a),
    decreases a.len(),
{
    if a.len() == 0 || b.len() == 0 {
        assert(a.len() == 0 && b.len() == 0 ==> a =~= b);
    } else if a[0] == b[0] {
        lemma_lex_total(a.drop_first(), b.drop_first());
        if a.drop_first() == b.drop_first() {
            assert(a =~= seq![a[0]] + a.drop_first());
            assert(b =~= seq![b[0]] + b.drop_first());
        }
    }
}

/// The order of texts is strict and total: irreflexive, transitive, and any two
/// different texts are comparable.
pub proof fn law_text_order_is_strict_and_total(a: Seq<char>, b: Seq<char>, c: Seq<char>)
    ensures
        !text_less(a, a),
        text_less(a, b) && text_less(b, c) ==> text_less(a, c),
        a == b || text_less(a, b) || text_less(b, a),
        text_less(a, b) ==> !text_less(b, a),
{
    lemma_lex_irreflexive(encode_utf8(a));
    if text_less(a, b) && text_less(b, c) {
        lemma_lex_transitive(encode_utf8(a), encode_utf8(b), encode_utf8(c));
    }
    lemma_lex_total(encode_utf8(a), encode_utf8(b));
    lemma_bytes_determine_text(a, b);
    if text_less(a, b) && text_less(b, a) {
        lemma_lex_transitive(encode_utf8(a), encode_utf8(b), encode_utf8(a));
    }
}

/// Whether `a` comes strictly before `b`.
pub fn is_less(a: &str, b: &str) -> (less: bool)
    ensures
        less == text_less(a@, b@),
{
    let x = a.as_bytes();
    let y = b.as_bytes();
    let mut i: usize = 0;
    proof {
        assert(x@.skip(0) =~= x@);
        assert(y@.skip(0) =~= y@);
    }
    while i < x.len() && i < y.len()
        invariant
            i <= x@.len(),
            i <= y@.len(),
            x@ == encode_utf8(a@),
            y@ == encode_utf8(b@),
            text_less(a@, b@) == lex_less(x@.skip(i as int), y@.skip(i as int)),
        decreases x@.len() - i,
    {
        if x[i] != y[i] {
            return x[i] < y[i];
        }
        proof {
            assert(x@.skip(i as int).drop_first() =~= x@.skip(i as int + 1));
            assert(y@.skip(i as int).drop_first() =~= y@.skip(i as int + 1));
        }
        i = i + 1;
    }
    i < y.len()
}

// ---------------------------------------------------------------------------
// Joining
// ---------------------------------------------------------------------------

/// `a` followed by `b`.
pub fn join2(a: &str, b: &str) -> (s: String)
    ensures
        s@ == a@ + b@,
{
    let mut s: String = a.to_string();
    s.append(b);
    s
}

/// `a`, `b` and `c` in a row.
pub fn join3(a: &str, b: &str, c: &str) -> (s: String)
    ensures
        s@ == a@ + b@ + c@,
{
    let mut s: String = join2(a, b);
    s.append(c);
    s
}

/// `a`, `b`, `c` and `d` in a row.
pub fn join4(a: &str, b: &str, c: &str, d: &str) -> (s: String)
    ensures
        s@ == a@ + b@ + c@ + d@,
{
    let mut s: String = join3(a, b, c);
    s.append(d);
    s
}

/// `a` to `e` in a row.
pub fn join5(a: &str, b: &str, c: &str, d: &str, e: &str) -> (s: String)
    ensures
        s@ == a@ + b@ + c@ + d@ + e@,
{
    let mut s: String = join4(a, b, c, d);
    s.append(e);
    s
}

// ---------------------------------------------------------------------------
// White space
// ---------------------------------------------------------------------------

/// The characters with the Unicode property White_Space.
pub open spec fn is_space(c: char) -> bool {
    let n = c as u32;
    ||| 0x9 <= n <= 0xd
    ||| n == 0x20
    ||| n == 0x85
    ||| n == 0xa0
    ||| n == 0x1680
    ||| 0x2000 <= n <= 0x200a
    ||| n == 0x2028
    ||| n == 0x2029
    ||| n == 0x202f
    ||| n == 0x205f
    ||| n == 0x3000
}

/// Whether `c` is white space.
pub fn is_space_char(c: char) -> (space: bool)
    ensures
        space == is_space(c),
{
    let n: u32 = c as u32;
    (0x9 <= n && n <= 0xd) || n == 0x20 || n == 0x85 || n == 0xa0 || n == 0x1680 || (0x2000 <= n && n
        <= 0x200a) || n == 0x2028 || n == 0x2029 || n == 0x202f || n == 0x205f || n == 0x3000
}

/// `s` without its leading white space.
pub open spec fn trim_start_of(s: Seq<char>) -> Seq<char>
    decreases s.len(),
{
    if s.len() > 0 && is_space(s[0]) {
        trim_start_of(s.drop_first())
    } else {
        s
    }
}

/// `s` without its trailing white space.
pub open spec fn trim_end_of(s: Seq<char>) -> Seq<char>
    decreases s.len(),
{
    if s.len() > 0 && is_space(s.last()) {
        trim_end_of(s.drop_last())
    } else {
        s
    }
}

/// `s` without white space at either end.
pub open spec fn trim_of(s: Seq<char>) -> Seq<char> {
    trim_end_of(trim_start_of(s))
}

/// `s` without white space at either end.
pub fn trim(s: &str) -> (t: String)
    ensures
        t@ == trim_of(s@),
{
    let v = to_chars(s);
    let n: usize = v.len();
    let mut i: usize = 0;
    proof {
        assert(v@.skip(0) =~= v@);
    }
    while i < n && is_space_char(v[i])
        invariant
            i <= n,
            n == v@.len(),
            trim_start_of(s@) == trim_start_of(v@.skip(i as int)),
        decreases n - i,
    {
        proof {
            assert(v@.skip(i as int).drop_first() =~= v@.skip(i as int + 1));
        }
        i = i + 1;
    }
    let mut j: usize = n;
    proof {
        assert(v@.subrange(i as int, n as int) =~= v@.skip(i as int));
    }
    while i < j && is_space_char(v[j - 1])
        invariant
            i <= j <= n,
            n == v@.len(),
            trim_of(s@) == trim_end_of(v@.subrange(i as int, j as int)),
        decreases j,
    {
        proof {
            assert(v@.subrange(i as int, j as int).drop_last() =~= v@.subrange(
                i as int,
                j as int - 1,
            ));
        }
        j = j - 1;
    }
    text_of(&v, i, j)
}

/// Trimming leaves no white space at either end.
pub proof fn lemma_trim_ends(s: Seq<char>)
    ensures
        trim_of(s).len() > 0 ==> !is_space(trim_of(s)[0]) && !is_space(trim_of(s).last()),
        trim_of(s).len() <= s.len(),
{
    lemma_trim_start_end(s);
    let t = trim_start_of(s);
    lemma_trim_end_end(t);
    lemma_trim_end_prefix(t);
}

proof fn lemma_trim_start_end(s: Seq<char>)
    ensures
        trim_start_of(s).len() > 0 ==> !is_space(trim_start_of(s)[0]),
        trim_start_of(s).len() <= s.len(),
    decreases s.len(),
{
    if s.len() > 0 && is_space(s[0]) {
        lemma_trim_start_end(s.drop_first());
    }
}

proof fn lemma_trim_end_end(s: Seq<char>)
    ensures
        trim_end_of(s).len() > 0 ==> !is_space(trim_end_of(s).last()),
    decreases s.len(),
{
    if s.len() > 0 && is_space(s.last()) {
        lemma_trim_end_end(s.drop_last());
    }
}

proof fn lemma_trim_end_prefix(s: Seq<char>)
    ensures
        trim_end_of(s).len() <= s.len(),
        trim_end_of(s) == s.take(trim_end_of(s).len() as int),
    decreases s.len(),
{
    if s.len() > 0 && is_space(s.last()) {
        lemma_trim_end_prefix(s.drop_last());
        assert(s.drop_last().take(trim_end_of(s).len() as int) =~= s.take(
            trim_end_of(s).len() as int,
        ));
    } else {
        assert(s.take(s.len() as int) =~= s);
    }
}

/// Trimming a trimmed text changes nothing.
pub proof fn law_trim_is_idempotent(s: Seq<char>)
    ensures
        trim_of(trim_of(s)) == trim_of(s),
{
    lemma_trim_ends(s);
    let t = trim_of(s);
    assert(trim_start_of(t) == t);
    assert(trim_end_of(t) == t);
}

// ---------------------------------------------------------------------------
// Searching and splitting
// ---------------------------------------------------------------------------

/// Whether `p` stands in `s` at position `i`.
pub open spec fn stands_at(s: Seq<char>, p: Seq<char>, i: int) -> bool {
    0 <= i && i + p.len() <= s.len() && s.subrange(i, i + p.len()) == p
}

/// Whether `s` begins with `p`.
pub open spec fn begins_with(s: Seq<char>, p: Seq<char>) -> bool {
    stands_at(s, p, 0)
}

/// Whether `p` occurs in `s`.
pub open spec fn occurs_in(p: Seq<char>, s: Seq<char>) -> bool {
    exists|i: int| stands_at(s, p, i)
}

/// Whether `p` stands in `v` at position `i`.
pub fn matches_at(v: &Vec<char>, p: &Vec<char>, i: usize) -> (found: bool)
    ensures
        found == stands_at(v@, p@, i as int),
{
    let n: usize = v.len();
    if i > n || p.len() > n - i {
        return false;
    }
    let mut k: usize = 0;
    while k < p.len()
        invariant
            n == v@.len(),
            k <= p@.len(),
            i + p@.len() <= v@.len(),
            forall|j: int| 0 <= j < k ==> v@[i + j] == p@[j],
        decreases p@.len() - k,
    {
        if v[i + k] != p[k] {
            proof {
                assert(v@.subrange(i as int, i + p@.len())[k as int] != p@[k as int]);
            }
            return false;
        }
        k = k + 1;
    }
    proof {
        assert(v@.subrange(i as int, i + p@.len()) =~= p@);
    }
    true
}

/// Whether `s` begins with `p`.
pub fn starts_with(s: &str, p: &str) -> (yes: bool)
    ensures
        yes == begins_with(s@, p@),
{
    matches_at(&to_chars(s), &to_chars(p), 0)
}

/// Whether `p` occurs in `s`.
pub fn contains_text(s: &str, p: &str) -> (yes: bool)
    ensures
        yes == occurs_in(p@, s@),
{
    let v = to_chars(s);
    let w = to_chars(p);
    let mut i: usize = 0;
    while i < v.len()
        invariant
            i <= v@.len(),
            v@ == s@,
            w@ == p@,
            forall|j: int| 0 <= j < i ==> !stands_at(s@, p@, j),
        decreases v@.len() - i,
    {
        if matches_at(&v, &w, i) {
            return true;
        }
        i = i + 1;
    }
    let last = matches_at(&v, &w, i);
    proof {
        if !last {
            assert forall|j: int| !stands_at(s@, p@, j) by {
                if stands_at(s@, p@, j) {
                    assert(j <= s@.len());
                }
            }
        }
    }
    last
}

/// The pieces of `s` between the occurrences of `sep`: one more than there are of them.
pub open spec fn split_on(s: Seq<char>, sep: char) -> Seq<Seq<char>>
    decreases s.len(),
{
    if s.len() == 0 {
        seq![Seq::empty()]
    } else {
        let before = split_on(s.drop_last(), sep);
        if s.last() == sep {
            before.push(Seq::empty())
        } else {
            before.drop_last().push(before.last().push(s.last()))
        }
    }
}

/// There is always a first piece.
pub proof fn lemma_split_nonempty(s: Seq<char>, sep: char)
    ensures
        split_on(s, sep).len() >= 1,
    decreases s.len(),
{
    if s.len() > 0 {
        lemma_split_nonempty(s.drop_last(), sep);
    }
}

/// A piece holds no separator, and nothing that is not in the text; the first one is what
/// the text begins with.
pub proof fn lemma_split_pieces(s: Seq<char>, sep: char)
    ensures
        forall|k: int, i: int|
            0 <= k < split_on(s, sep).len() && 0 <= i < split_on(s, sep)[k].len() ==> (
            #[trigger] split_on(s, sep)[k][i]) != sep && s.contains(split_on(s, sep)[k][i]),
        split_on(s, sep)[0].len() <= s.len(),
        split_on(s, sep)[0] == s.take(split_on(s, sep)[0].len() as int),
        split_on(s, sep).len() == 1 ==> split_on(s, sep)[0] == s,
    decreases s.len(),
{
    let pieces = split_on(s, sep);
    lemma_split_nonempty(s, sep);
    if s.len() > 0 {
        let shorter = s.drop_last();
        let before = split_on(shorter, sep);
        lemma_split_nonempty(shorter, sep);
        lemma_split_pieces(shorter, sep);
        assert forall|k: int, i: int|
            0 <= k < pieces.len() && 0 <= i < pieces[k].len() implies (#[trigger] pieces[k][i])
            != sep && s.contains(pieces[k][i]) by {
            if k < before.len() && i < before[k].len() {
                assert(pieces[k][i] == before[k][i]);
                let j = choose|j: int| 0 <= j < shorter.len() && shorter[j] == before[k][i];
                assert(s[j] == pieces[k][i]);
            } else {
                assert(pieces[k][i] == s[s.len() - 1]);
            }
        }
        if s.last() != sep && before.len() == 1 {
            assert(pieces[0] =~= s);
            assert(s.take(s.len() as int) =~= s);
        } else {
            assert(pieces[0] == before[0]);
            assert(shorter.take(before[0].len() as int) =~= s.take(before[0].len() as int));
        }
    } else {
        assert(s.take(0) =~= s);
    }
}

/// What is put behind `s`, and holds no `sep`, goes on in the last piece.
pub proof fn lemma_split_append(s: Seq<char>, more: Seq<char>, sep: char)
    requires
        !more.contains(sep),
    ensures
        split_on(s + more, sep) == split_on(s, sep).drop_last().push(
            split_on(s, sep).last() + more,
        ),
    decreases more.len(),
{
    let pieces = split_on(s, sep);
    lemma_split_nonempty(s, sep);
    if more.len() == 0 {
        assert(s + more =~= s);
        assert(pieces.last() + more =~= pieces.last());
        assert(pieces =~= pieces.drop_last().push(pieces.last()));
    } else {
        let shorter = more.drop_last();
        assert(!shorter.contains(sep)) by {
            if shorter.contains(sep) {
                let i = choose|i: int| 0 <= i < shorter.len() && shorter[i] == sep;
                assert(more[i] == sep);
            }
        }
        lemma_split_append(s, shorter, sep);
        assert((s + more).drop_last() =~= s + shorter);
        assert((s + more).last() == more.last());
        assert(more[more.len() - 1] != sep);
        let before = split_on(s + shorter, sep);
        assert(before.drop_last() =~= pieces.drop_last());
        assert((pieces.last() + shorter).push(more.last()) =~= pieces.last() + more);
    }
}

/// The views of a vector of texts.
pub open spec fn texts(v: Seq<String>) -> Seq<Seq<char>> {
    Seq::new(v.len(), |i: int| v[i]@)
}

/// The pieces of `s` between the occurrences of `sep`.
pub fn split(s: &str, sep: char) -> (pieces: Vec<String>)
    ensures
        texts(pieces@) == split_on(s@, sep),
{
    let v = to_chars(s);
    let mut pieces: Vec<String> = Vec::new();
    let mut start: usize = 0;
    let mut i: usize = 0;
    proof {
        assert(v@.take(0) =~= Seq::<char>::empty());
        assert(texts(pieces@).push(v@.subrange(0, 0)) =~= seq![Seq::<char>::empty()]);
    }
    while i < v.len()
        invariant
            v@ == s@,
            start <= i <= v@.len(),
            split_on(v@.take(i as int), sep) == texts(pieces@).push(
                v@.subrange(start as int, i as int),
            ),
        decreases v@.len() - i,
    {
        let ghost before = texts(pieces@);
        proof {
            assert(v@.take(i as int + 1).drop_last() =~= v@.take(i as int));
            assert(v@.take(i as int + 1).last() == v@[i as int]);
            lemma_split_nonempty(v@.take(i as int), sep);
        }
        if v[i] == sep {
            pieces.push(text_of(&v, start, i));
            proof {
                assert(texts(pieces@) =~= before.push(v@.subrange(start as int, i as int)));
                assert(v@.subrange(i as int + 1, i as int + 1) =~= Seq::<char>::empty());
            }
            start = i + 1;
        } else {
            proof {
                assert(v@.subrange(start as int, i as int + 1) =~= v@.subrange(
                    start as int,
                    i as int,
                ).push(v@[i as int]));
                assert(before.push(v@.subrange(start as int, i as int)).drop_last() =~= before);
            }
        }
        i = i + 1;
    }
    let ghost before = texts(pieces@);
    pieces.push(text_of(&v, start, i));
    proof {
        assert(v@.take(i as int) =~= v@);
        assert(texts(pieces@) =~= before.push(v@.subrange(start as int, i as int)));
    }
    pieces
}

// ---------------------------------------------------------------------------
// Case
// ---------------------------------------------------------------------------

/// The lower-case letter of an ASCII capital; any other character as it is.
pub open spec fn ascii_lower(c: char) -> char {
    if 'A' <= c && c <= 'Z' {
        (c as u32 + 32) as char
    } else {
        c
    }
}

/// `s` with its ASCII capitals in lower case.
pub open spec fn ascii_lower_of(s: Seq<char>) -> Seq<char> {
    Seq::new(s.len(), |i: int| ascii_lower(s[i]))
}

/// Whether `s` holds ASCII characters only.
pub open spec fn is_ascii_text(s: Seq<char>) -> bool {
    forall|i: int| 0 <= i < s.len() ==> (#[trigger] s[i]) as u32 <= 127
}

/// Whether two texts are the same but for the case of ASCII letters.
pub open spec fn same_but_case(a: Seq<char>, b: Seq<char>) -> bool {
    ascii_lower_of(a) == ascii_lower_of(b)
}

/// The lower-case letter of an ASCII capital; any other character as it is.
pub fn ascii_lower_char(c: char) -> (d: char)
    ensures
        d == ascii_lower(c),
{
    if 'A' <= c && c <= 'Z' {
        let n: u8 = c as u8 + 32;
        n as char
    } else {
        c
    }
}

/// Whether two texts are the same but for the case of ASCII letters.
pub fn eq_ignore_ascii_case(a: &str, b: &str) -> (same: bool)
    ensures
        same == same_but_case(a@, b@),
{
    let v = to_chars(a);
    let w = to_chars(b);
    if v.len() != w.len() {
        proof {
            assert(ascii_lower_of(a@).len() != ascii_lower_of(b@).len());
        }
        return false;
    }
    let mut i: usize = 0;
    while i < v.len()
        invariant
            v@ == a@,
            w@ == b@,
            v@.len() == w@.len(),
            i <= v@.len(),
            forall|j: int| 0 <= j < i ==> ascii_lower(v@[j]) == ascii_lower(w@[j]),
        decreases v@.len() - i,
    {
        if ascii_lower_char(v[i]) != ascii_lower_char(w[i]) {
            proof {
                assert(ascii_lower_of(a@)[i as int] != ascii_lower_of(b@)[i as int]);
            }
            return false;
        }
        i = i + 1;
    }
    proof {
        assert(ascii_lower_of(a@) =~= ascii_lower_of(b@));
    }
    true
}

/// The lower case of a text, by Unicode.
pub uninterp spec fn lowercase_of(s: Seq<char>) -> Seq<char>;

/// Calls `str::to_lowercase`. In a text of ASCII characters it is the capitals that
/// change.
#[verifier::external_body]
pub(crate) fn to_lowercase(s: &str) -> (t: String)
    ensures
        t@ == lowercase_of(s@),
        is_ascii_text(s@) ==> t@ == ascii_lower_of(s@),
{
    s.to_lowercase()
}

/// The capital of an ASCII lower-case letter; any other character as it is.
pub open spec fn ascii_upper(c: char) -> char {
    if 'a' <= c && c <= 'z' {
        (c as u32 - 32) as char
    } else {
        c
    }
}

/// `s` with its ASCII lower-case letters as capitals.
pub open spec fn ascii_upper_of(s: Seq<char>) -> Seq<char> {
    Seq::new(s.len(), |i: int| ascii_upper(s[i]))
}

/// The upper case of a text, by Unicode.
pub uninterp spec fn uppercase_of(s: Seq<char>) -> Seq<char>;

/// Calls `str::to_uppercase`. In a text of ASCII characters it is the lower-case letters
/// that change.
#[verifier::external_body]
pub(crate) fn to_uppercase(s: &str) -> (t: String)
    ensures
        t@ == uppercase_of(s@),
        is_ascii_text(s@) ==> t@ == ascii_upper_of(s@),
{
    s.to_uppercase()
}

// ---------------------------------------------------------------------------
// Characters at the ends
// ---------------------------------------------------------------------------

/// `s` without the characters `a` and `b` at its end.
pub open spec fn strip_end_of(s: Seq<char>, a: char, b: char) -> Seq<char>
    decreases s.len(),
{
    if s.len() > 0 && (s.last() == a || s.last() == b) {
        strip_end_of(s.drop_last(), a, b)
    } else {
        s
    }
}

/// `s` without the character `a` at its start.
pub open spec fn strip_start_of(s: Seq<char>, a: char) -> Seq<char>
    decreases s.len(),
{
    if s.len() > 0 && s[0] == a {
        strip_start_of(s.drop_first(), a)
    } else {
        s
    }
}

/// `s` without the characters `a` and `b` at its end.
pub fn strip_end(s: &str, a: char, b: char) -> (t: String)
    ensures
        t@ == strip_end_of(s@, a, b),
{
    let v = to_chars(s);
    let mut j: usize = v.len();
    proof {
        assert(v@.subrange(0, v@.len() as int) =~= v@);
    }
    while 0 < j && (v[j - 1] == a || v[j - 1] == b)
        invariant
            j <= v@.len(),
            strip_end_of(s@, a, b) == strip_end_of(v@.subrange(0, j as int), a, b),
        decreases j,
    {
        proof {
            assert(v@.subrange(0, j as int).drop_last() =~= v@.subrange(0, j as int - 1));
        }
        j = j - 1;
    }
    text_of(&v, 0, j)
}

/// `s` without the character `a` at its start.
pub fn strip_start(s: &str, a: char) -> (t: String)
    ensures
        t@ == strip_start_of(s@, a),
{
    let v = to_chars(s);
    let n: usize = v.len();
    let mut i: usize = 0;
    proof {
        assert(v@.subrange(0, n as int) =~= v@);
    }
    while i < n && v[i] == a
        invariant
            i <= n,
            n == v@.len(),
            strip_start_of(s@, a) == strip_start_of(v@.subrange(i as int, n as int), a),
        decreases n - i,
    {
        proof {
            assert(v@.subrange(i as int, n as int).drop_first() =~= v@.subrange(
                i as int + 1,
                n as int,
            ));
        }
        i = i + 1;
    }
    text_of(&v, i, n)
}

/// The first `n` characters of `s`, or all of them.
pub fn first_chars(s: &str, n: usize) -> (t: String)
    ensures
        t@ == if n <= s@.len() {
            s@.take(n as int)
        } else {
            s@
        },
{
    let v = to_chars(s);
    let m: usize = if n <= v.len() {
        n
    } else {
        v.len()
    };
    proof {
        assert(v@.subrange(0, m as int) =~= v@.take(m as int));
        assert(v@.take(v@.len() as int) =~= v@);
    }
    text_of(&v, 0, m)
}

/// Trimming takes off the white space at both ends, all of it and nothing else.
pub proof fn law_trim_takes_off_outer_space(before: Seq<char>, s: Seq<char>, after: Seq<char>)
    requires
        forall|i: int| 0 <= i < before.len() ==> is_space(#[trigger] before[i]),
        forall|i: int| 0 <= i < after.len() ==> is_space(#[trigger] after[i]),
        s.len() > 0 ==> !is_space(s[0]) && !is_space(s.last()),
    ensures
        trim_of(before + s + after) == s,
{
    lemma_trim_start_over(before, s + after);
    assert(before + s + after =~= before + (s + after));
    if s.len() == 0 {
        assert(s + after =~= after + s);
        lemma_trim_start_over(after, s);
        assert(trim_of(before + s + after) =~= s);
    } else {
        assert((s + after)[0] == s[0]);
        lemma_trim_end_over(s, after);
    }
}

/// Leading white space does not matter to what is left without it.
pub proof fn lemma_trim_start_over(before: Seq<char>, s: Seq<char>)
    requires
        forall|i: int| 0 <= i < before.len() ==> is_space(#[trigger] before[i]),
    ensures
        trim_start_of(before + s) == trim_start_of(s),
    decreases before.len(),
{
    if before.len() == 0 {
        assert(before + s =~= s);
    } else {
        assert((before + s)[0] == before[0]);
        assert((before + s).drop_first() =~= before.drop_first() + s);
        lemma_trim_start_over(before.drop_first(), s);
    }
}

proof fn lemma_trim_end_over(s: Seq<char>, after: Seq<char>)
    requires
        forall|i: int| 0 <= i < after.len() ==> is_space(#[trigger] after[i]),
        s.len() > 0,
        !is_space(s.last()),
    ensures
        trim_end_of(s + after) == s,
    decreases after.len(),
{
    if after.len() == 0 {
        assert(s + after =~= s);
    } else {
        assert((s + after).last() == after.last());
        assert((s + after).drop_last() =~= s + after.drop_last());
        lemma_trim_end_over(s, after.drop_last());
    }
}

/// Two texts are the same but for case exactly where they have the same length and each
/// two of their characters are equal, or are the capital and the small form of one ASCII
/// letter.
pub proof fn law_case_is_all_that_may_differ(a: Seq<char>, b: Seq<char>)
    ensures
        same_but_case(a, b) <==> a.len() == b.len() && forall|i: int|
            0 <= i < a.len() ==> #[trigger] a[i] == b[i] || 'A' <= a[i] && a[i] <= 'Z' && b[i] as u32
                == a[i] as u32 + 32 || 'A' <= b[i] && b[i] <= 'Z' && a[i] as u32 == b[i] as u32 + 32,
{
    let x = ascii_lower_of(a);
    let y = ascii_lower_of(b);
    if same_but_case(a, b) {
        assert(x.len() == y.len());
        assert forall|i: int| 0 <= i < a.len() implies #[trigger] a[i] == b[i] || 'A' <= a[i] && a[i]
            <= 'Z' && b[i] as u32 == a[i] as u32 + 32 || 'A' <= b[i] && b[i] <= 'Z' && a[i] as u32
            == b[i] as u32 + 32 by {
            assert(x[i] == y[i]);
        }
    }
    if a.len() == b.len() && forall|i: int|
        0 <= i < a.len() ==> #[trigger] a[i] == b[i] || 'A' <= a[i] && a[i] <= 'Z' && b[i] as u32
            == a[i] as u32 + 32 || 'A' <= b[i] && b[i] <= 'Z' && a[i] as u32 == b[i] as u32 + 32 {
        assert forall|i: int| 0 <= i < a.len() implies x[i] == y[i] by {
            assert(a[i] == a[i]);
        }
        assert(x =~= y);
    }
}

/// Stripping takes off the given characters at the end, all of them and nothing else; so
/// it does at the start.
pub proof fn law_strip_takes_off_the_ends(s: Seq<char>, row: Seq<char>, a: char, b: char)
    requires
        forall|i: int| 0 <= i < row.len() ==> #[trigger] row[i] == a || row[i] == b,
    ensures
        s.len() == 0 || s.last() != a && s.last() != b ==> strip_end_of(s + row, a, b) == s,
        a == b && (s.len() == 0 || s[0] != a) ==> strip_start_of(row + s, a) == s,
    decreases row.len(),
{
    if row.len() == 0 {
        assert(s + row =~= s);
        assert(row + s =~= s);
    } else {
        let less = row.drop_last();
        assert(row[row.len() - 1] == a || row[row.len() - 1] == b);
        assert forall|i: int| 0 <= i < less.len() implies #[trigger] less[i] == a || less[i] == b by {
            assert(row[i] == a || row[i] == b);
        }
        assert((s + row).drop_last() =~= s + less);
        law_strip_takes_off_the_ends(s, less, a, b);
        if a == b {
            assert(row[0] == a);
            assert((row + s).drop_first() =~= less + s) by {
                assert forall|i: int| 0 <= i < less.len() implies row[i + 1] == less[i] by {
                    assert(row[i + 1] == a || row[i + 1] == b);
                    assert(less[i] == a || less[i] == b);
                }
            }
        }
    }
}

/// Of two texts, the one comes first whose byte is lower where they first differ; a text
/// comes before any longer one that begins with it.
pub proof fn law_first_different_byte_decides(
    common: Seq<u8>,
    x: u8,
    y: u8,
    u: Seq<u8>,
    v: Seq<u8>,
)
    ensures
        x != y ==> (lex_less(common.push(x) + u, common.push(y) + v) <==> x < y),
        lex_less(common, common.push(x) + u),
        !lex_less(common.push(x) + u, common),
        forall|a: Seq<char>, b: Seq<char>|
            encode_utf8(a) == common.push(x) + u && encode_utf8(b) == common.push(y) + v && x != y
                ==> (#[trigger] text_less(a, b) <==> x < y),
    decreases common.len(),
{
    let a = common.push(x) + u;
    let b = common.push(y) + v;
    if common.len() == 0 {
        assert(a[0] == x && b[0] == y);
    } else {
        let less = common.drop_first();
        law_first_different_byte_decides(less, x, y, u, v);
        assert(a[0] == common[0] && b[0] == common[0]);
        assert(a.drop_first() =~= less.push(x) + u);
        assert(b.drop_first() =~= less.push(y) + v);
    }
}

/// White space is what Unicode says has that property: the blank, the tab and the other
/// controls that break or feed a line, and the spaces of other widths; nothing that is seen
/// is any.
pub proof fn law_white_space_is_not_seen(c: char)
    ensures
        c == ' ' || c == '\t' || c == '\n' || c == '\r' ==> is_space(c),
        c as u32 == 0x0b || c as u32 == 0x0c || c as u32 == 0x85 || c as u32 == 0xa0 ==> is_space(c),
        c as u32 == 0x1680 || 0x2000 <= c as u32 <= 0x200a || c as u32 == 0x2028 || c as u32 == 0x2029
            ==> is_space(c),
        c as u32 == 0x202f || c as u32 == 0x205f || c as u32 == 0x3000 ==> is_space(c),
        0x21 <= c as u32 <= 0x7e ==> !is_space(c),
        c as u32 > 0x3000 ==> !is_space(c),
        0xa1 <= c as u32 <= 0x167f ==> !is_space(c),
{
}

} // verus!
