//! Order of dotted build stamps (`YYYY.MM.DD.N`): segment by segment, as numbers.
use std::cmp::Ordering;

use vstd::prelude::*;

use crate::number::{
    all_digits,
    i64_of,
    is_digit,
    law_numeral_round_trip,
    law_only_digits_are_numbers,
    parse_i64,
    signed_dec_of,
};
use crate::paths::{joined, law_joined_pieces_are_found_again};
use crate::text::{split, split_on, texts};

verus! {

/// The number that a segment stands for: 0 if it is none.
pub open spec fn segment_number(s: Seq<char>) -> i64 {
    match i64_of(s) {
        Some(n) => n,
        None => 0,
    }
}

/// The numbers of the segments of a version.
pub open spec fn segments_of(version: Seq<char>) -> Seq<i64> {
    let pieces = split_on(version, '.');
    Seq::new(pieces.len(), |i: int| segment_number(pieces[i]))
}

/// The segment at `i`: 0 behind the last one.
pub open spec fn segment_at(v: Seq<i64>, i: int) -> i64 {
    if 0 <= i < v.len() {
        v[i]
    } else {
        0
    }
}

/// Whether the first segment in which `a` and `b` differ is at `i`, and lower in `a`.
pub open spec fn is_lower_at(a: Seq<i64>, b: Seq<i64>, i: int) -> bool {
    &&& 0 <= i
    &&& segment_at(a, i) < segment_at(b, i)
    &&& forall|j: int| 0 <= j < i ==> #[trigger] segment_at(a, j) == segment_at(b, j)
}

/// Whether `a` is older than `b`.
pub open spec fn is_older(a: Seq<i64>, b: Seq<i64>) -> bool {
    exists|i: int| is_lower_at(a, b, i)
}

/// Whether `a` and `b` have the same segments.
pub open spec fn is_same(a: Seq<i64>, b: Seq<i64>) -> bool {
    forall|i: int| 0 <= i ==> #[trigger] segment_at(a, i) == segment_at(b, i)
}

/// How two versions stand to each other.
#[derive(Debug, Clone, Copy, PartialEq, Eq, Structural)]
enum Standing {
    Older,
    Same,
    Newer,
}

fn segments(version: &str) -> (v: Vec<i64>)
    ensures
        v@ == segments_of(version@),
{
    let pieces = split(version, '.');
    let mut v: Vec<i64> = Vec::new();
    let mut i: usize = 0;
    while i < pieces.len()
        invariant
            i <= pieces@.len(),
            texts(pieces@) == split_on(version@, '.'),
            v@.len() == i,
            forall|j: int| 0 <= j < i ==> v@[j] == segment_number(#[trigger] texts(pieces@)[j]),
        decreases pieces@.len() - i,
    {
        proof {
            assert(texts(pieces@)[i as int] == pieces@[i as int]@);
        }
        let n: i64 = match parse_i64(pieces[i].as_str()) {
            Some(n) => n,
            None => 0,
        };
        v.push(n);
        i = i + 1;
    }
    proof {
        assert(v@ =~= segments_of(version@));
    }
    v
}

fn segment(v: &Vec<i64>, i: usize) -> (n: i64)
    ensures
        n == segment_at(v@, i as int),
{
    if i < v.len() {
        v[i]
    } else {
        0
    }
}

fn standing(a: &Vec<i64>, b: &Vec<i64>) -> (s: Standing)
    ensures
        match s {
            Standing::Older => is_older(a@, b@),
            Standing::Same => is_same(a@, b@),
            Standing::Newer => is_older(b@, a@),
        },
{
    let n: usize = if a.len() >= b.len() {
        a.len()
    } else {
        b.len()
    };
    let mut i: usize = 0;
    while i < n
        invariant
            i <= n,
            n >= a@.len(),
            n >= b@.len(),
            forall|j: int| 0 <= j < i ==> #[trigger] segment_at(a@, j) == segment_at(b@, j),
        decreases n - i,
    {
        let x: i64 = segment(a, i);
        let y: i64 = segment(b, i);
        if x < y {
            proof {
                assert(is_lower_at(a@, b@, i as int));
            }
            return Standing::Older;
        }
        if y < x {
            proof {
                assert(is_lower_at(b@, a@, i as int)) by {
                    assert forall|j: int| 0 <= j < i implies #[trigger] segment_at(b@, j)
                        == segment_at(a@, j) by {
                        assert(segment_at(a@, j) == segment_at(b@, j));
                    }
                }
            }
            return Standing::Newer;
        }
        i = i + 1;
    }
    Standing::Same
}

/// Any two versions are the same, or one of them is older; never both, and never each
/// older than the other.
pub proof fn law_versions_stand_one_way(a: Seq<i64>, b: Seq<i64>)
    ensures
        is_older(a, b) || is_same(a, b) || is_older(b, a),
        !(is_older(a, b) && is_older(b, a)),
        !(is_older(a, b) && is_same(a, b)),
        !is_older(a, a),
{
    if is_older(a, b) {
        let i = choose|i: int| is_lower_at(a, b, i);
        if is_older(b, a) {
            let j = choose|j: int| is_lower_at(b, a, j);
            if i < j {
                assert(segment_at(b, i) == segment_at(a, i));
            } else if j < i {
                assert(segment_at(a, j) == segment_at(b, j));
            }
        }
        if is_same(a, b) {
            assert(segment_at(a, i) == segment_at(b, i));
        }
    }
    if is_older(a, a) {
        let i = choose|i: int| is_lower_at(a, a, i);
        assert(segment_at(a, i) < segment_at(a, i));
    }
    lemma_first_difference(a, b, 0);
}

proof fn lemma_first_difference(a: Seq<i64>, b: Seq<i64>, i: int)
    requires
        0 <= i,
        forall|j: int| 0 <= j < i ==> #[trigger] segment_at(a, j) == segment_at(b, j),
    ensures
        is_older(a, b) || is_same(a, b) || is_older(b, a),
    decreases a.len() + b.len() - i,
{
    if i >= a.len() + b.len() {
        assert forall|k: int| 0 <= k implies #[trigger] segment_at(a, k) == segment_at(b, k) by {
            if k >= i {
                assert(k >= a.len() && k >= b.len());
            }
        }
    } else if segment_at(a, i) < segment_at(b, i) {
        assert(is_lower_at(a, b, i));
    } else if segment_at(b, i) < segment_at(a, i) {
        assert forall|j: int| 0 <= j < i implies #[trigger] segment_at(b, j) == segment_at(a, j) by {
            assert(segment_at(a, j) == segment_at(b, j));
        }
        assert(is_lower_at(b, a, i));
    } else {
        lemma_first_difference(a, b, i + 1);
    }
}

/// A version that is older than an older one is older.
pub proof fn law_older_is_transitive(a: Seq<i64>, b: Seq<i64>, c: Seq<i64>)
    requires
        is_older(a, b),
        is_older(b, c),
    ensures
        is_older(a, c),
{
    let i = choose|i: int| is_lower_at(a, b, i);
    let j = choose|j: int| is_lower_at(b, c, j);
    let k = if i <= j {
        i
    } else {
        j
    };
    assert forall|m: int| 0 <= m < k implies #[trigger] segment_at(a, m) == segment_at(c, m) by {
        assert(segment_at(a, m) == segment_at(b, m));
        assert(segment_at(b, m) == segment_at(c, m));
    }
    if i < j {
        assert(segment_at(b, i) == segment_at(c, i));
    } else if j < i {
        assert(segment_at(a, j) == segment_at(b, j));
    }
    assert(is_lower_at(a, c, k));
}

/// How the version `a` stands to the version `b`.
pub fn version_compare(a: &str, b: &str) -> (r: Ordering)
    ensures
        r == Ordering::Less <==> is_older(segments_of(a@), segments_of(b@)),
        r == Ordering::Equal <==> is_same(segments_of(a@), segments_of(b@)),
        r == Ordering::Greater <==> is_older(segments_of(b@), segments_of(a@)),
{
    let pa = segments(a);
    let pb = segments(b);
    proof {
        law_versions_stand_one_way(pa@, pb@);
        law_versions_stand_one_way(pb@, pa@);
    }
    match standing(&pa, &pb) {
        Standing::Older => Ordering::Less,
        Standing::Same => {
            proof {
                assert(is_same(pb@, pa@)) by {
                    assert forall|i: int| 0 <= i implies #[trigger] segment_at(pb@, i)
                        == segment_at(pa@, i) by {
                        assert(segment_at(pa@, i) == segment_at(pb@, i));
                    }
                }
            }
            Ordering::Equal
        },
        Standing::Newer => Ordering::Greater,
    }
}

/// Whether `latest` is newer than `installed`.
pub fn is_newer(latest: &str, installed: &str) -> (yes: bool)
    ensures
        yes == is_older(segments_of(installed@), segments_of(latest@)),
{
    let a = segments(latest);
    let b = segments(installed);
    proof {
        law_versions_stand_one_way(a@, b@);
        law_versions_stand_one_way(b@, a@);
    }
    match standing(&a, &b) {
        Standing::Newer => true,
        Standing::Older => false,
        Standing::Same => {
            proof {
                assert(is_same(b@, a@)) by {
                    assert forall|i: int| 0 <= i implies #[trigger] segment_at(b@, i) == segment_at(
                        a@,
                        i,
                    ) by {
                        assert(segment_at(a@, i) == segment_at(b@, i));
                    }
                }
            }
            false
        },
    }
}

/// The version text that has the given segments.
pub open spec fn dotted(numbers: Seq<i64>) -> Seq<char> {
    joined(Seq::new(numbers.len(), |i: int| signed_dec_of(numbers[i] as int)), '.')
}

/// Each dotted segment of a version counts: a text made of numerals with dots between
/// them has exactly those numbers as its segments.
pub proof fn law_each_segment_counts(numbers: Seq<i64>)
    requires
        numbers.len() > 0,
    ensures
        segments_of(dotted(numbers)) == numbers,
{
    let pieces = Seq::new(numbers.len(), |i: int| signed_dec_of(numbers[i] as int));
    assert forall|k: int| 0 <= k < pieces.len() implies !(#[trigger] pieces[k]).contains('.') by {
        lemma_numeral_has_no_dot(numbers[k]);
    }
    law_joined_pieces_are_found_again(pieces, '.');
    assert forall|i: int| 0 <= i < numbers.len() implies segments_of(dotted(numbers))[i]
        == numbers[i] by {
        law_numeral_round_trip(numbers[i]);
    }
    assert(segments_of(dotted(numbers)) =~= numbers);
}

proof fn lemma_numeral_has_no_dot(n: i64)
    ensures
        !signed_dec_of(n as int).contains('.'),
{
    let s = signed_dec_of(n as int);
    law_numeral_round_trip(n);
    law_only_digits_are_numbers(s);
    if s.contains('.') {
        let i = choose|i: int| 0 <= i < s.len() && s[i] == '.';
        if all_digits(s) {
            assert(is_digit(s[i]));
        } else {
            assert(i > 0);
            assert(is_digit(s.drop_first()[i - 1]));
        }
    }
}

/// Two versions that first differ in one segment stand to each other as the numbers there
/// do, whatever comes behind them and however far behind that segment stands.
pub proof fn law_first_different_segment_decides(
    common: Seq<i64>,
    x: i64,
    y: i64,
    behind_x: Seq<i64>,
    behind_y: Seq<i64>,
)
    requires
        x != y,
    ensures
        ({
            let a = segments_of(dotted(common.push(x) + behind_x));
            let b = segments_of(dotted(common.push(y) + behind_y));
            &&& is_older(a, b) <==> x < y
            &&& is_older(b, a) <==> y < x
            &&& !is_same(a, b)
        }),
{
    let a = common.push(x) + behind_x;
    let b = common.push(y) + behind_y;
    law_each_segment_counts(a);
    law_each_segment_counts(b);
    law_versions_stand_one_way(a, b);
    let n = common.len() as int;
    assert(segment_at(a, n) == x);
    assert(segment_at(b, n) == y);
    assert forall|j: int| 0 <= j < n implies #[trigger] segment_at(a, j) == segment_at(b, j) by {
        assert(a[j] == common[j]);
        assert(b[j] == common[j]);
    }
    if x < y {
        assert(is_lower_at(a, b, n));
    } else {
        assert forall|j: int| 0 <= j < n implies #[trigger] segment_at(b, j) == segment_at(a, j) by {
            assert(segment_at(a, j) == segment_at(b, j));
        }
        assert(is_lower_at(b, a, n));
    }
}

/// A version with more segments than another is newer where the first number that it adds
/// and that is not 0 is positive; segments that are 0 change nothing.
pub proof fn law_added_segment_counts(numbers: Seq<i64>, zeros: Seq<i64>, x: i64)
    requires
        numbers.len() > 0,
        forall|i: int| 0 <= i < zeros.len() ==> #[trigger] zeros[i] == 0,
    ensures
        is_same(segments_of(dotted(numbers)), segments_of(dotted(numbers + zeros))),
        is_older(segments_of(dotted(numbers)), segments_of(dotted((numbers + zeros).push(x)))) <==> x
            > 0,
{
    let a = numbers;
    let b = numbers + zeros;
    let c = b.push(x);
    law_each_segment_counts(a);
    law_each_segment_counts(b);
    law_each_segment_counts(c);
    assert forall|i: int| 0 <= i implies #[trigger] segment_at(a, i) == segment_at(b, i) by {
        if a.len() <= i < b.len() {
            assert(b[i] == zeros[i - a.len()]);
        }
    }
    let n = b.len() as int;
    assert forall|j: int| 0 <= j < n implies #[trigger] segment_at(a, j) == segment_at(c, j) by {
        assert(segment_at(a, j) == segment_at(b, j));
    }
    assert(segment_at(a, n) == 0);
    assert(segment_at(c, n) == x);
    if x > 0 {
        assert(is_lower_at(a, c, n));
    } else if is_older(a, c) {
        let i = choose|i: int| is_lower_at(a, c, i);
        if i < n {
            assert(segment_at(a, i) == segment_at(c, i));
        } else if i > n {
            assert(segment_at(a, i) == 0);
            assert(segment_at(c, i) == 0);
        }
    }
}

/// A segment that is no number counts as 0, and only that segment.
pub proof fn law_odd_segment_counts_as_zero(pieces: Seq<Seq<char>>, k: int)
    requires
        0 <= k < pieces.len(),
        forall|i: int| 0 <= i < pieces.len() ==> !(#[trigger] pieces[i]).contains('.'),
        i64_of(pieces[k]) is None,
    ensures
        segments_of(joined(pieces, '.')).len() == pieces.len(),
        segments_of(joined(pieces, '.'))[k] == 0,
        forall|i: int|
            0 <= i < pieces.len() && (#[trigger] i64_of(pieces[i])) is Some ==> segments_of(
                joined(pieces, '.'),
            )[i] == i64_of(pieces[i])->0,
{
    law_joined_pieces_are_found_again(pieces, '.');
}

} // verus!
