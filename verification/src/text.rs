//! The order and equality of strings, as executable code holds them.
//!
//! A string is viewed as its sequence of characters. Its place in the order
//! is that of its UTF-8 encoding among byte sequences, which is the order
//! that `str` has in Rust.

use vstd::prelude::*;
use vstd::relations::*;
use vstd::seq_lib::*;
use vstd::string::*;
use vstd::utf8::*;

verus! {

/// Lexicographic order on byte sequences: `a` comes strictly before `b`.
pub open spec fn bytes_before(a: Seq<u8>, b: Seq<u8>) -> bool
    decreases a.len(),
{
    if b.len() == 0 {
        false
    } else if a.len() == 0 {
        true
    } else if a[0] != b[0] {
        a[0] < b[0]
    } else {
        bytes_before(a.drop_first(), b.drop_first())
    }
}

/// The order of strings: `a` comes strictly before `b` when its UTF-8
/// encoding comes before that of `b`, byte by byte.
pub open spec fn precedes(a: Seq<char>, b: Seq<char>) -> bool {
    bytes_before(encode_utf8(a), encode_utf8(b))
}

/// The relation "`a` is no earlier than `b`", by which a sequence of strings
/// is arranged from the last in the order to the first.
pub open spec fn no_earlier() -> spec_fn(Seq<char>, Seq<char>) -> bool {
    |a: Seq<char>, b: Seq<char>| !precedes(a, b)
}

proof fn lemma_bytes_irreflexive(a: Seq<u8>)
    ensures
        !bytes_before(a, a),
    decreases a.len(),
{
    if a.len() > 0 {
        lemma_bytes_irreflexive(a.drop_first());
    }
}

proof fn lemma_bytes_transitive(a: Seq<u8>, b: Seq<u8>, c: Seq<u8>)
    requires
        bytes_before(a, b),
        bytes_before(b, c),
    ensures
        bytes_before(a, c),
    decreases a.len(),
{
    if a.len() > 0 && a[0] == b[0] && b[0] == c[0] {
        lemma_bytes_transitive(a.drop_first(), b.drop_first(), c.drop_first());
    }
}

proof fn lemma_bytes_connected(a: Seq<u8>, b: Seq<u8>)
    ensures
        bytes_before(a, b) || bytes_before(b, a) || a == b,
    decreases a.len(),
{
    if a.len() == 0 || b.len() == 0 {
        if a.len() == 0 && b.len() == 0 {
            assert(a =~= b);
        }
    } else if a[0] == b[0] {
        lemma_bytes_connected(a.drop_first(), b.drop_first());
        if a.drop_first() == b.drop_first() {
            assert(a =~= seq![a[0]] + a.drop_first());
            assert(b =~= seq![b[0]] + b.drop_first());
        }
    }
}

/// Two strings with the same encoding are the same string.
pub proof fn lemma_encoding_injective(a: Seq<char>, b: Seq<char>)
    requires
        encode_utf8(a) == encode_utf8(b),
    ensures
        a == b,
{
    encode_utf8_decode_utf8(a);
    encode_utf8_decode_utf8(b);
}

/// No string comes before itself.
pub proof fn lemma_precedes_irreflexive(a: Seq<char>)
    ensures
        !precedes(a, a),
{
    lemma_bytes_irreflexive(encode_utf8(a));
}

/// What comes before an earlier string comes before a later one.
pub proof fn lemma_precedes_transitive(a: Seq<char>, b: Seq<char>, c: Seq<char>)
    requires
        precedes(a, b),
        precedes(b, c),
    ensures
        precedes(a, c),
{
    lemma_bytes_transitive(encode_utf8(a), encode_utf8(b), encode_utf8(c));
}

/// Of two different strings one comes before the other.
pub proof fn lemma_precedes_connected(a: Seq<char>, b: Seq<char>)
    ensures
        precedes(a, b) || precedes(b, a) || a == b,
{
    lemma_bytes_connected(encode_utf8(a), encode_utf8(b));
    if encode_utf8(a) == encode_utf8(b) {
        lemma_encoding_injective(a, b);
    }
}

/// Of two strings at most one comes before the other.
pub proof fn lemma_precedes_asymmetric(a: Seq<char>, b: Seq<char>)
    ensures
        !(precedes(a, b) && precedes(b, a)),
{
    if precedes(a, b) && precedes(b, a) {
        lemma_precedes_transitive(a, b, a);
        lemma_precedes_irreflexive(a);
    }
}

/// "No earlier than" is a total order on strings.
pub proof fn lemma_no_earlier_is_total()
    ensures
        total_ordering(no_earlier()),
{
    let r = no_earlier();
    assert forall|a: Seq<char>| #[trigger] r(a, a) by {
        lemma_precedes_irreflexive(a);
    }
    assert forall|a: Seq<char>, b: Seq<char>| #[trigger] r(a, b) && #[trigger] r(b, a) implies a
        == b by {
        lemma_precedes_connected(a, b);
    }
    assert forall|a: Seq<char>, b: Seq<char>, c: Seq<char>| #[trigger]
        r(a, b) && #[trigger] r(b, c) implies r(a, c) by {
        if precedes(a, c) {
            lemma_precedes_connected(a, b);
            lemma_precedes_connected(b, c);
            if precedes(b, a) {
                lemma_precedes_transitive(b, a, c);
            }
        }
    }
    assert forall|a: Seq<char>, b: Seq<char>| #[trigger] r(a, b) || #[trigger] r(b, a) by {
        lemma_precedes_asymmetric(a, b);
    }
}

/// Whether two strings hold the same text.
pub fn str_eq(a: &str, b: &str) -> (r: bool)
    ensures
        r == (a@ == b@),
{
    let x = a.as_bytes();
    let y = b.as_bytes();
    if x.len() != y.len() {
        return false;
    }
    let mut i: usize = 0;
    while i < x.len()
        invariant
            i <= x.len(),
            x.len() == y.len(),
            x@ == a.spec_bytes(),
            y@ == b.spec_bytes(),
            forall|k: int| 0 <= k < i ==> x@[k] == y@[k],
        decreases x.len() - i,
    {
        if x[i] != y[i] {
            return false;
        }
        i += 1;
    }
    proof {
        assert(x@ =~= y@);
        lemma_encoding_injective(a@, b@);
    }
    true
}

/// Whether `a` comes strictly before `b` in the order of strings.
pub fn str_before(a: &str, b: &str) -> (r: bool)
    ensures
        r == precedes(a@, b@),
{
    let x = a.as_bytes();
    let y = b.as_bytes();
    let mut i: usize = 0;
    assert(x@.skip(0) =~= x@ && y@.skip(0) =~= y@);
    while i < x.len() && i < y.len()
        invariant
            i <= x.len(),
            i <= y.len(),
            x@ == a.spec_bytes(),
            y@ == b.spec_bytes(),
            bytes_before(x@, y@) == bytes_before(x@.skip(i as int), y@.skip(i as int)),
        decreases x.len() - i,
    {
        if x[i] != y[i] {
            return x[i] < y[i];
        }
        assert(x@.skip(i as int).drop_first() =~= x@.skip(i + 1));
        assert(y@.skip(i as int).drop_first() =~= y@.skip(i + 1));
        i += 1;
    }
    i < y.len()
}

/// The texts of a list of strings.
pub open spec fn texts(keys: Seq<&String>) -> Seq<Seq<char>> {
    keys.map_values(|k: &String| k@)
}

/// Whether no string of a sequence comes before one that stands after it.
pub open spec fn descending(s: Seq<Seq<char>>) -> bool {
    forall|i: int, j: int| 0 <= i < j < s.len() ==> !precedes(#[trigger] s[i], #[trigger] s[j])
}

/// The strings of a sequence arranged from the last in the order to the
/// first.
pub open spec fn newest_first(s: Seq<Seq<char>>) -> Seq<Seq<char>> {
    s.sort_by(no_earlier())
}

/// The arrangement from the last to the first holds the same strings as
/// often as the sequence itself, none of them before one that stands after
/// it, and it is the only arrangement of which this is true.
pub proof fn lemma_newest_first(s: Seq<Seq<char>>)
    ensures
        newest_first(s).to_multiset() == s.to_multiset(),
        newest_first(s).len() == s.len(),
        descending(newest_first(s)),
        forall|k: int| 0 <= k < s.len() ==> s.contains(#[trigger] newest_first(s)[k]),
        forall|other: Seq<Seq<char>>|
            other.to_multiset() == s.to_multiset() && descending(other) ==> other == newest_first(
                s,
            ),
{
    broadcast use group_to_multiset_ensures;

    lemma_no_earlier_is_total();
    s.lemma_sort_by_ensures(no_earlier());
    let sorted = newest_first(s);
    assert(sorted.len() == s.len()) by {
        sorted.to_multiset_ensures();
        s.to_multiset_ensures();
    }
    assert forall|k: int| 0 <= k < s.len() implies s.contains(#[trigger] sorted[k]) by {
        assert(sorted.contains(sorted[k]));
    }
    assert forall|i: int, j: int| 0 <= i < j < sorted.len() implies !precedes(
        #[trigger] sorted[i],
        #[trigger] sorted[j],
    ) by {
        assert(no_earlier()(sorted[i], sorted[j]));
    }
    assert forall|other: Seq<Seq<char>>|
        other.to_multiset() == s.to_multiset() && descending(other) implies other == sorted by {
        assert(sorted_by(other, no_earlier()));
        lemma_sorted_unique(other, sorted, no_earlier());
    }
}

/// Merges two descending lists into one.
fn merge<'a>(left: &Vec<&'a String>, right: &Vec<&'a String>) -> (r: Vec<&'a String>)
    requires
        descending(texts(left@)),
        descending(texts(right@)),
    ensures
        descending(texts(r@)),
        texts(r@).to_multiset() == texts(left@).to_multiset().add(texts(right@).to_multiset()),
{
    broadcast use group_to_multiset_ensures;
    broadcast use vstd::multiset::group_multiset_axioms;

    let ghost l = texts(left@);
    let ghost r = texts(right@);
    let mut out: Vec<&'a String> = Vec::new();
    let mut i: usize = 0;
    let mut j: usize = 0;
    assert(l.take(0) =~= Seq::<Seq<char>>::empty());
    assert(r.take(0) =~= Seq::<Seq<char>>::empty());
    assert(texts(out@) =~= Seq::<Seq<char>>::empty());
    assert(texts(out@).to_multiset() =~= l.take(0).to_multiset().add(r.take(0).to_multiset()));
    while i < left.len() || j < right.len()
        invariant
            i <= left.len(),
            j <= right.len(),
            l == texts(left@),
            r == texts(right@),
            descending(l),
            descending(r),
            descending(texts(out@)),
            texts(out@).to_multiset() == l.take(i as int).to_multiset().add(
                r.take(j as int).to_multiset(),
            ),
            forall|k: int|
                0 <= k < out@.len() && i < l.len() ==> !precedes(
                    #[trigger] texts(out@)[k],
                    l[i as int],
                ),
            forall|k: int|
                0 <= k < out@.len() && j < r.len() ==> !precedes(
                    #[trigger] texts(out@)[k],
                    r[j as int],
                ),
        decreases left.len() - i + right.len() - j,
    {
        let ghost before = texts(out@);
        let from_left = if j == right.len() {
            true
        } else if i == left.len() {
            false
        } else {
            !str_before(left[i].as_str(), right[j].as_str())
        };
        if from_left {
            let x = left[i];
            out.push(x);
            proof {
                assert(texts(out@) =~= before.push(x@));
                assert(l.take(i + 1) =~= l.take(i as int).push(x@));
                to_multiset_build(before, x@);
                to_multiset_build(l.take(i as int), x@);
                assert(texts(out@).to_multiset() =~= l.take(i + 1).to_multiset().add(
                    r.take(j as int).to_multiset(),
                ));
                assert forall|k: int| 0 <= k < out@.len() && i + 1 < l.len() implies !precedes(
                    #[trigger] texts(out@)[k],
                    l[i + 1],
                ) by {
                    if precedes(texts(out@)[k], l[i + 1]) {
                        lemma_precedes_connected(x@, texts(out@)[k]);
                        if precedes(x@, texts(out@)[k]) {
                            lemma_precedes_transitive(x@, texts(out@)[k], l[i + 1]);
                        }
                        assert(!precedes(l[i as int], l[i + 1]));
                    }
                }
            }
            i += 1;
        } else {
            let x = right[j];
            out.push(x);
            proof {
                assert(texts(out@) =~= before.push(x@));
                assert(r.take(j + 1) =~= r.take(j as int).push(x@));
                to_multiset_build(before, x@);
                to_multiset_build(r.take(j as int), x@);
                assert(texts(out@).to_multiset() =~= l.take(i as int).to_multiset().add(
                    r.take(j + 1).to_multiset(),
                ));
                if i < l.len() {
                    lemma_precedes_asymmetric(l[i as int], x@);
                }
                assert forall|k: int| 0 <= k < out@.len() && j + 1 < r.len() implies !precedes(
                    #[trigger] texts(out@)[k],
                    r[j + 1],
                ) by {
                    if precedes(texts(out@)[k], r[j + 1]) {
                        lemma_precedes_connected(x@, texts(out@)[k]);
                        if precedes(x@, texts(out@)[k]) {
                            lemma_precedes_transitive(x@, texts(out@)[k], r[j + 1]);
                        }
                        assert(!precedes(r[j as int], r[j + 1]));
                    }
                }
            }
            j += 1;
        }
    }
    assert(l.take(i as int) =~= l);
    assert(r.take(j as int) =~= r);
    out
}

/// Sorts the part of a list from `lo` up to `hi`, the last in the order
/// first.
fn sort_range<'a>(keys: &Vec<&'a String>, lo: usize, hi: usize) -> (r: Vec<&'a String>)
    requires
        lo <= hi <= keys.len(),
    ensures
        descending(texts(r@)),
        texts(r@).to_multiset() == texts(keys@.subrange(lo as int, hi as int)).to_multiset(),
    decreases hi - lo,
{
    broadcast use group_to_multiset_ensures;

    if hi - lo <= 1 {
        let mut out: Vec<&'a String> = Vec::new();
        if hi - lo == 1 {
            out.push(keys[lo]);
        }
        assert(texts(out@) =~= texts(keys@.subrange(lo as int, hi as int)));
        out
    } else {
        let mid = lo + (hi - lo) / 2;
        let left = sort_range(keys, lo, mid);
        let right = sort_range(keys, mid, hi);
        proof {
            let a = texts(keys@.subrange(lo as int, mid as int));
            let b = texts(keys@.subrange(mid as int, hi as int));
            assert(texts(keys@.subrange(lo as int, hi as int)) =~= a + b);
            lemma_multiset_commutative(a, b);
        }
        merge(&left, &right)
    }
}

/// Arranges a list of strings from the last in the order to the first.
pub fn sort_newest_first<'a>(keys: &Vec<&'a String>) -> (r: Vec<&'a String>)
    ensures
        texts(r@) == newest_first(texts(keys@)),
{
    let r = sort_range(keys, 0, keys.len());
    proof {
        assert(keys@.subrange(0, keys@.len() as int) =~= keys@);
        lemma_newest_first(texts(keys@));
    }
    r
}

} // verus!
