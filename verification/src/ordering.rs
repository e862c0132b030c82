//! The order of a listing: paths compared as byte strings, and a sort that
//! puts a listing into that order.

use vstd::multiset::Multiset;
use vstd::prelude::*;
use vstd::string::StringSliceAdditionalSpecFns;
use vstd::utf8::{encode_utf8, encode_utf8_decode_utf8};

verus! {

/// Lexicographic order on byte strings: `a` comes before `b` when `a` is a
/// proper prefix of `b`, or holds the smaller byte at the first place where
/// the two differ.
pub open spec fn bytes_precede(a: Seq<u8>, b: Seq<u8>) -> bool
    decreases a.len(),
{
    if b.len() == 0 {
        false
    } else if a.len() == 0 {
        true
    } else if a[0] != b[0] {
        a[0] < b[0]
    } else {
        bytes_precede(a.drop_first(), b.drop_first())
    }
}

/// True when `a` and `b` agree on their first `k` bytes and no further.
pub open spec fn is_common_prefix_len(a: Seq<u8>, b: Seq<u8>, k: int) -> bool {
    &&& 0 <= k <= a.len()
    &&& k <= b.len()
    &&& forall|i: int| 0 <= i < k ==> a[i] == b[i]
    &&& (k < a.len() && k < b.len() ==> a[k] != b[k])
}

/// The place where two byte strings part decides their order: `a` comes
/// before `b` when `a` ends there and `b` goes on, or holds the smaller byte.
pub proof fn lemma_first_difference_decides(a: Seq<u8>, b: Seq<u8>, k: int)
    requires
        is_common_prefix_len(a, b, k),
    ensures
        bytes_precede(a, b) <==> k < b.len() && (k == a.len() || a[k] < b[k]),
    decreases k,
{
    if k > 0 {
        let a_rest = a.drop_first();
        let b_rest = b.drop_first();
        assert(a[0] == b[0]);
        assert forall|i: int| 0 <= i < k - 1 implies a_rest[i] == b_rest[i] by {
            assert(a_rest[i] == a[i + 1] && b_rest[i] == b[i + 1]);
        }
        if k < a.len() {
            assert(a_rest[k - 1] == a[k]);
        }
        if k < b.len() {
            assert(b_rest[k - 1] == b[k]);
        }
        lemma_first_difference_decides(a_rest, b_rest, k - 1);
    }
}

/// The order of paths: that of their UTF-8 bytes.
pub open spec fn path_precedes(a: Seq<char>, b: Seq<char>) -> bool {
    bytes_precede(encode_utf8(a), encode_utf8(b))
}

/// No byte string comes before itself, and of two at most one comes first.
pub proof fn lemma_bytes_asymmetric(a: Seq<u8>, b: Seq<u8>)
    ensures
        !(bytes_precede(a, b) && bytes_precede(b, a)),
    decreases a.len(),
{
    if a.len() > 0 && b.len() > 0 && a[0] == b[0] {
        lemma_bytes_asymmetric(a.drop_first(), b.drop_first());
    }
}

/// What comes before something that comes before `c` comes before `c`.
pub proof fn lemma_bytes_transitive(a: Seq<u8>, b: Seq<u8>, c: Seq<u8>)
    requires
        bytes_precede(a, b),
        bytes_precede(b, c),
    ensures
        bytes_precede(a, c),
    decreases a.len(),
{
    if a.len() > 0 && a[0] == b[0] && b[0] == c[0] {
        lemma_bytes_transitive(a.drop_first(), b.drop_first(), c.drop_first());
    }
}

/// Two byte strings of which neither comes first are the same.
pub proof fn lemma_bytes_total(a: Seq<u8>, b: Seq<u8>)
    requires
        !bytes_precede(a, b),
        !bytes_precede(b, a),
    ensures
        a == b,
    decreases a.len(),
{
    if a.len() > 0 && b.len() > 0 {
        lemma_bytes_total(a.drop_first(), b.drop_first());
        assert(a =~= seq![a[0]] + a.drop_first());
        assert(b =~= seq![b[0]] + b.drop_first());
    } else {
        assert(a =~= b);
    }
}

/// Of two paths at most one comes before the other.
pub proof fn lemma_path_asymmetric(a: Seq<char>, b: Seq<char>)
    ensures
        !(path_precedes(a, b) && path_precedes(b, a)),
{
    lemma_bytes_asymmetric(encode_utf8(a), encode_utf8(b));
}

/// The order of paths is transitive.
pub proof fn lemma_path_transitive(a: Seq<char>, b: Seq<char>, c: Seq<char>)
    requires
        path_precedes(a, b),
        path_precedes(b, c),
    ensures
        path_precedes(a, c),
{
    lemma_bytes_transitive(encode_utf8(a), encode_utf8(b), encode_utf8(c));
}

/// Two paths of which neither comes first are the same path.
pub proof fn lemma_path_total(a: Seq<char>, b: Seq<char>)
    requires
        !path_precedes(a, b),
        !path_precedes(b, a),
    ensures
        a == b,
{
    lemma_bytes_total(encode_utf8(a), encode_utf8(b));
    encode_utf8_decode_utf8(a);
    encode_utf8_decode_utf8(b);
}

/// If `c` does not come before `b`, nor `b` before `a`, then `c` does not
/// come before `a`.
pub proof fn lemma_path_not_before_transitive(a: Seq<char>, b: Seq<char>, c: Seq<char>)
    requires
        !path_precedes(b, a),
        !path_precedes(c, b),
    ensures
        !path_precedes(c, a),
{
    if path_precedes(c, a) {
        if path_precedes(b, c) {
            lemma_path_transitive(b, c, a);
        } else {
            lemma_path_total(b, c);
        }
    }
}

/// Tells whether the path `a` comes before the path `b`.
pub fn precedes(a: &str, b: &str) -> (r: bool)
    ensures
        r == path_precedes(a@, b@),
{
    let x = a.as_bytes();
    let y = b.as_bytes();
    let mut i: usize = 0;
    while i < x.len() && i < y.len() && x[i] == y[i]
        invariant
            i <= x@.len(),
            i <= y@.len(),
            forall|j: int| 0 <= j < i ==> x@[j] == y@[j],
        decreases x@.len() - i,
    {
        i = i + 1;
    }
    proof {
        lemma_first_difference_decides(x@, y@, i as int);
    }
    if i == y.len() {
        false
    } else if i == x.len() {
        true
    } else {
        x[i] < y[i]
    }
}

/// The paths of a listing as texts, in the listing's order.
pub open spec fn texts(paths: Seq<String>) -> Seq<Seq<char>> {
    paths.map_values(|p: String| p@)
}

/// True when no path of the listing comes before one that stands earlier.
pub open spec fn ascending(paths: Seq<Seq<char>>) -> bool {
    forall|i: int, j: int| 0 <= i < j < paths.len() ==> !path_precedes(paths[j], paths[i])
}

/// True when each path of the listing comes before all that stand later.
pub open spec fn strictly_ascending(paths: Seq<Seq<char>>) -> bool {
    forall|i: int, j: int| 0 <= i < j < paths.len() ==> path_precedes(paths[i], paths[j])
}

/// True when no path of the listing comes before one that stands later.
spec fn descending(paths: Seq<Seq<char>>) -> bool {
    forall|i: int, j: int| 0 <= i < j < paths.len() ==> !path_precedes(paths[i], paths[j])
}

/// True when no path of `high` comes before a path of `low`.
spec fn none_above(low: Seq<Seq<char>>, high: Seq<Seq<char>>) -> bool {
    forall|i: int, j: int|
        0 <= i < low.len() && 0 <= j < high.len() ==> !path_precedes(high[j], low[i])
}

/// An ascending listing in which no path occurs twice ascends strictly.
pub proof fn lemma_ascending_distinct_is_strict(paths: Seq<Seq<char>>)
    requires
        ascending(paths),
        paths.no_duplicates(),
    ensures
        strictly_ascending(paths),
{
    assert forall|i: int, j: int| 0 <= i < j < paths.len() implies path_precedes(
        paths[i],
        paths[j],
    ) by {
        if !path_precedes(paths[i], paths[j]) {
            lemma_path_total(paths[i], paths[j]);
        }
    }
}

/// A rearrangement of a listing without duplicates has none either.
pub proof fn lemma_rearranged_distinct(before: Seq<Seq<char>>, after: Seq<Seq<char>>)
    requires
        before.no_duplicates(),
        after.to_multiset() == before.to_multiset(),
    ensures
        after.no_duplicates(),
{
    before.lemma_multiset_has_no_duplicates();
    after.lemma_multiset_has_no_duplicates_conv();
}

/// Two ascending listings of the same paths are the same listing: the order
/// leaves one way only to arrange them.
pub proof fn lemma_ascending_is_unique(one: Seq<Seq<char>>, other: Seq<Seq<char>>)
    requires
        ascending(one),
        ascending(other),
        one.to_multiset() == other.to_multiset(),
    ensures
        one == other,
{
    let not_after = |a: Seq<char>, b: Seq<char>| !path_precedes(b, a);
    assert forall|a: Seq<char>| #[trigger] not_after(a, a) by {
        lemma_path_asymmetric(a, a);
    }
    assert forall|a: Seq<char>, b: Seq<char>| #[trigger]
        not_after(a, b) && #[trigger] not_after(b, a) implies a == b by {
        lemma_path_total(a, b);
    }
    assert forall|a: Seq<char>, b: Seq<char>, c: Seq<char>| #[trigger]
        not_after(a, b) && #[trigger] not_after(b, c) implies not_after(a, c) by {
        lemma_path_not_before_transitive(a, b, c);
    }
    assert forall|a: Seq<char>, b: Seq<char>| #[trigger]
        not_after(a, b) || #[trigger] not_after(b, a) by {
        lemma_path_asymmetric(a, b);
    }
    assert(vstd::relations::sorted_by(one, not_after));
    assert(vstd::relations::sorted_by(other, not_after));
    vstd::seq_lib::lemma_sorted_unique(one, other, not_after);
}

/// Read backwards, a descending listing ascends.
proof fn lemma_reverse_of_descending(paths: Seq<Seq<char>>)
    requires
        descending(paths),
    ensures
        ascending(paths.reverse()),
        paths.reverse().to_multiset() == paths.to_multiset(),
{
    let back = paths.reverse();
    assert forall|i: int, j: int| 0 <= i < j < back.len() implies !path_precedes(
        back[j],
        back[i],
    ) by {
        assert(back[j] == paths[paths.len() - 1 - j]);
        assert(back[i] == paths[paths.len() - 1 - i]);
    }
    paths.lemma_reverse_to_multiset();
}

/// Moving the last path of `source` to the end of `merged` keeps what the
/// merge maintains, where that path is not before the last of `other`.
proof fn lemma_move_last(
    source: Seq<Seq<char>>,
    other: Seq<Seq<char>>,
    merged: Seq<Seq<char>>,
)
    requires
        source.len() > 0,
        ascending(source),
        ascending(other),
        descending(merged),
        none_above(source, merged),
        none_above(other, merged),
        other.len() > 0 ==> !path_precedes(source.last(), other.last()),
    ensures
        ascending(source.drop_last()),
        descending(merged.push(source.last())),
        none_above(source.drop_last(), merged.push(source.last())),
        none_above(other, merged.push(source.last())),
        source.drop_last().to_multiset().insert(source.last()) == source.to_multiset(),
{
    let moved = source.last();
    let rest = source.drop_last();
    let grown = merged.push(moved);
    assert forall|i: int, j: int| 0 <= i < j < grown.len() implies !path_precedes(
        grown[i],
        grown[j],
    ) by {
        if j == merged.len() {
            assert(grown[i] == merged[i]);
        }
    }
    assert forall|i: int, j: int| 0 <= i < rest.len() && 0 <= j < grown.len() implies !path_precedes(
        grown[j],
        rest[i],
    ) by {
        assert(rest[i] == source[i]);
    }
    assert forall|i: int, j: int| 0 <= i < other.len() && 0 <= j < grown.len() implies !path_precedes(
        grown[j],
        other[i],
    ) by {
        if j == merged.len() && i < other.len() - 1 {
            lemma_path_not_before_transitive(other[i], other.last(), moved);
        }
    }
    assert(rest.push(moved) =~= source);
    vstd::seq_lib::to_multiset_build(rest, moved);
}

/// The empty listing holds no path.
proof fn lemma_empty_listing()
    ensures
        Seq::<Seq<char>>::empty().to_multiset() == Multiset::<Seq<char>>::empty(),
{
    let none = Seq::<Seq<char>>::empty().to_multiset();
    vstd::seq_lib::to_multiset_len(Seq::<Seq<char>>::empty());
    vstd::multiset::lemma_multiset_empty_len(none);
    assert(none =~= Multiset::<Seq<char>>::empty());
}

/// Moves the paths out of `paths`, last first.
fn reversed(paths: Vec<String>) -> (r: Vec<String>)
    ensures
        r@ == paths@.reverse(),
{
    let mut rest = paths;
    let mut out: Vec<String> = Vec::new();
    while rest.len() > 0
        invariant
            rest@.len() + out@.len() == paths@.len(),
            forall|i: int| 0 <= i < rest@.len() ==> rest@[i] == paths@[i],
            forall|i: int| 0 <= i < out@.len() ==> out@[i] == paths@[paths@.len() - 1 - i],
        decreases rest@.len(),
    {
        let last = rest.pop().unwrap();
        out.push(last);
    }
    assert(out@ =~= paths@.reverse());
    out
}

/// Merges two ascending listings into one that descends.
fn merge_descending(left: Vec<String>, right: Vec<String>) -> (r: Vec<String>)
    requires
        ascending(texts(left@)),
        ascending(texts(right@)),
    ensures
        descending(texts(r@)),
        texts(r@).to_multiset() == texts(left@).to_multiset().add(texts(right@).to_multiset()),
{
    let mut left = left;
    let mut right = right;
    let ghost all = texts(left@).to_multiset().add(texts(right@).to_multiset());
    let mut merged: Vec<String> = Vec::new();
    proof {
        assert(texts(merged@) =~= Seq::<Seq<char>>::empty());
        lemma_empty_listing();
        assert(all.add(Multiset::<Seq<char>>::empty()) =~= all);
    }
    while left.len() > 0 || right.len() > 0
        invariant
            ascending(texts(left@)),
            ascending(texts(right@)),
            descending(texts(merged@)),
            none_above(texts(left@), texts(merged@)),
            none_above(texts(right@), texts(merged@)),
            texts(left@).to_multiset().add(texts(right@).to_multiset()).add(
                texts(merged@).to_multiset(),
            ) == all,
        decreases left@.len() + right@.len(),
    {
        let from_right = if left.len() == 0 {
            true
        } else if right.len() == 0 {
            false
        } else {
            !precedes(right[right.len() - 1].as_str(), left[left.len() - 1].as_str())
        };
        let ghost old_left = texts(left@);
        let ghost old_right = texts(right@);
        let ghost old_merged = texts(merged@);
        if from_right {
            let moved = right.pop().unwrap();
            merged.push(moved);
            proof {
                lemma_move_last(old_right, old_left, old_merged);
                assert(texts(right@) =~= old_right.drop_last());
                assert(texts(merged@) =~= old_merged.push(old_right.last()));
            }
        } else {
            let moved = left.pop().unwrap();
            merged.push(moved);
            proof {
                if old_right.len() > 0 {
                    lemma_path_asymmetric(old_right.last(), old_left.last());
                }
                lemma_move_last(old_left, old_right, old_merged);
                assert(texts(left@) =~= old_left.drop_last());
                assert(texts(merged@) =~= old_merged.push(old_left.last()));
            }
        }
        proof {
            vstd::seq_lib::to_multiset_build(old_merged, texts(merged@).last());
            assert(texts(left@).to_multiset().add(texts(right@).to_multiset()).add(
                texts(merged@).to_multiset(),
            ) =~= all);
        }
    }
    proof {
        assert(texts(left@) =~= Seq::<Seq<char>>::empty());
        assert(texts(right@) =~= Seq::<Seq<char>>::empty());
        lemma_empty_listing();
        assert(texts(merged@).to_multiset() =~= all);
    }
    merged
}

/// Puts a listing into ascending order of its paths.
pub fn sort_paths(paths: Vec<String>) -> (r: Vec<String>)
    ensures
        ascending(texts(r@)),
        texts(r@).to_multiset() == texts(paths@).to_multiset(),
        r@.len() == paths@.len(),
        texts(paths@).no_duplicates() ==> strictly_ascending(texts(r@)),
    decreases paths@.len(),
{
    let mut left = paths;
    if left.len() <= 1 {
        proof {
            if texts(left@).no_duplicates() {
                lemma_ascending_distinct_is_strict(texts(left@));
            }
        }
        return left;
    }
    let right = left.split_off(left.len() / 2);
    proof {
        assert(texts(paths@) =~= texts(left@) + texts(right@));
        vstd::seq_lib::lemma_multiset_commutative(texts(left@), texts(right@));
    }
    let left = sort_paths(left);
    let right = sort_paths(right);
    let merged = merge_descending(left, right);
    let sorted = reversed(merged);
    proof {
        assert(texts(sorted@) =~= texts(merged@).reverse());
        lemma_reverse_of_descending(texts(merged@));
        vstd::seq_lib::to_multiset_len(texts(sorted@));
        vstd::seq_lib::to_multiset_len(texts(paths@));
        if texts(paths@).no_duplicates() {
            lemma_rearranged_distinct(texts(paths@), texts(sorted@));
            lemma_ascending_distinct_is_strict(texts(sorted@));
        }
    }
    sorted
}

} // verus!
