//! Putting numbers and texts in order.

use vstd::prelude::*;

verus! {

/// A number put in its place: after every one that is not larger.
pub open spec fn inserted(sorted: Seq<u64>, one: u64) -> Seq<u64>
    decreases sorted.len(),
{
    if sorted.len() == 0 || sorted.last() <= one {
        sorted.push(one)
    } else {
        inserted(sorted.drop_last(), one).push(sorted.last())
    }
}

/// Numbers in ascending order.
pub open spec fn sorted(values: Seq<u64>) -> Seq<u64>
    decreases values.len(),
{
    if values.len() == 0 {
        Seq::empty()
    } else {
        inserted(sorted(values.drop_last()), values.last())
    }
}

/// Whether numbers are in ascending order.
pub open spec fn ascends(values: Seq<u64>) -> bool {
    forall|i: int, j: int| 0 <= i <= j < values.len() ==> values[i] <= values[j]
}

proof fn lemma_inserted(s: Seq<u64>, one: u64)
    requires
        ascends(s),
    ensures
        ascends(inserted(s, one)),
        inserted(s, one).to_multiset() == s.to_multiset().insert(one),
        inserted(s, one).len() == s.len() + 1,
    decreases s.len(),
{
    broadcast use vstd::seq_lib::group_to_multiset_ensures;

    if s.len() == 0 || s.last() <= one {
        assert(forall|i: int| 0 <= i < s.len() ==> s[i] <= s.last());
    } else {
        let head = s.drop_last();
        lemma_inserted(head, one);
        assert(s =~= head.push(s.last()));
        let body = inserted(head, one);
        assert forall|i: int| 0 <= i < body.len() implies body[i] <= s.last() by {
            assert(body.to_multiset().count(body[i]) > 0) by {
                assert(body.contains(body[i]));
            }
            if body[i] != one {
                assert(head.to_multiset().count(body[i]) > 0);
                assert(head.contains(body[i]));
                let k = choose|k: int| 0 <= k < head.len() && head[k] == body[i];
                assert(s[k] <= s[s.len() - 1]);
            }
        }
        assert(body.push(s.last()).to_multiset() =~= s.to_multiset().insert(one));
    }
}

/// Numbers put in order are the same numbers, in ascending order.
pub proof fn law_sorting_keeps_the_numbers(values: Seq<u64>)
    ensures
        ascends(sorted(values)),
        sorted(values).to_multiset() == values.to_multiset(),
        sorted(values).len() == values.len(),
    decreases values.len(),
{
    broadcast use vstd::seq_lib::group_to_multiset_ensures;

    if values.len() > 0 {
        law_sorting_keeps_the_numbers(values.drop_last());
        lemma_inserted(sorted(values.drop_last()), values.last());
        assert(values =~= values.drop_last().push(values.last()));
    }
}

/// Put a number in its place.
fn insert(values: &mut Vec<u64>, one: u64)
    ensures
        final(values)@ == inserted(old(values)@, one),
{
    let ghost all = values@;
    let mut at: usize = values.len();
    proof {
        assert(all.take(at as int) =~= all);
        assert(inserted(all, one) + Seq::empty() =~= inserted(all, one));
        assert(all.skip(at as int) =~= Seq::empty());
    }
    while at > 0 && values[at - 1] > one
        invariant
            at <= values@.len(),
            all == values@,
            inserted(all, one) == inserted(all.take(at as int), one) + all.skip(at as int),
        decreases at,
    {
        proof {
            let head = all.take(at as int);
            assert(head.drop_last() =~= all.take(at - 1));
            assert(inserted(head.drop_last(), one).push(head.last()) + all.skip(at as int)
                =~= inserted(all.take(at - 1), one) + all.skip(at - 1));
        }
        at -= 1;
    }
    values.insert(at, one);
    proof {
        assert(values@ =~= all.take(at as int).push(one) + all.skip(at as int));
    }
}

/// The numbers in ascending order.
pub fn sort(values: &[u64]) -> (r: Vec<u64>)
    ensures
        r@ == sorted(values@),
{
    let mut r: Vec<u64> = Vec::new();
    let mut i: usize = 0;
    proof {
        assert(values@.take(0) =~= Seq::empty());
    }
    while i < values.len()
        invariant
            i <= values@.len(),
            r@ == sorted(values@.take(i as int)),
        decreases values@.len() - i,
    {
        proof {
            assert(values@.take(i + 1).drop_last() =~= values@.take(i as int));
        }
        insert(&mut r, values[i]);
        i += 1;
    }
    proof {
        assert(values@.take(values@.len() as int) =~= values@);
    }
    r
}

/// Whether a pair comes before another, or is the same: by its first number, and
/// where they are equal by its second.
pub open spec fn pair_le(a: (u64, u64), b: (u64, u64)) -> bool {
    a.0 < b.0 || (a.0 == b.0 && a.1 <= b.1)
}

/// A pair put in its place.
pub open spec fn pair_inserted(sorted: Seq<(u64, u64)>, one: (u64, u64)) -> Seq<(u64, u64)>
    decreases sorted.len(),
{
    if sorted.len() == 0 || pair_le(sorted.last(), one) {
        sorted.push(one)
    } else {
        pair_inserted(sorted.drop_last(), one).push(sorted.last())
    }
}

/// Pairs in ascending order.
pub open spec fn pairs_sorted(values: Seq<(u64, u64)>) -> Seq<(u64, u64)>
    decreases values.len(),
{
    if values.len() == 0 {
        Seq::empty()
    } else {
        pair_inserted(pairs_sorted(values.drop_last()), values.last())
    }
}

/// Whether pairs are in ascending order.
pub open spec fn pairs_ascend(values: Seq<(u64, u64)>) -> bool {
    forall|i: int, j: int| 0 <= i <= j < values.len() ==> pair_le(values[i], values[j])
}

proof fn lemma_pair_inserted(s: Seq<(u64, u64)>, one: (u64, u64))
    requires
        pairs_ascend(s),
    ensures
        pairs_ascend(pair_inserted(s, one)),
        pair_inserted(s, one).to_multiset() == s.to_multiset().insert(one),
        pair_inserted(s, one).len() == s.len() + 1,
    decreases s.len(),
{
    broadcast use vstd::seq_lib::group_to_multiset_ensures;

    if s.len() == 0 || pair_le(s.last(), one) {
        assert(forall|i: int| 0 <= i < s.len() ==> pair_le(#[trigger] s[i], s[s.len() - 1]));
    } else {
        let head = s.drop_last();
        lemma_pair_inserted(head, one);
        assert(s =~= head.push(s.last()));
        let body = pair_inserted(head, one);
        assert forall|i: int| 0 <= i < body.len() implies pair_le(body[i], s.last()) by {
            assert(body.to_multiset().count(body[i]) > 0) by {
                assert(body.contains(body[i]));
            }
            if body[i] != one {
                assert(head.to_multiset().count(body[i]) > 0);
                assert(head.contains(body[i]));
                let k = choose|k: int| 0 <= k < head.len() && head[k] == body[i];
                assert(pair_le(s[k], s[s.len() - 1]));
            }
        }
        assert(body.push(s.last()).to_multiset() =~= s.to_multiset().insert(one));
    }
}

/// Pairs put in order are the same pairs, in ascending order.
pub proof fn law_sorting_keeps_the_pairs(values: Seq<(u64, u64)>)
    ensures
        pairs_ascend(pairs_sorted(values)),
        pairs_sorted(values).to_multiset() == values.to_multiset(),
        pairs_sorted(values).len() == values.len(),
    decreases values.len(),
{
    broadcast use vstd::seq_lib::group_to_multiset_ensures;

    if values.len() > 0 {
        law_sorting_keeps_the_pairs(values.drop_last());
        lemma_pair_inserted(pairs_sorted(values.drop_last()), values.last());
        assert(values =~= values.drop_last().push(values.last()));
    }
}

/// The order that pairs are given in is not part of what they are once sorted.
pub proof fn law_sorted_pairs_do_not_depend_on_their_order(
    a: Seq<(u64, u64)>,
    b: Seq<(u64, u64)>,
)
    requires
        a.to_multiset() == b.to_multiset(),
    ensures
        pairs_sorted(a) == pairs_sorted(b),
{
    law_sorting_keeps_the_pairs(a);
    law_sorting_keeps_the_pairs(b);
    lemma_ascending_pairs_are_unique(pairs_sorted(a), pairs_sorted(b));
}

proof fn lemma_ascending_pairs_are_unique(a: Seq<(u64, u64)>, b: Seq<(u64, u64)>)
    requires
        pairs_ascend(a),
        pairs_ascend(b),
        a.to_multiset() == b.to_multiset(),
    ensures
        a == b,
    decreases a.len(),
{
    broadcast use vstd::seq_lib::group_to_multiset_ensures;

    assert(a.len() == a.to_multiset().len());
    assert(b.len() == b.to_multiset().len());
    if a.len() == 0 {
        assert(a =~= b);
    } else {
        let (la, lb) = (a.last(), b.last());
        assert(a[a.len() - 1] == la && b[b.len() - 1] == lb);
        assert(a.contains(la) && b.contains(lb));
        assert(b.to_multiset().count(la) > 0);
        assert(a.to_multiset().count(lb) > 0);
        assert(b.contains(la) && a.contains(lb));
        let i = choose|i: int| 0 <= i < b.len() && b[i] == la;
        let j = choose|j: int| 0 <= j < a.len() && a[j] == lb;
        assert(pair_le(b[i], b[b.len() - 1]));
        assert(pair_le(a[j], a[a.len() - 1]));
        assert(la == lb);
        let (ha, hb) = (a.drop_last(), b.drop_last());
        assert(a =~= ha.push(la));
        assert(b =~= hb.push(lb));
        assert(ha.to_multiset() =~= a.to_multiset().remove(la));
        assert(hb.to_multiset() =~= b.to_multiset().remove(lb));
        lemma_ascending_pairs_are_unique(ha, hb);
    }
}

/// Put a pair in its place.
fn insert_pair(values: &mut Vec<(u64, u64)>, one: (u64, u64))
    ensures
        final(values)@ == pair_inserted(old(values)@, one),
{
    let ghost all = values@;
    let mut at: usize = values.len();
    proof {
        assert(all.take(at as int) =~= all);
        assert(pair_inserted(all, one) + Seq::empty() =~= pair_inserted(all, one));
        assert(all.skip(at as int) =~= Seq::empty());
    }
    while at > 0 && (values[at - 1].0 > one.0 || (values[at - 1].0 == one.0 && values[at - 1].1
        > one.1))
        invariant
            at <= values@.len(),
            all == values@,
            pair_inserted(all, one) == pair_inserted(all.take(at as int), one) + all.skip(
                at as int,
            ),
        decreases at,
    {
        proof {
            let head = all.take(at as int);
            assert(head.drop_last() =~= all.take(at - 1));
            assert(pair_inserted(head.drop_last(), one).push(head.last()) + all.skip(at as int)
                =~= pair_inserted(all.take(at - 1), one) + all.skip(at - 1));
        }
        at -= 1;
    }
    values.insert(at, one);
    proof {
        assert(values@ =~= all.take(at as int).push(one) + all.skip(at as int));
    }
}

/// The pairs in ascending order.
pub fn sort_pairs(values: &[(u64, u64)]) -> (r: Vec<(u64, u64)>)
    ensures
        r@ == pairs_sorted(values@),
{
    let mut r: Vec<(u64, u64)> = Vec::new();
    let mut i: usize = 0;
    proof {
        assert(values@.take(0) =~= Seq::empty());
    }
    while i < values.len()
        invariant
            i <= values@.len(),
            r@ == pairs_sorted(values@.take(i as int)),
        decreases values@.len() - i,
    {
        proof {
            assert(values@.take(i + 1).drop_last() =~= values@.take(i as int));
        }
        insert_pair(&mut r, values[i]);
        i += 1;
    }
    proof {
        assert(values@.take(values@.len() as int) =~= values@);
    }
    r
}

// --------------------------------------------------------------------- texts

/// Whether a text comes before another, or is the same: by the first character in
/// which they differ, and where one begins with the other the shorter one first.
pub open spec fn text_le(a: Seq<char>, b: Seq<char>) -> bool
    decreases a.len(),
{
    a.len() == 0 || (b.len() > 0 && ((a[0] as u32) < (b[0] as u32) || (a[0] as u32 == b[0] as u32
        && text_le(a.skip(1), b.skip(1)))))
}

/// A text put in its place: after every one that does not come later.
pub open spec fn text_inserted(sorted: Seq<Seq<char>>, one: Seq<char>) -> Seq<Seq<char>>
    decreases sorted.len(),
{
    if sorted.len() == 0 || text_le(sorted.last(), one) {
        sorted.push(one)
    } else {
        text_inserted(sorted.drop_last(), one).push(sorted.last())
    }
}

/// Texts in order.
pub open spec fn texts_sorted(values: Seq<Seq<char>>) -> Seq<Seq<char>>
    decreases values.len(),
{
    if values.len() == 0 {
        Seq::empty()
    } else {
        text_inserted(texts_sorted(values.drop_last()), values.last())
    }
}

/// Whether texts are in order.
pub open spec fn texts_ascend(values: Seq<Seq<char>>) -> bool {
    forall|i: int, j: int| 0 <= i <= j < values.len() ==> text_le(values[i], values[j])
}

/// Of two texts one comes first.
proof fn lemma_text_le_total(a: Seq<char>, b: Seq<char>)
    ensures
        text_le(a, b) || text_le(b, a),
        a == b ==> text_le(a, b),
    decreases a.len(),
{
    if a.len() > 0 && b.len() > 0 {
        lemma_text_le_total(a.skip(1), b.skip(1));
    }
}

/// What comes before a text comes before whatever comes after it.
proof fn lemma_text_le_through(a: Seq<char>, b: Seq<char>, c: Seq<char>)
    requires
        text_le(a, b),
        text_le(b, c),
    ensures
        text_le(a, c),
    decreases a.len(),
{
    if a.len() > 0 && a[0] as u32 == b[0] as u32 && b[0] as u32 == c[0] as u32 {
        lemma_text_le_through(a.skip(1), b.skip(1), c.skip(1));
    }
}

proof fn lemma_text_inserted(s: Seq<Seq<char>>, one: Seq<char>)
    requires
        texts_ascend(s),
    ensures
        texts_ascend(text_inserted(s, one)),
        text_inserted(s, one).to_multiset() == s.to_multiset().insert(one),
    decreases s.len(),
{
    broadcast use vstd::seq_lib::group_to_multiset_ensures;

    lemma_text_le_total(one, one);
    if s.len() == 0 || text_le(s.last(), one) {
        assert forall|i: int| 0 <= i < s.len() implies text_le(s[i], one) by {
            assert(text_le(s[i], s[s.len() - 1]));
            lemma_text_le_through(s[i], s.last(), one);
        }
    } else {
        let head = s.drop_last();
        lemma_text_inserted(head, one);
        assert(s =~= head.push(s.last()));
        let body = text_inserted(head, one);
        lemma_text_le_total(one, s.last());
        lemma_text_le_total(s.last(), s.last());
        assert forall|i: int| 0 <= i < body.len() implies text_le(body[i], s.last()) by {
            assert(body.to_multiset().count(body[i]) > 0) by {
                assert(body.contains(body[i]));
            }
            if body[i] != one {
                assert(head.to_multiset().count(body[i]) > 0);
                assert(head.contains(body[i]));
                let k = choose|k: int| 0 <= k < head.len() && head[k] == body[i];
                assert(text_le(s[k], s[s.len() - 1]));
            }
        }
        assert(body.push(s.last()).to_multiset() =~= s.to_multiset().insert(one));
    }
}

/// Texts put in order are the same texts, in order.
pub proof fn law_sorting_keeps_the_texts(values: Seq<Seq<char>>)
    ensures
        texts_ascend(texts_sorted(values)),
        texts_sorted(values).to_multiset() == values.to_multiset(),
    decreases values.len(),
{
    broadcast use vstd::seq_lib::group_to_multiset_ensures;

    if values.len() > 0 {
        law_sorting_keeps_the_texts(values.drop_last());
        lemma_text_inserted(texts_sorted(values.drop_last()), values.last());
        assert(values =~= values.drop_last().push(values.last()));
    }
}

/// Whether a text comes before another, or is the same.
pub fn comes_first(a: &str, b: &str) -> (r: bool)
    ensures
        r == text_le(a@, b@),
{
    let (n, m): (usize, usize) = (a.unicode_len(), b.unicode_len());
    let mut i: usize = 0;
    proof {
        assert(a@.skip(0) =~= a@);
        assert(b@.skip(0) =~= b@);
    }
    while i < n && i < m
        invariant
            i <= n == a@.len(),
            i <= m == b@.len(),
            text_le(a@, b@) == text_le(a@.skip(i as int), b@.skip(i as int)),
        decreases n - i,
    {
        let (x, y): (u32, u32) = (a.get_char(i) as u32, b.get_char(i) as u32);
        proof {
            assert(a@.skip(i as int).skip(1) =~= a@.skip(i + 1));
            assert(b@.skip(i as int).skip(1) =~= b@.skip(i + 1));
        }
        if x != y {
            return x < y;
        }
        i += 1;
    }
    i == n
}

/// Put a text in its place.
pub fn insert_text(values: &mut Vec<String>, one: String)
    ensures
        texts(final(values)@) == text_inserted(texts(old(values)@), one@),
{
    let ghost all = texts(values@);
    let ghost new = one@;
    let mut at: usize = values.len();
    proof {
        assert(all.take(at as int) =~= all);
        assert(text_inserted(all, new) + Seq::empty() =~= text_inserted(all, new));
        assert(all.skip(at as int) =~= Seq::empty());
    }
    while at > 0 && !comes_first(values[at - 1].as_str(), one.as_str())
        invariant
            at <= values@.len(),
            all == texts(values@),
            new == one@,
            text_inserted(all, new) == text_inserted(all.take(at as int), new) + all.skip(
                at as int,
            ),
        decreases at,
    {
        proof {
            let head = all.take(at as int);
            assert(head.last() == all[at - 1]);
            assert(head.drop_last() =~= all.take(at - 1));
            assert(text_inserted(head.drop_last(), new).push(head.last()) + all.skip(at as int)
                =~= text_inserted(all.take(at - 1), new) + all.skip(at - 1));
        }
        at -= 1;
    }
    values.insert(at, one);
    proof {
        assert(at > 0 ==> all.take(at as int).last() == all[at - 1]);
        assert(texts(values@) =~= all.take(at as int).push(new) + all.skip(at as int));
    }
}

/// The texts of some strings.
pub open spec fn texts(all: Seq<String>) -> Seq<Seq<char>> {
    all.map_values(|s: String| s@)
}

// --------------------------------------------------------------------- bytes

/// Whether bytes come before others: by the first in which they differ, and where
/// one is the beginning of the other the shorter one first.
pub open spec fn bytes_below(a: Seq<u8>, b: Seq<u8>) -> bool {
    ||| exists|k: int|
        #![trigger a[k], b[k]]
        0 <= k < a.len() && k < b.len() && a[k] < b[k] && a.take(k) == b.take(k)
    ||| a.len() < b.len() && a == b.take(a.len() as int)
}

/// Of two rows of bytes of one length at most one comes before the other, and none
/// where they are the same.
pub proof fn lemma_bytes_below_one_way(a: Seq<u8>, b: Seq<u8>)
    requires
        a.len() == b.len(),
        bytes_below(a, b),
    ensures
        !bytes_below(b, a),
        a != b,
{
    let k = choose|k: int|
        #![trigger a[k], b[k]]
        0 <= k < a.len() && k < b.len() && a[k] < b[k] && a.take(k) == b.take(k);
    assert forall|m: int|
        #![trigger b[m], a[m]]
        0 <= m < b.len() && m < a.len() && b[m] < a[m] implies b.take(m) != a.take(m) by {
        if m < k {
            assert(a.take(k)[m] == b.take(k)[m]);
        } else if m > k {
            assert(a.take(m)[k] == a[k] && b.take(m)[k] == b[k]);
        }
    }
}

} // verus!
