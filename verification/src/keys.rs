//! Key sequences and their order.
//!
//! A key is a sequence of characters; a document's key list is a sequence of
//! keys. This module defines lexicographic order on keys (by code point),
//! the reordering of a key list against a base list — keys present in the
//! base first, in base order, then the extras in ascending lexicographic
//! order — and the laws these obey.

use vstd::prelude::*;

verus! {

/// Lexicographic order on keys, by code point: `a` is no later than `b`.
pub open spec fn lex_le(a: Seq<char>, b: Seq<char>) -> bool
    decreases a.len(),
{
    if a.len() == 0 {
        true
    } else if b.len() == 0 {
        false
    } else if a[0] == b[0] {
        lex_le(a.drop_first(), b.drop_first())
    } else {
        (a[0] as u32) < (b[0] as u32)
    }
}

/// Every pair of keys is ordered one way or the other.
pub proof fn lemma_lex_le_total(a: Seq<char>, b: Seq<char>)
    ensures
        lex_le(a, b) || lex_le(b, a),
    decreases a.len(),
{
    if a.len() > 0 && b.len() > 0 {
        if a[0] == b[0] {
            lemma_lex_le_total(a.drop_first(), b.drop_first());
        } else {
            vstd::utf8::char_u32_cast(a[0], a[0] as u32);
            vstd::utf8::char_u32_cast(b[0], b[0] as u32);
            assert((a[0] as u32) != (b[0] as u32));
        }
    }
}

/// Keys ordered both ways are equal.
pub proof fn lemma_lex_le_antisymmetric(a: Seq<char>, b: Seq<char>)
    requires
        lex_le(a, b),
        lex_le(b, a),
    ensures
        a == b,
    decreases a.len(),
{
    if a.len() == 0 {
        assert(b.len() == 0);
        assert(a =~= b);
    } else {
        assert(b.len() > 0);
        if a[0] == b[0] {
            lemma_lex_le_antisymmetric(a.drop_first(), b.drop_first());
            assert(a =~= seq![a[0]] + a.drop_first());
            assert(b =~= seq![b[0]] + b.drop_first());
        } else {
            assert((a[0] as u32) < (b[0] as u32) && (b[0] as u32) < (a[0] as u32));
        }
    }
}

/// The order is transitive.
pub proof fn lemma_lex_le_transitive(a: Seq<char>, b: Seq<char>, c: Seq<char>)
    requires
        lex_le(a, b),
        lex_le(b, c),
    ensures
        lex_le(a, c),
    decreases a.len(),
{
    if a.len() > 0 && b.len() > 0 && c.len() > 0 && a[0] == b[0] && b[0] == c[0] {
        lemma_lex_le_transitive(a.drop_first(), b.drop_first(), c.drop_first());
    }
}

/// A key list in ascending lexicographic order.
pub open spec fn sorted_by_lex(ks: Seq<Seq<char>>) -> bool {
    forall|i: int, j: int| 0 <= i < j < ks.len() ==> lex_le(ks[i], ks[j])
}

/// `k` placed at the first position of `ks` where it is no later than what
/// follows.
pub open spec fn insert_key_sorted(k: Seq<char>, ks: Seq<Seq<char>>) -> Seq<Seq<char>>
    decreases ks.len(),
{
    if ks.len() == 0 {
        seq![k]
    } else if lex_le(k, ks[0]) {
        seq![k] + ks
    } else {
        seq![ks[0]] + insert_key_sorted(k, ks.drop_first())
    }
}

/// The keys of `ks` in ascending lexicographic order.
pub open spec fn sorted_keys(ks: Seq<Seq<char>>) -> Seq<Seq<char>>
    decreases ks.len(),
{
    if ks.len() == 0 {
        Seq::empty()
    } else {
        insert_key_sorted(ks.last(), sorted_keys(ks.drop_last()))
    }
}

pub proof fn lemma_insert_key_sorted_len(k: Seq<char>, ks: Seq<Seq<char>>)
    ensures
        insert_key_sorted(k, ks).len() == ks.len() + 1,
    decreases ks.len(),
{
    if ks.len() > 0 && !lex_le(k, ks[0]) {
        lemma_insert_key_sorted_len(k, ks.drop_first());
    }
}

/// Membership in an insertion: exactly the old keys and the new one.
pub proof fn lemma_insert_key_sorted_contains(k: Seq<char>, ks: Seq<Seq<char>>, x: Seq<char>)
    ensures
        insert_key_sorted(k, ks).contains(x) <==> (x == k || ks.contains(x)),
    decreases ks.len(),
{
    if ks.len() == 0 {
        let r = seq![k];
        if x == k {
            assert(r[0] == x);
        }
        if r.contains(x) {
            let i = choose|i: int| 0 <= i < r.len() && r[i] == x;
            assert(x == k);
        }
    } else if lex_le(k, ks[0]) {
        let r = seq![k] + ks;
        if x == k {
            assert(r[0] == x);
        }
        if ks.contains(x) {
            let i = choose|i: int| 0 <= i < ks.len() && ks[i] == x;
            assert(r[i + 1] == x);
        }
        if r.contains(x) {
            let i = choose|i: int| 0 <= i < r.len() && r[i] == x;
            if i == 0 {
                assert(x == k);
            } else {
                assert(ks[i - 1] == x);
            }
        }
    } else {
        lemma_insert_key_sorted_contains(k, ks.drop_first(), x);
        assert(ks =~= seq![ks[0]] + ks.drop_first());
        let r = seq![ks[0]] + insert_key_sorted(k, ks.drop_first());
        if x == k || ks.contains(x) {
            if x == ks[0] {
                assert(r[0] == x);
            } else {
                assert(insert_key_sorted(k, ks.drop_first()).contains(x));
                let i = choose|i: int|
                    0 <= i < insert_key_sorted(k, ks.drop_first()).len() && insert_key_sorted(
                        k,
                        ks.drop_first(),
                    )[i] == x;
                assert(r[i + 1] == x);
            }
        }
        if r.contains(x) {
            let i = choose|i: int| 0 <= i < r.len() && r[i] == x;
            if i == 0 {
                assert(ks.contains(x));
            } else {
                assert(insert_key_sorted(k, ks.drop_first())[i - 1] == x);
            }
        }
    }
}

/// Inserting into a sorted list keeps it sorted.
pub proof fn lemma_insert_key_sorted_sorted(k: Seq<char>, ks: Seq<Seq<char>>)
    requires
        sorted_by_lex(ks),
    ensures
        sorted_by_lex(insert_key_sorted(k, ks)),
    decreases ks.len(),
{
    if ks.len() == 0 {
    } else if lex_le(k, ks[0]) {
        let r = seq![k] + ks;
        assert forall|i: int, j: int| 0 <= i < j < r.len() implies lex_le(r[i], r[j]) by {
            if i == 0 {
                if j == 1 {
                } else {
                    lemma_lex_le_transitive(k, ks[0], ks[j - 1]);
                }
            }
        }
    } else {
        assert(sorted_by_lex(ks.drop_first())) by {
            assert(forall|i: int, j: int|
                0 <= i < j < ks.drop_first().len() ==> lex_le(
                    ks.drop_first()[i],
                    ks.drop_first()[j],
                ));
        }
        lemma_insert_key_sorted_sorted(k, ks.drop_first());
        lemma_insert_key_sorted_len(k, ks.drop_first());
        let rec = insert_key_sorted(k, ks.drop_first());
        let r = seq![ks[0]] + rec;
        lemma_lex_le_total(k, ks[0]);
        assert(lex_le(ks[0], k));
        assert forall|i: int, j: int| 0 <= i < j < r.len() implies lex_le(r[i], r[j]) by {
            if i == 0 {
                lemma_insert_key_sorted_contains(k, ks.drop_first(), r[j]);
                assert(rec[j - 1] == r[j]);
                assert(rec.contains(r[j]));
                if r[j] == k {
                } else {
                    assert(ks.drop_first().contains(r[j]));
                    let m = choose|m: int|
                        0 <= m < ks.drop_first().len() && ks.drop_first()[m] == r[j];
                    assert(ks[m + 1] == r[j]);
                }
            } else {
                assert(lex_le(rec[i - 1], rec[j - 1]));
            }
        }
    }
}

/// The sorted key list is sorted.
pub proof fn lemma_sorted_keys_sorted(ks: Seq<Seq<char>>)
    ensures
        sorted_by_lex(sorted_keys(ks)),
    decreases ks.len(),
{
    if ks.len() > 0 {
        lemma_sorted_keys_sorted(ks.drop_last());
        lemma_insert_key_sorted_sorted(ks.last(), sorted_keys(ks.drop_last()));
    }
}

/// Sorting keeps exactly the keys that were there.
pub proof fn lemma_sorted_keys_contains(ks: Seq<Seq<char>>, x: Seq<char>)
    ensures
        sorted_keys(ks).contains(x) <==> ks.contains(x),
    decreases ks.len(),
{
    if ks.len() > 0 {
        lemma_sorted_keys_contains(ks.drop_last(), x);
        lemma_insert_key_sorted_contains(ks.last(), sorted_keys(ks.drop_last()), x);
        if ks.contains(x) {
            let i = choose|i: int| 0 <= i < ks.len() && ks[i] == x;
            if i < ks.len() - 1 {
                assert(ks.drop_last()[i] == x);
            }
        }
        if x == ks.last() {
            assert(ks.contains(x));
        }
        if ks.drop_last().contains(x) {
            let i = choose|i: int| 0 <= i < ks.drop_last().len() && ks.drop_last()[i] == x;
            assert(ks[i] == x);
        }
    }
}

/// Inserting a key later than every distinct entry appends it.
pub proof fn lemma_insert_key_sorted_append(k: Seq<char>, ks: Seq<Seq<char>>)
    requires
        forall|i: int| 0 <= i < ks.len() ==> lex_le(#[trigger] ks[i], k) && ks[i] != k,
    ensures
        insert_key_sorted(k, ks) == ks.push(k),
    decreases ks.len(),
{
    if ks.len() == 0 {
        assert(seq![k] =~= ks.push(k));
    } else {
        if lex_le(k, ks[0]) {
            lemma_lex_le_antisymmetric(k, ks[0]);
            assert(false);
        }
        assert(forall|i: int|
            0 <= i < ks.drop_first().len() ==> ks.drop_first()[i] == ks[i + 1]);
        lemma_insert_key_sorted_append(k, ks.drop_first());
        assert(seq![ks[0]] + ks.drop_first().push(k) =~= ks.push(k));
    }
}

/// Sorting a list already sorted and free of repeats leaves it as it is.
pub proof fn lemma_sorted_keys_identity(ks: Seq<Seq<char>>)
    requires
        sorted_by_lex(ks),
        distinct_keys(ks),
    ensures
        sorted_keys(ks) == ks,
    decreases ks.len(),
{
    if ks.len() > 0 {
        let dl = ks.drop_last();
        assert(forall|i: int| 0 <= i < dl.len() ==> dl[i] == ks[i]);
        lemma_sorted_keys_identity(dl);
        assert(forall|i: int|
            0 <= i < dl.len() ==> lex_le(#[trigger] dl[i], ks.last()) && dl[i] != ks.last());
        lemma_insert_key_sorted_append(ks.last(), dl);
        assert(dl.push(ks.last()) =~= ks);
    }
}

/// Inserting a fresh key keeps the list free of repeats.
pub proof fn lemma_insert_key_sorted_distinct(k: Seq<char>, ks: Seq<Seq<char>>)
    requires
        distinct_keys(ks),
        !ks.contains(k),
    ensures
        distinct_keys(insert_key_sorted(k, ks)),
    decreases ks.len(),
{
    assert(forall|i: int| 0 <= i < ks.len() ==> ks[i] != k);
    if ks.len() == 0 {
    } else if lex_le(k, ks[0]) {
        let r = seq![k] + ks;
        assert(forall|i: int| 1 <= i < r.len() ==> r[i] == ks[i - 1]);
        assert(distinct_keys(r));
    } else {
        let df = ks.drop_first();
        assert(forall|i: int| 0 <= i < df.len() ==> df[i] == ks[i + 1]);
        if df.contains(k) {
            let m = choose|m: int| 0 <= m < df.len() && df[m] == k;
            assert(ks[m + 1] == k);
            assert(false);
        }
        lemma_insert_key_sorted_distinct(k, df);
        let rec = insert_key_sorted(k, df);
        let r = seq![ks[0]] + rec;
        assert(forall|i: int| 1 <= i < r.len() ==> r[i] == rec[i - 1]);
        assert forall|i: int, j: int| 0 <= i < j < r.len() implies r[i] != r[j] by {
            if i == 0 {
                lemma_insert_key_sorted_contains(k, df, r[j]);
                assert(rec.contains(r[j])) by {
                    assert(rec[j - 1] == r[j]);
                }
                if r[j] == k {
                    assert(ks[0] != k);
                } else {
                    assert(df.contains(r[j]));
                    let m = choose|m: int| 0 <= m < df.len() && df[m] == r[j];
                    assert(ks[m + 1] == r[j]);
                }
            }
        }
    }
}

/// The sorted version of a list free of repeats is free of repeats.
pub proof fn lemma_sorted_keys_distinct(ks: Seq<Seq<char>>)
    requires
        distinct_keys(ks),
    ensures
        distinct_keys(sorted_keys(ks)),
    decreases ks.len(),
{
    if ks.len() > 0 {
        let dl = ks.drop_last();
        assert(forall|i: int| 0 <= i < dl.len() ==> dl[i] == ks[i]);
        lemma_sorted_keys_distinct(dl);
        lemma_sorted_keys_contains(dl, ks.last());
        if dl.contains(ks.last()) {
            let m = choose|m: int| 0 <= m < dl.len() && dl[m] == ks.last();
            assert(ks[m] == ks[ks.len() - 1]);
            assert(false);
        }
        lemma_insert_key_sorted_distinct(ks.last(), sorted_keys(dl));
    }
}

/// No key occurs twice.
pub open spec fn distinct_keys(ks: Seq<Seq<char>>) -> bool {
    forall|i: int, j: int| 0 <= i < j < ks.len() ==> ks[i] != ks[j]
}

/// The base keys that the target has, in base order.
pub open spec fn picked_keys(bs: Seq<Seq<char>>, ks: Seq<Seq<char>>) -> Seq<Seq<char>>
    decreases bs.len(),
{
    if bs.len() == 0 {
        Seq::empty()
    } else {
        (if ks.contains(bs[0]) {
            seq![bs[0]]
        } else {
            Seq::empty()
        }) + picked_keys(bs.drop_first(), ks)
    }
}

/// The target keys that the base lacks, in target order.
pub open spec fn extra_keys(bs: Seq<Seq<char>>, ks: Seq<Seq<char>>) -> Seq<Seq<char>>
    decreases ks.len(),
{
    if ks.len() == 0 {
        Seq::empty()
    } else {
        extra_keys(bs, ks.drop_last()) + (if bs.contains(ks.last()) {
            Seq::empty()
        } else {
            seq![ks.last()]
        })
    }
}

/// The key order of a target sorted against a base: the base keys the
/// target has first, in base order, then the extras in ascending
/// lexicographic order.
pub open spec fn reordered_keys(bs: Seq<Seq<char>>, ks: Seq<Seq<char>>) -> Seq<Seq<char>> {
    picked_keys(bs, ks) + sorted_keys(extra_keys(bs, ks))
}

/// A key stands among the picked exactly when the base and the target both
/// hold it.
pub proof fn lemma_picked_keys_contains(bs: Seq<Seq<char>>, ks: Seq<Seq<char>>, x: Seq<char>)
    ensures
        picked_keys(bs, ks).contains(x) <==> (bs.contains(x) && ks.contains(x)),
    decreases bs.len(),
{
    if bs.len() > 0 {
        lemma_picked_keys_contains(bs.drop_first(), ks, x);
        let head: Seq<Seq<char>> = if ks.contains(bs[0]) {
            seq![bs[0]]
        } else {
            Seq::empty()
        };
        let r = head + picked_keys(bs.drop_first(), ks);
        if r.contains(x) {
            let i = choose|i: int| 0 <= i < r.len() && r[i] == x;
            if i < head.len() {
                assert(x == bs[0]);
            } else {
                assert(picked_keys(bs.drop_first(), ks)[i - head.len()] == x);
                let m = choose|m: int|
                    0 <= m < bs.drop_first().len() && bs.drop_first()[m] == x;
                assert(bs[m + 1] == x);
            }
        }
        if bs.contains(x) && ks.contains(x) {
            if x == bs[0] {
                assert(r[0] == x);
            } else {
                let i = choose|i: int| 0 <= i < bs.len() && bs[i] == x;
                assert(bs.drop_first()[i - 1] == x);
                assert(picked_keys(bs.drop_first(), ks).contains(x));
                let m = choose|m: int|
                    0 <= m < picked_keys(bs.drop_first(), ks).len() && picked_keys(
                        bs.drop_first(),
                        ks,
                    )[m] == x;
                assert(r[head.len() + m] == x);
            }
        }
    }
}

/// A key stands among the extras exactly when the target holds it and the
/// base does not.
pub proof fn lemma_extra_keys_contains(bs: Seq<Seq<char>>, ks: Seq<Seq<char>>, x: Seq<char>)
    ensures
        extra_keys(bs, ks).contains(x) <==> (ks.contains(x) && !bs.contains(x)),
    decreases ks.len(),
{
    if ks.len() > 0 {
        lemma_extra_keys_contains(bs, ks.drop_last(), x);
        let tail: Seq<Seq<char>> = if bs.contains(ks.last()) {
            Seq::empty()
        } else {
            seq![ks.last()]
        };
        let pre = extra_keys(bs, ks.drop_last());
        let r = pre + tail;
        if r.contains(x) {
            let i = choose|i: int| 0 <= i < r.len() && r[i] == x;
            if i < pre.len() {
                assert(pre[i] == x);
                let m = choose|m: int|
                    0 <= m < ks.drop_last().len() && ks.drop_last()[m] == x;
                assert(ks[m] == x);
            } else {
                assert(x == ks.last());
                assert(ks[ks.len() - 1] == x);
            }
        }
        if ks.contains(x) && !bs.contains(x) {
            if x == ks.last() {
                assert(r[pre.len() as int] == x);
            } else {
                let i = choose|i: int| 0 <= i < ks.len() && ks[i] == x;
                assert(ks.drop_last()[i] == x);
                assert(pre.contains(x));
                let m = choose|m: int| 0 <= m < pre.len() && pre[m] == x;
                assert(r[m] == x);
            }
        }
    }
}

/// The extras of a concatenation are the concatenated extras.
pub proof fn lemma_extra_keys_concat(bs: Seq<Seq<char>>, a: Seq<Seq<char>>, b: Seq<Seq<char>>)
    ensures
        extra_keys(bs, a + b) == extra_keys(bs, a) + extra_keys(bs, b),
    decreases b.len(),
{
    if b.len() == 0 {
        assert(a + b =~= a);
        assert(extra_keys(bs, b) == Seq::<Seq<char>>::empty());
        assert(extra_keys(bs, a) + extra_keys(bs, b) =~= extra_keys(bs, a));
    } else {
        assert((a + b).drop_last() =~= a + b.drop_last());
        assert((a + b).last() == b.last());
        lemma_extra_keys_concat(bs, a, b.drop_last());
        let tail: Seq<Seq<char>> = if bs.contains(b.last()) {
            Seq::empty()
        } else {
            seq![b.last()]
        };
        assert(extra_keys(bs, a + b) == extra_keys(bs, a + b.drop_last()) + tail);
        assert(extra_keys(bs, b) == extra_keys(bs, b.drop_last()) + tail);
        assert((extra_keys(bs, a) + extra_keys(bs, b.drop_last())) + tail =~= extra_keys(bs, a) + (
        extra_keys(bs, b.drop_last()) + tail));
    }
}

/// Removing a key the base holds leaves the extras unchanged.
pub proof fn lemma_extra_keys_remove(bs: Seq<Seq<char>>, ks: Seq<Seq<char>>, i: int)
    requires
        0 <= i < ks.len(),
        bs.contains(ks[i]),
    ensures
        extra_keys(bs, ks.remove(i)) == extra_keys(bs, ks),
{
    let left = ks.subrange(0, i);
    let mid = seq![ks[i]];
    let right = ks.subrange(i + 1, ks.len() as int);
    assert(ks =~= left + mid + right);
    assert(ks.remove(i) == left + right);
    lemma_extra_keys_concat(bs, left + mid, right);
    lemma_extra_keys_concat(bs, left, mid);
    lemma_extra_keys_concat(bs, left, right);
    assert(extra_keys(bs, mid) =~= Seq::<Seq<char>>::empty()) by {
        assert(mid.last() == ks[i]);
        assert(mid.drop_last() =~= Seq::<Seq<char>>::empty());
        assert(extra_keys(bs, mid.drop_last()) == Seq::<Seq<char>>::empty());
        assert(extra_keys(bs, mid) == extra_keys(bs, mid.drop_last()) + Seq::<Seq<char>>::empty());
    }
    assert(extra_keys(bs, left) + extra_keys(bs, mid) =~= extra_keys(bs, left));
}

/// Two targets holding the same base keys pick the same list.
pub proof fn lemma_picked_keys_same_membership(
    bs: Seq<Seq<char>>,
    ks1: Seq<Seq<char>>,
    ks2: Seq<Seq<char>>,
)
    requires
        forall|j: int| 0 <= j < bs.len() ==> (ks1.contains(bs[j]) <==> ks2.contains(bs[j])),
    ensures
        picked_keys(bs, ks1) == picked_keys(bs, ks2),
    decreases bs.len(),
{
    if bs.len() > 0 {
        assert(forall|j: int|
            0 <= j < bs.drop_first().len() ==> bs.drop_first()[j] == bs[j + 1]);
        lemma_picked_keys_same_membership(bs.drop_first(), ks1, ks2);
        assert(ks1.contains(bs[0]) <==> ks2.contains(bs[0]));
    }
}

/// Removing one key changes no other key's membership.
pub proof fn lemma_remove_contains(ks: Seq<Seq<char>>, i: int, x: Seq<char>)
    requires
        0 <= i < ks.len(),
        x != ks[i],
    ensures
        ks.remove(i).contains(x) <==> ks.contains(x),
{
    let r = ks.remove(i);
    if r.contains(x) {
        let m = choose|m: int| 0 <= m < r.len() && r[m] == x;
        if m < i {
            assert(ks[m] == x);
        } else {
            assert(ks[m + 1] == x);
        }
    }
    if ks.contains(x) {
        let m = choose|m: int| 0 <= m < ks.len() && ks[m] == x;
        if m < i {
            assert(r[m] == x);
        } else {
            assert(m > i);
            assert(r[m - 1] == x);
        }
    }
}

/// A distinct key list with the one at `i` taken out no longer holds it.
pub proof fn lemma_remove_distinct(ks: Seq<Seq<char>>, i: int)
    requires
        0 <= i < ks.len(),
        distinct_keys(ks),
    ensures
        distinct_keys(ks.remove(i)),
        !ks.remove(i).contains(ks[i]),
{
    let r = ks.remove(i);
    assert(forall|m: int| 0 <= m < i ==> r[m] == ks[m]);
    assert(forall|m: int| i <= m < r.len() ==> r[m] == ks[m + 1]);
    if r.contains(ks[i]) {
        let m = choose|m: int| 0 <= m < r.len() && r[m] == ks[i];
    }
}

/// A target with no base key has only extras, unchanged.
pub proof fn lemma_extra_keys_identity(bs: Seq<Seq<char>>, ks: Seq<Seq<char>>)
    requires
        forall|i: int| 0 <= i < ks.len() ==> !bs.contains(#[trigger] ks[i]),
    ensures
        extra_keys(bs, ks) == ks,
    decreases ks.len(),
{
    if ks.len() > 0 {
        assert(forall|i: int|
            0 <= i < ks.drop_last().len() ==> ks.drop_last()[i] == ks[i]);
        lemma_extra_keys_identity(bs, ks.drop_last());
        assert(!bs.contains(ks.last())) by {
            assert(ks[ks.len() - 1] == ks.last());
        }
        assert(ks.drop_last() + seq![ks.last()] =~= ks);
    }
}

/// A target whose keys the base all holds has no extras.
pub proof fn lemma_extra_keys_empty(bs: Seq<Seq<char>>, ks: Seq<Seq<char>>)
    requires
        forall|i: int| 0 <= i < ks.len() ==> bs.contains(#[trigger] ks[i]),
    ensures
        extra_keys(bs, ks) == Seq::<Seq<char>>::empty(),
    decreases ks.len(),
{
    if ks.len() > 0 {
        assert(forall|i: int|
            0 <= i < ks.drop_last().len() ==> ks.drop_last()[i] == ks[i]);
        lemma_extra_keys_empty(bs, ks.drop_last());
        assert(bs.contains(ks.last())) by {
            assert(ks[ks.len() - 1] == ks.last());
        }
        assert(extra_keys(bs, ks.drop_last()) + Seq::<Seq<char>>::empty() =~= extra_keys(
            bs,
            ks.drop_last(),
        ));
    }
}

/// The extras of a target free of repeats are free of repeats.
pub proof fn lemma_extra_keys_distinct(bs: Seq<Seq<char>>, ks: Seq<Seq<char>>)
    requires
        distinct_keys(ks),
    ensures
        distinct_keys(extra_keys(bs, ks)),
    decreases ks.len(),
{
    if ks.len() > 0 {
        let dl = ks.drop_last();
        assert(forall|i: int| 0 <= i < dl.len() ==> dl[i] == ks[i]);
        lemma_extra_keys_distinct(bs, dl);
        let pre = extra_keys(bs, dl);
        if !bs.contains(ks.last()) {
            let r = pre + seq![ks.last()];
            lemma_extra_keys_contains(bs, dl, ks.last());
            if dl.contains(ks.last()) {
                let m = choose|m: int| 0 <= m < dl.len() && dl[m] == ks.last();
                assert(ks[m] == ks[ks.len() - 1]);
                assert(false);
            }
            assert forall|i: int, j: int| 0 <= i < j < r.len() implies r[i] != r[j] by {
                if j < pre.len() {
                } else {
                    assert(r[j] == ks.last());
                    assert(r[i] == pre[i]);
                    assert(pre.contains(pre[i]));
                }
            }
        } else {
            assert(pre + Seq::<Seq<char>>::empty() =~= pre);
        }
    }
}

/// Where the first position no earlier than `k` lies at `j`, inserting `k`
/// places it exactly there.
pub proof fn lemma_insert_key_sorted_at(k: Seq<char>, ks: Seq<Seq<char>>, j: int)
    requires
        0 <= j <= ks.len(),
        forall|m: int| 0 <= m < j ==> !lex_le(k, #[trigger] ks[m]),
        j < ks.len() ==> lex_le(k, ks[j]),
    ensures
        insert_key_sorted(k, ks) == ks.take(j) + seq![k] + ks.skip(j),
    decreases ks.len(),
{
    if ks.len() == 0 {
        assert(ks.take(j) + seq![k] + ks.skip(j) =~= seq![k]);
    } else if j == 0 {
        assert(lex_le(k, ks[0]));
        assert(ks.take(0) + seq![k] + ks.skip(0) =~= seq![k] + ks);
    } else {
        assert(!lex_le(k, ks[0]));
        let df = ks.drop_first();
        assert(forall|m: int| 0 <= m < df.len() ==> df[m] == ks[m + 1]);
        lemma_insert_key_sorted_at(k, df, j - 1);
        assert(seq![ks[0]] + (df.take(j - 1) + seq![k] + df.skip(j - 1)) =~= ks.take(j) + seq![k]
            + ks.skip(j));
    }
}

/// The picked keys of a base free of repeats are free of repeats.
pub proof fn lemma_picked_keys_distinct(bs: Seq<Seq<char>>, ks: Seq<Seq<char>>)
    requires
        distinct_keys(bs),
    ensures
        distinct_keys(picked_keys(bs, ks)),
    decreases bs.len(),
{
    if bs.len() > 0 {
        let df = bs.drop_first();
        assert(forall|i: int| 0 <= i < df.len() ==> df[i] == bs[i + 1]);
        lemma_picked_keys_distinct(df, ks);
        let rec = picked_keys(df, ks);
        if ks.contains(bs[0]) {
            let r = seq![bs[0]] + rec;
            assert(forall|i: int| 1 <= i < r.len() ==> r[i] == rec[i - 1]);
            assert forall|i: int, j: int| 0 <= i < j < r.len() implies r[i] != r[j] by {
                if i == 0 {
                    assert(rec.contains(r[j])) by {
                        assert(rec[j - 1] == r[j]);
                    }
                    lemma_picked_keys_contains(df, ks, r[j]);
                    let m = choose|m: int| 0 <= m < df.len() && df[m] == r[j];
                    assert(bs[m + 1] == r[j]);
                }
            }
        } else {
            assert(Seq::<Seq<char>>::empty() + rec =~= rec);
        }
    }
}

/// The key order of one sort is free of repeats where base and target are.
pub proof fn lemma_reordered_keys_distinct(bs: Seq<Seq<char>>, ks: Seq<Seq<char>>)
    requires
        distinct_keys(bs),
        distinct_keys(ks),
    ensures
        distinct_keys(reordered_keys(bs, ks)),
{
    let p = picked_keys(bs, ks);
    let e = extra_keys(bs, ks);
    let se = sorted_keys(e);
    lemma_picked_keys_distinct(bs, ks);
    lemma_extra_keys_distinct(bs, ks);
    lemma_sorted_keys_distinct(e);
    let r = p + se;
    assert forall|i: int, j: int| 0 <= i < j < r.len() implies r[i] != r[j] by {
        if i < p.len() && j >= p.len() {
            assert(p.contains(r[i])) by {
                assert(p[i] == r[i]);
            }
            assert(se.contains(r[j])) by {
                assert(se[j - p.len()] == r[j]);
            }
            lemma_picked_keys_contains(bs, ks, r[i]);
            lemma_sorted_keys_contains(e, r[j]);
            lemma_extra_keys_contains(bs, ks, r[j]);
        }
    }
}

/// Sorting against a base is idempotent: the key order one sort yields is a
/// fixed point of sorting against the same base.
pub proof fn lemma_reordered_keys_idempotent(bs: Seq<Seq<char>>, ks: Seq<Seq<char>>)
    requires
        distinct_keys(bs),
        distinct_keys(ks),
    ensures
        reordered_keys(bs, reordered_keys(bs, ks)) == reordered_keys(bs, ks),
{
    let p = picked_keys(bs, ks);
    let e = extra_keys(bs, ks);
    let se = sorted_keys(e);
    let r = p + se;
    assert forall|j: int| 0 <= j < bs.len() implies (r.contains(bs[j]) <==> ks.contains(
        bs[j],
    )) by {
        lemma_picked_keys_contains(bs, ks, bs[j]);
        lemma_extra_keys_contains(bs, ks, bs[j]);
        lemma_sorted_keys_contains(e, bs[j]);
        assert(bs.contains(bs[j]));
        if r.contains(bs[j]) {
            let m = choose|m: int| 0 <= m < r.len() && r[m] == bs[j];
            if m < p.len() {
                assert(p.contains(bs[j]));
            } else {
                assert(se[m - p.len()] == bs[j]);
                assert(se.contains(bs[j]));
            }
        }
        if ks.contains(bs[j]) {
            assert(p.contains(bs[j]));
            let m = choose|m: int| 0 <= m < p.len() && p[m] == bs[j];
            assert(r[m] == bs[j]);
        }
    }
    lemma_picked_keys_same_membership(bs, r, ks);
    lemma_extra_keys_concat(bs, p, se);
    assert forall|i: int| 0 <= i < p.len() implies bs.contains(#[trigger] p[i]) by {
        assert(p.contains(p[i]));
        lemma_picked_keys_contains(bs, ks, p[i]);
    }
    lemma_extra_keys_empty(bs, p);
    assert forall|i: int| 0 <= i < se.len() implies !bs.contains(#[trigger] se[i]) by {
        assert(se.contains(se[i]));
        lemma_sorted_keys_contains(e, se[i]);
        lemma_extra_keys_contains(bs, ks, se[i]);
    }
    lemma_extra_keys_identity(bs, se);
    assert(extra_keys(bs, r) =~= se);
    lemma_sorted_keys_sorted(e);
    lemma_extra_keys_distinct(bs, ks);
    lemma_sorted_keys_distinct(e);
    lemma_sorted_keys_identity(se);
}

} // verus!
