//! Key-order sorting of a document against a base.
//!
//! The base keys the target has come first, in base order; the target's
//! extra keys follow in ascending lexicographic order; values are carried
//! over unchanged.

use crate::jsonio::{
    entries_to_pretty, entry_keys, is_valid_json, json_object_keys, parse_object_entries,
    parses_as_object, ParseError,
};
use crate::keys::{
    distinct_keys, extra_keys, insert_key_sorted, lemma_extra_keys_identity,
    lemma_extra_keys_remove, lemma_insert_key_sorted_at, lemma_picked_keys_same_membership,
    lemma_remove_contains, lemma_remove_distinct, lemma_reordered_keys_distinct,
    lemma_reordered_keys_idempotent, lex_le, picked_keys, reordered_keys, sorted_keys,
};
use vstd::prelude::*;

verus! {

/// Whether `a` is no later than `b` in lexicographic order, by code point.
pub fn str_lex_le(a: &str, b: &str) -> (r: bool)
    ensures
        r == lex_le(a@, b@),
{
    let an = a.unicode_len();
    let bn = b.unicode_len();
    proof {
        assert(a@.skip(0) =~= a@);
        assert(b@.skip(0) =~= b@);
    }
    let mut i: usize = 0;
    loop
        invariant
            an == a@.len(),
            bn == b@.len(),
            i <= an,
            i <= bn,
            lex_le(a@, b@) == lex_le(a@.skip(i as int), b@.skip(i as int)),
        decreases an - i,
    {
        if i >= an {
            assert(a@.skip(i as int).len() == 0);
            return true;
        }
        if i >= bn {
            assert(b@.skip(i as int).len() == 0);
            assert(a@.skip(i as int).len() > 0);
            return false;
        }
        let ca = a.get_char(i);
        let cb = b.get_char(i);
        proof {
            assert(a@.skip(i as int)[0] == a@[i as int]);
            assert(b@.skip(i as int)[0] == b@[i as int]);
        }
        if ca == cb {
            proof {
                assert(a@.skip(i as int).drop_first() =~= a@.skip(i as int + 1));
                assert(b@.skip(i as int).drop_first() =~= b@.skip(i as int + 1));
            }
            i = i + 1;
        } else if (ca as u32) < (cb as u32) {
            return true;
        } else {
            return false;
        }
    }
}

/// Index of the first entry carrying `key`, if any.
fn find_entry(entries: &Vec<(String, serde_json::Value)>, key: &String) -> (r: Option<usize>)
    ensures
        r matches Some(i) ==> i < entries@.len() && entry_keys(entries@)[i as int] == key@,
        r is None ==> !entry_keys(entries@).contains(key@),
{
    let mut j: usize = 0;
    while j < entries.len()
        invariant
            j <= entries@.len(),
            forall|m: int| 0 <= m < j ==> entry_keys(entries@)[m] != key@,
        decreases entries@.len() - j,
    {
        if entries[j].0.eq(key) {
            proof {
                assert(entry_keys(entries@)[j as int] == entries@[j as int].0@);
            }
            return Some(j);
        }
        proof {
            assert(entry_keys(entries@)[j as int] == entries@[j as int].0@);
        }
        j = j + 1;
    }
    proof {
        if entry_keys(entries@).contains(key@) {
            let m = choose|m: int|
                0 <= m < entry_keys(entries@).len() && entry_keys(entries@)[m] == key@;
        }
    }
    None
}

/// First position of `sorted` whose key is no earlier than `key`.
fn insert_position(sorted: &Vec<(String, serde_json::Value)>, key: &String) -> (j: usize)
    ensures
        j <= sorted@.len(),
        forall|m: int| 0 <= m < j ==> !lex_le(key@, entry_keys(sorted@)[m]),
        j < sorted@.len() ==> lex_le(key@, entry_keys(sorted@)[j as int]),
{
    let mut j: usize = 0;
    while j < sorted.len()
        invariant
            j <= sorted@.len(),
            forall|m: int| 0 <= m < j ==> !lex_le(key@, entry_keys(sorted@)[m]),
        decreases sorted@.len() - j,
    {
        proof {
            assert(entry_keys(sorted@)[j as int] == sorted@[j as int].0@);
        }
        if str_lex_le(key.as_str(), sorted[j].0.as_str()) {
            return j;
        }
        j = j + 1;
    }
    j
}

/// Reorders the entries of a document against a base key list: the base
/// keys the document has first, in base order, then the extras in ascending
/// lexicographic order; each entry of the result is an entry of the input,
/// values untouched.
pub fn reorder_entries(base: &Vec<String>, entries: Vec<(String, serde_json::Value)>) -> (out: Vec<
    (String, serde_json::Value),
>)
    requires
        distinct_keys(base.deep_view()),
        distinct_keys(entry_keys(entries@)),
    ensures
        entry_keys(out@) == reordered_keys(base.deep_view(), entry_keys(entries@)),
        distinct_keys(entry_keys(out@)),
        forall|i: int| 0 <= i < out@.len() ==> entries@.contains(#[trigger] out@[i]),
{
    let ghost bs = base.deep_view();
    let ghost es0 = entries@;
    let ghost ks0 = entry_keys(entries@);
    let mut rest = entries;
    let mut out: Vec<(String, serde_json::Value)> = Vec::new();
    proof {
        assert(bs.skip(0) =~= bs);
        assert(entry_keys(Seq::<(String, serde_json::Value)>::empty()) =~= Seq::<
            Seq<char>,
        >::empty());
        assert(Seq::<Seq<char>>::empty() + picked_keys(bs, ks0) =~= picked_keys(bs, ks0));
    }
    let mut bi: usize = 0;
    while bi < base.len()
        invariant
            bs == base.deep_view(),
            bs.len() == base@.len(),
            bi <= base@.len(),
            distinct_keys(bs),
            distinct_keys(entry_keys(rest@)),
            entry_keys(out@) + picked_keys(bs.skip(bi as int), entry_keys(rest@)) == picked_keys(
                bs,
                ks0,
            ),
            extra_keys(bs, entry_keys(rest@)) == extra_keys(bs, ks0),
            forall|j: int|
                0 <= j < rest@.len() ==> !bs.take(bi as int).contains(
                    #[trigger] entry_keys(rest@)[j],
                ),
            forall|i: int| 0 <= i < out@.len() ==> es0.contains(#[trigger] out@[i]),
            forall|i: int| 0 <= i < rest@.len() ==> es0.contains(#[trigger] rest@[i]),
        decreases base@.len() - bi,
    {
        let ghost rk = entry_keys(rest@);
        let ghost key_spec = bs[bi as int];
        proof {
            assert(bs.skip(bi as int)[0] == bs[bi as int]);
            assert(bs.skip(bi as int).drop_first() =~= bs.skip(bi as int + 1));
        }
        match find_entry(&rest, &base[bi]) {
            Some(idx) => {
                let ghost old_rest = rest@;
                let ghost old_out = out@;
                let e = rest.remove(idx);
                out.push(e);
                proof {
                    assert(e == old_rest[idx as int]);
                    assert(e.0@ == key_spec);
                    assert(rk.contains(key_spec)) by {
                        assert(rk[idx as int] == key_spec);
                    }
                    assert(entry_keys(rest@) =~= rk.remove(idx as int));
                    assert(entry_keys(out@) =~= entry_keys(old_out) + seq![key_spec]);
                    // picked part: the processed base key heads the remaining picks
                    assert(picked_keys(bs.skip(bi as int), rk) == seq![key_spec] + picked_keys(
                        bs.skip(bi as int + 1),
                        rk,
                    ));
                    // removal does not change membership of the later base keys
                    assert forall|j: int| 0 <= j < bs.skip(bi as int + 1).len() implies (
                    rk.remove(idx as int).contains(#[trigger] bs.skip(bi as int + 1)[j])
                        <==> rk.contains(bs.skip(bi as int + 1)[j])) by {
                        assert(bs.skip(bi as int + 1)[j] == bs[bi as int + 1 + j]);
                        assert(bs[bi as int + 1 + j] != key_spec);
                        lemma_remove_contains(rk, idx as int, bs[bi as int + 1 + j]);
                    }
                    lemma_picked_keys_same_membership(
                        bs.skip(bi as int + 1),
                        rk.remove(idx as int),
                        rk,
                    );
                    assert((entry_keys(old_out) + seq![key_spec]) + picked_keys(
                        bs.skip(bi as int + 1),
                        entry_keys(rest@),
                    ) =~= entry_keys(old_out) + (seq![key_spec] + picked_keys(
                        bs.skip(bi as int + 1),
                        rk,
                    )));
                    // extras unchanged: the removed key is a base key
                    assert(bs.contains(key_spec)) by {
                        assert(bs[bi as int] == key_spec);
                    }
                    lemma_extra_keys_remove(bs, rk, idx as int);
                    // distinctness and provenance
                    lemma_remove_distinct(rk, idx as int);
                    assert forall|j: int| 0 <= j < rest@.len() implies !bs.take(
                        bi as int + 1,
                    ).contains(#[trigger] entry_keys(rest@)[j]) by {
                        let x = entry_keys(rest@)[j];
                        assert(rk.remove(idx as int)[j] == x);
                        assert(rk.remove(idx as int).contains(x));
                        assert(x != key_spec);
                        if j < idx {
                            assert(rk[j] == x);
                        } else {
                            assert(rk[j + 1] == x);
                        }
                        if bs.take(bi as int + 1).contains(x) {
                            let m = choose|m: int|
                                0 <= m < bi as int + 1 && #[trigger] bs.take(bi as int + 1)[m]
                                    == x;
                            assert(bs[m] == x);
                            if m < bi as int {
                                assert(bs.take(bi as int)[m] == x);
                                if j < idx {
                                    assert(rk[j] == x);
                                } else {
                                    assert(rk[j + 1] == x);
                                }
                                assert(false);
                            } else {
                                assert(x == key_spec);
                                assert(false);
                            }
                        }
                    }
                    assert forall|i: int| 0 <= i < rest@.len() implies es0.contains(
                        #[trigger] rest@[i],
                    ) by {
                        if i < idx {
                            assert(rest@[i] == old_rest[i]);
                        } else {
                            assert(rest@[i] == old_rest[i + 1]);
                        }
                    }
                }
            },
            None => {
                proof {
                    assert(picked_keys(bs.skip(bi as int), rk) == picked_keys(
                        bs.skip(bi as int + 1),
                        rk,
                    )) by {
                        assert(!rk.contains(bs.skip(bi as int)[0]));
                        assert(Seq::<Seq<char>>::empty() + picked_keys(bs.skip(bi as int + 1), rk)
                            =~= picked_keys(bs.skip(bi as int + 1), rk));
                    }
                    assert forall|j: int| 0 <= j < rest@.len() implies !bs.take(
                        bi as int + 1,
                    ).contains(#[trigger] entry_keys(rest@)[j]) by {
                        let x = entry_keys(rest@)[j];
                        if bs.take(bi as int + 1).contains(x) {
                            let m = choose|m: int|
                                0 <= m < bi as int + 1 && #[trigger] bs.take(bi as int + 1)[m]
                                    == x;
                            assert(bs[m] == x);
                            if m < bi as int {
                                assert(bs.take(bi as int)[m] == x);
                                assert(false);
                            } else {
                                assert(x == key_spec);
                                assert(rk.contains(x));
                                assert(false);
                            }
                        }
                    }
                }
            },
        }
        bi = bi + 1;
    }
    proof {
        assert(bs.skip(base@.len() as int).len() == 0);
        assert(picked_keys(bs.skip(base@.len() as int), entry_keys(rest@)) == Seq::<
            Seq<char>,
        >::empty());
        assert(entry_keys(out@) + Seq::<Seq<char>>::empty() =~= entry_keys(out@));
        assert(entry_keys(out@) == picked_keys(bs, ks0));
        // every key the base holds has been taken out, so the rest are extras
        assert(bs.take(base@.len() as int) =~= bs);
        assert forall|j: int| 0 <= j < entry_keys(rest@).len() implies !bs.contains(
            #[trigger] entry_keys(rest@)[j],
        ) by {}
        lemma_extra_keys_identity(bs, entry_keys(rest@));
        assert(entry_keys(rest@) == extra_keys(bs, ks0));
    }
    // the extras, in ascending lexicographic order of their keys
    let ghost r0 = entry_keys(rest@);
    let ghost rest0 = rest@;
    let mut sorted: Vec<(String, serde_json::Value)> = Vec::new();
    let ghost total = rest@.len();
    while rest.len() > 0
        invariant
            rest@.len() <= total,
            total == r0.len(),
            rest0.len() == total,
            rest@ =~= rest0.skip(total - rest@.len()),
            entry_keys(sorted@) == sorted_keys(r0.take(total - rest@.len())),
            forall|i: int| 0 <= i < sorted@.len() ==> es0.contains(#[trigger] sorted@[i]),
            forall|i: int| 0 <= i < rest0.len() ==> es0.contains(#[trigger] rest0[i]),
            entry_keys(rest0) == r0,
        decreases rest@.len(),
    {
        let ghost ci = total - rest@.len();
        let ghost old_sorted = sorted@;
        let e = rest.remove(0);
        proof {
            assert(e == rest0.skip(ci)[0]);
            assert(rest0.skip(ci)[0] == rest0[ci]);
            assert(rest@ =~= rest0.skip(ci + 1));
            assert(e.0@ == entry_keys(rest0)[ci]);
        }
        let j = insert_position(&sorted, &e.0);
        let ghost sk = entry_keys(old_sorted);
        sorted.insert(j, e);
        proof {
            lemma_insert_key_sorted_at(e.0@, sk, j as int);
            assert(entry_keys(sorted@) =~= sk.take(j as int) + seq![e.0@] + sk.skip(j as int));
            assert(entry_keys(sorted@) == insert_key_sorted(e.0@, sk));
            assert(r0.take(ci + 1).drop_last() =~= r0.take(ci));
            assert(r0.take(ci + 1).last() == r0[ci]);
            assert(sorted_keys(r0.take(ci + 1)) == insert_key_sorted(r0[ci], sorted_keys(
                r0.take(ci),
            )));
            assert forall|i: int| 0 <= i < sorted@.len() implies es0.contains(
                #[trigger] sorted@[i],
            ) by {
                if i < j {
                    assert(sorted@[i] == old_sorted[i]);
                } else if i == j {
                    assert(sorted@[i] == rest0[ci]);
                    assert(es0.contains(rest0[ci]));
                } else {
                    assert(sorted@[i] == old_sorted[i - 1]);
                }
            }
        }
    }
    proof {
        assert(r0.take(total as int) =~= r0);
        assert(entry_keys(sorted@) == sorted_keys(extra_keys(bs, ks0)));
    }
    let ghost out_before = out@;
    let mut sorted_tail = sorted;
    out.append(&mut sorted_tail);
    proof {
        assert(entry_keys(out@) =~= entry_keys(out_before) + sorted_keys(extra_keys(bs, ks0)));
        lemma_reordered_keys_distinct(bs, ks0);
        assert forall|i: int| 0 <= i < out@.len() implies es0.contains(#[trigger] out@[i]) by {}
    }
    out
}

/// Sorting is idempotent: a document whose key order one sort yielded is
/// left with that key order by a second sort against the same base.
pub proof fn lemma_sort_twice_fixed_point(
    bs: Seq<Seq<char>>,
    original: Seq<Seq<char>>,
    t: Seq<char>,
)
    requires
        distinct_keys(bs),
        distinct_keys(original),
        json_object_keys(t) == reordered_keys(bs, original),
    ensures
        reordered_keys(bs, json_object_keys(t)) == json_object_keys(t),
{
    lemma_reordered_keys_idempotent(bs, original);
}

/// Rewrites a document so its top-level key order follows the base: base
/// keys the document has first, in base order, then the extras in ascending
/// lexicographic order, values carried over unchanged; the result is
/// pretty-printed. Errors tell a syntax failure from a root that is no
/// object.
pub fn sort_text(base_keys: &Vec<String>, s: &str) -> (r: Result<String, ParseError>)
    requires
        distinct_keys(base_keys.deep_view()),
    ensures
        r is Ok <==> parses_as_object(s@),
        r matches Ok(t) ==> parses_as_object(t@) && json_object_keys(t@) == reordered_keys(
            base_keys.deep_view(),
            json_object_keys(s@),
        ),
        r matches Err(e) ==> (e is Syntax <==> !is_valid_json(s@)),
        r matches Err(e) ==> (e is NotObject <==> is_valid_json(s@) && !parses_as_object(s@)),
{
    match parse_object_entries(s) {
        Ok(entries) => {
            let out = reorder_entries(base_keys, entries);
            Ok(entries_to_pretty(out))
        },
        Err(e) => Err(e),
    }
}

} // verus!
