//! Duplicate top-level keys.
//!
//! The scan counts every occurrence of each key in the raw text and reports
//! the keys that occur more than once, each once, in order of first
//! appearance, with its occurrence count.

use crate::jsonio::{is_valid_json, parse_object_entries, ParseError};
use crate::scan::{extract_top_level_keys, top_level_keys};
use vstd::prelude::*;
use vstd::string::StringExecFns;

verus! {

/// How many times `k` occurs in `ks`.
pub open spec fn count_occ(ks: Seq<Seq<char>>, k: Seq<char>) -> nat
    decreases ks.len(),
{
    if ks.len() == 0 {
        0
    } else {
        count_occ(ks.drop_last(), k) + (if ks.last() == k {
            1nat
        } else {
            0nat
        })
    }
}

/// The report over the first `n` keys: each key that occurs more than once
/// in the whole list, recorded at its first occurrence, with its full count.
pub open spec fn dup_report_upto(ks: Seq<Seq<char>>, n: int) -> Seq<(Seq<char>, nat)>
    decreases n,
{
    if n <= 0 {
        Seq::empty()
    } else {
        dup_report_upto(ks, n - 1) + (if !ks.take(n - 1).contains(ks[n - 1]) && count_occ(
            ks,
            ks[n - 1],
        ) > 1 {
            seq![(ks[n - 1], count_occ(ks, ks[n - 1]))]
        } else {
            Seq::empty()
        })
    }
}

/// The duplicate report of a key list: the keys that occur more than once,
/// in order of first appearance, each with its occurrence count.
pub open spec fn dup_report(ks: Seq<Seq<char>>) -> Seq<(Seq<char>, nat)> {
    dup_report_upto(ks, ks.len() as int)
}

/// The mathematical content of an executable report: key text and count.
pub open spec fn report_views(r: Seq<(String, usize)>) -> Seq<(Seq<char>, nat)> {
    r.map_values(|p: (String, usize)| (p.0@, p.1 as nat))
}

/// How often `key` occurs in `keys`.
fn count_key(keys: &Vec<String>, key: &String) -> (c: usize)
    ensures
        c as nat == count_occ(keys.deep_view(), key@),
{
    let kv = Ghost(keys.deep_view());
    let mut c: usize = 0;
    let mut i: usize = 0;
    while i < keys.len()
        invariant
            kv@ == keys.deep_view(),
            kv@.len() == keys@.len(),
            i <= keys@.len(),
            c <= i,
            c as nat == count_occ(kv@.take(i as int), key@),
        decreases keys@.len() - i,
    {
        proof {
            assert(kv@.take(i as int + 1).drop_last() =~= kv@.take(i as int));
            assert(kv@.take(i as int + 1).last() == kv@[i as int]);
        }
        if keys[i].eq(key) {
            c = c + 1;
        }
        i = i + 1;
    }
    proof {
        assert(kv@.take(keys@.len() as int) =~= kv@);
    }
    c
}

/// Whether `key` occurs among the first `upto` entries of `keys`.
fn key_among_first(keys: &Vec<String>, key: &String, upto: usize) -> (b: bool)
    requires
        upto <= keys@.len(),
    ensures
        b == keys.deep_view().take(upto as int).contains(key@),
{
    let kv = Ghost(keys.deep_view());
    let mut j: usize = 0;
    while j < upto
        invariant
            kv@ == keys.deep_view(),
            kv@.len() == keys@.len(),
            upto <= keys@.len(),
            j <= upto,
            forall|m: int| 0 <= m < j ==> kv@[m] != key@,
        decreases upto - j,
    {
        if keys[j].eq(key) {
            proof {
                assert(kv@.take(upto as int)[j as int] == key@);
            }
            return true;
        }
        j = j + 1;
    }
    proof {
        if kv@.take(upto as int).contains(key@) {
            let m = choose|m: int|
                0 <= m < kv@.take(upto as int).len() && kv@.take(upto as int)[m] == key@;
            assert(kv@[m] == key@);
        }
    }
    false
}

/// The duplicate report of a key occurrence list: every key occurring more
/// than once, once, in order of first appearance, with its count.
pub fn duplicate_report(keys: &Vec<String>) -> (report: Vec<(String, usize)>)
    ensures
        report_views(report@) == dup_report(keys.deep_view()),
{
    let kv = Ghost(keys.deep_view());
    let mut report: Vec<(String, usize)> = Vec::new();
    let mut i: usize = 0;
    while i < keys.len()
        invariant
            kv@ == keys.deep_view(),
            kv@.len() == keys@.len(),
            i <= keys@.len(),
            report_views(report@) == dup_report_upto(kv@, i as int),
        decreases keys@.len() - i,
    {
        let seen = key_among_first(keys, &keys[i], i);
        let ghost before = report@;
        if !seen {
            let c = count_key(keys, &keys[i]);
            if c > 1 {
                let entry = (keys[i].clone(), c);
                report.push(entry);
                proof {
                    assert(report_views(report@) =~= report_views(before) + seq![
                        (kv@[i as int], c as nat),
                    ]);
                }
            }
        }
        proof {
            assert(dup_report_upto(kv@, i as int + 1) == dup_report_upto(kv@, i as int) + (if !kv@
                .take(i as int).contains(kv@[i as int]) && count_occ(kv@, kv@[i as int]) > 1 {
                seq![(kv@[i as int], count_occ(kv@, kv@[i as int]))]
            } else {
                Seq::empty()
            }));
            if seen || !(count_occ(kv@, kv@[i as int]) > 1) {
                assert(report_views(report@) + Seq::<(Seq<char>, nat)>::empty() =~= report_views(
                    report@,
                ));
            }
        }
        i = i + 1;
    }
    proof {
        assert(dup_report(kv@) == dup_report_upto(kv@, kv@.len() as int));
    }
    report
}

/// The duplicate scan of one document's raw text: reports every top-level
/// key that occurs more than once, with its count, in order of first
/// appearance. A text free of duplicates must also be well-formed JSON,
/// else the scan fails; a text with duplicates is reported without further
/// validation.
pub fn find_duplicates_in_text(s: &str) -> (r: Result<Vec<(String, usize)>, String>)
    ensures
        r matches Ok(rep) ==> report_views(rep@) == dup_report(top_level_keys(s@)),
        dup_report(top_level_keys(s@)).len() > 0 ==> r is Ok,
        r is Err <==> (dup_report(top_level_keys(s@)).len() == 0 && !is_valid_json(s@)),
{
    let keys = extract_top_level_keys(s);
    let report = duplicate_report(&keys);
    proof {
        assert(report_views(report@).len() == report@.len());
    }
    if report.len() == 0 {
        match parse_object_entries(s) {
            Err(ParseError::Syntax(msg)) => {
                let mut err = "invalid JSON: ".to_owned();
                err.append(msg.as_str());
                Err(err)
            },
            _ => Ok(report),
        }
    } else {
        Ok(report)
    }
}

/// Soundness of the report: every entry names a key of the list with its
/// exact occurrence count, which exceeds one.
pub proof fn lemma_dup_report_sound(ks: Seq<Seq<char>>, i: int)
    requires
        0 <= i < dup_report(ks).len(),
    ensures
        ks.contains(dup_report(ks)[i].0),
        dup_report(ks)[i].1 == count_occ(ks, dup_report(ks)[i].0),
        dup_report(ks)[i].1 > 1,
{
    lemma_dup_report_upto_sound(ks, ks.len() as int, i);
}

proof fn lemma_dup_report_upto_sound(ks: Seq<Seq<char>>, n: int, i: int)
    requires
        n <= ks.len(),
        0 <= i < dup_report_upto(ks, n).len(),
    ensures
        ks.contains(dup_report_upto(ks, n)[i].0),
        dup_report_upto(ks, n)[i].1 == count_occ(ks, dup_report_upto(ks, n)[i].0),
        dup_report_upto(ks, n)[i].1 > 1,
    decreases n,
{
    if n > 0 {
        let pre = dup_report_upto(ks, n - 1);
        if i < pre.len() {
            lemma_dup_report_upto_sound(ks, n - 1, i);
        } else {
            assert(dup_report_upto(ks, n)[i] == (ks[n - 1], count_occ(ks, ks[n - 1])));
        }
    }
}

/// Completeness of the report: every key that occurs more than once in the
/// list stands in the report, with its exact count.
pub proof fn lemma_dup_report_complete(ks: Seq<Seq<char>>, k: Seq<char>)
    requires
        ks.contains(k),
        count_occ(ks, k) > 1,
    ensures
        dup_report(ks).contains((k, count_occ(ks, k))),
{
    assert(ks.take(ks.len() as int) =~= ks);
    lemma_dup_report_upto_complete(ks, ks.len() as int, k);
}

proof fn lemma_dup_report_upto_complete(ks: Seq<Seq<char>>, n: int, k: Seq<char>)
    requires
        0 <= n <= ks.len(),
        ks.take(n).contains(k),
        count_occ(ks, k) > 1,
    ensures
        dup_report_upto(ks, n).contains((k, count_occ(ks, k))),
    decreases n,
{
    assert(n > 0) by {
        if n <= 0 {
            let m = choose|m: int| 0 <= m < ks.take(n).len() && ks.take(n)[m] == k;
        }
    }
    let pre = dup_report_upto(ks, n - 1);
    if ks.take(n - 1).contains(k) {
        lemma_dup_report_upto_complete(ks, n - 1, k);
        let m = choose|m: int| 0 <= m < pre.len() && pre[m] == (k, count_occ(ks, k));
        assert(dup_report_upto(ks, n)[m] == (k, count_occ(ks, k)));
    } else {
        assert(ks[n - 1] == k) by {
            let m = choose|m: int| 0 <= m < ks.take(n).len() && ks.take(n)[m] == k;
            if m < n - 1 {
                assert(ks.take(n - 1)[m] == k);
            }
        }
        assert(dup_report_upto(ks, n) == pre + seq![(k, count_occ(ks, k))]);
        assert(dup_report_upto(ks, n)[pre.len() as int] == (k, count_occ(ks, k)));
    }
}

} // verus!
