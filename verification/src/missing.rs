//! Missing top-level keys.
//!
//! The scan reports the keys a base document has and a target lacks, in
//! base order.

use crate::jsonio::{
    is_valid_json, json_object_keys, object_keys_of_text, parses_as_object, pretty_string_array,
    strings_to_pretty_array, ParseError,
};
use vstd::prelude::*;

verus! {

/// The keys of `base` that `target` lacks, in base order.
pub open spec fn missing_spec(base: Seq<Seq<char>>, target: Seq<Seq<char>>) -> Seq<Seq<char>>
    decreases base.len(),
{
    if base.len() == 0 {
        Seq::empty()
    } else {
        missing_spec(base.drop_last(), target) + (if target.contains(base.last()) {
            Seq::empty()
        } else {
            seq![base.last()]
        })
    }
}

/// A key is missing exactly when the base holds it and the target does not.
pub proof fn lemma_missing_spec_contains(base: Seq<Seq<char>>, target: Seq<Seq<char>>, x: Seq<char>)
    ensures
        missing_spec(base, target).contains(x) <==> (base.contains(x) && !target.contains(x)),
    decreases base.len(),
{
    if base.len() > 0 {
        let dl = base.drop_last();
        assert(forall|i: int| 0 <= i < dl.len() ==> dl[i] == base[i]);
        lemma_missing_spec_contains(dl, target, x);
        let pre = missing_spec(dl, target);
        let tail: Seq<Seq<char>> = if target.contains(base.last()) {
            Seq::empty()
        } else {
            seq![base.last()]
        };
        let r = pre + tail;
        if r.contains(x) {
            let m = choose|m: int| 0 <= m < r.len() && r[m] == x;
            if m < pre.len() {
                assert(pre.contains(x));
            } else {
                assert(x == base.last());
                assert(base[base.len() - 1] == x);
            }
        }
        if base.contains(x) && !target.contains(x) {
            if x == base.last() {
                assert(r[pre.len() as int] == x);
            } else {
                let m = choose|m: int| 0 <= m < base.len() && base[m] == x;
                assert(dl[m] == x);
                let w = choose|w: int| 0 <= w < pre.len() && pre[w] == x;
                assert(r[w] == x);
            }
        }
    }
}

/// Whether `key` occurs in `keys`.
fn contains_key(keys: &Vec<String>, key: &String) -> (b: bool)
    ensures
        b == keys.deep_view().contains(key@),
{
    let kv = Ghost(keys.deep_view());
    let mut j: usize = 0;
    while j < keys.len()
        invariant
            kv@ == keys.deep_view(),
            kv@.len() == keys@.len(),
            j <= keys@.len(),
            forall|m: int| 0 <= m < j ==> kv@[m] != key@,
        decreases keys@.len() - j,
    {
        if keys[j].eq(key) {
            proof {
                assert(kv@[j as int] == key@);
            }
            return true;
        }
        j = j + 1;
    }
    proof {
        if kv@.contains(key@) {
            let m = choose|m: int| 0 <= m < kv@.len() && kv@[m] == key@;
        }
    }
    false
}

/// The keys of `base` that `target` lacks, in base order.
pub fn missing_keys(base: &Vec<String>, target: &Vec<String>) -> (missing: Vec<String>)
    ensures
        missing.deep_view() == missing_spec(base.deep_view(), target.deep_view()),
{
    let bv = Ghost(base.deep_view());
    let tv = Ghost(target.deep_view());
    let mut missing: Vec<String> = Vec::new();
    let mut i: usize = 0;
    while i < base.len()
        invariant
            bv@ == base.deep_view(),
            tv@ == target.deep_view(),
            bv@.len() == base@.len(),
            i <= base@.len(),
            missing.deep_view() == missing_spec(bv@.take(i as int), tv@),
        decreases base@.len() - i,
    {
        proof {
            assert(bv@.take(i as int + 1).drop_last() =~= bv@.take(i as int));
            assert(bv@.take(i as int + 1).last() == bv@[i as int]);
        }
        let ghost before = missing.deep_view();
        if !contains_key(target, &base[i]) {
            missing.push(base[i].clone());
            proof {
                assert(missing.deep_view() =~= before + seq![bv@[i as int]]);
            }
        } else {
            proof {
                assert(before + Seq::<Seq<char>>::empty() =~= before);
            }
        }
        i = i + 1;
    }
    proof {
        assert(bv@.take(base@.len() as int) =~= bv@);
    }
    missing
}

/// The missing-key scan of one document's text against base keys: the base
/// keys the document lacks, in base order. Errors tell a syntax failure
/// from a root that is no object.
pub fn missing_in_text(base_keys: &Vec<String>, target_text: &str) -> (r: Result<
    Vec<String>,
    ParseError,
>)
    ensures
        r is Ok <==> parses_as_object(target_text@),
        r matches Ok(m) ==> m.deep_view() == missing_spec(
            base_keys.deep_view(),
            json_object_keys(target_text@),
        ),
        r matches Err(e) ==> (e is Syntax <==> !is_valid_json(target_text@)),
        r matches Err(e) ==> (e is NotObject <==> is_valid_json(target_text@)
            && !parses_as_object(target_text@)),
{
    match object_keys_of_text(target_text) {
        Ok(target_keys) => Ok(missing_keys(base_keys, &target_keys)),
        Err(e) => Err(e),
    }
}

/// The text of a missing-key export: the missing keys as a pretty-printed
/// JSON array of strings.
pub fn missing_export_text(missing: &Vec<String>) -> (r: String)
    ensures
        r@ == pretty_string_array(missing.deep_view()),
{
    strings_to_pretty_array(missing)
}

} // verus!
