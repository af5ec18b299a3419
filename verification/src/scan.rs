//! Raw-text scanner for top-level JSON keys.
//!
//! A structural parser collapses repeated keys into one map entry, so the
//! duplicate scan walks the raw text instead: it tracks brace depth and
//! string boundaries and records every string literal that stands at depth
//! one and is followed, after whitespace, by a colon.

use vstd::prelude::*;

verus! {

/// JSON whitespace: space, tab, line feed, carriage return.
pub open spec fn is_json_ws(c: char) -> bool {
    c == ' ' || c == '\t' || c == '\n' || c == '\r'
}

/// Position just after the string literal whose body starts at `i` (its
/// opening quote stands at `i - 1`). A backslash takes the next character
/// as-is; an unterminated literal runs to the end of the text.
pub open spec fn string_end(s: Seq<char>, i: nat) -> nat
    decreases s.len() - i,
{
    if i >= s.len() {
        s.len()
    } else if s[i as int] == '\\' {
        if i + 1 < s.len() {
            string_end(s, (i + 2) as nat)
        } else {
            s.len()
        }
    } else if s[i as int] == '"' {
        (i + 1) as nat
    } else {
        string_end(s, (i + 1) as nat)
    }
}

/// The characters of the string literal whose body starts at `i`, with each
/// backslash replaced by the character that follows it.
pub open spec fn string_content(s: Seq<char>, i: nat) -> Seq<char>
    decreases s.len() - i,
{
    if i >= s.len() {
        Seq::empty()
    } else if s[i as int] == '\\' {
        if i + 1 < s.len() {
            seq![s[i as int + 1]] + string_content(s, (i + 2) as nat)
        } else {
            Seq::empty()
        }
    } else if s[i as int] == '"' {
        Seq::empty()
    } else {
        seq![s[i as int]] + string_content(s, (i + 1) as nat)
    }
}

/// First position at or after `i` that does not hold JSON whitespace.
pub open spec fn skip_ws(s: Seq<char>, i: nat) -> nat
    decreases s.len() - i,
{
    if i >= s.len() {
        i
    } else if is_json_ws(s[i as int]) {
        skip_ws(s, (i + 1) as nat)
    } else {
        i
    }
}

proof fn lemma_string_end_bounds(s: Seq<char>, i: nat)
    requires
        i <= s.len(),
    ensures
        i <= string_end(s, i) <= s.len(),
        i < s.len() ==> i < string_end(s, i),
    decreases s.len() - i,
{
    if i >= s.len() {
    } else if s[i as int] == '\\' {
        if i + 1 < s.len() {
            lemma_string_end_bounds(s, (i + 2) as nat);
        }
    } else if s[i as int] == '"' {
    } else {
        lemma_string_end_bounds(s, (i + 1) as nat);
    }
}

proof fn lemma_skip_ws_bounds(s: Seq<char>, i: nat)
    requires
        i <= s.len(),
    ensures
        i <= skip_ws(s, i) <= s.len(),
    decreases s.len() - i,
{
    if i < s.len() && is_json_ws(s[i as int]) {
        lemma_skip_ws_bounds(s, (i + 1) as nat);
    }
}

/// The key occurrences found from position `i` onward, given the brace
/// depth accumulated so far: the content of every string literal standing
/// at depth one that is followed, after whitespace, by a colon.
pub open spec fn scan_keys(s: Seq<char>, i: nat, depth: int) -> Seq<Seq<char>>
    decreases s.len() - i,
        via scan_keys_decreases
{
    if i >= s.len() {
        Seq::empty()
    } else if s[i as int] == '{' {
        scan_keys(s, (i + 1) as nat, depth + 1)
    } else if s[i as int] == '}' {
        scan_keys(s, (i + 1) as nat, depth - 1)
    } else if s[i as int] == '"' && depth == 1 {
        let j = string_end(s, (i + 1) as nat);
        let k = skip_ws(s, j);
        if k < s.len() && s[k as int] == ':' {
            seq![string_content(s, (i + 1) as nat)] + scan_keys(s, k, depth)
        } else {
            scan_keys(s, k, depth)
        }
    } else if s[i as int] == '"' {
        scan_keys(s, string_end(s, (i + 1) as nat), depth)
    } else {
        scan_keys(s, (i + 1) as nat, depth)
    }
}

#[via_fn]
proof fn scan_keys_decreases(s: Seq<char>, i: nat, depth: int) {
    if i < s.len() {
        lemma_string_end_bounds(s, (i + 1) as nat);
        lemma_skip_ws_bounds(s, string_end(s, (i + 1) as nat));
    }
}

/// Every top-level key occurrence in the raw text, in order of appearance,
/// duplicates included.
pub open spec fn top_level_keys(s: Seq<char>) -> Seq<Seq<char>> {
    scan_keys(s, 0, 0)
}

/// Relies on `String: FromIterator<char>`: collecting characters yields the
/// string of exactly those characters, in order.
#[verifier::external_body]
fn chars_to_string(chars: &Vec<char>) -> (r: String)
    ensures
        r@ == chars@,
{
    chars.iter().collect()
}

/// Reads the string literal whose body starts at `start`, returning its
/// content (escapes folded) and the position just past its closing quote.
fn read_string_body(s: &str, start: usize, n: usize) -> (r: (String, usize))
    requires
        n == s@.len(),
        start <= n,
    ensures
        r.0@ == string_content(s@, start as nat),
        r.1 == string_end(s@, start as nat),
        start <= r.1 <= n,
        start < n ==> start < r.1,
{
    proof {
        lemma_string_end_bounds(s@, start as nat);
    }
    let mut i = start;
    let mut content: Vec<char> = Vec::new();
    loop
        invariant
            n == s@.len(),
            start <= i <= n,
            string_end(s@, start as nat) == string_end(s@, i as nat),
            string_content(s@, start as nat) == content@ + string_content(s@, i as nat),
            start < n ==> start < string_end(s@, start as nat),
        decreases n - i,
    {
        proof {
            lemma_string_end_bounds(s@, i as nat);
        }
        if i >= n {
            assert(string_content(s@, i as nat) == Seq::<char>::empty());
            assert(content@ + string_content(s@, i as nat) == content@);
            return (chars_to_string(&content), n);
        }
        let c = s.get_char(i);
        if c == '\\' {
            if i + 1 < n {
                let next = s.get_char(i + 1);
                proof {
                    assert(string_content(s@, i as nat) == seq![s@[i as int + 1]]
                        + string_content(s@, (i + 2) as nat));
                }
                content.push(next);
                assert(content@ + string_content(s@, (i + 2) as nat) == string_content(
                    s@,
                    start as nat,
                ));
                i = i + 2;
            } else {
                assert(content@ + string_content(s@, i as nat) == content@);
                return (chars_to_string(&content), n);
            }
        } else if c == '"' {
            assert(content@ + string_content(s@, i as nat) == content@);
            return (chars_to_string(&content), i + 1);
        } else {
            proof {
                assert(string_content(s@, i as nat) == seq![s@[i as int]] + string_content(
                    s@,
                    (i + 1) as nat,
                ));
            }
            content.push(c);
            assert(content@ + string_content(s@, (i + 1) as nat) == string_content(
                s@,
                start as nat,
            ));
            i = i + 1;
        }
    }
}

/// First position at or after `start` that holds something other than JSON
/// whitespace.
fn skip_ws_from(s: &str, start: usize, n: usize) -> (r: usize)
    requires
        n == s@.len(),
        start <= n,
    ensures
        r == skip_ws(s@, start as nat),
        start <= r <= n,
{
    let mut i = start;
    loop
        invariant
            n == s@.len(),
            start <= i <= n,
            skip_ws(s@, start as nat) == skip_ws(s@, i as nat),
        decreases n - i,
    {
        if i >= n {
            return i;
        }
        let c = s.get_char(i);
        if c == ' ' || c == '\t' || c == '\n' || c == '\r' {
            i = i + 1;
        } else {
            return i;
        }
    }
}

/// Extracts every top-level key occurrence from raw JSON text: the content
/// of each string literal at brace depth one that is followed, after
/// whitespace, by a colon. Duplicates are kept, in order of appearance.
pub fn extract_top_level_keys(s: &str) -> (keys: Vec<String>)
    ensures
        keys.deep_view() == top_level_keys(s@),
{
    let n = s.unicode_len();
    let mut i: usize = 0;
    let mut depth: i128 = 0;
    let mut keys: Vec<String> = Vec::new();
    while i < n
        invariant
            n == s@.len(),
            i <= n,
            -(i as int) <= depth <= i as int,
            top_level_keys(s@) == keys.deep_view() + scan_keys(s@, i as nat, depth as int),
        decreases n - i,
    {
        let c = s.get_char(i);
        if c == '{' {
            assert(scan_keys(s@, i as nat, depth as int) == scan_keys(
                s@,
                (i + 1) as nat,
                depth as int + 1,
            ));
            depth = depth + 1;
            i = i + 1;
        } else if c == '}' {
            assert(scan_keys(s@, i as nat, depth as int) == scan_keys(
                s@,
                (i + 1) as nat,
                depth as int - 1,
            ));
            depth = depth - 1;
            i = i + 1;
        } else if c == '"' && depth == 1 {
            let (content, j) = read_string_body(s, i + 1, n);
            let k = skip_ws_from(s, j, n);
            let is_key = k < n && s.get_char(k) == ':';
            if is_key {
                proof {
                    assert(scan_keys(s@, i as nat, depth as int) == seq![
                        string_content(s@, (i + 1) as nat),
                    ] + scan_keys(s@, k as nat, depth as int));
                }
                let ghost old_keys = keys.deep_view();
                keys.push(content);
                proof {
                    assert(keys.deep_view() =~= old_keys + seq![content@]);
                    assert(old_keys + seq![content@] + scan_keys(s@, k as nat, depth as int)
                        =~= old_keys + (seq![content@] + scan_keys(s@, k as nat, depth as int)));
                }
            } else {
                assert(scan_keys(s@, i as nat, depth as int) == scan_keys(
                    s@,
                    k as nat,
                    depth as int,
                ));
            }
            i = k;
        } else if c == '"' {
            let (_content, j) = read_string_body(s, i + 1, n);
            assert(scan_keys(s@, i as nat, depth as int) == scan_keys(s@, j as nat, depth as int));
            i = j;
        } else {
            assert(scan_keys(s@, i as nat, depth as int) == scan_keys(
                s@,
                (i + 1) as nat,
                depth as int,
            ));
            i = i + 1;
        }
    }
    assert(scan_keys(s@, i as nat, depth as int) == Seq::<Seq<char>>::empty());
    assert(keys.deep_view() + scan_keys(s@, i as nat, depth as int) == keys.deep_view());
    keys
}

} // verus!
