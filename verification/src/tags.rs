//! The tag encoding of the versioned reference log:
//! `content:<value>,count:<n>`. Tags travel through the replicated link
//! index, so parsing rejects malformed text instead of panicking; the
//! round-trip lemma shows that any value at all survives encoding, even
//! one that itself contains the separator.

use vstd::prelude::*;

use crate::num::{all_digits, dec_digits, dec_val, is_digit, lemma_dec_digits, parse_dec,
    u64_to_dec};

verus! {

/// The view of `"content:"`.
pub open spec fn tag_prefix() -> Seq<char> {
    seq!['c', 'o', 'n', 't', 'e', 'n', 't', ':']
}

/// The view of `",count:"`.
pub open spec fn tag_sep() -> Seq<char> {
    seq![',', 'c', 'o', 'u', 'n', 't', ':']
}

/// The tag carrying `v` at counter `n`.
pub open spec fn tag_of(v: Seq<char>, n: nat) -> Seq<char> {
    tag_prefix() + v + tag_sep() + dec_digits(n)
}

/// Whether the separator occurs at position `i` of `t`.
pub open spec fn sep_at(t: Seq<char>, i: int) -> bool {
    0 <= i && i + 7 <= t.len() && t.subrange(i, i + 7) == tag_sep()
}

/// The largest position `j <= i` where the separator occurs, or `-1`.
pub open spec fn find_last_sep(t: Seq<char>, i: int) -> int
    decreases i + 1,
{
    if i < 0 {
        -1
    } else if sep_at(t, i) {
        i
    } else {
        find_last_sep(t, i - 1)
    }
}

/// What parsing a tag yields: the value and the counter, splitting at
/// the last separator occurrence, or nothing when the text does not
/// start with the prefix, holds no separator, or carries a counter that
/// is empty, non-numeric or above `u64::MAX`.
pub open spec fn spec_parse_tag(t: Seq<char>) -> Option<(Seq<char>, nat)> {
    if t.len() < 15 || t.subrange(0, 8) != tag_prefix() {
        None
    } else {
        let j = find_last_sep(t, t.len() - 7);
        if j < 8 {
            None
        } else {
            let ds = t.subrange(j + 7, t.len() as int);
            if ds.len() >= 1 && all_digits(ds) && dec_val(ds) <= u64::MAX {
                Some((t.subrange(8, j), dec_val(ds)))
            } else {
                None
            }
        }
    }
}

/// No separator occurrence starts strictly after `j`, so the scan from
/// `i` downward stops exactly at `j`.
proof fn lemma_find_last_sep_from(t: Seq<char>, j: int, i: int)
    requires
        sep_at(t, j),
        j <= i,
        forall|k: int| j < k <= i ==> t[k] != ',',
    ensures
        find_last_sep(t, i) == j,
    decreases i - j,
{
    if i == j {
    } else {
        if sep_at(t, i) {
            assert(t.subrange(i, i + 7)[0] == t[i]);
            assert(tag_sep()[0] == ',');
        }
        lemma_find_last_sep_from(t, j, i - 1);
    }
}

/// Encoding then parsing gives back exactly the value and the counter.
pub proof fn lemma_tag_round_trip(v: Seq<char>, n: u64)
    ensures
        spec_parse_tag(tag_of(v, n as nat)) == Some((v, n as nat)),
{
    let t = tag_of(v, n as nat);
    let d = dec_digits(n as nat);
    lemma_dec_digits(n as nat);
    let j = 8 + v.len() as int;
    assert(t.len() == 15 + v.len() + d.len());
    assert(t.subrange(0, 8) =~= tag_prefix());
    assert(t.subrange(j, j + 7) =~= tag_sep());
    assert forall|k: int| j < k <= t.len() - 7 implies t[k] != ',' by {
        if k < j + 7 {
            assert(t[k] == tag_sep()[k - j]);
        } else {
            assert(t[k] == d[k - j - 7]);
            assert(is_digit(d[k - j - 7]));
        }
    }
    lemma_find_last_sep_from(t, j, t.len() - 7);
    assert(t.subrange(j + 7, t.len() as int) =~= d);
    assert(t.subrange(8, j) =~= v);
}

/// Whether `pat` occurs in `s` at position `at`.
#[verifier::loop_isolation(false)]
fn match_at(s: &str, at: usize, pat: &str) -> (b: bool)
    requires
        s@.len() <= usize::MAX,
        at + pat@.len() <= s@.len(),
    ensures
        b == (s@.subrange(at as int, at as int + pat@.len()) == pat@),
{
    let m = pat.unicode_len();
    let mut j: usize = 0;
    while j < m
        invariant
            0 <= j <= m,
            m == pat@.len(),
            at + m <= s@.len(),
            forall|k: int| 0 <= k < j ==> s@[at + k] == pat@[k],
        decreases m - j,
    {
        if s.get_char(at + j) != pat.get_char(j) {
            proof {
                assert(s@.subrange(at as int, at as int + pat@.len())[j as int] != pat@[j as int]);
            }
            return false;
        }
        j = j + 1;
    }
    proof {
        assert(s@.subrange(at as int, at as int + pat@.len()) =~= pat@);
    }
    true
}

/// Builds the tag that carries `value` at counter `count`.
pub fn make_tag(value: &str, count: u64) -> (t: String)
    ensures
        t@ == tag_of(value@, count as nat),
{
    let mut out = String::from_str("content:");
    out.append(value);
    out.append(",count:");
    let digits = u64_to_dec(count);
    out.append(digits.as_str());
    proof {
        reveal_strlit("content:");
        reveal_strlit(",count:");
        assert(out@ =~= tag_of(value@, count as nat));
    }
    out
}

/// Splits a tag into its value and its counter, rejecting malformed
/// text as `None`.
#[verifier::loop_isolation(false)]
pub fn parse_tag(t: &str) -> (r: Option<(String, u64)>)
    ensures
        match r {
            Some(p) => spec_parse_tag(t@) == Some((p.0@, p.1 as nat)),
            None => spec_parse_tag(t@) is None,
        },
{
    proof {
        reveal_strlit("content:");
        reveal_strlit(",count:");
        assert("content:"@ =~= tag_prefix());
        assert(",count:"@ =~= tag_sep());
    }
    let n = t.unicode_len();
    if n < 15 {
        return None;
    }
    if !match_at(t, 0, "content:") {
        proof {
            assert(t@.subrange(0, 8) != tag_prefix());
        }
        return None;
    }
    let mut i: usize = n - 6;
    while i > 0
        invariant
            0 < n - 6,
            i <= n - 6,
            n == t@.len(),
            find_last_sep(t@, n - 7) == find_last_sep(t@, i as int - 1),
        decreases i,
    {
        let k = i - 1;
        if match_at(t, k, ",count:") {
            proof {
                assert(sep_at(t@, k as int));
                assert(find_last_sep(t@, k as int) == k as int);
            }
            if k < 8 {
                return None;
            }
            let digits = t.substring_char(k + 7, n);
            let value_str = t.substring_char(8, k);
            match parse_dec(digits) {
                Some(c) => {
                    return Some((value_str.to_owned(), c));
                },
                None => {
                    return None;
                },
            }
        }
        proof {
            if sep_at(t@, k as int) {
                assert(t@.subrange(k as int, k as int + 7) == tag_sep());
            }
            assert(find_last_sep(t@, k as int) == find_last_sep(t@, k as int - 1));
        }
        i = k;
    }
    proof {
        assert(find_last_sep(t@, -1) == -1);
    }
    None
}

} // verus!
