use vstd::prelude::*;
use vstd::string::*;

verus! {

/// An ASCII decimal digit.
pub open spec fn is_digit(c: char) -> bool {
    '0' <= c && c <= '9'
}

/// A character allowed in a description: ASCII letter, digit or underscore.
pub open spec fn is_word_char(c: char) -> bool {
    ('a' <= c && c <= 'z') || ('A' <= c && c <= 'Z') || is_digit(c) || c == '_'
}

/// The number written by a run of decimal digits, most significant first.
pub open spec fn digits_value(s: Seq<char>) -> nat
    decreases s.len(),
{
    if s.len() == 0 {
        0
    } else {
        10 * digits_value(s.drop_last()) + ((s.last() as u32 - '0' as u32) as nat)
    }
}

/// `s` is `V`, the digits `s[1..k]`, two underscores, then a non-empty run of
/// word characters up to the end.
pub open spec fn valid_stem_at(s: Seq<char>, k: int) -> bool {
    &&& 1 < k
    &&& k + 2 < s.len()
    &&& s[0] == 'V'
    &&& forall|j: int| 1 <= j < k ==> is_digit(#[trigger] s[j])
    &&& s[k] == '_'
    &&& s[k + 1] == '_'
    &&& forall|j: int| k + 2 <= j < s.len() ==> is_word_char(#[trigger] s[j])
}

/// The stem matches `V<digits>__<word characters>`.
pub open spec fn valid_stem(s: Seq<char>) -> bool {
    exists|k: int| valid_stem_at(s, k)
}

/// Where the version digits of a valid stem end.
pub open spec fn stem_split(s: Seq<char>) -> int {
    choose|k: int| valid_stem_at(s, k)
}

/// The version number of a valid stem.
pub open spec fn stem_version(s: Seq<char>) -> nat {
    digits_value(s.subrange(1, stem_split(s)))
}

/// The description of a valid stem.
pub open spec fn stem_description(s: Seq<char>) -> Seq<char> {
    s.subrange(stem_split(s) + 2, s.len() as int)
}

/// Appending a digit never makes the value smaller.
proof fn lemma_digits_value_push(s: Seq<char>, c: char)
    requires
        is_digit(c),
    ensures
        digits_value(s.push(c)) == 10 * digits_value(s) + ((c as u32 - '0' as u32) as nat),
        digits_value(s.push(c)) >= digits_value(s),
{
    assert(s.push(c).drop_last() =~= s);
}

/// Parses a file stem of the form `V<version>__<description>`.
///
/// Returns the version and the description, or `None` where the stem does not
/// follow the grammar or its version does not fit in a `u64`.
pub fn parse_stem(stem: &str) -> (r: Option<(u64, String)>)
    ensures
        match r {
            Some((v, d)) => valid_stem(stem@) && v as nat == stem_version(stem@)
                && d@ == stem_description(stem@),
            None => !valid_stem(stem@) || stem_version(stem@) > u64::MAX,
        },
{
    let ghost s = stem@;
    let n = stem.unicode_len();
    if n < 1 || stem.get_char(0) != 'V' {
        assert(forall|k: int| !valid_stem_at(s, k));
        return None;
    }
    let mut k: usize = 1;
    let mut value: u64 = 0;
    let mut overflow = false;
    while k < n
        invariant
            1 <= k <= n,
            n == s.len(),
            s == stem@,
            s[0] == 'V',
            forall|j: int| 1 <= j < k ==> is_digit(#[trigger] s[j]),
            !overflow ==> value as nat == digits_value(s.subrange(1, k as int)),
            overflow ==> digits_value(s.subrange(1, k as int)) > u64::MAX,
        ensures
            k < n ==> !is_digit(s[k as int]),
        decreases n - k,
    {
        let c = stem.get_char(k);
        if !('0' <= c && c <= '9') {
            break;
        }
        let d = (c as u32 - '0' as u32) as u64;
        proof {
            lemma_digits_value_push(s.subrange(1, k as int), c);
            assert(s.subrange(1, k as int).push(c) =~= s.subrange(1, k + 1));
        }
        if !overflow {
            if value > (u64::MAX - d) / 10 {
                overflow = true;
            } else {
                value = value * 10 + d;
            }
        }
        k = k + 1;
    }
    // Any split point of a valid stem is the first non-digit after `V`.
    assert forall|k2: int| valid_stem_at(s, k2) implies k2 == k by {
        if k2 < k {
            assert(is_digit(s[k2]));
        } else if k2 > k {
            assert(is_digit(s[k as int]));
        }
    }
    if k < 2 || n - k <= 2 || stem.get_char(k) != '_' || stem.get_char(k + 1) != '_' {
        return None;
    }
    let mut i: usize = k + 2;
    while i < n
        invariant
            k + 2 <= i <= n,
            n == s.len(),
            s == stem@,
            forall|j: int| k + 2 <= j < i ==> is_word_char(#[trigger] s[j]),
        decreases n - i,
    {
        let c = stem.get_char(i);
        if !(('a' <= c && c <= 'z') || ('A' <= c && c <= 'Z') || ('0' <= c && c <= '9') || c
            == '_') {
            assert(!valid_stem_at(s, k as int));
            return None;
        }
        i = i + 1;
    }
    assert(valid_stem_at(s, k as int));
    assert(stem_split(s) == k);
    if overflow {
        return None;
    }
    let description = stem.substring_char(k + 2, n).to_string();
    Some((value, description))
}

} // verus!
