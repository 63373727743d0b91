//! Character-level text utilities shared by the filtering strategies:
//! ASCII case folding and substring search over sequences of Unicode
//! scalar values.

use vstd::prelude::*;
use vstd::string::StrSliceExecFns;

verus! {

/// ASCII lower-casing of a single character: `'A'..='Z'` map to
/// `'a'..='z'`, everything else is unchanged.
pub open spec fn lower_char(c: char) -> char {
    if 'A' <= c && c <= 'Z' {
        ((c as u8) + 32) as char
    } else {
        c
    }
}

/// ASCII lower-casing of a whole character sequence.
pub open spec fn lower(s: Seq<char>) -> Seq<char> {
    s.map_values(|c: char| lower_char(c))
}

/// Executable ASCII lower-casing of one character.
pub fn to_lower_char(c: char) -> (r: char)
    ensures
        r == lower_char(c),
{
    if 'A' <= c && c <= 'Z' {
        ((c as u8) + 32) as char
    } else {
        c
    }
}

/// The characters of a string slice, as an owned vector of Unicode
/// scalar values.
pub fn chars_of(s: &str) -> (r: Vec<char>)
    ensures
        r@ == s@,
{
    let n = s.unicode_len();
    let mut r: Vec<char> = Vec::new();
    let mut i: usize = 0;
    while i < n
        invariant
            n == s@.len(),
            i <= n,
            r@ == s@.subrange(0, i as int),
        decreases n - i,
    {
        let c = s.get_char(i);
        r.push(c);
        proof {
            assert(s@.subrange(0, i + 1) =~= s@.subrange(0, i as int).push(s@[i as int]));
        }
        i = i + 1;
    }
    proof {
        assert(r@ =~= s@);
    }
    r
}

/// Executable ASCII lower-casing of a character vector.
pub fn to_lower_chars(s: &Vec<char>) -> (r: Vec<char>)
    ensures
        r@ == lower(s@),
{
    let mut r: Vec<char> = Vec::new();
    let mut i: usize = 0;
    while i < s.len()
        invariant
            i <= s@.len(),
            r@ == lower(s@.subrange(0, i as int)),
        decreases s@.len() - i,
    {
        let c = to_lower_char(s[i]);
        r.push(c);
        proof {
            assert(lower(s@.subrange(0, i + 1)) =~= lower(
                s@.subrange(0, i as int),
            ).push(lower_char(s@[i as int])));
        }
        i = i + 1;
    }
    proof {
        assert(s@.subrange(0, s@.len() as int) =~= s@);
    }
    r
}

/// `p` occurs in `t` as a contiguous block starting at offset `i`.
pub open spec fn is_match_at(t: Seq<char>, p: Seq<char>, i: int) -> bool {
    &&& 0 <= i
    &&& i + p.len() <= t.len()
    &&& t.subrange(i, i + p.len() as int) == p
}

/// `p` occurs somewhere in `t` as a contiguous block.
pub open spec fn contains_seq(t: Seq<char>, p: Seq<char>) -> bool {
    exists|i: int| is_match_at(t, p, i)
}

/// The smallest offset at or after `from` where `p` occurs in `t`,
/// or `-1` when there is none.
pub open spec fn first_match_from(t: Seq<char>, p: Seq<char>, from: int) -> int
    decreases t.len() - from,
{
    if from < 0 || from + p.len() > t.len() {
        -1
    } else if is_match_at(t, p, from) {
        from
    } else if from < t.len() {
        first_match_from(t, p, from + 1)
    } else {
        -1
    }
}

/// The first occurrence found by `first_match_from` really is a match,
/// earlier offsets do not match, and `-1` means no offset matches.
pub proof fn lemma_first_match_from(t: Seq<char>, p: Seq<char>, from: int)
    requires
        0 <= from,
    ensures
        first_match_from(t, p, from) == -1 || first_match_from(t, p, from) >= from,
        first_match_from(t, p, from) >= 0 ==> is_match_at(t, p, first_match_from(t, p, from))
            && from <= first_match_from(t, p, from) && forall|j: int|
            from <= j < first_match_from(t, p, from) ==> !is_match_at(t, p, j),
        first_match_from(t, p, from) == -1 ==> forall|j: int|
            from <= j ==> !is_match_at(t, p, j),
    decreases t.len() - from,
{
    if from + p.len() > t.len() {
        assert forall|j: int| from <= j implies !is_match_at(t, p, j) by {
            assert(j + p.len() > t.len());
        }
    } else if is_match_at(t, p, from) {
    } else if from < t.len() {
        lemma_first_match_from(t, p, from + 1);
    } else {
        assert(t.subrange(from, from + p.len() as int) =~= p);
        assert(is_match_at(t, p, from));
    }
}

/// Whether `p` matches `t` at offset `i`, by direct comparison.
fn match_at(t: &Vec<char>, p: &Vec<char>, i: usize) -> (r: bool)
    requires
        i + p@.len() <= t@.len(),
    ensures
        r == is_match_at(t@, p@, i as int),
{
    let tl = t.len();
    let mut k: usize = 0;
    while k < p.len()
        invariant
            i + p@.len() <= t@.len(),
            tl == t@.len(),
            k <= p@.len(),
            forall|m: int| 0 <= m < k ==> t@[i + m] == p@[m],
        decreases p@.len() - k,
    {
        if t[i + k] != p[k] {
            proof {
                assert(t@.subrange(i as int, i + p@.len() as int)[k as int] == t@[i + k]);
            }
            return false;
        }
        k = k + 1;
    }
    proof {
        assert(t@.subrange(i as int, i + p@.len() as int) =~= p@);
    }
    true
}

/// The first offset where `p` occurs in `t` as a contiguous block, or
/// `None` when `t` does not contain `p`.
pub fn find_sub(t: &Vec<char>, p: &Vec<char>) -> (r: Option<usize>)
    ensures
        match r {
            Some(i) => first_match_from(t@, p@, 0) == i as int,
            None => first_match_from(t@, p@, 0) == -1 && !contains_seq(t@, p@),
        },
{
    proof {
        lemma_first_match_from(t@, p@, 0);
    }
    if p.len() > t.len() {
        proof {
            assert forall|j: int| !is_match_at(t@, p@, j) by {
                if 0 <= j {
                    assert(j + p@.len() > t@.len());
                }
            }
        }
        return None;
    }
    if p.len() == 0 {
        proof {
            assert(t@.subrange(0, 0) =~= p@);
        }
        return Some(0);
    }
    let tl = t.len();
    let last = tl - p.len();
    let mut i: usize = 0;
    while i <= last
        invariant
            tl == t@.len(),
            1 <= p@.len() <= t@.len(),
            last == t@.len() - p@.len(),
            i <= last + 1,
            forall|j: int| 0 <= j < i ==> !is_match_at(t@, p@, j),
        decreases last - i + 1,
    {
        if match_at(t, p, i) {
            proof {
                lemma_first_match_skip(t@, p@, 0, i as int);
            }
            return Some(i);
        }
        i = i + 1;
    }
    proof {
        assert forall|j: int| !is_match_at(t@, p@, j) by {
            if j > last {
                assert(j + p@.len() > t@.len());
            }
        }
        if first_match_from(t@, p@, 0) >= 0 {
            assert(is_match_at(t@, p@, first_match_from(t@, p@, 0)));
        }
    }
    None
}

/// When no offset in `[from, i)` matches, the search from `from` and
/// the search from `i` agree.
proof fn lemma_first_match_skip(t: Seq<char>, p: Seq<char>, from: int, i: int)
    requires
        0 <= from <= i,
        forall|j: int| from <= j < i ==> !is_match_at(t, p, j),
        is_match_at(t, p, i),
    ensures
        first_match_from(t, p, from) == i,
    decreases i - from,
{
    if from < i {
        assert(!is_match_at(t, p, from));
        assert(from + p.len() <= i + p.len() <= t.len());
        lemma_first_match_skip(t, p, from + 1, i);
    }
}

/// Relies on `String::push`: appends the given character to the end of
/// the string.
#[verifier::external_body]
fn push_char(s: &mut String, c: char)
    ensures
        final(s)@ == old(s)@.push(c),
{
    s.push(c)
}

/// An owned string holding exactly the given characters.
pub fn string_from_chars(cs: &Vec<char>) -> (r: String)
    ensures
        r@ == cs@,
{
    let mut r = String::new();
    let mut i: usize = 0;
    while i < cs.len()
        invariant
            i <= cs@.len(),
            r@ == cs@.subrange(0, i as int),
        decreases cs@.len() - i,
    {
        push_char(&mut r, cs[i]);
        proof {
            assert(cs@.subrange(0, i + 1) =~= cs@.subrange(0, i as int).push(cs@[i as int]));
        }
        i = i + 1;
    }
    proof {
        assert(r@ =~= cs@);
    }
    r
}

} // verus!
