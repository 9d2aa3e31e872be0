//! The longest stretch of a string in which no character occurs twice.

use std::collections::HashSet;
use vstd::prelude::*;
use vstd::string::StrSliceExecFns;

verus! {

broadcast use vstd::std_specs::hash::group_hash_axioms;

/// No character occurs twice in `s` from index `from` up to, not
/// including, `to`.
pub open spec fn all_distinct(s: Seq<char>, from: int, to: int) -> bool {
    forall|a: int, b: int| from <= a < b < to ==> s[a] != s[b]
}

/// The window of `len` characters at `start` is the longest one of `s`
/// without a repeated character, and the leftmost of that length.
pub open spec fn is_longest_unique(s: Seq<char>, start: int, len: int) -> bool {
    &&& 0 <= start
    &&& 0 <= len
    &&& start + len <= s.len()
    &&& all_distinct(s, start, start + len)
    &&& forall|i: int, j: int| 0 <= i <= j <= s.len() && all_distinct(s, i, j) ==> j - i <= len
    &&& forall|i: int, j: int|
        0 <= i < start && j == i + len && j <= s.len() ==> !all_distinct(s, i, j)
}

/// The number by which a character is kept in the set of seen ones.
spec fn code(c: char) -> u32 {
    c as u32
}

/// The codes of the characters of `s` from `from` up to `to`.
spec fn window_codes(s: Seq<char>, from: int, to: int) -> Set<u32> {
    Set::new(|x: u32| exists|k: int| from <= k < to && code(#[trigger] s[k]) == x)
}

/// The characters of `s`, one by one.
pub fn chars_of(s: &str) -> (chars: Vec<char>)
    ensures
        chars@ == s@,
{
    let mut chars: Vec<char> = Vec::new();
    for c in iter: s.chars()
        invariant
            iter.seq() == s@,
            chars@ == s@.subrange(0, iter.index() as int),
    {
        chars.push(c);
        assert(chars@ =~= s@.subrange(0, iter.index() + 1));
    }
    assert(chars@ =~= s@);
    chars
}

/// Where the longest window without a repeated character starts in
/// `chars`, and how long it is: the leftmost one of that length. A window
/// slides over the characters: it grows at its end while the next
/// character is new to it, and shrinks at its start while it is not.
pub fn longest_unique_window(chars: &Vec<char>) -> (window: (usize, usize))
    ensures
        is_longest_unique(chars@, window.0 as int, window.1 as int),
        window.0 + window.1 <= chars.len(),
{
    let n: usize = chars.len();
    let ghost cs = chars@;
    let mut seen: HashSet<u32> = HashSet::new();
    let mut start: usize = 0;
    let mut end: usize = 0;
    let mut max_start: usize = 0;
    let mut max_len: usize = 0;
    while end < n
        invariant
            n == cs.len(),
            cs == chars@,
            start <= end <= n,
            max_start + max_len <= end,
            end - start <= max_len,
            all_distinct(cs, start as int, end as int),
            seen@ =~= window_codes(cs, start as int, end as int),
            forall|i: int, j: int| 0 <= i < start && j == end + 1 ==> !all_distinct(cs, i, j),
            forall|i: int, j: int| 0 <= i <= j <= end && all_distinct(cs, i, j) ==> j - i <= max_len,
            all_distinct(cs, max_start as int, max_start + max_len),
            forall|i: int, j: int|
                0 <= i <= j < max_start + max_len && all_distinct(cs, i, j) ==> j - i < max_len,
        decreases 2 * n - start - end,
    {
        let next: u32 = chars[end] as u32;
        assert(next == code(cs[end as int]));
        if !seen.contains(&next) {
            proof {
                assert forall|a: int, b: int| start <= a < b < end + 1 implies cs[a] != cs[b] by {
                    if b == end && cs[a] == cs[b] {
                        assert(code(cs[a]) == next);
                        assert(window_codes(cs, start as int, end as int).contains(next));
                    }
                }
                assert forall|i: int, j: int| 0 <= i < start && j == end + 2 implies !all_distinct(
                    cs,
                    i,
                    j,
                ) by {
                    lemma_repeat_stays(cs, i, end + 1, j);
                }
            }
            seen.insert(next);
            end += 1;
            proof {
                assert(seen@ =~= window_codes(cs, start as int, end as int)) by {
                    assert forall|x: u32| window_codes(cs, start as int, end as int).contains(
                        x,
                    ) implies seen@.contains(x) by {
                        let k = choose|k: int| start <= k < end && code(#[trigger] cs[k]) == x;
                    }
                    assert forall|x: u32| seen@.contains(x) implies window_codes(
                        cs,
                        start as int,
                        end as int,
                    ).contains(x) by {
                        if x == next {
                            assert(code(cs[end - 1]) == x);
                        } else {
                            let k = choose|k: int|
                                start <= k < end - 1 && code(#[trigger] cs[k]) == x;
                        }
                    }
                }
            }
            if end - start > max_len {
                max_len = end - start;
                max_start = start;
            }
        } else {
            proof {
                let k = choose|k: int| start <= k < end && code(#[trigger] cs[k]) == next;
                lemma_code_tells_apart(cs[k], cs[end as int]);
            }
            let first: u32 = chars[start] as u32;
            assert(first == code(cs[start as int]));
            seen.remove(&first);
            start += 1;
            proof {
                assert(seen@ =~= window_codes(cs, start as int, end as int)) by {
                    assert forall|x: u32| window_codes(cs, start as int, end as int).contains(
                        x,
                    ) implies seen@.contains(x) by {
                        let k = choose|k: int| start <= k < end && code(#[trigger] cs[k]) == x;
                        lemma_code_tells_apart(cs[k], cs[start - 1]);
                    }
                    assert forall|x: u32| seen@.contains(x) implies window_codes(
                        cs,
                        start as int,
                        end as int,
                    ).contains(x) by {
                        let k = choose|k: int| start - 1 <= k < end && code(#[trigger] cs[k]) == x;
                    }
                }
            }
        }
    }
    (max_start, max_len)
}

/// Two characters with one code are one character.
proof fn lemma_code_tells_apart(a: char, b: char)
    ensures
        code(a) == code(b) ==> a == b,
{
}

/// A window that holds a repeated character still holds it when it is
/// made longer at its end.
proof fn lemma_repeat_stays(s: Seq<char>, from: int, to: int, longer: int)
    requires
        !all_distinct(s, from, to),
        to <= longer,
    ensures
        !all_distinct(s, from, longer),
{
    let (a, b) = choose|a: int, b: int| from <= a < b < to && s[a] == s[b];
    assert(from <= a < b < longer && s[a] == s[b]);
}

/// The longest substring of `s` in which no character occurs twice; of
/// several of that length, the leftmost. It is empty only for the empty
/// string.
pub fn longest_unique_substring(s: &str) -> (longest: &str)
    ensures
        exists|start: int|
            is_longest_unique(s@, start, longest@.len() as int) && longest@ == s@.subrange(
                start,
                start + longest@.len(),
            ),
{
    let chars = chars_of(s);
    let (start, len) = longest_unique_window(&chars);
    let longest = s.substring_char(start, start + len);
    assert(is_longest_unique(s@, start as int, longest@.len() as int));
    longest
}

} // verus!
