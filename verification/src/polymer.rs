//! Polymer reaction: adjacent units of the same type but opposite
//! polarity (for letters: the same letter in the other case) annihilate.
//! One pass removes non-overlapping adjacent reactive pairs left to
//! right; full reaction repeats passes until nothing changes.

use crate::text::{chars_to_string, push_char, str_to_chars};
use vstd::prelude::*;

verus! {

pub open spec fn is_upper(c: char) -> bool {
    'A' <= c && c <= 'Z'
}

pub open spec fn is_lower(c: char) -> bool {
    'a' <= c && c <= 'z'
}

/// The same unit with the opposite polarity: uppercase letters map to
/// lowercase, lowercase to uppercase, all other characters to themselves.
pub open spec fn invert_polarity_spec(c: char) -> char {
    if is_upper(c) {
        ((c as u32) + 32) as char
    } else if is_lower(c) {
        ((c as u32) - 32) as char
    } else {
        c
    }
}

pub open spec fn opposite(a: char, b: char) -> bool {
    invert_polarity_spec(a) == b
}

/// Switches the case of an ASCII letter; other characters are unchanged.
pub fn invert_polarity(ch: char) -> (r: char)
    ensures
        r == invert_polarity_spec(ch),
{
    let code = ch as u32;
    if 'A' <= ch && ch <= 'Z' {
        ((code + 32) as u8) as char
    } else if 'a' <= ch && ch <= 'z' {
        ((code - 32) as u8) as char
    } else {
        ch
    }
}

/// Whether two adjacent units react: the first, with its polarity
/// switched, equals the second.
pub fn have_opposite_polarity(a: char, b: char) -> (r: bool)
    ensures
        r == opposite(a, b),
{
    invert_polarity(a) == b
}

/// One left-to-right reaction pass: each reactive adjacent pair is
/// removed; a unit that survives is never reconsidered in this pass.
/// The flag records whether any pair reacted.
pub open spec fn react_once_spec(s: Seq<char>) -> (Seq<char>, bool)
    decreases s.len(),
{
    if s.len() >= 2 && opposite(s[0], s[1]) {
        (react_once_spec(s.skip(2)).0, true)
    } else if s.len() >= 1 {
        let rest = react_once_spec(s.skip(1));
        (seq![s[0]] + rest.0, rest.1)
    } else {
        (Seq::empty(), false)
    }
}

/// A pass never lengthens the polymer, and a pass that reacted
/// strictly shortens it.
pub proof fn lemma_react_once_len(s: Seq<char>)
    ensures
        react_once_spec(s).0.len() <= s.len(),
        react_once_spec(s).1 ==> react_once_spec(s).0.len() < s.len(),
    decreases s.len(),
{
    if s.len() >= 2 && opposite(s[0], s[1]) {
        lemma_react_once_len(s.skip(2));
    } else if s.len() >= 1 {
        lemma_react_once_len(s.skip(1));
    }
}

/// Performs one reaction pass over the units.
pub fn react_once(letters: &[char]) -> (r: (Vec<char>, bool))
    ensures
        r.0@ == react_once_spec(letters@).0,
        r.1 == react_once_spec(letters@).1,
{
    let mut result: Vec<char> = Vec::new();
    let mut changed = false;
    let mut i: usize = 0;
    proof {
        assert(letters@.skip(0) =~= letters@);
        assert(result@ + react_once_spec(letters@).0 =~= react_once_spec(letters@).0);
    }
    while i < letters.len()
        invariant
            i <= letters@.len(),
            react_once_spec(letters@).0 == result@ + react_once_spec(letters@.skip(i as int)).0,
            react_once_spec(letters@).1 == (changed || react_once_spec(letters@.skip(i as int)).1),
        decreases letters@.len() - i,
    {
        let ghost tail = letters@.skip(i as int);
        if i + 1 < letters.len() && have_opposite_polarity(letters[i], letters[i + 1]) {
            changed = true;
            proof {
                assert(tail[0] == letters@[i as int]);
                assert(tail[1] == letters@[i + 1 as int]);
                assert(tail.skip(2) =~= letters@.skip(i + 2 as int));
            }
            i = i + 2;
        } else {
            result.push(letters[i]);
            proof {
                assert(tail[0] == letters@[i as int]);
                assert(tail.skip(1) =~= letters@.skip(i + 1 as int));
                assert(seq![tail[0]] + react_once_spec(tail.skip(1)).0
                    =~= seq![tail[0]].add(react_once_spec(tail.skip(1)).0));
            }
            i = i + 1;
        }
    }
    proof {
        assert(letters@.skip(letters@.len() as int) =~= Seq::<char>::empty());
        assert(result@ + Seq::<char>::empty() =~= result@);
    }
    (result, changed)
}

/// The fully reacted polymer: passes are applied until one makes no
/// change; the result is that stable polymer.
pub open spec fn react_fully_spec(s: Seq<char>) -> Seq<char>
    decreases s.len(),
    via react_fully_spec_decreases
{
    if react_once_spec(s).1 {
        react_fully_spec(react_once_spec(s).0)
    } else {
        s
    }
}

#[via_fn]
proof fn react_fully_spec_decreases(s: Seq<char>) {
    lemma_react_once_len(s);
}

/// Reacts the polymer until no adjacent pair can react any more.
pub fn react_fully(letters: &str) -> (r: String)
    ensures
        r@ == react_fully_spec(letters@),
{
    let mut input: Vec<char> = str_to_chars(letters);
    loop
        invariant
            react_fully_spec(letters@) == react_fully_spec(input@),
        decreases input@.len(),
    {
        let (output, changed) = react_once(input.as_slice());
        if !changed {
            return chars_to_string(&input);
        }
        proof {
            lemma_react_once_len(input@);
        }
        input = output;
    }
}

/// The ASCII-lowercased form of a character; the type of a unit.
pub open spec fn lower_spec(c: char) -> char {
    if is_upper(c) {
        ((c as u32) + 32) as char
    } else {
        c
    }
}

/// The ASCII-uppercased form of a character.
pub open spec fn upper_spec(c: char) -> char {
    if is_lower(c) {
        ((c as u32) - 32) as char
    } else {
        c
    }
}

fn lower_char(c: char) -> (r: char)
    ensures
        r == lower_spec(c),
{
    if 'A' <= c && c <= 'Z' {
        (((c as u32) + 32) as u8) as char
    } else {
        c
    }
}

fn upper_char(c: char) -> (r: char)
    ensures
        r == upper_spec(c),
{
    if 'a' <= c && c <= 'z' {
        (((c as u32) - 32) as u8) as char
    } else {
        c
    }
}

/// The polymer with every unit equal to `lower` or `upper` removed;
/// all other units keep their relative order.
pub open spec fn delete_type_spec(s: Seq<char>, lower: char, upper: char) -> Seq<char>
    decreases s.len(),
{
    if s.len() == 0 {
        Seq::empty()
    } else {
        let prefix = delete_type_spec(s.drop_last(), lower, upper);
        if s.last() != lower && s.last() != upper {
            prefix.push(s.last())
        } else {
            prefix
        }
    }
}

/// Removes every occurrence of the two given characters from the input.
pub fn delete_type(lower: char, upper: char, input: &str) -> (r: String)
    ensures
        r@ == delete_type_spec(input@, lower, upper),
{
    let len: usize = input.unicode_len();
    let mut r = String::new();
    let mut i: usize = 0;
    while i < len
        invariant
            i <= len,
            len == input@.len(),
            r@ == delete_type_spec(input@.take(i as int), lower, upper),
        decreases len - i,
    {
        let c = input.get_char(i);
        proof {
            assert(input@.take(i + 1 as int).drop_last() =~= input@.take(i as int));
            assert(input@.take(i + 1 as int).last() == input@[i as int]);
        }
        if c != lower && c != upper {
            push_char(&mut r, c);
        }
        i = i + 1;
    }
    proof {
        assert(input@.take(len as int) =~= input@);
    }
    r
}

/// Whether `t` is the type (lowercased form) of some unit of the polymer.
pub open spec fn is_type(s: Seq<char>, t: char) -> bool {
    exists|i: int| 0 <= i < s.len() && lower_spec(s[i]) == t
}

/// The length of the fully reacted polymer once every unit of type `t`
/// (both polarities) has been removed first.
pub open spec fn reacted_len(s: Seq<char>, t: char) -> int {
    react_fully_spec(delete_type_spec(s, t, upper_spec(t))).len() as int
}

/// Collects the set of unit types of the input, in strictly increasing
/// character order.
fn collect_types(input: &str) -> (r: Vec<char>)
    ensures
        forall|a: int, b: int| 0 <= a < b < r@.len() ==> r@[a] < r@[b],
        forall|t: char| #[trigger] is_type(input@, t) <==> r@.contains(t),
{
    let len: usize = input.unicode_len();
    let mut r: Vec<char> = Vec::new();
    let mut i: usize = 0;
    while i < len
        invariant
            i <= len,
            len == input@.len(),
            forall|a: int, b: int| 0 <= a < b < r@.len() ==> r@[a] < r@[b],
            forall|t: char| r@.contains(t) ==> exists|k: int|
                0 <= k < i && lower_spec(input@[k]) == t,
            forall|k: int| 0 <= k < i ==> r@.contains(#[trigger] lower_spec(input@[k])),
        decreases len - i,
    {
        let t = lower_char(input.get_char(i));
        let ghost r_before = r@;
        let mut j: usize = 0;
        while j < r.len() && r[j] < t
            invariant
                j <= r@.len(),
                r@ == r_before,
                forall|a: int| 0 <= a < j ==> r@[a] < t,
            decreases r@.len() - j,
        {
            j = j + 1;
        }
        if j == r.len() || r[j] != t {
            r.insert(j, t);
            proof {
                assert forall|t2: char| r@.contains(t2) implies r_before.contains(t2) || t2
                    == t by {
                    let w = choose|w: int| 0 <= w < r@.len() && r@[w] == t2;
                    if w < j {
                        assert(r_before[w] == t2);
                    } else if w > j {
                        assert(r_before[w - 1] == t2);
                    }
                }
                assert forall|t2: char| r_before.contains(t2) implies r@.contains(t2) by {
                    let w = choose|w: int| 0 <= w < r_before.len() && r_before[w] == t2;
                    if w < j {
                        assert(r@[w] == t2);
                    } else {
                        assert(r@[w + 1] == t2);
                    }
                }
                assert(r@[j as int] == t);
                assert forall|a: int, b: int| 0 <= a < b < r@.len() implies r@[a] < r@[b] by {
                    if a < j && b < j {
                        assert(r@[a] == r_before[a] && r@[b] == r_before[b]);
                    } else if a < j && b == j {
                        assert(r@[a] == r_before[a]);
                    } else if a < j && b > j {
                        assert(r@[a] == r_before[a] && r@[b] == r_before[b - 1]);
                    } else if a == j && b > j {
                        assert(r@[b] == r_before[b - 1]);
                    } else if a > j {
                        assert(r@[a] == r_before[a - 1] && r@[b] == r_before[b - 1]);
                    }
                }
            }
        } else {
            proof {
                assert(r@.contains(t)) by {
                    assert(r@[j as int] == t);
                }
            }
        }
        proof {
            assert(r@.contains(lower_spec(input@[i as int])));
            assert forall|t2: char| r@.contains(t2) implies exists|k: int|
                0 <= k < i + 1 && lower_spec(input@[k]) == t2 by {
                if r_before.contains(t2) {
                    let k = choose|k: int| 0 <= k < i && lower_spec(input@[k]) == t2;
                    assert(0 <= k < i + 1 && lower_spec(input@[k]) == t2);
                } else {
                    assert(t2 == t);
                    assert(lower_spec(input@[i as int]) == t2);
                }
            }
        }
        i = i + 1;
    }
    r
}

/// Finds the unit type whose removal lets the polymer react down to the
/// shortest result. Returns that type and the reacted length; among
/// types tied for the shortest result the one latest in character order
/// is kept. Returns `None` only for an empty polymer.
pub fn solve_part2(input: &str) -> (r: Option<(char, usize)>)
    ensures
        r is Some <==> input@.len() > 0,
        r matches Some((ch, len)) ==> {
            &&& is_type(input@, ch)
            &&& len as int == reacted_len(input@, ch)
            &&& forall|t: char| #[trigger] is_type(input@, t) ==> len as int <= reacted_len(input@, t)
            &&& forall|t: char| #[trigger] is_type(input@, t) && reacted_len(input@, t) == len as int
                ==> t <= ch
        },
{
    let all_types = collect_types(input);
    let mut best: Option<(char, usize)> = None;
    let mut idx: usize = 0;
    proof {
        if input@.len() > 0 {
            assert(is_type(input@, lower_spec(input@[0])));
        }
    }
    while idx < all_types.len()
        invariant
            idx <= all_types@.len(),
            forall|a: int, b: int| 0 <= a < b < all_types@.len() ==> all_types@[a] < all_types@[b],
            forall|t: char| #[trigger] is_type(input@, t) <==> all_types@.contains(t),
            best is Some <==> idx > 0,
            best matches Some((ch, len)) ==> {
                &&& all_types@.take(idx as int).contains(ch)
                &&& len as int == reacted_len(input@, ch)
                &&& forall|k: int| 0 <= k < idx ==> len as int <= reacted_len(
                    input@,
                    #[trigger] all_types@[k],
                )
                &&& forall|k: int| 0 <= k < idx && reacted_len(input@, all_types@[k]) == len as int
                    ==> #[trigger] all_types@[k] <= ch
            },
        decreases all_types@.len() - idx,
    {
        let goner = all_types[idx];
        let trial = delete_type(goner, upper_char(goner), input);
        let result = react_fully(trial.as_str());
        let result_len: usize = result.as_str().unicode_len();
        proof {
            assert(result_len as int == reacted_len(input@, goner));
            assert(all_types@.take(idx + 1).contains(all_types@[idx as int])) by {
                assert(all_types@.take(idx + 1)[idx as int] == all_types@[idx as int]);
            }
        }
        match best {
            Some((bch, len)) if len < result_len => {
                proof {
                    assert(all_types@.take(idx as int).contains(bch));
                    let w = choose|w: int|
                        0 <= w < idx && all_types@.take(idx as int)[w] == bch;
                    assert(all_types@.take(idx + 1)[w] == bch);
                    assert(all_types@.take(idx + 1).contains(bch));
                }
            },
            _ => {
                best = Some((goner, result_len));
            },
        }
        idx = idx + 1;
    }
    proof {
        if input@.len() > 0 {
            assert(is_type(input@, lower_spec(input@[0])));
            assert(all_types@.contains(lower_spec(input@[0])));
            assert(all_types@.len() > 0);
            assert(best is Some);
        }
        if best is Some {
            assert(all_types@.len() > 0);
            assert(all_types@.contains(all_types@[0]));
            assert(is_type(input@, all_types@[0]));
            assert(input@.len() > 0);
        }
        assert(all_types@.take(all_types@.len() as int) =~= all_types@);
        match best {
            Some((ch, len)) => {
                assert forall|t: char| #[trigger] is_type(input@, t) implies len as int
                    <= reacted_len(input@, t) by {
                    let k = choose|k: int| 0 <= k < all_types@.len() && all_types@[k] == t;
                    assert(len as int <= reacted_len(input@, all_types@[k]));
                }
                assert forall|t: char|
                    #[trigger] is_type(input@, t) && reacted_len(input@, t) == len as int implies t
                    <= ch by {
                    let k = choose|k: int| 0 <= k < all_types@.len() && all_types@[k] == t;
                    assert(all_types@[k] <= ch);
                }
            },
            None => {},
        }
    }
    best
}

} // verus!
