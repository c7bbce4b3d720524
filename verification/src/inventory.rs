//! Box-identifier checksum and near-pair search. A checksum multiplies
//! the number of identifiers containing some letter exactly twice by
//! the number containing some letter exactly three times; the second
//! half of the puzzle finds the pair of identifiers differing in
//! exactly one position and reports their common characters.

use crate::text::{lines_of, push_char, split_lines, str_eq, views_of};
use std::collections::HashMap;
use vstd::prelude::*;

verus! {

broadcast use vstd::std_specs::hash::group_hash_axioms;

/// How the near-pair search can fail.
#[derive(Debug, Clone, Copy, PartialEq, Eq, Structural)]
pub enum InventoryError {
    /// No two identifiers differ in exactly one position.
    NoSuitablePair,
}

/// How many times character `c` occurs in `s`.
pub open spec fn count_char(s: Seq<char>, c: char) -> int
    decreases s.len(),
{
    if s.len() == 0 {
        0
    } else {
        count_char(s.drop_last(), c) + if s.last() == c {
            1int
        } else {
            0int
        }
    }
}

/// The distinct characters of `s`, in order of first occurrence.
pub open spec fn distinct_chars(s: Seq<char>) -> Seq<char>
    decreases s.len(),
{
    if s.len() == 0 {
        Seq::empty()
    } else {
        let p = distinct_chars(s.drop_last());
        if p.contains(s.last()) {
            p
        } else {
            p.push(s.last())
        }
    }
}

/// The entries of `d` whose occurrence count in `s` is exactly `f`.
pub open spec fn filter_by_count(d: Seq<char>, s: Seq<char>, f: int) -> Seq<char>
    decreases d.len(),
{
    if d.len() == 0 {
        Seq::empty()
    } else {
        let p = filter_by_count(d.drop_last(), s, f);
        if count_char(s, d.last()) == f {
            p.push(d.last())
        } else {
            p
        }
    }
}

/// The distinct characters of `s` occurring exactly `f` times, in
/// order of first occurrence.
pub open spec fn chars_with_count(s: Seq<char>, f: int) -> Seq<char> {
    filter_by_count(distinct_chars(s), s, f)
}

/// Counts the occurrences of `c` in `s`.
fn count_char_in(s: &str, c: char) -> (r: usize)
    ensures
        r as int == count_char(s@, c),
{
    let len: usize = s.unicode_len();
    let mut r: usize = 0;
    let mut i: usize = 0;
    while i < len
        invariant
            i <= len,
            len == s@.len(),
            r as int == count_char(s@.take(i as int), c),
            r <= i,
        decreases len - i,
    {
        proof {
            assert(s@.take(i + 1).drop_last() =~= s@.take(i as int));
            assert(s@.take(i + 1).last() == s@[i as int]);
        }
        if s.get_char(i) == c {
            r = r + 1;
        }
        i = i + 1;
    }
    proof {
        assert(s@.take(len as int) =~= s@);
    }
    r
}

/// Groups the distinct characters of an identifier by how often each
/// occurs: the key `f` maps to the characters occurring exactly `f`
/// times, in order of first occurrence. Only keys with at least one
/// such character are present.
#[verifier::loop_isolation(false)]
pub fn letters_by_freq(s: &str) -> (m: HashMap<usize, Vec<char>>)
    ensures
        forall|f: usize| #[trigger] m@.contains_key(f) <==> chars_with_count(s@, f as int).len()
            > 0,
        forall|f: usize| #[trigger] m@.contains_key(f) ==> m@[f]@ == chars_with_count(
            s@,
            f as int,
        ),
{
    let len: usize = s.unicode_len();
    let mut keys: Vec<char> = Vec::new();
    let mut i: usize = 0;
    proof {
        assert(s@.take(0) =~= Seq::<char>::empty());
    }
    while i < len
        invariant
            i <= len,
            keys@ == distinct_chars(s@.take(i as int)),
        decreases len - i,
    {
        let c = s.get_char(i);
        proof {
            assert(s@.take(i + 1).drop_last() =~= s@.take(i as int));
            assert(s@.take(i + 1).last() == s@[i as int]);
        }
        let mut j: usize = 0;
        while j < keys.len() && keys[j] != c
            invariant
                j <= keys@.len(),
                forall|k: int| 0 <= k < j ==> keys@[k] != c,
            decreases keys@.len() - j,
        {
            j = j + 1;
        }
        if j == keys.len() {
            proof {
                assert(!keys@.contains(c));
            }
            keys.push(c);
        } else {
            proof {
                assert(keys@.contains(c)) by {
                    assert(keys@[j as int] == c);
                }
            }
        }
        i = i + 1;
    }
    proof {
        assert(s@.take(len as int) =~= s@);
    }
    let ghost dk = distinct_chars(s@);
    let mut groups: Vec<(usize, Vec<char>)> = Vec::new();
    let mut j: usize = 0;
    while j < keys.len()
        invariant
            j <= keys@.len(),
            keys@ == dk,
            forall|a: int, b: int| 0 <= a < b < groups@.len() ==> (#[trigger] groups@[a].0)
                != (#[trigger] groups@[b].0),
            forall|idx: int| 0 <= idx < groups@.len() ==> (#[trigger] groups@[idx].1)@
                == filter_by_count(dk.take(j as int), s@, groups@[idx].0 as int),
            forall|idx: int| 0 <= idx < groups@.len() ==> (#[trigger] groups@[idx].1)@.len() > 0,
            forall|f: int|
                #[trigger] filter_by_count(dk.take(j as int), s@, f).len() > 0 ==> exists|idx: int|
                    0 <= idx < groups@.len() && (#[trigger] groups@[idx].0) as int == f,
        decreases keys@.len() - j,
    {
        let c = keys[j];
        let cnt = count_char_in(s, c);
        let ghost before = groups@;
        proof {
            assert(dk.take(j + 1).drop_last() =~= dk.take(j as int));
            assert(dk.take(j + 1).last() == dk[j as int]);
        }
        let mut idx: usize = 0;
        while idx < groups.len() && groups[idx].0 != cnt
            invariant
                idx <= groups@.len(),
                groups@ == before,
                forall|k: int| 0 <= k < idx ==> (#[trigger] groups@[k].0) != cnt,
            decreases groups@.len() - idx,
        {
            idx = idx + 1;
        }
        if idx == groups.len() {
            let mut v: Vec<char> = Vec::new();
            v.push(c);
            proof {
                assert(filter_by_count(dk.take(j as int), s@, cnt as int).len() == 0) by {
                    if filter_by_count(dk.take(j as int), s@, cnt as int).len() > 0 {
                        let k = choose|k: int|
                            0 <= k < before.len() && (#[trigger] before[k].0) as int == cnt as int;
                        assert(false);
                    }
                }
            }
            groups.push((cnt, v));
            proof {
                assert(groups@.drop_last() =~= before);
                assert forall|f: int|
                    #[trigger] filter_by_count(dk.take(j + 1), s@, f).len() > 0 implies exists|
                    k: int,
                |
                    0 <= k < groups@.len() && (#[trigger] groups@[k].0) as int == f by {
                    if f == cnt as int {
                        assert(groups@[groups@.len() - 1].0 == cnt);
                    } else {
                        assert(filter_by_count(dk.take(j as int), s@, f).len() > 0);
                        let k = choose|k: int|
                            0 <= k < before.len() && (#[trigger] before[k].0) as int == f;
                        assert(groups@[k].0 == before[k].0);
                    }
                }
                assert(groups@[groups@.len() - 1].1@ =~= filter_by_count(
                    dk.take(j + 1),
                    s@,
                    cnt as int,
                ));
            }
        } else {
            let (key, mut v) = groups.remove(idx);
            v.push(c);
            groups.insert(idx, (key, v));
            proof {
                assert(groups@ =~= before.update(idx as int, (key, v)));
                assert forall|f: int|
                    #[trigger] filter_by_count(dk.take(j + 1), s@, f).len() > 0 implies exists|
                    k: int,
                |
                    0 <= k < groups@.len() && (#[trigger] groups@[k].0) as int == f by {
                    if f == cnt as int {
                        assert(groups@[idx as int].0 == cnt);
                    } else {
                        assert(filter_by_count(dk.take(j as int), s@, f).len() > 0);
                        let k = choose|k: int|
                            0 <= k < before.len() && (#[trigger] before[k].0) as int == f;
                        assert(groups@[k].0 == before[k].0);
                    }
                }
            }
        }
        j = j + 1;
    }
    proof {
        assert(dk.take(dk.len() as int) =~= dk);
    }
    let mut m: HashMap<usize, Vec<char>> = HashMap::new();
    let mut t: usize = 0;
    let ghost gs = groups@;
    while t < groups.len()
        invariant
            t <= gs.len(),
            groups@ == gs,
            forall|a: int, b: int| 0 <= a < b < gs.len() ==> (#[trigger] gs[a].0) != (
            #[trigger] gs[b].0),
            forall|idx: int| 0 <= idx < gs.len() ==> (#[trigger] gs[idx].1)@ == filter_by_count(
                dk,
                s@,
                gs[idx].0 as int,
            ),
            forall|idx: int| 0 <= idx < gs.len() ==> (#[trigger] gs[idx].1)@.len() > 0,
            forall|f: int| #[trigger] filter_by_count(dk, s@, f).len() > 0 ==> exists|idx: int|
                0 <= idx < gs.len() && (#[trigger] gs[idx].0) as int == f,
            forall|f: usize| #[trigger] m@.contains_key(f) <==> exists|idx: int|
                0 <= idx < t && (#[trigger] gs[idx].0) == f,
            forall|f: usize| #[trigger] m@.contains_key(f) ==> exists|idx: int|
                0 <= idx < t && (#[trigger] gs[idx].0) == f && m@[f]@ == gs[idx].1@,
        decreases gs.len() - t,
    {
        let key = groups[t].0;
        let mut val: Vec<char> = Vec::new();
        let mut q: usize = 0;
        proof {
            assert(gs[t as int].1@.take(0) =~= Seq::<char>::empty());
        }
        while q < groups[t].1.len()
            invariant
                t < gs.len(),
                groups@ == gs,
                q <= gs[t as int].1@.len(),
                val@ == gs[t as int].1@.take(q as int),
            decreases gs[t as int].1@.len() - q,
        {
            val.push(groups[t].1[q]);
            proof {
                assert(gs[t as int].1@.take(q + 1) =~= gs[t as int].1@.take(q as int).push(
                    gs[t as int].1@[q as int],
                ));
            }
            q = q + 1;
        }
        proof {
            assert(gs[t as int].1@.take(gs[t as int].1@.len() as int) =~= gs[t as int].1@);
            assert(val@ == gs[t as int].1@);
        }
        let ghost old_m = m@;
        m.insert(key, val);
        proof {
            assert forall|f: usize| #[trigger] m@.contains_key(f) implies exists|idx: int|
                0 <= idx < t + 1 && (#[trigger] gs[idx].0) == f by {
                if f != key {
                    let idx = choose|idx: int| 0 <= idx < t && (#[trigger] gs[idx].0) == f;
                    assert(0 <= idx < t + 1 && gs[idx].0 == f);
                } else {
                    assert(gs[t as int].0 == f);
                }
            }
            assert forall|f: usize| #[trigger] m@.contains_key(f) implies exists|idx: int|
                0 <= idx < t + 1 && (#[trigger] gs[idx].0) == f && m@[f]@ == gs[idx].1@ by {
                if f != key {
                    let idx = choose|idx: int|
                        0 <= idx < t && (#[trigger] gs[idx].0) == f && old_m[f]@ == gs[idx].1@;
                    assert(0 <= idx < t + 1 && gs[idx].0 == f && m@[f]@ == gs[idx].1@);
                } else {
                    assert(gs[t as int].0 == f && m@[f]@ == gs[t as int].1@);
                }
            }
        }
        t = t + 1;
    }
    proof {
        assert forall|f: usize| #[trigger] m@.contains_key(f) implies chars_with_count(
            s@,
            f as int,
        ).len() > 0 by {
            let idx = choose|idx: int| 0 <= idx < gs.len() && (#[trigger] gs[idx].0) == f
                && m@[f]@ == gs[idx].1@;
            assert(gs[idx].1@ == filter_by_count(dk, s@, f as int));
        }
        assert forall|f: usize| chars_with_count(s@, f as int).len() > 0 implies
            #[trigger] m@.contains_key(f) by {
            let idx = choose|idx: int| 0 <= idx < gs.len() && (#[trigger] gs[idx].0) as int
                == f as int;
            assert(gs[idx].0 == f);
        }
        assert forall|f: usize| #[trigger] m@.contains_key(f) implies m@[f]@ == chars_with_count(
            s@,
            f as int,
        ) by {
            let idx = choose|idx: int| 0 <= idx < gs.len() && (#[trigger] gs[idx].0) == f
                && m@[f]@ == gs[idx].1@;
            assert(gs[idx].1@ == filter_by_count(dk, s@, f as int));
        }
    }
    m
}

/// How many distinct characters of an identifier occur exactly twice,
/// and exactly three times: `None` stands for none at all.
pub fn two_or_three(s: &str) -> (r: (Option<usize>, Option<usize>))
    ensures
        r.0 == (if chars_with_count(s@, 2).len() > 0 {
            Some(chars_with_count(s@, 2).len() as usize)
        } else {
            None::<usize>
        }),
        r.1 == (if chars_with_count(s@, 3).len() > 0 {
            Some(chars_with_count(s@, 3).len() as usize)
        } else {
            None::<usize>
        }),
{
    let lbf = letters_by_freq(s);
    let two = match lbf.get(&2) {
        Some(letters) => Some(letters.len()),
        None => None,
    };
    let three = match lbf.get(&3) {
        Some(letters) => Some(letters.len()),
        None => None,
    };
    (two, three)
}


/// Whether some character occurs exactly `f` times in `s`.
pub open spec fn has_repeat(s: Seq<char>, f: int) -> bool {
    chars_with_count(s, f).len() > 0
}

/// How many of the identifiers contain some character exactly `f`
/// times.
pub open spec fn count_with_repeat(ids: Seq<&str>, f: int) -> int
    decreases ids.len(),
{
    if ids.len() == 0 {
        0
    } else {
        count_with_repeat(ids.drop_last(), f) + if has_repeat(ids.last()@, f) {
            1int
        } else {
            0int
        }
    }
}

/// The identifiers in the input, one per newline-terminated line.
pub fn get_ids<'a>(s: &'a str) -> (r: Vec<&'a str>)
    ensures
        views_of(r@) == lines_of(s@),
{
    split_lines(s)
}

/// The checksum of the identifier list: the number of identifiers with
/// a doubled character times the number with a tripled character.
#[verifier::loop_isolation(false)]
pub fn checksum(ids: &[&str]) -> (r: usize)
    requires
        ids@.len() * ids@.len() <= usize::MAX,
    ensures
        r == count_with_repeat(ids@, 2) * count_with_repeat(ids@, 3),
{
    let mut count_two: usize = 0;
    let mut count_three: usize = 0;
    let mut i: usize = 0;
    proof {
        assert(ids@.take(0) =~= Seq::<&str>::empty());
    }
    while i < ids.len()
        invariant
            i <= ids@.len(),
            count_two as int == count_with_repeat(ids@.take(i as int), 2),
            count_three as int == count_with_repeat(ids@.take(i as int), 3),
            count_two <= i,
            count_three <= i,
        decreases ids@.len() - i,
    {
        proof {
            assert(ids@.take(i + 1).drop_last() =~= ids@.take(i as int));
            assert(ids@.take(i + 1).last() == ids@[i as int]);
            if ids@.len() >= 1 {
                vstd::arithmetic::mul::lemma_mul_upper_bound(
                    1,
                    ids@.len() as int,
                    ids@.len() as int,
                    ids@.len() as int,
                );
            }
        }
        let (two, three) = two_or_three(ids[i]);
        if two.is_some() {
            count_two = count_two + 1;
        }
        if three.is_some() {
            count_three = count_three + 1;
        }
        i = i + 1;
    }
    proof {
        assert(ids@.take(ids@.len() as int) =~= ids@);
        vstd::arithmetic::mul::lemma_mul_upper_bound(
            count_two as int,
            ids@.len() as int,
            count_three as int,
            ids@.len() as int,
        );
        vstd::arithmetic::mul::lemma_mul_nonnegative(count_two as int, count_three as int);
    }
    count_two * count_three
}

/// The number of positions, over the shorter length, at which the two
/// identifiers hold different characters.
pub open spec fn diff_count(a: Seq<char>, b: Seq<char>) -> int
    decreases a.len(),
{
    if a.len() == 0 || b.len() == 0 {
        0
    } else {
        (if a[0] != b[0] {
            1int
        } else {
            0int
        }) + diff_count(a.drop_first(), b.drop_first())
    }
}

/// Counts the positions at which the two identifiers differ.
#[verifier::loop_isolation(false)]
pub fn diffcount(left: &str, right: &str) -> (r: usize)
    ensures
        r as int == diff_count(left@, right@),
{
    let llen: usize = left.unicode_len();
    let rlen: usize = right.unicode_len();
    let mut r: usize = 0;
    let mut i: usize = 0;
    proof {
        assert(left@.skip(0) =~= left@);
        assert(right@.skip(0) =~= right@);
    }
    while i < llen && i < rlen
        invariant
            i <= llen,
            i <= rlen,
            r <= i,
            diff_count(left@, right@) == r + diff_count(
                left@.skip(i as int),
                right@.skip(i as int),
            ),
        decreases llen - i,
    {
        proof {
            assert(left@.skip(i as int)[0] == left@[i as int]);
            assert(right@.skip(i as int)[0] == right@[i as int]);
            assert(left@.skip(i as int).drop_first() =~= left@.skip(i + 1));
            assert(right@.skip(i as int).drop_first() =~= right@.skip(i + 1));
        }
        if left.get_char(i) != right.get_char(i) {
            r = r + 1;
        }
        i = i + 1;
    }
    r
}

/// Identifiers at positions `i` and `j` differ in exactly one position
/// without being equal strings.
pub open spec fn is_near_pair(ids: Seq<&str>, i: int, j: int) -> bool {
    ids[i]@ != ids[j]@ && diff_count(ids[i]@, ids[j]@) == 1
}

/// The first pair of distinct identifiers (scanning all ordered pairs,
/// left index outer) that differ in exactly one position.
#[verifier::loop_isolation(false)]
pub fn find_id_pair<'a, 'b>(ids: &'a [&'b str]) -> (r: Option<(&'b str, &'b str)>)
    ensures
        r is None ==> forall|i: int, j: int|
            0 <= i < ids@.len() && 0 <= j < ids@.len() ==> !is_near_pair(ids@, i, j),
        r matches Some((a, b)) ==> exists|i: int, j: int|
            #![auto]
            {
                &&& 0 <= i < ids@.len() && 0 <= j < ids@.len()
                &&& is_near_pair(ids@, i, j)
                &&& a == ids@[i] && b == ids@[j]
                &&& forall|i2: int, j2: int|
                    0 <= i2 < ids@.len() && 0 <= j2 < ids@.len() && (i2 < i || (i2 == i && j2 < j))
                        ==> !is_near_pair(ids@, i2, j2)
            },
{
    let mut i: usize = 0;
    while i < ids.len()
        invariant
            i <= ids@.len(),
            forall|i2: int, j2: int|
                0 <= i2 < i && 0 <= j2 < ids@.len() ==> !is_near_pair(ids@, i2, j2),
        decreases ids@.len() - i,
    {
        let mut j: usize = 0;
        while j < ids.len()
            invariant
                i < ids@.len(),
                j <= ids@.len(),
                forall|i2: int, j2: int|
                    0 <= i2 < i && 0 <= j2 < ids@.len() ==> !is_near_pair(ids@, i2, j2),
                forall|j2: int| 0 <= j2 < j ==> !is_near_pair(ids@, i as int, j2),
            decreases ids@.len() - j,
        {
            if !str_eq(ids[i], ids[j]) {
                if diffcount(ids[i], ids[j]) == 1 {
                    proof {
                        assert(is_near_pair(ids@, i as int, j as int));
                    }
                    return Some((ids[i], ids[j]));
                }
            }
            j = j + 1;
        }
        i = i + 1;
    }
    None
}

/// The characters at positions where the two identifiers agree, over
/// the shorter length.
pub open spec fn common_chars(a: Seq<char>, b: Seq<char>) -> Seq<char>
    decreases a.len(),
{
    if a.len() == 0 || b.len() == 0 {
        Seq::empty()
    } else {
        (if a[0] == b[0] {
            seq![a[0]]
        } else {
            Seq::empty()
        }) + common_chars(a.drop_first(), b.drop_first())
    }
}

/// The characters shared by the first near pair of identifiers, or an
/// error when no pair of identifiers differs in exactly one position.
#[verifier::loop_isolation(false)]
pub fn solve_part2(ids: &[&str]) -> (r: Result<String, InventoryError>)
    ensures
        r is Err <==> forall|i: int, j: int|
            0 <= i < ids@.len() && 0 <= j < ids@.len() ==> !is_near_pair(ids@, i, j),
        r matches Err(e) ==> e == InventoryError::NoSuitablePair,
        r matches Ok(s) ==> exists|i: int, j: int|
            #![auto]
            {
                &&& 0 <= i < ids@.len() && 0 <= j < ids@.len()
                &&& is_near_pair(ids@, i, j)
                &&& s@ == common_chars(ids@[i]@, ids@[j]@)
                &&& forall|i2: int, j2: int|
                    0 <= i2 < ids@.len() && 0 <= j2 < ids@.len() && (i2 < i || (i2 == i && j2 < j))
                        ==> !is_near_pair(ids@, i2, j2)
            },
{
    match find_id_pair(ids) {
        None => Err(InventoryError::NoSuitablePair),
        Some((left, right)) => {
            let llen: usize = left.unicode_len();
            let rlen: usize = right.unicode_len();
            let mut rest = String::new();
            let mut k: usize = 0;
            proof {
                assert(left@.skip(0) =~= left@);
                assert(right@.skip(0) =~= right@);
                assert(rest@ + common_chars(left@, right@) =~= common_chars(left@, right@));
            }
            while k < llen && k < rlen
                invariant
                    k <= llen,
                    k <= rlen,
                    llen == left@.len(),
                    rlen == right@.len(),
                    common_chars(left@, right@) == rest@ + common_chars(
                        left@.skip(k as int),
                        right@.skip(k as int),
                    ),
                decreases llen - k,
            {
                let cl = left.get_char(k);
                let cr = right.get_char(k);
                proof {
                    assert(left@.skip(k as int)[0] == left@[k as int]);
                    assert(right@.skip(k as int)[0] == right@[k as int]);
                    assert(left@.skip(k as int).drop_first() =~= left@.skip(k + 1));
                    assert(right@.skip(k as int).drop_first() =~= right@.skip(k + 1));
                    if cl == cr {
                        assert(seq![cl] + common_chars(left@.skip(k + 1), right@.skip(k + 1))
                            =~= seq![cl].add(
                            common_chars(left@.skip(k + 1), right@.skip(k + 1)),
                        ));
                    }
                }
                if cl == cr {
                    push_char(&mut rest, cr);
                    proof {
                        assert(rest@ + common_chars(left@.skip(k + 1), right@.skip(k + 1))
                            =~= rest@.drop_last() + (seq![cl] + common_chars(
                            left@.skip(k + 1),
                            right@.skip(k + 1),
                        )));
                    }
                }
                k = k + 1;
            }
            proof {
                if k == llen {
                    assert(left@.skip(k as int) =~= Seq::<char>::empty());
                } else {
                    assert(right@.skip(k as int) =~= Seq::<char>::empty());
                }
                assert(rest@ + Seq::<char>::empty() =~= rest@);
            }
            Ok(rest)
        },
    }
}

} // verus!
