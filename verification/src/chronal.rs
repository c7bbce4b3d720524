//! Frequency calibration: a list of signed integer drifts, one per
//! line, is summed cyclically until some running total is reached for
//! a second time.

use crate::text::{digit_run_end, digits_val, lines_of, parse_decimal, scan_digits, views_of,
    split_lines};
use vstd::prelude::*;

verus! {

/// How reading the drift list can fail.
#[derive(Debug, Clone, Copy, PartialEq, Eq, Structural)]
pub enum ChronalError {
    /// A line is not an optionally signed decimal integer that fits
    /// a 64-bit signed value.
    BadLine,
}

/// Where the digits of an optionally signed integer literal begin.
pub open spec fn int_start(s: Seq<char>) -> int {
    if s.len() > 0 && (s[0] == '+' || s[0] == '-') {
        1
    } else {
        0
    }
}

/// An optional sign followed by at least one decimal digit and
/// nothing else.
pub open spec fn int_syntax_ok(s: Seq<char>) -> bool {
    s.len() > int_start(s) && digit_run_end(s, int_start(s)) == s.len()
}

/// The magnitude of the literal.
pub open spec fn int_mag(s: Seq<char>) -> int {
    digits_val(s.subrange(int_start(s), s.len() as int))
}

/// The signed value of the literal.
pub open spec fn int_val(s: Seq<char>) -> int {
    if s.len() > 0 && s[0] == '-' {
        -int_mag(s)
    } else {
        int_mag(s)
    }
}

/// What parsing one drift line yields.
pub open spec fn parse_int_spec(s: Seq<char>) -> Result<i64, ChronalError> {
    if int_syntax_ok(s) && i64::MIN <= int_val(s) <= i64::MAX {
        Ok(int_val(s) as i64)
    } else {
        Err(ChronalError::BadLine)
    }
}

/// Parses one line as an optionally signed 64-bit integer.
pub fn parse_int(line: &str) -> (r: Result<i64, ChronalError>)
    ensures
        r == parse_int_spec(line@),
{
    let len: usize = line.unicode_len();
    let neg = len > 0 && line.get_char(0) == '-';
    let start: usize = if len > 0 && (line.get_char(0) == '+' || line.get_char(0) == '-') {
        1
    } else {
        0
    };
    if len == start {
        return Err(ChronalError::BadLine);
    }
    let e = scan_digits(line, start);
    if e != len {
        return Err(ChronalError::BadLine);
    }
    let bound: u64 = if neg {
        0x8000_0000_0000_0000
    } else {
        0x7fff_ffff_ffff_ffff
    };
    match parse_decimal(line, start, len, bound) {
        None => {
            proof {
                assert(int_mag(line@) > bound);
            }
            Err(ChronalError::BadLine)
        },
        Some(mag) => {
            proof {
                assert(int_mag(line@) == mag);
            }
            if neg {
                if mag == 0x8000_0000_0000_0000 {
                    Ok(i64::MIN)
                } else {
                    Ok(-(mag as i64))
                }
            } else {
                Ok(mag as i64)
            }
        },
    }
}

/// The model of a drift-list result: errors unchanged, vectors by
/// view.
pub open spec fn ints_model(r: Result<Vec<i64>, ChronalError>) -> Result<Seq<i64>, ChronalError> {
    match r {
        Ok(v) => Ok(v@),
        Err(e) => Err(e),
    }
}

/// What parsing a sequence of drift lines yields: the values in
/// order, or the error of the first line that fails.
pub open spec fn parse_ints_all(ls: Seq<Seq<char>>) -> Result<Seq<i64>, ChronalError>
    decreases ls.len(),
{
    if ls.len() == 0 {
        Ok(Seq::empty())
    } else {
        match parse_int_spec(ls[0]) {
            Ok(v) => match parse_ints_all(ls.drop_first()) {
                Ok(rest) => Ok(seq![v] + rest),
                Err(er) => Err(er),
            },
            Err(er) => Err(er),
        }
    }
}

/// Parses every newline-terminated line of the input as a signed
/// drift value, stopping at the first malformed line.
#[verifier::loop_isolation(false)]
pub fn get_input(text: &str) -> (r: Result<Vec<i64>, ChronalError>)
    ensures
        ints_model(r) == parse_ints_all(lines_of(text@)),
{
    let lines = split_lines(text);
    let ghost lv = lines_of(text@);
    let mut values: Vec<i64> = Vec::new();
    let mut i: usize = 0;
    proof {
        assert(lv.skip(0) =~~= lv);
    }
    while i < lines.len()
        invariant
            i <= lines@.len(),
            views_of(lines@) == lv,
            parse_ints_all(lv) == (match parse_ints_all(lv.skip(i as int)) {
                Ok(rest) => Ok::<Seq<i64>, ChronalError>(values@ + rest),
                Err(er) => Err::<Seq<i64>, ChronalError>(er),
            }),
        decreases lines@.len() - i,
    {
        let ghost tail = lv.skip(i as int);
        proof {
            assert(tail[0] == lv[i as int]);
            assert(lv[i as int] == lines@[i as int]@);
            assert(tail.drop_first() =~~= lv.skip(i + 1));
        }
        match parse_int(lines[i]) {
            Ok(v) => {
                let ghost old_values = values@;
                values.push(v);
                proof {
                    assert(values@ =~= old_values.push(v));
                    assert(parse_ints_all(tail.drop_first()) == parse_ints_all(lv.skip(i + 1)));
                    match parse_ints_all(lv.skip(i + 1)) {
                        Ok(rest) => {
                            assert(old_values + (seq![v] + rest) =~= old_values.push(v) + rest);
                        },
                        Err(_) => {},
                    }
                }
            },
            Err(er) => {
                return Err(er);
            },
        }
        i = i + 1;
    }
    proof {
        assert(lv.skip(lv.len() as int) =~~= Seq::<Seq<char>>::empty());
        assert(values@ + Seq::<i64>::empty() =~= values@);
    }
    Ok(values)
}

/// The sum of the first `k` drifts of the cyclically repeated list.
pub open spec fn cycle_sum(c: Seq<i64>, k: int) -> int
    decreases k,
{
    if k <= 0 || c.len() == 0 {
        0
    } else {
        cycle_sum(c, k - 1) + c[(k - 1) % (c.len() as int)]
    }
}

/// All running totals after 1 to `k` steps stay within the 64-bit
/// signed range.
pub open spec fn sums_fit(c: Seq<i64>, k: int) -> bool {
    forall|j: int| 1 <= j <= k ==> i64::MIN <= #[trigger] cycle_sum(c, j) <= i64::MAX
}

/// The total after `k` steps was already reached after some earlier
/// number of steps (possibly zero: the initial total is zero).
pub open spec fn is_repeat_at(c: Seq<i64>, k: int) -> bool {
    exists|j: int| 0 <= j < k && #[trigger] cycle_sum(c, j) == cycle_sum(c, k)
}

/// A sequence of distinct 64-bit values cannot be longer than the
/// number of 64-bit values.
proof fn lemma_distinct_i64_len(s: Seq<i64>)
    requires
        s.no_duplicates(),
    ensures
        s.len() <= 0x1_0000_0000_0000_0000,
{
    let t = s.map_values(|x: i64| x as int);
    assert(t.no_duplicates()) by {
        assert(forall|i: int, j: int|
            0 <= i < t.len() && 0 <= j < t.len() && i != j ==> #[trigger] t[i] != #[trigger] t[j]);
    }
    t.unique_seq_to_set();
    let range = vstd::set_lib::set_int_range(i64::MIN as int, i64::MAX as int + 1);
    vstd::set_lib::lemma_int_range(i64::MIN as int, i64::MAX as int + 1);
    assert(t.to_set().subset_of(range)) by {
        assert forall|x: int| t.to_set().contains(x) implies range.contains(x) by {
            let w = choose|w: int| 0 <= w < t.len() && t[w] == x;
            assert(i64::MIN <= s[w] <= i64::MAX);
        }
    }
    vstd::set_lib::lemma_len_subset(t.to_set(), range);
}

/// The first running total that is reached twice when the drift list
/// is applied cyclically, starting from zero (zero itself counts as
/// already reached). `None` when the list is empty, or when the
/// running total leaves the 64-bit signed range before any total
/// repeats.
#[verifier::loop_isolation(false)]
pub fn first_repeat(c: &[i64]) -> (r: Option<i64>)
    ensures
        r matches Some(v) ==> exists|k: int|
            #![auto]
            {
                &&& 1 <= k
                &&& sums_fit(c@, k)
                &&& is_repeat_at(c@, k)
                &&& v == cycle_sum(c@, k)
                &&& forall|k2: int| 1 <= k2 < k ==> !is_repeat_at(c@, k2)
            },
        r is None ==> c@.len() == 0 || exists|k: int|
            #![trigger sums_fit(c@, k)]
            {
                &&& 1 <= k
                &&& sums_fit(c@, k - 1)
                &&& !sums_fit(c@, k)
                &&& forall|k2: int| 1 <= k2 < k ==> !is_repeat_at(c@, k2)
            },
{
    if c.len() == 0 {
        return None;
    }
    let ghost n = c@.len() as int;
    let mut seen: Vec<i64> = Vec::new();
    seen.push(0);
    let mut current: i64 = 0;
    let mut i: usize = 0;
    let ghost mut k: int = 0;
    let ghost mut q: int = 0;
    loop
        invariant
            c@.len() > 0,
            n == c@.len() as int,
            0 <= i < c@.len(),
            k >= 0,
            q >= 0,
            k == q * n + i,
            current == cycle_sum(c@, k),
            sums_fit(c@, k),
            seen@.len() == k + 1,
            seen@.len() <= 0x1_0000_0000_0000_0000,
            forall|j: int| 0 <= j <= k ==> seen@[j] == cycle_sum(c@, j),
            seen@.no_duplicates(),
            forall|k2: int| 1 <= k2 <= k ==> !is_repeat_at(c@, k2),
        decreases 0x1_0000_0000_0000_0000 - k,
    {
        proof {
            vstd::arithmetic::div_mod::lemma_fundamental_div_mod_converse(k, n, q, i as int);
            assert(k % n == i as int);
            assert(cycle_sum(c@, k + 1) == cycle_sum(c@, k) + c@[i as int]);
        }
        let n_i = c[i];
        match current.checked_add(n_i) {
            None => {
                proof {
                    assert(!(i64::MIN <= cycle_sum(c@, k + 1) <= i64::MAX));
                    assert(!sums_fit(c@, k + 1));
                    assert(sums_fit(c@, (k + 1) - 1));
                    assert(forall|k2: int| 1 <= k2 < k + 1 ==> !is_repeat_at(c@, k2));
                }
                return None;
            },
            Some(next) => {
                current = next;
                proof {
                    assert(current == cycle_sum(c@, k + 1));
                    assert forall|j: int| 1 <= j <= k + 1 implies i64::MIN <= #[trigger] cycle_sum(
                        c@,
                        j,
                    ) <= i64::MAX by {
                        if j <= k {
                            assert(sums_fit(c@, k));
                        }
                    }
                }
                let mut f: usize = 0;
                while f < seen.len() && seen[f] != current
                    invariant
                        f <= seen@.len(),
                        forall|p: int| 0 <= p < f ==> seen@[p] != current,
                    decreases seen@.len() - f,
                {
                    f = f + 1;
                }
                if f < seen.len() {
                    proof {
                        assert(seen@[f as int] == current);
                        assert(cycle_sum(c@, f as int) == cycle_sum(c@, k + 1));
                        assert(is_repeat_at(c@, k + 1));
                    }
                    return Some(current);
                }
                proof {
                    assert forall|k2: int| 1 <= k2 <= k + 1 implies !is_repeat_at(c@, k2) by {
                        if k2 == k + 1 {
                            if is_repeat_at(c@, k + 1) {
                                let j = choose|j: int|
                                    0 <= j < k + 1 && #[trigger] cycle_sum(c@, j) == cycle_sum(
                                        c@,
                                        k + 1,
                                    );
                                assert(seen@[j] == current);
                                assert(false);
                            }
                        }
                    }
                }
                let ghost old_seen = seen@;
                seen.push(current);
                proof {
                    assert forall|a: int, b: int|
                        0 <= a < b < seen@.len() implies seen@[a] != seen@[b] by {
                        if b < seen@.len() - 1 {
                            assert(old_seen[a] != old_seen[b]);
                        } else {
                            assert(old_seen[a] != current);
                        }
                    }
                    lemma_distinct_i64_len(seen@);
                    k = k + 1;
                }
                i = i + 1;
                if i == c.len() {
                    i = 0;
                    proof {
                        q = q + 1;
                        assert(q * n == (q - 1) * n + n) by (nonlinear_arith);
                    }
                }
            },
        }
    }
}

} // verus!
