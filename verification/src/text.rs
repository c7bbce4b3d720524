//! Small verified helpers for working with `&str` and `String` as
//! sequences of characters: conversion to and from `Vec<char>`,
//! decimal digits, and splitting into newline-terminated lines.

use vstd::prelude::*;

verus! {

/// Appends one character to a string.
/// Relies on `String::push`: appends the given `char` to the end of the string.
#[verifier::external_body]
pub(crate) fn push_char(s: &mut String, c: char)
    ensures
        final(s)@ == old(s)@.push(c),
{
    s.push(c);
}

/// Collects the characters of a string slice into a vector.
pub fn str_to_chars(s: &str) -> (r: Vec<char>)
    ensures
        r@ == s@,
{
    let len: usize = s.unicode_len();
    let mut r: Vec<char> = Vec::new();
    let mut i: usize = 0;
    while i < len
        invariant
            i <= len,
            len == s@.len(),
            r@ == s@.take(i as int),
        decreases len - i,
    {
        let c = s.get_char(i);
        r.push(c);
        proof {
            assert(s@.take(i + 1 as int) =~= s@.take(i as int).push(s@[i as int]));
        }
        i = i + 1;
    }
    proof {
        assert(s@.take(len as int) =~= s@);
    }
    r
}

/// Builds a `String` holding exactly the characters of the vector.
pub fn chars_to_string(v: &Vec<char>) -> (r: String)
    ensures
        r@ == v@,
{
    let mut r = String::new();
    let mut i: usize = 0;
    while i < v.len()
        invariant
            i <= v@.len(),
            r@ == v@.take(i as int),
        decreases v@.len() - i,
    {
        push_char(&mut r, v[i]);
        proof {
            assert(v@.take(i + 1 as int) =~= v@.take(i as int).push(v@[i as int]));
        }
        i = i + 1;
    }
    proof {
        assert(v@.take(v@.len() as int) =~= v@);
    }
    r
}

/// An ASCII decimal digit.
pub open spec fn is_digit(c: char) -> bool {
    '0' <= c && c <= '9'
}

/// The numeric value of one decimal digit.
pub open spec fn digit_val(c: char) -> int {
    (c as int) - ('0' as int)
}

/// The numeric value of a run of decimal digits, most significant
/// first.
pub open spec fn digits_val(s: Seq<char>) -> int
    decreases s.len(),
{
    if s.len() == 0 {
        0
    } else {
        digits_val(s.drop_last()) * 10 + digit_val(s.last())
    }
}

pub open spec fn all_digits(s: Seq<char>) -> bool {
    forall|i: int| 0 <= i < s.len() ==> is_digit(#[trigger] s[i])
}

/// A run of digits has a non-negative value.
pub proof fn lemma_digits_val_nonneg(s: Seq<char>)
    requires
        all_digits(s),
    ensures
        digits_val(s) >= 0,
    decreases s.len(),
{
    if s.len() > 0 {
        assert(all_digits(s.drop_last()));
        lemma_digits_val_nonneg(s.drop_last());
    }
}

/// Extending a digit run to the right never decreases its value.
pub proof fn lemma_digits_val_prefix(s: Seq<char>, t: int)
    requires
        all_digits(s),
        0 <= t <= s.len(),
    ensures
        digits_val(s.take(t)) <= digits_val(s),
    decreases s.len() - t,
{
    if t == s.len() {
        assert(s.take(t) =~= s);
    } else {
        assert(s.take(t + 1).drop_last() =~= s.take(t));
        assert(all_digits(s.take(t)));
        lemma_digits_val_nonneg(s.take(t));
        assert(digits_val(s.take(t + 1)) == digits_val(s.take(t)) * 10 + digit_val(s[t]));
        lemma_digits_val_prefix(s, t + 1);
    }
}

/// Parses the digit run `s[from..to]` as a decimal value, unless the
/// value exceeds `bound`.
pub fn parse_decimal(s: &str, from: usize, to: usize, bound: u64) -> (r: Option<u64>)
    requires
        from <= to <= s@.len(),
        all_digits(s@.subrange(from as int, to as int)),
    ensures
        match r {
            Some(v) => v as int == digits_val(s@.subrange(from as int, to as int)) && v <= bound,
            None => digits_val(s@.subrange(from as int, to as int)) > bound,
        },
{
    let ghost digits = s@.subrange(from as int, to as int);
    let mut acc: u64 = 0;
    let mut i: usize = from;
    proof {
        assert(digits.take(0) =~= Seq::<char>::empty());
    }
    while i < to
        invariant
            from <= i <= to <= s@.len(),
            all_digits(digits),
            digits == s@.subrange(from as int, to as int),
            acc as int == digits_val(digits.take(i - from)),
            acc <= bound,
        decreases to - i,
    {
        let c = s.get_char(i);
        proof {
            assert(digits[i - from] == s@[i as int]);
            assert(is_digit(c));
            assert(digits.take(i - from + 1).drop_last() =~= digits.take(i - from));
            assert(digits.take(i - from + 1).last() == c);
        }
        let d: u64 = ((c as u32) - 48) as u64;
        proof {
            assert(d as int == digit_val(c));
        }
        if d > bound || acc > (bound - d) / 10 {
            proof {
                let full = digits_val(digits.take(i - from + 1));
                assert(full == acc * 10 + d);
                if d > bound {
                    lemma_digits_val_nonneg(digits.take(i - from));
                    assert(full > bound);
                } else {
                    let bd = (bound - d) as int;
                    vstd::arithmetic::div_mod::lemma_fundamental_div_mod(bd, 10);
                    vstd::arithmetic::div_mod::lemma_mod_division_less_than_divisor(bd, 10);
                    assert(full > bound);
                }
                lemma_digits_val_prefix(digits, i - from + 1);
            }
            return None;
        }
        proof {
            let bd = (bound - d) as int;
            vstd::arithmetic::div_mod::lemma_fundamental_div_mod(bd, 10);
            vstd::arithmetic::div_mod::lemma_mod_division_less_than_divisor(bd, 10);
            assert(acc * 10 + d <= bound);
        }
        acc = acc * 10 + d;
        i = i + 1;
    }
    proof {
        assert(digits.take(to - from) =~= digits);
    }
    Some(acc)
}

/// The index of the first newline in `s`, or `s.len()` if there is
/// none.
pub open spec fn first_newline(s: Seq<char>) -> int
    decreases s.len(),
{
    if s.len() == 0 {
        0
    } else if s[0] == '\n' {
        0
    } else {
        1 + first_newline(s.drop_first())
    }
}

pub proof fn lemma_first_newline_bounds(s: Seq<char>)
    ensures
        0 <= first_newline(s) <= s.len(),
    decreases s.len(),
{
    if s.len() > 0 && s[0] != '\n' {
        lemma_first_newline_bounds(s.drop_first());
    }
}

/// `first_newline` is the unique index with no newline before it that
/// is a newline or the end.
pub proof fn lemma_first_newline_at(s: Seq<char>, k: int)
    requires
        0 <= k <= s.len(),
        forall|j: int| 0 <= j < k ==> s[j] != '\n',
        k == s.len() || s[k] == '\n',
    ensures
        first_newline(s) == k,
    decreases k,
{
    if k == 0 {
    } else {
        let t = s.drop_first();
        assert(forall|j: int| 0 <= j < k - 1 ==> t[j] == s[j + 1]);
        assert(k - 1 == t.len() || t[k - 1] == s[k]);
        lemma_first_newline_at(t, k - 1);
    }
}

/// The newline-terminated lines of `s`: segments between newlines; a
/// final segment after the last newline counts only if it is
/// non-empty.
pub open spec fn lines_of(s: Seq<char>) -> Seq<Seq<char>>
    decreases s.len(),
{
    if s.len() == 0 {
        Seq::empty()
    } else {
        let i = first_newline(s);
        proof {
            lemma_first_newline_bounds(s);
        }
        if i >= s.len() {
            seq![s]
        } else {
            seq![s.take(i)] + lines_of(s.skip(i + 1))
        }
    }
}

/// The views of a sequence of string slices.
pub open spec fn views_of(r: Seq<&str>) -> Seq<Seq<char>> {
    r.map_values(|x: &str| x@)
}

/// Splits a string into its newline-terminated lines.
#[verifier::loop_isolation(false)]
pub fn split_lines<'a>(s: &'a str) -> (r: Vec<&'a str>)
    ensures
        views_of(r@) == lines_of(s@),
{
    let len: usize = s.unicode_len();
    let mut r: Vec<&'a str> = Vec::new();
    let mut start: usize = 0;
    let mut i: usize = 0;
    proof {
        assert(s@.skip(0) =~= s@);
        assert(views_of(r@) + lines_of(s@) =~~= lines_of(s@));
    }
    while i < len
        invariant
            start <= i <= len,
            forall|j: int| start <= j < i ==> s@[j] != '\n',
            views_of(r@) + lines_of(s@.skip(start as int)) =~~= lines_of(s@),
        decreases len - i,
    {
        let c = s.get_char(i);
        if c == '\n' {
            let line = s.substring_char(start, i);
            let ghost tail = s@.skip(start as int);
            proof {
                assert(forall|j: int| 0 <= j < i - start ==> tail[j] == s@[j + start]);
                lemma_first_newline_at(tail, i - start);
                assert(tail.take(i - start) =~= s@.subrange(start as int, i as int));
                assert(tail.skip(i - start + 1) =~= s@.skip(i + 1));
                assert(views_of(r@.push(line)) =~~= views_of(r@).push(line@));
                assert(views_of(r@).push(line@) + lines_of(s@.skip(i + 1)) =~~= views_of(r@) + (
                seq![tail.take(i - start)] + lines_of(tail.skip(i - start + 1))));
            }
            r.push(line);
            start = i + 1;
        }
        i = i + 1;
    }
    if start < len {
        let line = s.substring_char(start, len);
        let ghost tail = s@.skip(start as int);
        proof {
            assert(forall|j: int| 0 <= j < tail.len() ==> tail[j] == s@[j + start]);
            lemma_first_newline_at(tail, tail.len() as int);
            assert(tail.take(tail.len() as int) =~= tail);
            assert(line@ =~= tail);
            assert(views_of(r@.push(line)) =~~= views_of(r@).push(line@));
        }
        r.push(line);
        proof {
            assert(views_of(r@) =~~= lines_of(s@));
        }
    } else {
        proof {
            assert(s@.skip(start as int) =~= Seq::<char>::empty());
            assert(views_of(r@) =~~= lines_of(s@));
        }
    }
    r
}

/// An ASCII whitespace character, as trimmed from line ends.
pub open spec fn is_space(c: char) -> bool {
    c == ' ' || c == '\t' || c == '\r' || c == '\n'
}

pub open spec fn trim_start_spec(s: Seq<char>) -> Seq<char>
    decreases s.len(),
{
    if s.len() > 0 && is_space(s[0]) {
        trim_start_spec(s.drop_first())
    } else {
        s
    }
}

pub open spec fn trim_end_spec(s: Seq<char>) -> Seq<char>
    decreases s.len(),
{
    if s.len() > 0 && is_space(s.last()) {
        trim_end_spec(s.drop_last())
    } else {
        s
    }
}

/// The string with leading and trailing whitespace removed.
pub open spec fn trim_spec(s: Seq<char>) -> Seq<char> {
    trim_end_spec(trim_start_spec(s))
}

proof fn lemma_trim_start_at(s: Seq<char>, k: int)
    requires
        0 <= k <= s.len(),
        forall|j: int| 0 <= j < k ==> is_space(s[j]),
        k == s.len() || !is_space(s[k]),
    ensures
        trim_start_spec(s) == s.skip(k),
    decreases k,
{
    if k == 0 {
        assert(s.skip(0) =~= s);
    } else {
        let t = s.drop_first();
        assert(forall|j: int| 0 <= j < k - 1 ==> t[j] == s[j + 1]);
        assert(k - 1 == t.len() || t[k - 1] == s[k]);
        lemma_trim_start_at(t, k - 1);
        assert(t.skip(k - 1) =~= s.skip(k));
    }
}

proof fn lemma_trim_end_at(s: Seq<char>, k: int)
    requires
        0 <= k <= s.len(),
        forall|j: int| k <= j < s.len() ==> is_space(s[j]),
        k == 0 || !is_space(s[k - 1]),
    ensures
        trim_end_spec(s) == s.take(k),
    decreases s.len() - k,
{
    if k == s.len() {
        assert(s.take(k) =~= s);
    } else {
        let t = s.drop_last();
        assert(forall|j: int| k <= j < t.len() ==> t[j] == s[j]);
        lemma_trim_end_at(t, k);
        assert(t.take(k) =~= s.take(k));
    }
}

fn is_space_char(c: char) -> (r: bool)
    ensures
        r == is_space(c),
{
    c == ' ' || c == '\t' || c == '\r' || c == '\n'
}

/// Removes leading and trailing whitespace from a string slice.
#[verifier::loop_isolation(false)]
pub fn trim<'a>(s: &'a str) -> (r: &'a str)
    ensures
        r@ == trim_spec(s@),
{
    let len: usize = s.unicode_len();
    let mut lo: usize = 0;
    while lo < len && is_space_char(s.get_char(lo))
        invariant
            lo <= len,
            forall|j: int| 0 <= j < lo ==> is_space(s@[j]),
        decreases len - lo,
    {
        lo = lo + 1;
    }
    let mut hi: usize = len;
    while hi > lo && is_space_char(s.get_char(hi - 1))
        invariant
            lo <= hi <= len,
            forall|j: int| hi <= j < len ==> is_space(s@[j]),
        decreases hi,
    {
        hi = hi - 1;
    }
    proof {
        lemma_trim_start_at(s@, lo as int);
        let t = s@.skip(lo as int);
        assert(forall|j: int| 0 <= j < t.len() ==> t[j] == s@[j + lo]);
        lemma_trim_end_at(t, hi - lo);
        assert(t.take(hi - lo) =~= s@.subrange(lo as int, hi as int));
    }
    s.substring_char(lo, hi)
}

/// Lexicographic order on character sequences: the order in which
/// fixed-width timestamped lines sort chronologically.
pub open spec fn lex_le(a: Seq<char>, b: Seq<char>) -> bool
    decreases a.len(),
{
    if a.len() == 0 {
        true
    } else if b.len() == 0 {
        false
    } else if a[0] != b[0] {
        a[0] < b[0]
    } else {
        lex_le(a.drop_first(), b.drop_first())
    }
}

/// Compares two string slices in lexicographic character order.
#[verifier::loop_isolation(false)]
pub fn str_lex_le(a: &str, b: &str) -> (r: bool)
    ensures
        r == lex_le(a@, b@),
{
    let alen: usize = a.unicode_len();
    let blen: usize = b.unicode_len();
    let mut i: usize = 0;
    proof {
        assert(a@.skip(0) =~= a@);
        assert(b@.skip(0) =~= b@);
    }
    while i < alen && i < blen
        invariant
            i <= alen,
            i <= blen,
            lex_le(a@, b@) == lex_le(a@.skip(i as int), b@.skip(i as int)),
        decreases alen - i,
    {
        let ca = a.get_char(i);
        let cb = b.get_char(i);
        proof {
            assert(a@.skip(i as int)[0] == ca);
            assert(b@.skip(i as int)[0] == cb);
            assert(a@.skip(i as int).drop_first() =~= a@.skip(i + 1));
            assert(b@.skip(i as int).drop_first() =~= b@.skip(i + 1));
        }
        if ca != cb {
            return ca < cb;
        }
        i = i + 1;
    }
    i >= alen
}

/// A line inserted into a sorted run: after every line that is less
/// than or equal to it.
pub open spec fn insert_sorted_line(s: Seq<Seq<char>>, x: Seq<char>) -> Seq<Seq<char>>
    decreases s.len(),
{
    if s.len() == 0 {
        seq![x]
    } else if lex_le(s.last(), x) {
        s.push(x)
    } else {
        insert_sorted_line(s.drop_last(), x).push(s.last())
    }
}

/// Insertion sort of lines, stable and in lexicographic order.
pub open spec fn sort_lines(s: Seq<Seq<char>>) -> Seq<Seq<char>>
    decreases s.len(),
{
    if s.len() == 0 {
        Seq::empty()
    } else {
        insert_sorted_line(sort_lines(s.drop_last()), s.last())
    }
}

proof fn lemma_insert_sorted_at(s: Seq<Seq<char>>, x: Seq<char>, j: int)
    requires
        0 <= j <= s.len(),
        forall|k: int| j <= k < s.len() ==> !lex_le(#[trigger] s[k], x),
        j > 0 ==> lex_le(s[j - 1], x),
    ensures
        insert_sorted_line(s, x) == s.insert(j, x),
    decreases s.len(),
{
    if s.len() == 0 {
        assert(insert_sorted_line(s, x) =~~= s.insert(0, x));
    } else if j == s.len() {
        assert(lex_le(s.last(), x));
        assert(s.push(x) =~~= s.insert(j, x));
    } else {
        assert(!lex_le(s[s.len() - 1], x));
        let t = s.drop_last();
        assert(forall|k: int| 0 <= k < t.len() ==> t[k] == s[k]);
        lemma_insert_sorted_at(t, x, j);
        assert(t.insert(j, x).push(s.last()) =~~= s.insert(j, x));
    }
}

/// Sorts the lines into lexicographic order by insertion.
#[verifier::loop_isolation(false)]
pub fn sort_lines_vec<'a>(v: &Vec<&'a str>) -> (r: Vec<&'a str>)
    ensures
        views_of(r@) == sort_lines(views_of(v@)),
{
    let mut out: Vec<&'a str> = Vec::new();
    let mut i: usize = 0;
    proof {
        assert(views_of(v@.take(0)) =~~= Seq::<Seq<char>>::empty());
        assert(views_of(out@) =~~= sort_lines(views_of(v@.take(0))));
    }
    while i < v.len()
        invariant
            i <= v@.len(),
            views_of(out@) == sort_lines(views_of(v@.take(i as int))),
        decreases v@.len() - i,
    {
        let x = v[i];
        let ghost before = out@;
        let mut j: usize = out.len();
        while j > 0 && !str_lex_le(out[j - 1], x)
            invariant
                j <= out@.len(),
                out@ == before,
                forall|k: int| j <= k < out@.len() ==> !lex_le(#[trigger] out@[k]@, x@),
            decreases j,
        {
            j = j - 1;
        }
        out.insert(j, x);
        proof {
            assert(forall|k: int|
                j <= k < views_of(before).len() ==> !lex_le(#[trigger] views_of(before)[k], x@));
            lemma_insert_sorted_at(views_of(before), x@, j as int);
            assert(views_of(out@) =~~= views_of(before).insert(j as int, x@));
            assert(views_of(v@.take(i + 1)).drop_last() =~~= views_of(v@.take(i as int)));
            assert(views_of(v@.take(i + 1)).last() == v@[i as int]@);
        }
        i = i + 1;
    }
    proof {
        assert(views_of(v@.take(v@.len() as int)) =~~= views_of(v@));
    }
    out
}

/// The end of the run of decimal digits starting at `from`: the first
/// index at or after `from` that is past the end or not a digit.
pub open spec fn digit_run_end(s: Seq<char>, from: int) -> int
    decreases s.len() - from,
{
    if from < 0 || from >= s.len() || !is_digit(s[from]) {
        from
    } else {
        digit_run_end(s, from + 1)
    }
}

/// `digit_run_end` is the unique index bounding a maximal digit run.
pub proof fn lemma_digit_run_end_at(s: Seq<char>, from: int, k: int)
    requires
        0 <= from <= k <= s.len(),
        forall|j: int| from <= j < k ==> is_digit(#[trigger] s[j]),
        k == s.len() || !is_digit(s[k]),
    ensures
        digit_run_end(s, from) == k,
    decreases k - from,
{
    if from < k {
        lemma_digit_run_end_at(s, from + 1, k);
    }
}

/// Tests one character for being a decimal digit.
pub fn is_digit_char(c: char) -> (r: bool)
    ensures
        r == is_digit(c),
{
    '0' <= c && c <= '9'
}

/// Whether the remainder of `s` from position `from` equals `t`.
#[verifier::loop_isolation(false)]
pub fn tail_eq(s: &str, from: usize, t: &str) -> (r: bool)
    requires
        from <= s@.len(),
    ensures
        r == (s@.skip(from as int) == t@),
{
    let slen: usize = s.unicode_len();
    let tlen: usize = t.unicode_len();
    if slen - from != tlen {
        proof {
            assert(s@.skip(from as int).len() != t@.len());
        }
        return false;
    }
    let mut i: usize = 0;
    while i < tlen
        invariant
            i <= tlen,
            tlen == t@.len(),
            slen == s@.len(),
            slen - from == tlen,
            forall|k: int| 0 <= k < i ==> s@[from + k] == t@[k],
        decreases tlen - i,
    {
        if s.get_char(from + i) != t.get_char(i) {
            proof {
                assert(s@.skip(from as int)[i as int] != t@[i as int]);
            }
            return false;
        }
        i = i + 1;
    }
    proof {
        assert(s@.skip(from as int) =~= t@);
    }
    true
}

/// Whether two string slices hold the same characters.
pub fn str_eq(a: &str, b: &str) -> (r: bool)
    ensures
        r == (a@ == b@),
{
    proof {
        assert(a@.skip(0) =~= a@);
    }
    tail_eq(a, 0, b)
}

/// Whether `t` occurs in `s` starting at position `from`.
#[verifier::loop_isolation(false)]
pub fn prefix_eq_at(s: &str, from: usize, t: &str) -> (r: bool)
    requires
        from <= s@.len(),
    ensures
        r == (from + t@.len() <= s@.len() && s@.subrange(from as int, from + t@.len()) == t@),
{
    let slen: usize = s.unicode_len();
    let tlen: usize = t.unicode_len();
    if slen - from < tlen {
        return false;
    }
    let mut i: usize = 0;
    while i < tlen
        invariant
            i <= tlen,
            tlen == t@.len(),
            slen == s@.len(),
            from + tlen <= slen,
            forall|k: int| 0 <= k < i ==> s@[from + k] == t@[k],
        decreases tlen - i,
    {
        if s.get_char(from + i) != t.get_char(i) {
            proof {
                assert(s@.subrange(from as int, from + t@.len())[i as int] != t@[i as int]);
            }
            return false;
        }
        i = i + 1;
    }
    proof {
        assert(s@.subrange(from as int, from + t@.len()) =~= t@);
    }
    true
}

/// Scans past the run of decimal digits starting at `from`.
#[verifier::loop_isolation(false)]
pub fn scan_digits(s: &str, from: usize) -> (r: usize)
    requires
        from <= s@.len(),
    ensures
        from <= r <= s@.len(),
        r as int == digit_run_end(s@, from as int),
        all_digits(s@.subrange(from as int, r as int)),
{
    let len: usize = s.unicode_len();
    let mut e: usize = from;
    while e < len && is_digit_char(s.get_char(e))
        invariant
            from <= e <= len,
            forall|j: int| from <= j < e ==> is_digit(#[trigger] s@[j]),
        decreases len - e,
    {
        e = e + 1;
    }
    proof {
        lemma_digit_run_end_at(s@, from as int, e as int);
        assert(forall|j: int|
            0 <= j < e - from ==> s@.subrange(from as int, e as int)[j] == s@[j + from]);
    }
    e
}

} // verus!
