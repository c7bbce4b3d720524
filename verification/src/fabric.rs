//! Fabric claims: rectangles on a grid, claimed by id. The puzzle
//! counts the grid squares claimed more than once, and looks for the
//! single claim that overlaps no other.

use crate::text::{
    digit_run_end, digits_val, lines_of, parse_decimal, scan_digits, views_of, split_lines,
};
use vstd::prelude::*;

verus! {

/// One grid square, named by the column and row of its top-left
/// corner.
#[derive(Debug, Clone, Copy, PartialEq, Eq, Structural)]
pub struct Square {
    pub left: u32,
    pub top: u32,
}

/// One rectangular claim on the fabric.
#[derive(Debug, Clone, Copy, PartialEq, Eq, Structural)]
pub struct Claim {
    pub id: usize,
    pub left: u32,
    pub top: u32,
    pub width: u32,
    pub height: u32,
}

/// How parsing a claim line can fail.
#[derive(Debug, Clone, Copy, PartialEq, Eq, Structural)]
pub enum ClaimError {
    /// The line does not match `#<id> @ <left>,<top>: <width>x<height>`.
    BadSyntax,
    /// A numeric field does not fit its integer type.
    BadNumber,
}

/// Whether claim `c` covers the square in column `x`, row `y`.
pub open spec fn covers(c: Claim, x: int, y: int) -> bool {
    &&& c.left <= x < c.left + c.width
    &&& c.top <= y < c.top + c.height
}

/// One column of a claim's squares, top to bottom.
pub open spec fn column_seq(x: u32, top: u32, h: int) -> Seq<Square>
    decreases h,
{
    if h <= 0 {
        Seq::empty()
    } else {
        column_seq(x, top, h - 1).push(Square { left: x, top: (top + h - 1) as u32 })
    }
}

/// The first `w` columns of a claim's squares, column-major.
pub open spec fn squares_spec(c: Claim, w: int) -> Seq<Square>
    decreases w,
{
    if w <= 0 {
        Seq::empty()
    } else {
        squares_spec(c, w - 1) + column_seq((c.left + w - 1) as u32, c.top, c.height as int)
    }
}

/// All squares a claim covers, column-major, top to bottom within a
/// column.
pub open spec fn squares_of(c: Claim) -> Seq<Square> {
    squares_spec(c, c.width as int)
}

impl Claim {
    /// Lists every square this claim covers.
    #[verifier::loop_isolation(false)]
    pub fn squares(&self) -> (r: Vec<Square>)
        requires
            self.left + self.width <= u32::MAX,
            self.top + self.height <= u32::MAX,
        ensures
            r@ == squares_of(*self),
    {
        let mut r: Vec<Square> = Vec::new();
        let mut cx: u32 = 0;
        proof {
            assert(r@ =~= squares_spec(*self, 0));
        }
        while cx < self.width
            invariant
                cx <= self.width,
                r@ == squares_spec(*self, cx as int),
            decreases self.width - cx,
        {
            let x = self.left + cx;
            let mut ry: u32 = 0;
            proof {
                assert(column_seq(x, self.top, 0) =~= Seq::<Square>::empty());
                assert(r@ =~= squares_spec(*self, cx as int) + column_seq(x, self.top, 0));
            }
            while ry < self.height
                invariant
                    ry <= self.height,
                    x == self.left + cx,
                    cx < self.width,
                    r@ == squares_spec(*self, cx as int) + column_seq(x, self.top, ry as int),
                decreases self.height - ry,
            {
                r.push(Square { left: x, top: self.top + ry });
                ry = ry + 1;
            }
            cx = cx + 1;
            proof {
                assert((self.left + cx - 1) as u32 == x);
            }
        }
        r
    }
}

/// How many times square `v` occurs in `s`.
pub open spec fn count_sq(s: Seq<Square>, v: Square) -> int
    decreases s.len(),
{
    if s.len() == 0 {
        0
    } else {
        count_sq(s.drop_last(), v) + if s.last() == v {
            1int
        } else {
            0int
        }
    }
}

proof fn lemma_count_sq_concat(a: Seq<Square>, b: Seq<Square>, v: Square)
    ensures
        count_sq(a + b, v) == count_sq(a, v) + count_sq(b, v),
    decreases b.len(),
{
    if b.len() == 0 {
        assert(a + b =~= a);
    } else {
        assert((a + b).drop_last() =~= a + b.drop_last());
        assert((a + b).last() == b.last());
        lemma_count_sq_concat(a, b.drop_last(), v);
    }
}

proof fn lemma_count_column(x: u32, top: u32, h: int, v: Square)
    requires
        0 <= h,
        top + h <= u32::MAX + 1,
    ensures
        count_sq(column_seq(x, top, h), v) == if v.left == x && top <= v.top < top + h {
            1int
        } else {
            0int
        },
    decreases h,
{
    if h > 0 {
        lemma_count_column(x, top, h - 1, v);
        let p = column_seq(x, top, h - 1);
        let sq = Square { left: x, top: (top + h - 1) as u32 };
        assert(p.push(sq).drop_last() =~= p);
        assert(p.push(sq).last() == sq);
        assert(sq.top == top + h - 1);
    }
}

proof fn lemma_count_squares_spec(c: Claim, w: int, v: Square)
    requires
        0 <= w,
        c.left + w <= u32::MAX + 1,
        c.top + c.height <= u32::MAX + 1,
    ensures
        count_sq(squares_spec(c, w), v) == if c.left <= v.left < c.left + w && c.top <= v.top
            < c.top + c.height {
            1int
        } else {
            0int
        },
    decreases w,
{
    if w > 0 {
        lemma_count_squares_spec(c, w - 1, v);
        lemma_count_column((c.left + w - 1) as u32, c.top, c.height as int, v);
        lemma_count_sq_concat(
            squares_spec(c, w - 1),
            column_seq((c.left + w - 1) as u32, c.top, c.height as int),
            v,
        );
    }
}

/// A claim whose extent stays within the coordinate type.
pub open spec fn claim_bounded(c: Claim) -> bool {
    &&& c.left + c.width <= u32::MAX
    &&& c.top + c.height <= u32::MAX
}

pub open spec fn claims_bounded(cs: Seq<Claim>) -> bool {
    forall|i: int| 0 <= i < cs.len() ==> claim_bounded(#[trigger] cs[i])
}

/// A claim's square list holds each covered square exactly once.
pub proof fn lemma_count_squares_of(c: Claim, v: Square)
    requires
        claim_bounded(c),
    ensures
        count_sq(squares_of(c), v) == if covers(c, v.left as int, v.top as int) {
            1int
        } else {
            0int
        },
{
    lemma_count_squares_spec(c, c.width as int, v);
}

/// The concatenation of every claim's square list, in claim order.
pub open spec fn all_squares(cs: Seq<Claim>) -> Seq<Square>
    decreases cs.len(),
{
    if cs.len() == 0 {
        Seq::empty()
    } else {
        all_squares(cs.drop_last()) + squares_of(cs.last())
    }
}

/// How many claims cover the square in column `x`, row `y`.
pub open spec fn total_cover(cs: Seq<Claim>, x: int, y: int) -> int
    decreases cs.len(),
{
    if cs.len() == 0 {
        0
    } else {
        total_cover(cs.drop_last(), x, y) + if covers(cs.last(), x, y) {
            1int
        } else {
            0int
        }
    }
}

/// The multiplicity of a square among all claims' squares equals the
/// number of claims covering it.
pub proof fn lemma_count_is_cover(cs: Seq<Claim>, v: Square)
    requires
        claims_bounded(cs),
    ensures
        count_sq(all_squares(cs), v) == total_cover(cs, v.left as int, v.top as int),
    decreases cs.len(),
{
    if cs.len() > 0 {
        assert(claims_bounded(cs.drop_last())) by {
            assert(forall|i: int| 0 <= i < cs.len() - 1 ==> cs.drop_last()[i] == cs[i]);
        }
        lemma_count_is_cover(cs.drop_last(), v);
        lemma_count_sq_concat(all_squares(cs.drop_last()), squares_of(cs.last()), v);
        lemma_count_squares_of(cs.last(), v);
    }
}

/// Whether index `i` is the first occurrence of its square in `s`.
pub open spec fn first_occ(s: Seq<Square>, i: int) -> bool {
    forall|j: int| 0 <= j < i ==> s[j] != s[i]
}

/// How many distinct squares among the first `n` entries occur at
/// least twice in the whole of `s`.
pub open spec fn num_repeated_upto(s: Seq<Square>, n: int) -> int
    decreases n,
{
    if n <= 0 {
        0
    } else {
        num_repeated_upto(s, n - 1) + if first_occ(s, n - 1) && count_sq(s, s[n - 1]) >= 2 {
            1int
        } else {
            0int
        }
    }
}

/// The number of distinct squares occurring at least twice in `s`.
pub open spec fn num_overlap(s: Seq<Square>) -> int {
    num_repeated_upto(s, s.len() as int)
}

/// Counts the occurrences of `v` among the squares.
#[verifier::loop_isolation(false)]
fn count_sq_in(squares: &Vec<Square>, v: Square) -> (r: usize)
    ensures
        r as int == count_sq(squares@, v),
{
    let mut r: usize = 0;
    let mut i: usize = 0;
    proof {
        assert(squares@.take(0) =~= Seq::<Square>::empty());
    }
    while i < squares.len()
        invariant
            i <= squares@.len(),
            r <= i,
            r as int == count_sq(squares@.take(i as int), v),
        decreases squares@.len() - i,
    {
        proof {
            assert(squares@.take(i + 1).drop_last() =~= squares@.take(i as int));
            assert(squares@.take(i + 1).last() == squares@[i as int]);
        }
        if squares[i] == v {
            r = r + 1;
        }
        i = i + 1;
    }
    proof {
        assert(squares@.take(squares@.len() as int) =~= squares@);
    }
    r
}

/// Concatenates every claim's square list, in claim order.
#[verifier::loop_isolation(false)]
fn collect_squares(claims: &[Claim]) -> (r: Vec<Square>)
    requires
        claims_bounded(claims@),
    ensures
        r@ == all_squares(claims@),
{
    let mut all: Vec<Square> = Vec::new();
    let mut i: usize = 0;
    proof {
        assert(all@ =~= all_squares(claims@.take(0)));
    }
    while i < claims.len()
        invariant
            i <= claims@.len(),
            all@ == all_squares(claims@.take(i as int)),
        decreases claims@.len() - i,
    {
        let squares = claims[i].squares();
        let mut k: usize = 0;
        let ghost col = squares@;
        let ghost before = all@;
        proof {
            assert(col.take(0) =~= Seq::<Square>::empty());
            assert(before + col.take(0) =~= before);
        }
        while k < squares.len()
            invariant
                k <= col.len(),
                squares@ == col,
                all@ == before + col.take(k as int),
            decreases col.len() - k,
        {
            all.push(squares[k]);
            proof {
                assert(col.take(k + 1) =~= col.take(k as int).push(col[k as int]));
                assert(before + col.take(k + 1) =~= (before + col.take(k as int)).push(
                    col[k as int],
                ));
            }
            k = k + 1;
        }
        proof {
            assert(col.take(col.len() as int) =~= col);
            assert(claims@.take(i + 1).drop_last() =~= claims@.take(i as int));
            assert(claims@.take(i + 1).last() == claims@[i as int]);
        }
        i = i + 1;
    }
    proof {
        assert(claims@.take(claims@.len() as int) =~= claims@);
    }
    all
}

/// Counts the grid squares covered by more than one claim occurrence.
#[verifier::loop_isolation(false)]
pub fn count_overlap_squares(claims: &[Claim]) -> (r: usize)
    requires
        claims_bounded(claims@),
    ensures
        r as int == num_overlap(all_squares(claims@)),
{
    let all = collect_squares(claims);
    let ghost sv = all@;
    let mut r: usize = 0;
    let mut t: usize = 0;
    while t < all.len()
        invariant
            t <= sv.len(),
            all@ == sv,
            r <= t,
            r as int == num_repeated_upto(sv, t as int),
        decreases sv.len() - t,
    {
        let v = all[t];
        let mut j: usize = 0;
        while j < t && all[j] != v
            invariant
                j <= t,
                t < sv.len(),
                all@ == sv,
                v == sv[t as int],
                forall|p: int| 0 <= p < j ==> sv[p] != v,
            decreases t - j,
        {
            j = j + 1;
        }
        if j == t {
            proof {
                assert(first_occ(sv, t as int));
            }
            let cnt = count_sq_in(&all, v);
            if cnt >= 2 {
                r = r + 1;
            }
        } else {
            proof {
                assert(sv[j as int] == v);
                assert(!first_occ(sv, t as int));
            }
        }
        t = t + 1;
    }
    r
}

/// Whether two claims cover some common square.
pub open spec fn claims_intersect(c: Claim, d: Claim) -> bool {
    exists|x: int, y: int| covers(c, x, y) && covers(d, x, y)
}

/// Tests two claims for a common square.
fn intersects(c: &Claim, d: &Claim) -> (r: bool)
    ensures
        r == claims_intersect(*c, *d),
{
    let r = c.width > 0 && d.width > 0 && c.height > 0 && d.height > 0 && (c.left as u64) < (
    d.left as u64) + (d.width as u64) && (d.left as u64) < (c.left as u64) + (c.width as u64) && (
    c.top as u64) < (d.top as u64) + (d.height as u64) && (d.top as u64) < (c.top as u64) + (
    c.height as u64);
    proof {
        if r {
            let x: int = if c.left >= d.left {
                c.left as int
            } else {
                d.left as int
            };
            let y: int = if c.top >= d.top {
                c.top as int
            } else {
                d.top as int
            };
            assert(covers(*c, x, y) && covers(*d, x, y));
        }
        if claims_intersect(*c, *d) {
            let (x, y): (int, int) = choose|x: int, y: int| covers(*c, x, y) && covers(*d, x, y);
            assert(r);
        }
    }
    r
}

/// Whether every claim with this id is disjoint from every claim with
/// a different id.
pub open spec fn id_clear(cs: Seq<Claim>, id: usize) -> bool {
    forall|i: int, j: int|
        0 <= i < cs.len() && 0 <= j < cs.len() && (#[trigger] cs[i]).id == id
            && (#[trigger] cs[j]).id != id ==> !claims_intersect(cs[i], cs[j])
}

/// Whether some claim carries this id.
pub open spec fn id_present(cs: Seq<Claim>, id: usize) -> bool {
    exists|i: int| 0 <= i < cs.len() && (#[trigger] cs[i]).id == id
}

/// Decides whether the claims with this id overlap no claim of
/// another id.
#[verifier::loop_isolation(false)]
fn id_is_clear(claims: &[Claim], id: usize) -> (r: bool)
    ensures
        r == id_clear(claims@, id),
{
    let mut p: usize = 0;
    while p < claims.len()
        invariant
            p <= claims@.len(),
            forall|i: int, j: int|
                0 <= i < p && 0 <= j < claims@.len() && (#[trigger] claims@[i]).id == id
                    && (#[trigger] claims@[j]).id != id ==> !claims_intersect(
                    claims@[i],
                    claims@[j],
                ),
        decreases claims@.len() - p,
    {
        if claims[p].id == id {
            let mut q: usize = 0;
            while q < claims.len()
                invariant
                    p < claims@.len(),
                    q <= claims@.len(),
                    claims@[p as int].id == id,
                    forall|j: int|
                        0 <= j < q && (#[trigger] claims@[j]).id != id ==> !claims_intersect(
                            claims@[p as int],
                            claims@[j],
                        ),
                decreases claims@.len() - q,
            {
                if claims[q].id != id {
                    if intersects(&claims[p], &claims[q]) {
                        return false;
                    }
                }
                q = q + 1;
            }
        }
        p = p + 1;
    }
    true
}

/// Finds the id of the single claim group that overlaps no other
/// claim; `None` when no id is clear of overlap, or when several are.
#[verifier::loop_isolation(false)]
pub fn find_nonoverlapping_claim(claims: &[Claim]) -> (r: Option<usize>)
    ensures
        r matches Some(id) ==> {
            &&& id_present(claims@, id)
            &&& id_clear(claims@, id)
            &&& forall|id2: usize|
                id_present(claims@, id2) && #[trigger] id_clear(claims@, id2) ==> id2 == id
        },
        r is None ==> forall|id: usize|
            id_present(claims@, id) && #[trigger] id_clear(claims@, id) ==> exists|id2: usize|
                id_present(claims@, id2) && #[trigger] id_clear(claims@, id2) && id2 != id,
{
    let mut surv: Vec<usize> = Vec::new();
    let mut i: usize = 0;
    while i < claims.len()
        invariant
            i <= claims@.len(),
            forall|a: int, b: int| 0 <= a < b < surv@.len() ==> surv@[a] != surv@[b],
            forall|id: usize| #[trigger] surv@.contains(id) <==> ((exists|k: int|
                0 <= k < i && (#[trigger] claims@[k]).id == id) && id_clear(claims@, id)),
        decreases claims@.len() - i,
    {
        let id = claims[i].id;
        let mut k: usize = 0;
        while k < i && claims[k].id != id
            invariant
                i < claims@.len(),
                k <= i,
                id == claims@[i as int].id,
                forall|p: int| 0 <= p < k ==> (#[trigger] claims@[p]).id != id,
            decreases i - k,
        {
            k = k + 1;
        }
        if k == i {
            // first claim with this id
            let ghost before = surv@;
            if id_is_clear(claims, id) {
                surv.push(id);
                proof {
                    assert(!before.contains(id));
                    assert(surv@.drop_last() =~= before);
                    assert forall|a: int, b: int| 0 <= a < b < surv@.len() implies surv@[a]
                        != surv@[b] by {
                        if b == surv@.len() - 1 {
                            assert(before.contains(surv@[a])) by {
                                assert(before[a] == surv@[a]);
                            }
                        }
                    }
                    assert forall|id2: usize| #[trigger] surv@.contains(id2) implies ((exists|
                        k2: int,
                    |
                        0 <= k2 < i + 1 && (#[trigger] claims@[k2]).id == id2) && id_clear(
                        claims@,
                        id2,
                    )) by {
                        let w = choose|w: int| 0 <= w < surv@.len() && surv@[w] == id2;
                        if w < surv@.len() - 1 {
                            assert(before[w] == id2);
                            assert(before.contains(id2));
                        } else {
                            assert(id2 == id);
                            assert(claims@[i as int].id == id2);
                        }
                    }
                    assert forall|id2: usize|
                        ((exists|k2: int| 0 <= k2 < i + 1 && (#[trigger] claims@[k2]).id == id2)
                            && id_clear(claims@, id2)) implies #[trigger] surv@.contains(id2) by {
                        if id2 == id {
                            assert(surv@[surv@.len() - 1] == id);
                        } else {
                            let k2 = choose|k2: int|
                                0 <= k2 < i + 1 && (#[trigger] claims@[k2]).id == id2;
                            assert(k2 < i);
                            assert(before.contains(id2));
                            let w = choose|w: int| 0 <= w < before.len() && before[w] == id2;
                            assert(surv@[w] == id2);
                        }
                    }
                }
            } else {
                proof {
                    assert forall|id2: usize| #[trigger] surv@.contains(id2) implies ((exists|
                        k2: int,
                    |
                        0 <= k2 < i + 1 && (#[trigger] claims@[k2]).id == id2) && id_clear(
                        claims@,
                        id2,
                    )) by {
                        let k2 = choose|k2: int|
                            0 <= k2 < i && (#[trigger] claims@[k2]).id == id2;
                        assert(0 <= k2 < i + 1 && claims@[k2].id == id2);
                    }
                    assert forall|id2: usize|
                        ((exists|k2: int| 0 <= k2 < i + 1 && (#[trigger] claims@[k2]).id == id2)
                            && id_clear(claims@, id2)) implies #[trigger] surv@.contains(id2) by {
                        if id2 != id {
                            let k2 = choose|k2: int|
                                0 <= k2 < i + 1 && (#[trigger] claims@[k2]).id == id2;
                            assert(k2 < i);
                        }
                    }
                }
            }
        } else {
            proof {
                assert(claims@[k as int].id == id);
                assert forall|id2: usize|
                    ((exists|k2: int| 0 <= k2 < i + 1 && (#[trigger] claims@[k2]).id == id2)
                        && id_clear(claims@, id2)) implies #[trigger] surv@.contains(id2) by {
                    if id2 == id {
                        assert(0 <= k < i && claims@[k as int].id == id2);
                    } else {
                        let k2 = choose|k2: int|
                            0 <= k2 < i + 1 && (#[trigger] claims@[k2]).id == id2;
                        assert(k2 < i);
                    }
                }
            }
        }
        i = i + 1;
    }
    proof {
        assert forall|id: usize|
            id_present(claims@, id) && #[trigger] id_clear(claims@, id) implies surv@.contains(
            id,
        ) by {
            let k = choose|k: int| 0 <= k < claims@.len() && (#[trigger] claims@[k]).id == id;
        }
    }
    if surv.len() == 1 {
        let id = surv[0];
        proof {
            assert(surv@.contains(id)) by {
                assert(surv@[0] == id);
            }
            assert forall|id2: usize|
                id_present(claims@, id2) && #[trigger] id_clear(claims@, id2) implies id2 == id by {
                assert(surv@.contains(id2));
                let w = choose|w: int| 0 <= w < surv@.len() && surv@[w] == id2;
                assert(w == 0);
            }
        }
        Some(id)
    } else {
        proof {
            assert forall|id: usize|
                id_present(claims@, id) && #[trigger] id_clear(claims@, id) implies exists|
                id2: usize,
            |
                id_present(claims@, id2) && #[trigger] id_clear(claims@, id2) && id2 != id by {
                assert(surv@.contains(id));
                let w = choose|w: int| 0 <= w < surv@.len() && surv@[w] == id;
                if surv@.len() >= 2 {
                    let other: int = if w == 0 {
                        1
                    } else {
                        0
                    };
                    let id2 = surv@[other];
                    assert(surv@.contains(id2));
                    assert(id2 != id);
                    assert(id_present(claims@, id2) && id_clear(claims@, id2));
                }
            }
        }
        None
    }
}


/// Whether a line matches `#<id> @ <left>,<top>: <width>x<height>`,
/// each field a non-empty run of decimal digits, nothing after the
/// height.
pub open spec fn claim_syntax_ok(s: Seq<char>) -> bool {
    let e1 = digit_run_end(s, 1);
    let e2 = digit_run_end(s, e1 + 3);
    let e3 = digit_run_end(s, e2 + 1);
    let e4 = digit_run_end(s, e3 + 2);
    let e5 = digit_run_end(s, e4 + 1);
    &&& s.len() >= 1 && s[0] == '#'
    &&& e1 > 1
    &&& e1 + 3 <= s.len() && s[e1] == ' ' && s[e1 + 1] == '@' && s[e1 + 2] == ' '
    &&& e2 > e1 + 3
    &&& e2 < s.len() && s[e2] == ','
    &&& e3 > e2 + 1
    &&& e3 + 2 <= s.len() && s[e3] == ':' && s[e3 + 1] == ' '
    &&& e4 > e3 + 2
    &&& e4 < s.len() && s[e4] == 'x'
    &&& e5 > e4 + 1
    &&& e5 == s.len()
}

/// The five numeric fields of a syntactically valid claim line.
pub open spec fn claim_fields(s: Seq<char>) -> (int, int, int, int, int) {
    let e1 = digit_run_end(s, 1);
    let e2 = digit_run_end(s, e1 + 3);
    let e3 = digit_run_end(s, e2 + 1);
    let e4 = digit_run_end(s, e3 + 2);
    let e5 = digit_run_end(s, e4 + 1);
    (
        digits_val(s.subrange(1, e1)),
        digits_val(s.subrange(e1 + 3, e2)),
        digits_val(s.subrange(e2 + 1, e3)),
        digits_val(s.subrange(e3 + 2, e4)),
        digits_val(s.subrange(e4 + 1, e5)),
    )
}

/// What parsing one claim line yields.
pub open spec fn parse_claim_spec(s: Seq<char>) -> Result<Claim, ClaimError> {
    if !claim_syntax_ok(s) {
        Err(ClaimError::BadSyntax)
    } else {
        let (id, left, top, width, height) = claim_fields(s);
        if id > usize::MAX || left > u32::MAX || top > u32::MAX || width > u32::MAX || height
            > u32::MAX {
            Err(ClaimError::BadNumber)
        } else {
            Ok(
                Claim {
                    id: id as usize,
                    left: left as u32,
                    top: top as u32,
                    width: width as u32,
                    height: height as u32,
                },
            )
        }
    }
}

/// A parser for claim lines. It holds no state; the grammar is fixed.
pub struct ClaimParser {}

impl ClaimParser {
    /// Builds a claim parser; never fails.
    pub fn new() -> (r: Result<ClaimParser, ClaimError>)
        ensures
            r is Ok,
    {
        Ok(ClaimParser {  })
    }

    /// Parses one line of the form `#<id> @ <left>,<top>: <width>x<height>`.
    #[verifier::loop_isolation(false)]
    pub fn parse(&self, claim: &str) -> (r: Result<Claim, ClaimError>)
        ensures
            r == parse_claim_spec(claim@),
    {
        let len: usize = claim.unicode_len();
        if len < 1 || claim.get_char(0) != '#' {
            return Err(ClaimError::BadSyntax);
        }
        let e1 = scan_digits(claim, 1);
        if e1 == 1 || len < 3 || e1 > len - 3 {
            return Err(ClaimError::BadSyntax);
        }
        if claim.get_char(e1) != ' ' || claim.get_char(e1 + 1) != '@' || claim.get_char(e1 + 2)
            != ' ' {
            return Err(ClaimError::BadSyntax);
        }
        let e2 = scan_digits(claim, e1 + 3);
        if e2 == e1 + 3 || e2 >= len || claim.get_char(e2) != ',' {
            return Err(ClaimError::BadSyntax);
        }
        let e3 = scan_digits(claim, e2 + 1);
        if e3 == e2 + 1 || len < 2 || e3 > len - 2 {
            return Err(ClaimError::BadSyntax);
        }
        if claim.get_char(e3) != ':' || claim.get_char(e3 + 1) != ' ' {
            return Err(ClaimError::BadSyntax);
        }
        let e4 = scan_digits(claim, e3 + 2);
        if e4 == e3 + 2 || e4 >= len || claim.get_char(e4) != 'x' {
            return Err(ClaimError::BadSyntax);
        }
        let e5 = scan_digits(claim, e4 + 1);
        if e5 == e4 + 1 || e5 != len {
            return Err(ClaimError::BadSyntax);
        }
        proof {
            assert(claim_syntax_ok(claim@));
        }
        let id = match parse_decimal(claim, 1, e1, usize::MAX as u64) {
            Some(v) => v,
            None => {
                return Err(ClaimError::BadNumber);
            },
        };
        let left = match parse_decimal(claim, e1 + 3, e2, u32::MAX as u64) {
            Some(v) => v,
            None => {
                return Err(ClaimError::BadNumber);
            },
        };
        let top = match parse_decimal(claim, e2 + 1, e3, u32::MAX as u64) {
            Some(v) => v,
            None => {
                return Err(ClaimError::BadNumber);
            },
        };
        let width = match parse_decimal(claim, e3 + 2, e4, u32::MAX as u64) {
            Some(v) => v,
            None => {
                return Err(ClaimError::BadNumber);
            },
        };
        let height = match parse_decimal(claim, e4 + 1, e5, u32::MAX as u64) {
            Some(v) => v,
            None => {
                return Err(ClaimError::BadNumber);
            },
        };
        Ok(
            Claim {
                id: id as usize,
                left: left as u32,
                top: top as u32,
                width: width as u32,
                height: height as u32,
            },
        )
    }
}

/// The model of a claim-list result: errors unchanged, vectors by
/// view.
pub open spec fn claims_model(r: Result<Vec<Claim>, ClaimError>) -> Result<Seq<Claim>, ClaimError> {
    match r {
        Ok(v) => Ok(v@),
        Err(e) => Err(e),
    }
}

/// What parsing a sequence of claim lines yields: the claims in order,
/// or the error of the first line that fails.
pub open spec fn parse_claims_all(ls: Seq<Seq<char>>) -> Result<Seq<Claim>, ClaimError>
    decreases ls.len(),
{
    if ls.len() == 0 {
        Ok(Seq::empty())
    } else {
        match parse_claim_spec(ls[0]) {
            Ok(c) => match parse_claims_all(ls.drop_first()) {
                Ok(rest) => Ok(seq![c] + rest),
                Err(er) => Err(er),
            },
            Err(er) => Err(er),
        }
    }
}

/// Parses every newline-terminated line of the input as a claim,
/// stopping at the first malformed line.
#[verifier::loop_isolation(false)]
pub fn get_claims(text: &str) -> (r: Result<Vec<Claim>, ClaimError>)
    ensures
        claims_model(r) == parse_claims_all(lines_of(text@)),
{
    let parser = match ClaimParser::new() {
        Ok(p) => p,
        Err(e) => {
            return Err(e);
        },
    };
    let lines = split_lines(text);
    let ghost lv = lines_of(text@);
    let mut claims: Vec<Claim> = Vec::new();
    let mut i: usize = 0;
    proof {
        assert(lv.skip(0) =~~= lv);
    }
    while i < lines.len()
        invariant
            i <= lines@.len(),
            views_of(lines@) == lv,
            parse_claims_all(lv) == (match parse_claims_all(lv.skip(i as int)) {
                Ok(rest) => Ok::<Seq<Claim>, ClaimError>(claims@ + rest),
                Err(er) => Err::<Seq<Claim>, ClaimError>(er),
            }),
        decreases lines@.len() - i,
    {
        let ghost tail = lv.skip(i as int);
        proof {
            assert(tail[0] == lv[i as int]);
            assert(lv[i as int] == lines@[i as int]@);
            assert(tail.drop_first() =~~= lv.skip(i + 1));
        }
        match parser.parse(lines[i]) {
            Ok(c) => {
                let ghost old_claims = claims@;
                claims.push(c);
                proof {
                    assert(claims@ =~= old_claims.push(c));
                    assert(parse_claims_all(tail.drop_first()) == parse_claims_all(lv.skip(i + 1)));
                    match parse_claims_all(lv.skip(i + 1)) {
                        Ok(rest) => {
                            assert(old_claims + (seq![c] + rest) =~= old_claims.push(c) + rest);
                        },
                        Err(_) => {},
                    }
                }
            },
            Err(er) => {
                return Err(er);
            },
        }
        i = i + 1;
    }
    proof {
        assert(lv.skip(lv.len() as int) =~~= Seq::<Seq<char>>::empty());
        assert(claims@ + Seq::<Claim>::empty() =~= claims@);
    }
    Ok(claims)
}

} // verus!
