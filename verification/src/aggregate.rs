//! Aggregation of a tick map into per-query answers.
//!
//! A requested coordinate arrives as a string `"<row>,<col>"` of decimal
//! digits; it is parsed, bounds-checked against the tick map, and answered
//! with the tick value at that cell. A whole-grid completion metric says at
//! which tick infection finished, or `-1` if some originally susceptible
//! cell was never reached.
use crate::grid::{grid_view, tick_view, ValidationError};
use vstd::prelude::*;
use vstd::string::StrSliceExecFns;

verus! {

/// Whether the character is a decimal digit.
pub open spec fn is_digit(c: char) -> bool {
    48 <= c as u32 <= 57
}

/// The numeric value of a decimal digit character.
pub open spec fn digit_val(c: char) -> int {
    c as u32 - 48
}

/// Whether every character of the string is a decimal digit.
pub open spec fn all_digits(s: Seq<char>) -> bool {
    forall|k: int| 0 <= k < s.len() ==> is_digit(#[trigger] s[k])
}

/// The number denoted by a string of decimal digits, most significant first.
pub open spec fn digits_val(s: Seq<char>) -> int
    decreases s.len(),
{
    if s.len() == 0 {
        0
    } else {
        digits_val(s.drop_last()) * 10 + digit_val(s.last())
    }
}

/// Whether position `k` splits the string into `"<digits>,<digits>"` with
/// both sides non-empty.
pub open spec fn splits_coord(s: Seq<char>, k: int) -> bool {
    &&& 1 <= k
    &&& k + 2 <= s.len()
    &&& s[k] == ','
    &&& all_digits(s.subrange(0, k))
    &&& all_digits(s.subrange(k + 1, s.len() as int))
}

/// What a coordinate string denotes: the row and column values when the
/// string has the form `"<row>,<col>"` of digits and both values fit in
/// `usize`; nothing otherwise.
pub open spec fn coord_spec(s: Seq<char>) -> Option<(usize, usize)> {
    if exists|k: int| splits_coord(s, k) {
        let k = choose|k: int| splits_coord(s, k);
        let r = digits_val(s.subrange(0, k));
        let c = digits_val(s.subrange(k + 1, s.len() as int));
        if r <= usize::MAX && c <= usize::MAX {
            Some((r as usize, c as usize))
        } else {
            None
        }
    } else {
        None
    }
}

proof fn lemma_digits_val_nonneg(s: Seq<char>)
    requires
        all_digits(s),
    ensures
        digits_val(s) >= 0,
    decreases s.len(),
{
    if s.len() > 0 {
        assert(all_digits(s.drop_last()));
        lemma_digits_val_nonneg(s.drop_last());
        assert(is_digit(s.last()));
    }
}

proof fn lemma_digits_val_prefix(s: Seq<char>, a: int)
    requires
        all_digits(s),
        0 <= a <= s.len(),
    ensures
        digits_val(s) >= digits_val(s.subrange(0, a)),
    decreases s.len() - a,
{
    if a == s.len() {
        assert(s.subrange(0, a) =~= s);
    } else {
        lemma_digits_val_prefix(s, a + 1);
        let p = s.subrange(0, a + 1);
        assert(p.drop_last() =~= s.subrange(0, a));
        assert(all_digits(s.subrange(0, a)));
        lemma_digits_val_nonneg(s.subrange(0, a));
        assert(is_digit(p.last()));
        assert(digits_val(p) == digits_val(s.subrange(0, a)) * 10 + digit_val(p.last()));
    }
}

proof fn lemma_split_unique(s: Seq<char>, k1: int, k2: int)
    requires
        splits_coord(s, k1),
        splits_coord(s, k2),
    ensures
        k1 == k2,
{
    if k1 < k2 {
        assert(s.subrange(0, k2)[k1] == s[k1]);
        assert(is_digit(s[k1]));
        assert(',' as u32 == 44);
    }
    if k2 < k1 {
        assert(s.subrange(0, k1)[k2] == s[k2]);
        assert(is_digit(s[k2]));
        assert(',' as u32 == 44);
    }
}

/// Reads the decimal number written in `s` between `from` and `to`; nothing
/// if some character there is not a digit or the value does not fit.
fn parse_digits(s: &str, from: usize, to: usize) -> (r: Option<usize>)
    requires
        from <= to <= s@.len(),
    ensures
        r == (if all_digits(s@.subrange(from as int, to as int)) && digits_val(
            s@.subrange(from as int, to as int),
        ) <= usize::MAX {
            Some(digits_val(s@.subrange(from as int, to as int)) as usize)
        } else {
            None::<usize>
        }),
{
    let ghost whole = s@.subrange(from as int, to as int);
    let mut v: usize = 0;
    let mut t: usize = from;
    while t < to
        invariant
            from <= t <= to <= s@.len(),
            whole == s@.subrange(from as int, to as int),
            all_digits(s@.subrange(from as int, t as int)),
            v == digits_val(s@.subrange(from as int, t as int)),
        decreases to - t,
    {
        let c = s.get_char(t);
        let u = c as u32;
        assert(c == s@[t as int]);
        if u < 48 || u > 57 {
            proof {
                assert(!is_digit(s@[t as int]));
                assert(whole[t - from] == s@[t as int]);
                assert(!all_digits(whole));
            }
            return None;
        }
        let d = (u - 48) as usize;
        proof {
            assert(is_digit(s@[t as int]));
            let p = s@.subrange(from as int, t as int + 1);
            assert(p.drop_last() =~= s@.subrange(from as int, t as int));
            assert(p.last() == s@[t as int]);
            assert(all_digits(p));
        }
        let step = match v.checked_mul(10) {
            Some(x) => x.checked_add(d),
            None => None,
        };
        match step {
            Some(y) => {
                v = y;
            },
            None => {
                proof {
                    let p = s@.subrange(from as int, t as int + 1);
                    assert(digits_val(p) == v * 10 + digit_val(s@[t as int]));
                    assert(digits_val(p) > usize::MAX);
                    if all_digits(whole) {
                        assert(p =~= whole.subrange(0, t - from + 1));
                        lemma_digits_val_prefix(whole, t - from + 1);
                        assert(digits_val(whole) > usize::MAX);
                    }
                }
                return None;
            },
        }
        t = t + 1;
    }
    proof {
        assert(s@.subrange(from as int, t as int) =~= whole);
    }
    Some(v)
}

/// Parses a coordinate string of the form `"<row>,<col>"`, both sides
/// non-empty strings of decimal digits whose values fit in `usize`.
pub fn parse_coord(s: &str) -> (r: Option<(usize, usize)>)
    ensures
        r == coord_spec(s@),
{
    let len = s.unicode_len();
    let mut k: usize = 0;
    while k < len
        invariant_except_break
            k <= len,
            len == s@.len(),
            forall|t: int| 0 <= t < k ==> s@[t] != ',',
        ensures
            k <= len,
            len == s@.len(),
            forall|t: int| 0 <= t < k ==> s@[t] != ',',
            k < len ==> s@[k as int] == ',',
        decreases len - k,
    {
        if s.get_char(k) == ',' {
            break ;
        }
        k = k + 1;
    }
    proof {
        assert(',' as u32 == 44);
    }
    if k == len || k == 0 || k + 1 == len {
        proof {
            assert forall|k2: int| !splits_coord(s@, k2) by {
                if splits_coord(s@, k2) {
                    if k == len {
                        assert(s@[k2] == ',');
                    } else if k == 0 {
                        assert(s@.subrange(0, k2)[0] == s@[0]);
                        assert(is_digit(s@[0]));
                    } else {
                        if k2 < k as int {
                            assert(s@[k2] == ',');
                        } else if k2 > k as int {
                            assert(s@.subrange(0, k2)[k as int] == s@[k as int]);
                            assert(is_digit(s@[k as int]));
                        }
                    }
                }
            }
        }
        return None;
    }
    let a = parse_digits(s, 0, k);
    let b = parse_digits(s, k + 1, len);
    proof {
        assert(s@.subrange(0, len as int) =~= s@);
    }
    match (a, b) {
        (Some(row), Some(col)) => {
            proof {
                assert(splits_coord(s@, k as int));
                let kc = choose|k2: int| splits_coord(s@, k2);
                lemma_split_unique(s@, kc, k as int);
            }
            Some((row, col))
        },
        _ => {
            proof {
                if exists|k2: int| splits_coord(s@, k2) {
                    let kc = choose|k2: int| splits_coord(s@, k2);
                    lemma_split_unique(s@, kc, k as int);
                    assert(splits_coord(s@, k as int));
                }
            }
            None
        },
    }
}

/// What a single coordinate request answers: the tick value at the parsed
/// cell, or the validation error naming what went wrong.
pub open spec fn lookup_spec(t: Seq<Seq<i32>>, s: Seq<char>) -> Result<i32, ValidationError> {
    match coord_spec(s) {
        None => Err(ValidationError::MalformedCoordinate),
        Some(p) => if p.0 < t.len() && p.1 < t[p.0 as int].len() {
            Ok(t[p.0 as int][p.1 as int])
        } else {
            Err(ValidationError::CoordinateOutOfBounds)
        },
    }
}

/// Answers one coordinate string against the tick map: the tick value for a
/// well-formed, in-bounds coordinate; the exact validation error otherwise.
/// In-bounds coordinates never fail; out-of-bounds ones always do.
pub fn lookup_tick(ticks: &Vec<Vec<i32>>, s: &str) -> (r: Result<i32, ValidationError>)
    ensures
        r == lookup_spec(tick_view(ticks@), s@),
{
    let ghost t = tick_view(ticks@);
    match parse_coord(s) {
        None => Err(ValidationError::MalformedCoordinate),
        Some((i, j)) => {
            if i < ticks.len() {
                proof {
                    assert(t[i as int] == ticks@[i as int]@);
                }
                if j < ticks[i].len() {
                    Ok(ticks[i][j])
                } else {
                    Err(ValidationError::CoordinateOutOfBounds)
                }
            } else {
                Err(ValidationError::CoordinateOutOfBounds)
            }
        },
    }
}

/// Whether some cell that was originally susceptible was never reached.
pub open spec fn any_unreached_susceptible(t: Seq<Seq<i32>>, g: Seq<Seq<u32>>) -> bool {
    exists|i: int, j: int|
        0 <= i < g.len() && 0 <= j < g[i].len() && g[i][j] == 1 && t[i][j] == -1
}

/// The larger of two integers.
pub open spec fn max2(a: int, b: int) -> int {
    if a >= b {
        a
    } else {
        b
    }
}

/// The largest entry of a row, at least `-1`.
pub open spec fn row_max(s: Seq<i32>) -> int
    decreases s.len(),
{
    if s.len() == 0 {
        -1
    } else {
        max2(row_max(s.drop_last()), s.last() as int)
    }
}

/// The largest entry of the whole tick map, at least `-1`.
pub open spec fn grid_max(t: Seq<Seq<i32>>) -> int
    decreases t.len(),
{
    if t.len() == 0 {
        -1
    } else {
        max2(grid_max(t.drop_last()), row_max(t.last()))
    }
}

proof fn lemma_row_max_ge(s: Seq<i32>)
    ensures
        row_max(s) >= -1,
    decreases s.len(),
{
    if s.len() > 0 {
        lemma_row_max_ge(s.drop_last());
    }
}

proof fn lemma_grid_max_ge(t: Seq<Seq<i32>>)
    ensures
        grid_max(t) >= -1,
    decreases t.len(),
{
    if t.len() > 0 {
        lemma_grid_max_ge(t.drop_last());
        lemma_row_max_ge(t.last());
    }
}

proof fn lemma_row_max_all_unreached(s: Seq<i32>)
    requires
        forall|k: int| 0 <= k < s.len() ==> (#[trigger] s[k]) == -1i32,
    ensures
        row_max(s) == -1,
    decreases s.len(),
{
    if s.len() > 0 {
        assert(forall|k: int|
            0 <= k < s.drop_last().len() ==> (#[trigger] s.drop_last()[k]) == -1i32);
        lemma_row_max_all_unreached(s.drop_last());
    }
}

/// With every tick entry `-1`, the largest tick of the whole map is `-1`.
pub proof fn lemma_grid_max_all_unreached(t: Seq<Seq<i32>>)
    requires
        forall|i: int, j: int|
            0 <= i < t.len() && 0 <= j < t[i].len() ==> (#[trigger] t[i][j]) == -1i32,
    ensures
        grid_max(t) == -1,
    decreases t.len(),
{
    if t.len() > 0 {
        assert forall|i: int, j: int|
            0 <= i < t.drop_last().len() && 0 <= j < t.drop_last()[i].len() implies (
        #[trigger] t.drop_last()[i][j]) == -1i32 by {
            assert(t.drop_last()[i] == t[i]);
        }
        lemma_grid_max_all_unreached(t.drop_last());
        assert forall|k: int| 0 <= k < t.last().len() implies (#[trigger] t.last()[k]) == -1i32 by {
            assert(t.last() == t[t.len() - 1]);
        }
        lemma_row_max_all_unreached(t.last());
    }
}

/// The completion metric: `-1` when some originally susceptible cell was
/// never reached, otherwise the largest tick observed anywhere.
pub open spec fn completion_metric_spec(t: Seq<Seq<i32>>, g: Seq<Seq<u32>>) -> int {
    if any_unreached_susceptible(t, g) {
        -1
    } else {
        grid_max(t)
    }
}

/// Computes the completion metric from the tick map and a snapshot of the
/// original cell kinds taken before the traversal mutated the grid.
pub fn completion_metric(ticks: &Vec<Vec<i32>>, orig: &Vec<Vec<u32>>) -> (r: i32)
    requires
        ticks@.len() == orig@.len(),
        forall|i: int|
            0 <= i < orig@.len() ==> (#[trigger] ticks@[i])@.len() == orig@[i]@.len(),
    ensures
        r as int == completion_metric_spec(tick_view(ticks@), grid_view(orig@)),
{
    let ghost t = tick_view(ticks@);
    let ghost g = grid_view(orig@);
    let m = orig.len();
    let mut i: usize = 0;
    while i < m
        invariant
            i <= m,
            m == orig@.len(),
            t == tick_view(ticks@),
            g == grid_view(orig@),
            ticks@.len() == orig@.len(),
            forall|r: int|
                0 <= r < orig@.len() ==> (#[trigger] ticks@[r])@.len() == orig@[r]@.len(),
            forall|r: int, c: int|
                0 <= r < i && 0 <= c < g[r].len() ==> !(#[trigger] g[r][c] == 1 && t[r][c] == -1),
        decreases m - i,
    {
        let n = orig[i].len();
        let mut j: usize = 0;
        while j < n
            invariant
                i < m,
                j <= n,
                m == orig@.len(),
                n == orig@[i as int]@.len(),
                t == tick_view(ticks@),
                g == grid_view(orig@),
                ticks@.len() == orig@.len(),
                forall|r: int|
                    0 <= r < orig@.len() ==> (#[trigger] ticks@[r])@.len() == orig@[r]@.len(),
                forall|r: int, c: int|
                    0 <= r < i && 0 <= c < g[r].len() ==> !(#[trigger] g[r][c] == 1 && t[r][c]
                        == -1),
                forall|c: int| 0 <= c < j ==> !(#[trigger] g[i as int][c] == 1 && t[i as int][c] == -1),
            decreases n - j,
        {
            proof {
                assert(g[i as int] == orig@[i as int]@);
                assert(t[i as int] == ticks@[i as int]@);
            }
            if orig[i][j] == 1 && ticks[i][j] == -1 {
                proof {
                    assert(any_unreached_susceptible(t, g));
                }
                return -1;
            }
            j = j + 1;
        }
        i = i + 1;
    }
    proof {
        assert(!any_unreached_susceptible(t, g));
    }
    let mut best: i32 = -1;
    let mut i: usize = 0;
    while i < m
        invariant
            i <= m,
            m == ticks@.len(),
            t == tick_view(ticks@),
            best as int == grid_max(t.subrange(0, i as int)),
        decreases m - i,
    {
        let n = ticks[i].len();
        let ghost row = t[i as int];
        proof {
            lemma_grid_max_ge(t.subrange(0, i as int));
            assert(row.subrange(0, 0) =~= Seq::<i32>::empty());
        }
        let mut j: usize = 0;
        while j < n
            invariant
                i < m,
                j <= n,
                m == ticks@.len(),
                t == tick_view(ticks@),
                row == t[i as int],
                n == row.len(),
                n == ticks@[i as int]@.len(),
                best as int == max2(grid_max(t.subrange(0, i as int)), row_max(row.subrange(0, j as int))),
            decreases n - j,
        {
            proof {
                assert(row == ticks@[i as int]@);
            }
            let v = ticks[i][j];
            if v > best {
                best = v;
            }
            proof {
                let p = row.subrange(0, j as int + 1);
                assert(p.drop_last() =~= row.subrange(0, j as int));
                assert(p.last() == row[j as int]);
            }
            j = j + 1;
        }
        proof {
            assert(row.subrange(0, n as int) =~= row);
            let q = t.subrange(0, i as int + 1);
            assert(q.drop_last() =~= t.subrange(0, i as int));
            assert(q.last() == row);
        }
        i = i + 1;
    }
    proof {
        assert(t.subrange(0, m as int) =~= t);
    }
    best
}

} // verus!
