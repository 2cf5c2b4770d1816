//! Counting helpers: the number of occupied cells of a chunk and of the
//! whole world, and the number of set flags of a per-cell boolean array.
//! These back the conservation proof and the termination measures of the
//! resolution worklists.

use vstd::prelude::*;

use crate::tile::TileContent;

verus! {

/// The number of `true` entries of a flag sequence.
pub open spec fn count_true(s: Seq<bool>) -> int
    decreases s.len(),
{
    if s.len() == 0 {
        0
    } else {
        count_true(s.drop_last()) + if s.last() {
            1int
        } else {
            0int
        }
    }
}

/// The number of `false` entries of a flag sequence.
pub open spec fn count_false(s: Seq<bool>) -> int
    decreases s.len(),
{
    if s.len() == 0 {
        0
    } else {
        count_false(s.drop_last()) + if s.last() {
            0int
        } else {
            1int
        }
    }
}

pub proof fn lemma_count_false_bounds(s: Seq<bool>)
    ensures
        0 <= count_false(s) <= s.len(),
    decreases s.len(),
{
    if s.len() > 0 {
        lemma_count_false_bounds(s.drop_last());
    }
}

/// Updating one entry changes the cleared-flag count by the difference at
/// that entry.
pub proof fn lemma_count_false_update(s: Seq<bool>, i: int, v: bool)
    requires
        0 <= i < s.len(),
    ensures
        count_false(s.update(i, v)) == count_false(s) + (if v {
            0int
        } else {
            1int
        }) - (if s[i] {
            0int
        } else {
            1int
        }),
    decreases s.len(),
{
    let t = s.update(i, v);
    if i == s.len() - 1 {
        assert(t.drop_last() =~= s.drop_last());
    } else {
        assert(t.drop_last() =~= s.drop_last().update(i, v));
        lemma_count_false_update(s.drop_last(), i, v);
    }
}

/// The number of occupied entries of an occupancy sequence.
pub open spec fn count_some(s: Seq<Option<TileContent>>) -> int
    decreases s.len(),
{
    if s.len() == 0 {
        0
    } else {
        count_some(s.drop_last()) + if s.last() is Some {
            1int
        } else {
            0int
        }
    }
}

pub proof fn lemma_count_true_bounds(s: Seq<bool>)
    ensures
        0 <= count_true(s) <= s.len(),
    decreases s.len(),
{
    if s.len() > 0 {
        lemma_count_true_bounds(s.drop_last());
    }
}

/// Updating one entry changes the occupied count by the difference at that
/// entry.
pub proof fn lemma_count_some_update(s: Seq<Option<TileContent>>, i: int, v: Option<TileContent>)
    requires
        0 <= i < s.len(),
    ensures
        count_some(s.update(i, v)) == count_some(s) + (if v is Some {
            1int
        } else {
            0int
        }) - (if s[i] is Some {
            1int
        } else {
            0int
        }),
    decreases s.len(),
{
    let t = s.update(i, v);
    if i == s.len() - 1 {
        assert(t.drop_last() =~= s.drop_last());
    } else {
        assert(t.drop_last() =~= s.drop_last().update(i, v));
        lemma_count_some_update(s.drop_last(), i, v);
    }
}

/// Updating one entry changes the set-flag count by the difference at that
/// entry.
pub proof fn lemma_count_true_update(s: Seq<bool>, i: int, v: bool)
    requires
        0 <= i < s.len(),
    ensures
        count_true(s.update(i, v)) == count_true(s) + (if v {
            1int
        } else {
            0int
        }) - (if s[i] {
            1int
        } else {
            0int
        }),
    decreases s.len(),
{
    let t = s.update(i, v);
    if i == s.len() - 1 {
        assert(t.drop_last() =~= s.drop_last());
    } else {
        assert(t.drop_last() =~= s.drop_last().update(i, v));
        lemma_count_true_update(s.drop_last(), i, v);
    }
}

/// The number of occupied cells over a sequence of per-chunk occupancy
/// arrays.
pub open spec fn total_some(m: Seq<Seq<Option<TileContent>>>) -> int
    decreases m.len(),
{
    if m.len() == 0 {
        0
    } else {
        total_some(m.drop_last()) + count_some(m.last())
    }
}

/// The number of set flags over a sequence of per-chunk flag arrays.
pub open spec fn total_true(m: Seq<Seq<bool>>) -> int
    decreases m.len(),
{
    if m.len() == 0 {
        0
    } else {
        total_true(m.drop_last()) + count_true(m.last())
    }
}

/// Replacing one chunk's occupancy array shifts the world total by the
/// difference of the chunk counts.
pub proof fn lemma_total_some_update(
    m: Seq<Seq<Option<TileContent>>>,
    c: int,
    s: Seq<Option<TileContent>>,
)
    requires
        0 <= c < m.len(),
    ensures
        total_some(m.update(c, s)) == total_some(m) - count_some(m[c]) + count_some(s),
    decreases m.len(),
{
    let t = m.update(c, s);
    if c == m.len() - 1 {
        assert(t.drop_last() =~= m.drop_last());
    } else {
        assert(t.drop_last() =~= m.drop_last().update(c, s));
        lemma_total_some_update(m.drop_last(), c, s);
    }
}

/// Replacing one chunk's flag array shifts the world total by the
/// difference of the chunk counts.
pub proof fn lemma_total_true_update(m: Seq<Seq<bool>>, c: int, s: Seq<bool>)
    requires
        0 <= c < m.len(),
    ensures
        total_true(m.update(c, s)) == total_true(m) - count_true(m[c]) + count_true(s),
    decreases m.len(),
{
    let t = m.update(c, s);
    if c == m.len() - 1 {
        assert(t.drop_last() =~= m.drop_last());
    } else {
        assert(t.drop_last() =~= m.drop_last().update(c, s));
        lemma_total_true_update(m.drop_last(), c, s);
    }
}

/// Every per-chunk flag count is at most the world total, and the world
/// total is nonnegative.
pub proof fn lemma_total_true_bounds(m: Seq<Seq<bool>>)
    ensures
        0 <= total_true(m),
    decreases m.len(),
{
    if m.len() > 0 {
        lemma_total_true_bounds(m.drop_last());
        lemma_count_true_bounds(m.last());
    }
}

/// The number of cleared flags over a sequence of per-chunk flag arrays.
pub open spec fn total_false(m: Seq<Seq<bool>>) -> int
    decreases m.len(),
{
    if m.len() == 0 {
        0
    } else {
        total_false(m.drop_last()) + count_false(m.last())
    }
}

pub proof fn lemma_total_false_bounds(m: Seq<Seq<bool>>)
    ensures
        0 <= total_false(m),
    decreases m.len(),
{
    if m.len() > 0 {
        lemma_total_false_bounds(m.drop_last());
        lemma_count_false_bounds(m.last());
    }
}

/// Replacing one chunk's flag array shifts the cleared-flag total by the
/// difference of the chunk counts.
pub proof fn lemma_total_false_update(m: Seq<Seq<bool>>, c: int, s: Seq<bool>)
    requires
        0 <= c < m.len(),
    ensures
        total_false(m.update(c, s)) == total_false(m) - count_false(m[c]) + count_false(s),
    decreases m.len(),
{
    let t = m.update(c, s);
    if c == m.len() - 1 {
        assert(t.drop_last() =~= m.drop_last());
    } else {
        assert(t.drop_last() =~= m.drop_last().update(c, s));
        lemma_total_false_update(m.drop_last(), c, s);
    }
}

} // verus!
