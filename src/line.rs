use vstd::prelude::*;

use crate::tile::{is_tile_value, lemma_double_is_tile};

verus! {

/// Largest tile value that can still be doubled within a `u64`.
pub const MERGE_LIMIT: u64 = 0x4000_0000_0000_0000;

/// Every value of the line can be doubled without overflow.
pub open spec fn mergeable(s: Seq<u64>) -> bool {
    forall|i: int| 0 <= i < s.len() ==> s[i] <= MERGE_LIMIT
}

/// The merge phase on one line, read from the wall outward (index 0 touches the wall).
/// Each tile inspects its neighbour toward the wall; two equal tiles combine into one
/// of twice the value, left at the neighbour's place, and the moving tile's cell becomes
/// empty. The tile after a merge sees that empty cell, so a merged tile never merges twice.
pub open spec fn merge_line(s: Seq<u64>) -> Seq<u64>
    decreases s.len(),
{
    if s.len() < 2 {
        s
    } else if s[0] != 0 && s[0] == s[1] {
        seq![(2 * s[0]) as u64, 0u64] + merge_line(s.skip(2))
    } else {
        seq![s[0]] + merge_line(s.skip(1))
    }
}

/// The tiles of a line (its non-zero values), in order from the wall.
pub open spec fn tiles_of(s: Seq<u64>) -> Seq<u64>
    decreases s.len(),
{
    if s.len() == 0 {
        Seq::empty()
    } else if s[0] != 0 {
        seq![s[0]] + tiles_of(s.skip(1))
    } else {
        tiles_of(s.skip(1))
    }
}

/// `n` empty cells.
pub open spec fn empty_cells(n: nat) -> Seq<u64> {
    Seq::new(n, |i: int| 0u64)
}

/// The slide phase on one line: every tile pushed toward the wall, keeping their order,
/// which is the fixed point of moving each tile one cell into an empty neighbour.
pub open spec fn compact(s: Seq<u64>) -> Seq<u64> {
    tiles_of(s) + empty_cells((s.len() - tiles_of(s).len()) as nat)
}

/// One line after a full move toward its wall: merge, then slide.
pub open spec fn slide_line(s: Seq<u64>) -> Seq<u64> {
    compact(merge_line(s))
}

/// Sum of the values of a line.
pub open spec fn line_sum(s: Seq<u64>) -> int
    decreases s.len(),
{
    if s.len() == 0 {
        0
    } else {
        s[0] + line_sum(s.skip(1))
    }
}

/// Number of tiles on a line.
pub open spec fn tile_count(s: Seq<u64>) -> nat {
    tiles_of(s).len()
}

pub proof fn lemma_tiles_of_len(s: Seq<u64>)
    ensures
        tiles_of(s).len() <= s.len(),
        forall|i: int| 0 <= i < tiles_of(s).len() ==> tiles_of(s)[i] != 0,
    decreases s.len(),
{
    if s.len() > 0 {
        lemma_tiles_of_len(s.skip(1));
    }
}

pub proof fn lemma_merge_line_len(s: Seq<u64>)
    ensures
        merge_line(s).len() == s.len(),
    decreases s.len(),
{
    if s.len() >= 2 {
        if s[0] != 0 && s[0] == s[1] {
            lemma_merge_line_len(s.skip(2));
        } else {
            lemma_merge_line_len(s.skip(1));
        }
    }
}

/// Every cell of the line is empty or holds a tile value.
pub open spec fn cells_ok(s: Seq<u64>) -> bool {
    forall|i: int| 0 <= i < s.len() ==> s[i] == 0 || is_tile_value(s[i] as nat)
}

proof fn lemma_cells_ok_skip(s: Seq<u64>, k: int)
    requires
        cells_ok(s),
        mergeable(s),
        0 <= k <= s.len(),
    ensures
        cells_ok(s.skip(k)),
        mergeable(s.skip(k)),
{
    assert forall|i: int| 0 <= i < s.skip(k).len() implies s.skip(k)[i] == s[i + k] by {}
}

/// The merge phase leaves only empty cells and tile values behind.
pub proof fn lemma_merge_line_cells(s: Seq<u64>)
    requires
        cells_ok(s),
        mergeable(s),
    ensures
        cells_ok(merge_line(s)),
    decreases s.len(),
{
    if s.len() >= 2 {
        if s[0] != 0 && s[0] == s[1] {
            lemma_cells_ok_skip(s, 2);
            lemma_merge_line_cells(s.skip(2));
            lemma_double_is_tile(s[0] as nat);
            let m = merge_line(s);
            assert forall|i: int| 0 <= i < m.len() implies m[i] == 0 || is_tile_value(
                m[i] as nat,
            ) by {
                if i >= 2 {
                    assert(m[i] == merge_line(s.skip(2))[i - 2]);
                }
            }
        } else {
            lemma_cells_ok_skip(s, 1);
            lemma_merge_line_cells(s.skip(1));
            let m = merge_line(s);
            assert forall|i: int| 0 <= i < m.len() implies m[i] == 0 || is_tile_value(
                m[i] as nat,
            ) by {
                if i >= 1 {
                    assert(m[i] == merge_line(s.skip(1))[i - 1]);
                }
            }
        }
    }
}

/// The tiles of a line are tile values when its cells are.
pub proof fn lemma_tiles_of_cells(s: Seq<u64>)
    requires
        cells_ok(s),
    ensures
        forall|i: int| 0 <= i < tiles_of(s).len() ==> is_tile_value(#[trigger] tiles_of(s)[i] as nat),
    decreases s.len(),
{
    if s.len() > 0 {
        assert forall|i: int| 0 <= i < s.skip(1).len() implies s.skip(1)[i] == s[i + 1] by {}
        lemma_tiles_of_cells(s.skip(1));
        lemma_tiles_of_len(s.skip(1));
        let t = tiles_of(s);
        if s[0] != 0 {
            assert forall|i: int| 0 <= i < t.len() implies is_tile_value(#[trigger] t[i] as nat) by {
                if i >= 1 {
                    assert(t[i] == tiles_of(s.skip(1))[i - 1]);
                }
            }
        }
    }
}

/// Moving a line leaves only empty cells and tile values behind.
pub proof fn lemma_slide_line_cells(s: Seq<u64>)
    requires
        cells_ok(s),
        mergeable(s),
    ensures
        cells_ok(slide_line(s)),
        slide_line(s).len() == s.len(),
{
    let m = merge_line(s);
    lemma_merge_line_cells(s);
    lemma_merge_line_len(s);
    lemma_tiles_of_cells(m);
    lemma_tiles_of_len(m);
    let c = compact(m);
    assert forall|i: int| 0 <= i < c.len() implies c[i] == 0 || is_tile_value(c[i] as nat) by {
        if i < tiles_of(m).len() {
            assert(c[i] == tiles_of(m)[i]);
        }
    }
}

pub proof fn lemma_tiles_of_append(a: Seq<u64>, b: Seq<u64>)
    ensures
        tiles_of(a + b) == tiles_of(a) + tiles_of(b),
    decreases a.len(),
{
    if a.len() == 0 {
        assert(a + b =~= b);
        assert(tiles_of(a) + tiles_of(b) =~= tiles_of(b));
    } else {
        assert((a + b).skip(1) =~= a.skip(1) + b);
        lemma_tiles_of_append(a.skip(1), b);
        if a[0] != 0 {
            assert(tiles_of(a + b) =~= tiles_of(a) + tiles_of(b));
        }
    }
}

proof fn lemma_sum_append(a: Seq<u64>, b: Seq<u64>)
    ensures
        line_sum(a + b) == line_sum(a) + line_sum(b),
    decreases a.len(),
{
    if a.len() == 0 {
        assert(a + b =~= b);
    } else {
        assert((a + b).skip(1) =~= a.skip(1) + b);
        lemma_sum_append(a.skip(1), b);
    }
}

proof fn lemma_empty_cells(n: nat)
    ensures
        tiles_of(empty_cells(n)) =~= Seq::<u64>::empty(),
        line_sum(empty_cells(n)) == 0,
    decreases n,
{
    if n > 0 {
        assert(empty_cells(n).skip(1) =~= empty_cells((n - 1) as nat));
        lemma_empty_cells((n - 1) as nat);
    }
}

proof fn lemma_tiles_of_tiles(s: Seq<u64>)
    ensures
        tiles_of(tiles_of(s)) == tiles_of(s),
        line_sum(tiles_of(s)) == line_sum(s),
    decreases s.len(),
{
    if s.len() > 0 {
        lemma_tiles_of_tiles(s.skip(1));
        let t = tiles_of(s.skip(1));
        if s[0] != 0 {
            assert((seq![s[0]] + t).skip(1) =~= t);
            lemma_tiles_of_append(seq![s[0]], t);
            lemma_sum_append(seq![s[0]], t);
            assert(seq![s[0]].skip(1) =~= Seq::<u64>::empty());
            assert(tiles_of(seq![s[0]]) =~= seq![s[0]]);
        }
    }
}

/// The slide phase neither loses nor stacks tiles: the same tiles stand in the same order,
/// and they stand flush against the wall, each empty cell behind every tile.
pub proof fn lemma_slide_keeps_tiles(s: Seq<u64>)
    ensures
        tiles_of(compact(s)) == tiles_of(s),
        compact(s).len() == s.len(),
        forall|i: int, j: int|
            0 <= i < j < s.len() && #[trigger] compact(s)[i] == 0 ==> #[trigger] compact(s)[j] == 0,
{
    let t = tiles_of(s);
    lemma_tiles_of_len(s);
    let z = empty_cells((s.len() - t.len()) as nat);
    lemma_tiles_of_append(t, z);
    lemma_tiles_of_tiles(s);
    lemma_empty_cells((s.len() - t.len()) as nat);
    assert(tiles_of(t) + tiles_of(z) =~= t);
}

/// Each move keeps the sum of a line's values, and no tile merges twice: every tile after
/// the move stands for at most two tiles before it.
pub proof fn lemma_merge_once(s: Seq<u64>)
    requires
        mergeable(s),
    ensures
        line_sum(slide_line(s)) == line_sum(s),
        2 * tile_count(slide_line(s)) >= tile_count(s),
{
    lemma_merge_keeps_sum(s);
    let m = merge_line(s);
    let t = tiles_of(m);
    lemma_tiles_of_len(m);
    let z = empty_cells((m.len() - t.len()) as nat);
    lemma_sum_append(t, z);
    lemma_empty_cells((m.len() - t.len()) as nat);
    lemma_tiles_of_tiles(m);
    lemma_slide_keeps_tiles(m);
}

proof fn lemma_merge_keeps_sum(s: Seq<u64>)
    requires
        mergeable(s),
    ensures
        line_sum(merge_line(s)) == line_sum(s),
        2 * tile_count(merge_line(s)) >= tile_count(s),
    decreases s.len(),
{
    if s.len() >= 2 {
        let t2 = s.skip(2);
        let t1 = s.skip(1);
        assert(t1.skip(1) =~= t2);
        assert forall|i: int| 0 <= i < t1.len() implies t1[i] == s[i + 1] by {}
        assert forall|i: int| 0 <= i < t2.len() implies t2[i] == s[i + 2] by {}
        if s[0] != 0 && s[0] == s[1] {
            lemma_merge_keeps_sum(t2);
            let h = seq![(2 * s[0]) as u64, 0u64];
            lemma_sum_append(h, merge_line(t2));
            lemma_tiles_of_append(h, merge_line(t2));
            assert(s[0] <= MERGE_LIMIT);
            assert(h[0] == 2 * s[0]);
            assert(h.skip(1) =~= seq![0u64]);
            assert(h.skip(1).skip(1) =~= Seq::<u64>::empty());
            assert(line_sum(h.skip(1)) == 0 + line_sum(h.skip(1).skip(1)));
            assert(line_sum(h) == 2 * s[0]);
            assert(line_sum(t1) == t1[0] + line_sum(t2));
            assert(tiles_of(h.skip(1)) =~= tiles_of(h.skip(1).skip(1)));
            assert(tiles_of(h) =~= seq![h[0]] + tiles_of(h.skip(1)));
            assert(tiles_of(h) =~= seq![(2 * s[0]) as u64]);
            assert(tiles_of(t1) =~= seq![t1[0]] + tiles_of(t2));
        } else {
            lemma_merge_keeps_sum(t1);
            let h = seq![s[0]];
            lemma_sum_append(h, merge_line(t1));
            lemma_tiles_of_append(h, merge_line(t1));
            assert(h.skip(1) =~= Seq::<u64>::empty());
            assert(line_sum(h) == s[0] + line_sum(h.skip(1)));
            assert(merge_line(s) == h + merge_line(t1));
        }
    }
}

/// A tile against the wall stays there when the line moves toward that wall: it keeps
/// its value, or doubles where the next tile equals it.
pub proof fn lemma_wall_tile_stays(s: Seq<u64>)
    requires
        mergeable(s),
        s.len() > 0,
        s[0] != 0,
    ensures
        slide_line(s)[0] == if s.len() >= 2 && s[1] == s[0] {
            (2 * s[0]) as u64
        } else {
            s[0]
        },
{
    let m = merge_line(s);
    lemma_merge_line_len(s);
    if s.len() >= 2 {
        if s[0] == s[1] {
            assert(m[0] == (2 * s[0]) as u64);
        } else {
            assert(m[0] == s[0]);
        }
    }
    assert(m[0] != 0);
    assert(tiles_of(m) == seq![m[0]] + tiles_of(m.skip(1)));
}

/// Runs the merge phase on a line.
pub fn merge_pass(s: &Vec<u64>) -> (r: Vec<u64>)
    requires
        mergeable(s@),
    ensures
        r@ == merge_line(s@),
{
    let n = s.len();
    let mut out: Vec<u64> = Vec::new();
    let mut i: usize = 0;
    assert(s@.skip(0) =~= s@);
    assert(out@ + merge_line(s@) =~= merge_line(s@));
    while i < n
        invariant
            n == s.len(),
            i <= n,
            mergeable(s@),
            merge_line(s@) == out@ + merge_line(s@.skip(i as int)),
        decreases n - i,
    {
        let t = Ghost(s@.skip(i as int));
        if i + 1 < n && s[i] != 0 && s[i] == s[i + 1] {
            // The tile at i + 1 meets an equal neighbour: it is absorbed.
            out.push(2 * s[i]);
            out.push(0);
            assert(t@.skip(2) =~= s@.skip(i + 2));
            assert(merge_line(t@) == seq![(2 * s[i as int]) as u64, 0u64] + merge_line(t@.skip(2)));
            i = i + 2;
        } else {
            out.push(s[i]);
            assert(t@.skip(1) =~= s@.skip(i + 1));
            proof {
                if t@.len() >= 2 {
                    assert(merge_line(t@) == seq![s[i as int]] + merge_line(t@.skip(1)));
                } else {
                    assert(merge_line(t@) == t@);
                    assert(t@ =~= seq![s[i as int]]);
                    assert(merge_line(t@.skip(1)) =~= Seq::<u64>::empty());
                }
            }
            i = i + 1;
        }
        assert(merge_line(s@) =~= out@ + merge_line(s@.skip(i as int)));
    }
    assert(s@.skip(n as int) =~= Seq::<u64>::empty());
    assert(out@ + merge_line(s@.skip(n as int)) =~= out@);
    out
}

/// No tile of the line has an empty cell just before it, toward the wall.
pub open spec fn settled(s: Seq<u64>) -> bool {
    forall|i: int| 1 <= i < s.len() ==> !(s[i - 1] == 0 && #[trigger] s[i] != 0)
}

/// Number of pairs (empty cell, tile) with the empty cell nearer the wall: each step of a
/// tile into the empty cell before it removes exactly one such pair.
pub open spec fn gaps(s: Seq<u64>) -> int
    decreases s.len(),
{
    if s.len() == 0 {
        0
    } else if s[0] == 0 {
        tile_count(s.skip(1)) + gaps(s.skip(1))
    } else {
        gaps(s.skip(1))
    }
}

/// The line after the tile at `i` steps into the empty cell at `i - 1`.
pub open spec fn step_at(s: Seq<u64>, i: int) -> Seq<u64> {
    s.update(i - 1, s[i]).update(i, 0)
}

proof fn lemma_gaps_nonneg(s: Seq<u64>)
    ensures
        gaps(s) >= 0,
    decreases s.len(),
{
    if s.len() > 0 {
        lemma_gaps_nonneg(s.skip(1));
    }
}

proof fn lemma_step_at(s: Seq<u64>, i: int)
    requires
        1 <= i < s.len(),
        s[i - 1] == 0,
        s[i] != 0,
    ensures
        tiles_of(step_at(s, i)) == tiles_of(s),
        gaps(step_at(s, i)) == gaps(s) - 1,
    decreases i,
{
    let t = step_at(s, i);
    if i == 1 {
        let rest = s.skip(2);
        assert(s.skip(1).skip(1) =~= rest);
        assert(t.skip(1).skip(1) =~= rest);
        assert(tiles_of(t.skip(1)) == tiles_of(t.skip(1).skip(1)));
        assert(tiles_of(s.skip(1)) == seq![s[1]] + tiles_of(s.skip(1).skip(1)));
        assert(tiles_of(t) =~= tiles_of(s));
        assert(gaps(t.skip(1)) == tile_count(rest) + gaps(rest));
        assert(gaps(s.skip(1)) == gaps(rest));
    } else {
        assert(t.skip(1) =~= step_at(s.skip(1), i - 1));
        lemma_step_at(s.skip(1), i - 1);
    }
}

proof fn lemma_all_empty(s: Seq<u64>)
    requires
        settled(s),
        s.len() > 0,
        s[0] == 0,
    ensures
        forall|i: int| 0 <= i < s.len() ==> s[i] == 0,
{
    assert forall|i: int| 0 <= i < s.len() implies s[i] == 0 by {
        lemma_all_empty_upto(s, i);
    }
}

proof fn lemma_all_empty_upto(s: Seq<u64>, i: int)
    requires
        settled(s),
        0 <= i < s.len(),
        s[0] == 0,
    ensures
        s[i] == 0,
    decreases i,
{
    if i > 0 {
        lemma_all_empty_upto(s, i - 1);
    }
}

/// A settled line is its own compaction: the slide phase has nothing left to do.
pub proof fn lemma_settled_is_compact(s: Seq<u64>)
    requires
        settled(s),
    ensures
        s == compact(s),
    decreases s.len(),
{
    lemma_tiles_of_len(s);
    if s.len() > 0 {
        let r = s.skip(1);
        assert forall|i: int| 1 <= i < r.len() implies !(r[i - 1] == 0 && #[trigger] r[i] != 0) by {
            assert(s[i] == r[i - 1] && s[i + 1] == r[i]);
        }
        if s[0] != 0 {
            lemma_settled_is_compact(r);
            lemma_tiles_of_len(r);
            assert(tiles_of(s) == seq![s[0]] + tiles_of(r));
            assert(s =~= seq![s[0]] + r);
            assert(empty_cells((s.len() - tiles_of(s).len()) as nat) =~= empty_cells(
                (r.len() - tiles_of(r).len()) as nat,
            ));
            assert(s =~= compact(s));
        } else {
            lemma_all_empty(s);
            lemma_all_zero_tiles(s);
            assert(s =~= compact(s));
        }
    }
}

proof fn lemma_all_zero_tiles(s: Seq<u64>)
    requires
        forall|i: int| 0 <= i < s.len() ==> s[i] == 0,
    ensures
        tiles_of(s) =~= Seq::<u64>::empty(),
    decreases s.len(),
{
    if s.len() > 0 {
        lemma_all_zero_tiles(s.skip(1));
    }
}

/// One pass of the slide phase: from the wall outward, each tile steps one cell toward the
/// wall where that cell is empty. Says whether any tile moved.
fn slide_step(line: &mut Vec<u64>) -> (moved: bool)
    ensures
        final(line)@.len() == old(line)@.len(),
        tiles_of(final(line)@) == tiles_of(old(line)@),
        moved ==> gaps(final(line)@) < gaps(old(line)@),
        !moved ==> final(line)@ == old(line)@ && settled(old(line)@),
{
    let n = line.len();
    let mut moved = false;
    let mut i: usize = 1;
    while i < n
        invariant
            n == line@.len(),
            n == old(line)@.len(),
            1 <= i,
            i <= n || n == 0,
            tiles_of(line@) == tiles_of(old(line)@),
            moved ==> gaps(line@) < gaps(old(line)@),
            !moved ==> line@ == old(line)@,
            !moved ==> forall|j: int|
                1 <= j < i && j < n ==> !(old(line)@[j - 1] == 0 && #[trigger] old(line)@[j] != 0),
        decreases n - i,
    {
        if line[i] != 0 && line[i - 1] == 0 {
            proof {
                lemma_step_at(line@, i as int);
            }
            let v = line[i];
            line.set(i - 1, v);
            line.set(i, 0);
            moved = true;
        }
        i = i + 1;
    }
    moved
}

/// Runs the slide phase on a line: passes of one-cell steps until a pass moves nothing,
/// which leaves every tile against the wall or another tile, in their order.
pub fn compact_pass(s: &Vec<u64>) -> (r: Vec<u64>)
    ensures
        r@ == compact(s@),
{
    let mut line = s.clone();
    assert(line@ =~= s@);
    let mut moving = true;
    proof {
        lemma_gaps_nonneg(line@);
    }
    while moving
        invariant
            line@.len() == s@.len(),
            tiles_of(line@) == tiles_of(s@),
            gaps(line@) >= 0,
            !moving ==> settled(line@),
        decreases gaps(line@) + if moving {
            1int
        } else {
            0
        },
    {
        moving = slide_step(&mut line);
        proof {
            lemma_gaps_nonneg(line@);
        }
    }
    proof {
        lemma_settled_is_compact(line@);
    }
    line
}

/// Moves one line toward its wall (index 0): merge, then slide.
pub fn slide_pass(s: &Vec<u64>) -> (r: Vec<u64>)
    requires
        mergeable(s@),
    ensures
        r@ == slide_line(s@),
        r@.len() == s@.len(),
{
    let m = merge_pass(s);
    proof {
        lemma_merge_line_len(s@);
        lemma_tiles_of_len(m@);
    }
    compact_pass(&m)
}

} // verus!
