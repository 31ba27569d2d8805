//! One line of the board: the model of a slide and its verified execution.
//!
//! A line is read from the edge that the tiles move to: index 0 is the cell
//! at that edge. The model works on mathematical integers, so that doubling
//! never wraps; `fits` says when the outcome can be stored.

use vstd::prelude::*;

verus! {

/// Number of cells along each side of the board.
pub const SIZE: usize = 4;

/// The cells of a stored line as integers.
pub open spec fn line_view(line: [u32; 4]) -> Seq<int> {
    Seq::new(4, |i: int| line[i] as int)
}

/// The tiles of a line: its non-zero cells, in their order.
pub open spec fn tiles(line: Seq<int>) -> Seq<int>
    decreases line.len(),
{
    if line.len() == 0 {
        Seq::empty()
    } else if line.last() == 0 {
        tiles(line.drop_last())
    } else {
        tiles(line.drop_last()).push(line.last())
    }
}

/// One merging pass over a run of tiles, from the front: two equal
/// neighbours become one tile of twice the value, and the pass goes on
/// behind the pair, so that the new tile takes no part in a second merge.
pub open spec fn merge(t: Seq<int>) -> Seq<int>
    decreases t.len(),
{
    if t.len() < 2 {
        t
    } else if t[0] == t[1] {
        seq![2 * t[0]] + merge(t.skip(2))
    } else {
        seq![t[0]] + merge(t.skip(1))
    }
}

/// A run of tiles laid out from index 0 in a line of `n` cells, the rest empty.
pub open spec fn pad(t: Seq<int>, n: nat) -> Seq<int> {
    Seq::new(n, |i: int| if i < t.len() { t[i] } else { 0 })
}

/// What a move makes of a line: its tiles, merged once, packed at index 0.
pub open spec fn slide(line: Seq<int>) -> Seq<int> {
    pad(merge(tiles(line)), line.len())
}

/// Every value of the line can be stored in a cell.
pub open spec fn fits(line: Seq<int>) -> bool {
    forall|i: int| 0 <= i < line.len() ==> #[trigger] line[i] <= u32::MAX
}

/// The tiles of a prefix grow by the next cell where that cell is a tile.
pub proof fn lemma_tiles_step(line: Seq<int>, k: int)
    requires
        0 <= k < line.len(),
    ensures
        line[k] == 0 ==> tiles(line.take(k + 1)) == tiles(line.take(k)),
        line[k] != 0 ==> tiles(line.take(k + 1)) == tiles(line.take(k)).push(line[k]),
{
    assert(line.take(k + 1).drop_last() =~= line.take(k));
}

/// Slides the tiles of a line to index 0 without merging any.
fn compact(line: [u32; 4]) -> (out: [u32; 4])
    ensures
        line_view(out) == pad(tiles(line_view(line)), 4),
{
    let ghost orig = line_view(line);
    let mut out = line;
    let mut target: usize = 0;
    let mut x: usize = 0;
    while x < SIZE
        invariant
            x <= 4,
            target <= x,
            orig == line_view(line),
            target == tiles(orig.take(x as int)).len(),
            forall|i: int| 0 <= i < target ==> out[i] as int == tiles(orig.take(x as int))[i],
            forall|i: int| target <= i < x ==> out[i] == 0,
            forall|i: int| x <= i < 4 ==> out[i] == line[i],
        decreases 4 - x,
    {
        proof {
            lemma_tiles_step(orig, x as int);
        }
        if out[x] != 0 {
            let value: u32 = out[x];
            out[x] = 0;
            out[target] = value;
            target += 1;
        }
        x += 1;
    }
    proof {
        assert(orig.take(4) =~= orig);
        assert(line_view(out) =~= pad(tiles(orig), 4));
    }
    out
}

/// A line has no more tiles than cells, and no tile is zero.
pub proof fn lemma_tiles_bounds(line: Seq<int>)
    ensures
        tiles(line).len() <= line.len(),
        forall|i: int| 0 <= i < tiles(line).len() ==> #[trigger] tiles(line)[i] != 0,
    decreases line.len(),
{
    if line.len() > 0 {
        lemma_tiles_bounds(line.drop_last());
    }
}

/// A run without zeros is its own run of tiles.
proof fn lemma_tiles_of_run(t: Seq<int>)
    requires
        forall|i: int| 0 <= i < t.len() ==> #[trigger] t[i] != 0,
    ensures
        tiles(t) == t,
    decreases t.len(),
{
    if t.len() > 0 {
        lemma_tiles_of_run(t.drop_last());
        assert(t.drop_last().push(t.last()) =~= t);
    }
}

/// Packing a run of tiles into a line and reading the tiles back gives the run.
pub proof fn lemma_tiles_pad(t: Seq<int>, n: nat)
    requires
        t.len() <= n,
        forall|i: int| 0 <= i < t.len() ==> #[trigger] t[i] != 0,
    ensures
        tiles(pad(t, n)) == t,
    decreases n,
{
    if n == t.len() {
        assert(pad(t, n) =~= t);
        lemma_tiles_of_run(t);
    } else {
        assert(pad(t, n).drop_last() =~= pad(t, (n - 1) as nat));
        lemma_tiles_pad(t, (n - 1) as nat);
    }
}

/// A merging pass never makes a run longer.
pub proof fn lemma_merge_len(t: Seq<int>)
    ensures
        merge(t).len() <= t.len(),
    decreases t.len(),
{
    if t.len() >= 2 {
        if t[0] == t[1] {
            lemma_merge_len(t.skip(2));
        } else {
            lemma_merge_len(t.skip(1));
        }
    }
}

/// The tiles of `run` from index `from` on, none where `from` is past its end.
spec fn tail(run: Seq<int>, from: int) -> Seq<int> {
    if from < run.len() {
        run.skip(from)
    } else {
        Seq::empty()
    }
}

/// The tiles of a line that can be stored can be stored.
proof fn lemma_tiles_fit(line: Seq<int>)
    requires
        fits(line),
    ensures
        fits(tiles(line)),
    decreases line.len(),
{
    if line.len() > 0 {
        assert forall|i: int| 0 <= i < line.drop_last().len() implies #[trigger] line.drop_last()[i]
            <= u32::MAX by {
            assert(line.drop_last()[i] == line[i]);
        }
        lemma_tiles_fit(line.drop_last());
    }
}

/// The merging pass on a packed line: each pair of equal neighbours, met
/// from index 0, becomes one doubled tile followed by an empty cell.
/// Gives `None` where a doubled tile cannot be stored.
fn merge_pass(line: [u32; 4]) -> (res: Option<[u32; 4]>)
    requires
        line_view(line) == pad(tiles(line_view(line)), 4),
    ensures
        res is Some <==> fits(merge(tiles(line_view(line)))),
        res matches Some(out) ==> tiles(line_view(out)) == merge(tiles(line_view(line))),
{
    let ghost run = tiles(line_view(line));
    proof {
        lemma_tiles_bounds(line_view(line));
        assert(forall|i: int| 0 <= i < 4 ==> line[i] as int == line_view(line)[i]);
        assert(tail(run, 0) =~= run);
        assert(tiles(line_view(line).take(0)) + merge(run) =~= merge(run));
    }
    let mut out = line;
    let mut target: usize = 0;
    while target < SIZE - 1
        invariant
            target <= 4,
            run == tiles(line_view(line)),
            run.len() <= 4,
            forall|i: int| 0 <= i < run.len() ==> #[trigger] run[i] != 0,
            forall|i: int| 0 <= i < run.len() ==> line[i] as int == #[trigger] run[i],
            forall|i: int| run.len() <= i < 4 ==> line[i] == 0,
            forall|i: int| target <= i < 4 ==> out[i] == line[i],
            tiles(line_view(out).take(target as int)) + merge(tail(run, target as int)) == merge(run),
        decreases 4 - target,
    {
        let ghost before = line_view(out);
        let ghost done = tiles(before.take(target as int));
        let ghost t = target as int;
        if out[target] != 0 && out[target] == out[target + 1] {
            proof {
                assert(t + 1 < run.len());
                assert(run.skip(t).skip(2) =~= tail(run, t + 2));
                assert(merge(run)[done.len() as int] == 2 * run[t]);
            }
            if out[target] > u32::MAX / 2 {
                return None;
            }
            out[target] *= 2;
            out[target + 1] = 0;
            proof {
                let after = line_view(out);
                assert(after.take(t) =~= before.take(t));
                lemma_tiles_step(after, t);
                lemma_tiles_step(after, t + 1);
                assert(done.push(2 * run[t]) + merge(tail(run, t + 2)) =~= done + (seq![2 * run[t]]
                    + merge(tail(run, t + 2))));
            }
            target += 1;
        } else {
            proof {
                lemma_tiles_step(before, t);
                if out[t] != 0 {
                    assert(t < run.len());
                    assert(run.skip(t).skip(1) =~= tail(run, t + 1));
                    assert(done.push(run[t]) + merge(tail(run, t + 1)) =~= done + (seq![run[t]]
                        + merge(tail(run, t + 1))));
                }
            }
        }
        target += 1;
    }
    proof {
        let after = line_view(out);
        if target == 3 {
            lemma_tiles_step(after, 3);
            if out[3] != 0 {
                assert(tiles(after.take(3)).push(run[3]) =~= tiles(after.take(3)) + run.skip(3));
            }
        }
        assert(after.take(4) =~= after);
        assert(tiles(after) + Seq::<int>::empty() =~= tiles(after));
        lemma_tiles_fit(after);
    }
    Some(out)
}

/// Slides one line towards index 0: packs the tiles, merges equal
/// neighbours once from index 0 on, and packs again. Gives `None`, and
/// only then, where a merged tile would not fit in a cell.
pub fn slide_line(line: [u32; 4]) -> (res: Option<[u32; 4]>)
    ensures
        res is Some <==> fits(slide(line_view(line))),
        res matches Some(out) ==> line_view(out) == slide(line_view(line)),
{
    let ghost run = tiles(line_view(line));
    proof {
        lemma_tiles_bounds(line_view(line));
        lemma_merge_len(run);
        lemma_tiles_pad(run, 4);
        assert(forall|i: int|
            0 <= i < merge(run).len() ==> slide(line_view(line))[i] == #[trigger] merge(run)[i]);
        assert(fits(merge(run)) ==> fits(slide(line_view(line))));
    }
    let packed = compact(line);
    match merge_pass(packed) {
        Some(merged) => Some(compact(merged)),
        None => None,
    }
}

} // verus!
