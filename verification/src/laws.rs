//! What a slide keeps: the sum of a line, the shape of its tiles, and the
//! rule that a tile merges at most once.

use vstd::prelude::*;
use crate::line::{
    fits, lemma_merge_len, lemma_tiles_bounds, lemma_tiles_pad, merge, pad, slide, tiles,
};

verus! {

/// `v` is 1, 2, 4, 8, ...
pub open spec fn is_power_of_two(v: int) -> bool
    decreases v,
{
    v == 1 || (v >= 2 && v % 2 == 0 && is_power_of_two(v / 2))
}

/// `v` is a value that a tile can have: a power of two from 2 on.
pub open spec fn is_tile(v: int) -> bool {
    v >= 2 && is_power_of_two(v)
}

/// Every cell of the line is empty or holds a tile value.
pub open spec fn well_formed(line: Seq<int>) -> bool {
    forall|i: int| 0 <= i < line.len() ==> #[trigger] line[i] == 0 || is_tile(line[i])
}

/// The sum of the values of a line.
pub open spec fn total(line: Seq<int>) -> int
    decreases line.len(),
{
    if line.len() == 0 {
        0
    } else {
        total(line.drop_last()) + line.last()
    }
}

/// The number of pairs that a merging pass over `t` joins.
pub open spec fn merges(t: Seq<int>) -> nat
    decreases t.len(),
{
    if t.len() < 2 {
        0
    } else if t[0] == t[1] {
        1 + merges(t.skip(2))
    } else {
        merges(t.skip(1))
    }
}

proof fn lemma_total_concat(a: Seq<int>, b: Seq<int>)
    ensures
        total(a + b) == total(a) + total(b),
    decreases b.len(),
{
    if b.len() == 0 {
        assert(a + b =~= a);
    } else {
        assert((a + b).drop_last() =~= a + b.drop_last());
        lemma_total_concat(a, b.drop_last());
    }
}

proof fn lemma_total_tiles(line: Seq<int>)
    ensures
        total(tiles(line)) == total(line),
    decreases line.len(),
{
    if line.len() > 0 {
        lemma_total_tiles(line.drop_last());
        if line.last() != 0 {
            assert(tiles(line).drop_last() =~= tiles(line.drop_last()));
        }
    }
}

proof fn lemma_total_merge(t: Seq<int>)
    ensures
        total(merge(t)) == total(t),
    decreases t.len(),
{
    if t.len() >= 2 {
        let n: int = if t[0] == t[1] { 2 } else { 1 };
        let head = merge(t.take(n));
        lemma_total_merge(t.skip(n));
        assert(t =~= t.take(n) + t.skip(n));
        lemma_total_concat(t.take(n), t.skip(n));
        lemma_total_concat(head, merge(t.skip(n)));
        reveal_with_fuel(total, 3);
        reveal_with_fuel(merge, 2);
        if n == 2 {
            assert(t.take(2).skip(2) =~= Seq::<int>::empty());
            assert(head =~= seq![2 * t[0]]);
            assert(merge(t) == head + merge(t.skip(2)));
        } else {
            assert(head =~= seq![t[0]]);
            assert(merge(t) == head + merge(t.skip(1)));
        }
    }
}

proof fn lemma_total_pad(t: Seq<int>, n: nat)
    requires
        t.len() <= n,
    ensures
        total(pad(t, n)) == total(t),
    decreases n,
{
    if n == t.len() {
        assert(pad(t, n) =~= t);
    } else {
        assert(pad(t, n).drop_last() =~= pad(t, (n - 1) as nat));
        lemma_total_pad(t, (n - 1) as nat);
    }
}

/// A merging pass over tiles gives tiles: none of its values is zero, and
/// each is a tile value where those before were, and the pass shortens
/// the run by one for each pair it joins.
proof fn lemma_merge_shape(t: Seq<int>)
    requires
        forall|i: int| 0 <= i < t.len() ==> #[trigger] t[i] != 0,
    ensures
        forall|i: int| 0 <= i < merge(t).len() ==> #[trigger] merge(t)[i] != 0,
        well_formed(t) ==> well_formed(merge(t)),
        merge(t).len() + merges(t) == t.len(),
    decreases t.len(),
{
    if t.len() >= 2 {
        let n: int = if t[0] == t[1] { 2 } else { 1 };
        let rest = t.skip(n);
        assert(forall|i: int| 0 <= i < rest.len() ==> rest[i] == t[i + n]);
        lemma_merge_shape(rest);
        let head: int = if n == 2 { 2 * t[0] } else { t[0] };
        assert(merge(t) == seq![head] + merge(rest));
        assert(forall|i: int| 1 <= i < merge(t).len() ==> merge(t)[i] == merge(rest)[i - 1]);
        if well_formed(t) {
            assert(t[0] == 0 || is_tile(t[0]));
            assert(is_tile(head)) by {
                if n == 2 {
                    assert((2 * t[0]) / 2 == t[0]);
                }
            }
            assert(well_formed(rest));
        }
    }
}

/// A slide conserves a line but for its merges: the tiles after it are the
/// tiles before it with each joined pair of equal values replaced by one
/// tile of their sum, in the same order. So the sum of the line stays,
/// and the number of tiles falls by one for each joined pair.
pub proof fn lemma_slide_conserves(line: Seq<int>)
    ensures
        tiles(slide(line)) == merge(tiles(line)),
        total(slide(line)) == total(line),
        tiles(slide(line)).len() + merges(tiles(line)) == tiles(line).len(),
        tiles(slide(line)).len() <= tiles(line).len(),
{
    let run = tiles(line);
    lemma_tiles_bounds(line);
    lemma_merge_len(run);
    lemma_merge_shape(run);
    lemma_tiles_pad(merge(run), line.len());
    lemma_total_pad(merge(run), line.len());
    lemma_total_merge(run);
    lemma_total_tiles(line);
}

/// A slide of a line whose cells are empty or hold powers of two from 2
/// on gives such a line again.
pub proof fn lemma_slide_keeps_tiles(line: Seq<int>)
    requires
        well_formed(line),
    ensures
        well_formed(slide(line)),
{
    let run = tiles(line);
    lemma_tiles_bounds(line);
    lemma_tiles_well_formed(line);
    lemma_merge_len(run);
    lemma_merge_shape(run);
}

proof fn lemma_tiles_well_formed(line: Seq<int>)
    requires
        well_formed(line),
    ensures
        well_formed(tiles(line)),
    decreases line.len(),
{
    if line.len() > 0 {
        assert(forall|i: int|
            0 <= i < line.drop_last().len() ==> #[trigger] line.drop_last()[i] == line[i]);
        lemma_tiles_well_formed(line.drop_last());
    }
}

/// Two equal tiles that are the first of a line towards the edge, with
/// only empty cells before and between them, become one tile of twice the
/// value in the cell at the edge. The new tile joins nothing more: behind
/// it stands what one merging pass makes of the tiles after the pair.
pub proof fn lemma_front_pair_merges_once(line: Seq<int>)
    requires
        tiles(line).len() >= 2,
        tiles(line)[0] == tiles(line)[1],
    ensures
        slide(line).len() == line.len(),
        slide(line)[0] == 2 * tiles(line)[0],
        tiles(slide(line)).skip(1) == merge(tiles(line).skip(2)),
{
    lemma_slide_conserves(line);
    lemma_tiles_bounds(line);
    assert(tiles(slide(line)).skip(1) =~= merge(tiles(line).skip(2)));
}

/// The largest value that can be doubled and still be stored in a cell.
pub open spec fn half() -> int {
    0x7fff_ffff
}

/// No value of the line is above `bound`.
pub open spec fn below(line: Seq<int>, bound: int) -> bool {
    forall|i: int| 0 <= i < line.len() ==> #[trigger] line[i] <= bound
}

proof fn lemma_tiles_below(line: Seq<int>, bound: int)
    requires
        below(line, bound),
    ensures
        below(tiles(line), bound),
    decreases line.len(),
{
    if line.len() > 0 {
        assert(forall|i: int|
            0 <= i < line.drop_last().len() ==> #[trigger] line.drop_last()[i] == line[i]);
        lemma_tiles_below(line.drop_last(), bound);
    }
}

proof fn lemma_merge_below(t: Seq<int>, bound: int)
    requires
        below(t, bound),
        bound >= 0,
    ensures
        below(merge(t), 2 * bound),
    decreases t.len(),
{
    if t.len() >= 2 {
        let n: int = if t[0] == t[1] { 2 } else { 1 };
        let rest = t.skip(n);
        assert(forall|i: int| 0 <= i < rest.len() ==> rest[i] == t[i + n]);
        lemma_merge_below(rest, bound);
        let head: int = if n == 2 { 2 * t[0] } else { t[0] };
        assert(merge(t) == seq![head] + merge(rest));
        assert(forall|i: int| 1 <= i < merge(t).len() ==> merge(t)[i] == merge(rest)[i - 1]);
        assert(t[0] <= bound);
    }
}

/// A line whose values are at most half of the largest value of a cell
/// slides to a line that can be stored.
pub proof fn lemma_small_line_fits(line: Seq<int>)
    requires
        below(line, half()),
    ensures
        fits(slide(line)),
{
    let run = tiles(line);
    lemma_tiles_bounds(line);
    lemma_tiles_below(line, half());
    lemma_merge_len(run);
    lemma_merge_below(run, half());
}

} // verus!
