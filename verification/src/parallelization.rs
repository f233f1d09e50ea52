use vstd::prelude::*;
use crate::io::{spec_join, PngTile, TileView};
use crate::sorting::{
    in_turn, insert_by_key, lemma_stable_order, sort_range, sorted_slice, stable_order,
};
use crate::types::{Dimensions, TileCorner};

verus! {

/// The band that `separate_lines` makes at place `i`: `division_step` rows,
/// or what is left of the image for the last one.
pub open spec fn line_band(image_dimensions: Dimensions, division_step: usize, i: int) -> (
    Dimensions,
    TileCorner,
) {
    let left = image_dimensions.1 - i * division_step;
    (
        Dimensions(
            image_dimensions.0,
            if left < division_step {
                left as usize
            } else {
                division_step
            },
        ),
        TileCorner(0, (i * division_step) as usize),
    )
}

/// Divides the image's rows into bands of `division_step` rows each, the
/// last one taking what is left. An image without rows gives no band.
pub fn separate_lines(image_dimensions: Dimensions, division_step: usize) -> (results: Vec<
    (Dimensions, TileCorner),
>)
    requires
        division_step > 0,
    ensures
        results@.len() == 0 <==> image_dimensions.1 == 0,
        results@.len() > 0 ==> (results@.len() - 1) * division_step < image_dimensions.1
            <= results@.len() * division_step,
        forall|i: int|
            0 <= i < results@.len() ==> #[trigger] results@[i] == line_band(
                image_dimensions,
                division_step,
                i,
            ),
{
    let mut total_work: usize = image_dimensions.1;
    let mut y_offset: usize = 0;

    let mut results: Vec<(Dimensions, TileCorner)> = Vec::new();
    assert(0 * division_step == 0) by (nonlinear_arith);
    while total_work > division_step
        invariant
            division_step > 0,
            total_work > 0 || results@.len() == 0,
            y_offset == results@.len() * division_step,
            y_offset + total_work == image_dimensions.1,
            forall|i: int|
                0 <= i < results@.len() ==> #[trigger] results@[i] == line_band(
                    image_dimensions,
                    division_step,
                    i,
                ),
        decreases total_work,
    {
        let tile_dimensions = Dimensions(image_dimensions.0, division_step);
        let corner = TileCorner(0, y_offset);
        proof {
            let k = results@.len() as int;
            assert((k + 1) * division_step == k * division_step + division_step)
                by (nonlinear_arith);
        }

        y_offset += division_step;
        total_work -= division_step;

        results.push((tile_dimensions, corner));
    }

    if total_work != 0 {
        let tile_dimensions = Dimensions(image_dimensions.0, total_work);
        let corner = TileCorner(0, y_offset);
        proof {
            let k = results@.len() as int;
            assert((k + 1) * division_step == k * division_step + division_step)
                by (nonlinear_arith);
        }
        results.push((tile_dimensions, corner));
    }

    results
}

/// The tiles that the handles name, glued together from top to bottom.
pub open spec fn join_all(tiles: Seq<TileView>, order: Seq<usize>) -> TileView
    decreases order.len(),
{
    if order.len() <= 1 {
        tiles[order[0] as int]
    } else {
        spec_join(join_all(tiles, order.drop_last()), tiles[order.last() as int])
    }
}

/// The heights of the tiles that the handles name, added up.
pub open spec fn height_sum(tiles: Seq<TileView>, order: Seq<usize>) -> nat
    decreases order.len(),
{
    if order.len() == 0 {
        0
    } else {
        height_sum(tiles, order.drop_last()) + tiles[order.last() as int].dims.1 as nat
    }
}

/// The sort keys of the canvases: the row of the image at which each tile
/// begins.
pub open spec fn canvas_keys(canvases: Seq<(usize, PngTile)>) -> Seq<i128> {
    Seq::new(canvases.len(), |i: int| canvases[i].1@.corner.1 as i128)
}

/// The tiles of the canvases.
pub open spec fn canvas_tiles(canvases: Seq<(usize, PngTile)>) -> Seq<TileView> {
    Seq::new(canvases.len(), |i: int| canvases[i].1@)
}

/// Inserting a handle adds the height of its tile to the sum.
pub proof fn lemma_height_sum_insert(
    tiles: Seq<TileView>,
    order: Seq<usize>,
    keys: Seq<i128>,
    item: usize,
)
    ensures
        height_sum(tiles, insert_by_key(order, keys, item)) == height_sum(tiles, order)
            + tiles[item as int].dims.1,
    decreases order.len(),
{
    if order.len() == 0 {
        let one = insert_by_key(order, keys, item);
        assert(one.drop_last() =~= order);
        assert(one.last() == item);
    } else if keys[order.last() as int] <= keys[item as int] {
        let out = order.push(item);
        assert(out.drop_last() =~= order);
        assert(out.last() == item);
    } else {
        let inner = insert_by_key(order.drop_last(), keys, item);
        let out = inner.push(order.last());
        lemma_height_sum_insert(tiles, order.drop_last(), keys, item);
        assert(out.drop_last() =~= inner);
        assert(out.last() == order.last());
    }
}

/// Sorting the handles leaves the sum of the heights as it was.
pub proof fn lemma_height_sum_sorted(tiles: Seq<TileView>, order: Seq<usize>, keys: Seq<i128>)
    ensures
        height_sum(tiles, stable_order(order, keys)) == height_sum(tiles, order),
    decreases order.len(),
{
    if order.len() > 0 {
        lemma_height_sum_sorted(tiles, order.drop_last(), keys);
        lemma_height_sum_insert(tiles, stable_order(order.drop_last(), keys), keys, order.last());
    }
}

/// The heights of the first handles add up to no more than those of all.
pub proof fn lemma_height_sum_prefix(tiles: Seq<TileView>, order: Seq<usize>, k: int)
    requires
        0 <= k <= order.len(),
    ensures
        height_sum(tiles, order.subrange(0, k)) <= height_sum(tiles, order),
    decreases order.len() - k,
{
    if k < order.len() {
        lemma_height_sum_prefix(tiles, order, k + 1);
        let longer = order.subrange(0, k + 1);
        assert(longer.drop_last() =~= order.subrange(0, k));
    } else {
        assert(order.subrange(0, k) =~= order);
    }
}

/// Tiles glued together are as wide as the topmost and as high as all of
/// them together, where that height can be counted.
pub proof fn lemma_join_all_dims(tiles: Seq<TileView>, order: Seq<usize>)
    requires
        order.len() > 0,
        height_sum(tiles, order) <= usize::MAX,
    ensures
        join_all(tiles, order).dims == Dimensions(
            tiles[order[0] as int].dims.0,
            height_sum(tiles, order) as usize,
        ),
    decreases order.len(),
{
    if order.len() == 1 {
        assert(order.drop_last() =~= Seq::<usize>::empty());
        assert(height_sum(tiles, order.drop_last()) == 0);
        assert(order.last() == order[0]);
    } else {
        lemma_join_all_dims(tiles, order.drop_last());
        assert(order.drop_last()[0] == order[0]);
    }
}

/// The tiles that the handles name, in the order of the handles.
pub open spec fn laid_out(tiles: Seq<TileView>, order: Seq<usize>) -> Seq<TileView> {
    Seq::new(order.len(), |k: int| tiles[order[k] as int])
}

/// The tiles glued together from top to bottom.
pub open spec fn join_seq(tiles: Seq<TileView>) -> TileView
    decreases tiles.len(),
{
    if tiles.len() <= 1 {
        tiles[0]
    } else {
        spec_join(join_seq(tiles.drop_last()), tiles.last())
    }
}

/// Each tile begins at a lower row than the next.
pub open spec fn rows_rise(tiles: Seq<TileView>) -> bool {
    forall|i: int, j: int|
        0 <= i < j < tiles.len() ==> (#[trigger] tiles[i]).corner.1 < (#[trigger] tiles[j]).corner.1
}

/// No two canvases begin at the same row.
pub open spec fn rows_differ(canvases: Seq<(usize, PngTile)>) -> bool {
    forall|i: int, j: int|
        0 <= i < canvases.len() && 0 <= j < canvases.len() && i != j ==> (
        #[trigger] canvases[i]).1@.corner.1 != (#[trigger] canvases[j]).1@.corner.1
}

/// What is glued depends on the tiles in their order only, not on how they
/// are named.
pub proof fn lemma_join_all_is_join_seq(tiles: Seq<TileView>, order: Seq<usize>)
    requires
        order.len() > 0,
    ensures
        join_all(tiles, order) == join_seq(laid_out(tiles, order)),
    decreases order.len(),
{
    let laid = laid_out(tiles, order);
    if order.len() > 1 {
        lemma_join_all_is_join_seq(tiles, order.drop_last());
        assert(laid.drop_last() =~= laid_out(tiles, order.drop_last()));
        assert(laid.last() == tiles[order.last() as int]);
    } else {
        assert(laid[0] == tiles[order[0] as int]);
    }
}

/// There is one way to lay tiles out by rising rows: two rows of tiles that
/// rise and hold the same tiles are the same.
pub proof fn lemma_rising_is_one(a: Seq<TileView>, b: Seq<TileView>)
    requires
        rows_rise(a),
        rows_rise(b),
        forall|i: int| 0 <= i < a.len() ==> b.contains(#[trigger] a[i]),
        forall|j: int| 0 <= j < b.len() ==> a.contains(#[trigger] b[j]),
    ensures
        a == b,
    decreases a.len(),
{
    if a.len() == 0 {
        if b.len() > 0 {
            assert(a.contains(b[0]));
        }
        assert(a =~= b);
    } else {
        let x = a.last();
        assert(b.contains(a[a.len() - 1]));
        let j = choose|j: int| 0 <= j < b.len() && b[j] == x;
        let y = b.last();
        assert(a.contains(b[b.len() - 1]));
        let i = choose|i: int| 0 <= i < a.len() && a[i] == y;
        assert(b[j].corner.1 <= b[b.len() - 1].corner.1);
        assert(a[i].corner.1 <= a[a.len() - 1].corner.1);
        assert(j == b.len() - 1);
        assert(x == y);
        let shorter = a.drop_last();
        let other = b.drop_last();
        assert forall|k: int| 0 <= k < shorter.len() implies other.contains(
            #[trigger] shorter[k],
        ) by {
            assert(shorter[k] == a[k]);
            assert(b.contains(a[k]));
            let m = choose|m: int| 0 <= m < b.len() && b[m] == a[k];
            assert(a[k].corner.1 < a[a.len() - 1].corner.1);
            assert(m < b.len() - 1);
            assert(other[m] == a[k]);
        }
        assert forall|k: int| 0 <= k < other.len() implies shorter.contains(
            #[trigger] other[k],
        ) by {
            assert(other[k] == b[k]);
            assert(a.contains(b[k]));
            let m = choose|m: int| 0 <= m < a.len() && a[m] == b[k];
            assert(b[k].corner.1 < b[b.len() - 1].corner.1);
            assert(m < a.len() - 1);
            assert(shorter[m] == b[k]);
        }
        assert(rows_rise(shorter)) by {
            assert forall|p: int, q: int| 0 <= p < q < shorter.len() implies (
            #[trigger] shorter[p]).corner.1 < (#[trigger] shorter[q]).corner.1 by {
                assert(shorter[p] == a[p] && shorter[q] == a[q]);
            }
        }
        assert(rows_rise(other)) by {
            assert forall|p: int, q: int| 0 <= p < q < other.len() implies (
            #[trigger] other[p]).corner.1 < (#[trigger] other[q]).corner.1 by {
                assert(other[p] == b[p] && other[q] == b[q]);
            }
        }
        lemma_rising_is_one(shorter, other);
        assert(a =~= shorter.push(x));
        assert(b =~= other.push(y));
    }
}

/// Canvases that begin at different rows are laid out, once sorted, by
/// rising rows, and all of them are there.
pub proof fn lemma_sorted_canvases_rise(canvases: Seq<(usize, PngTile)>)
    requires
        canvases.len() <= usize::MAX,
        rows_differ(canvases),
    ensures
        rows_rise(
            laid_out(
                canvas_tiles(canvases),
                stable_order(in_turn(canvases.len()), canvas_keys(canvases)),
            ),
        ),
        forall|k: int|
            0 <= k < canvases.len() ==> canvas_tiles(canvases).contains(
                #[trigger] laid_out(
                    canvas_tiles(canvases),
                    stable_order(in_turn(canvases.len()), canvas_keys(canvases)),
                )[k],
            ),
        forall|i: int|
            0 <= i < canvases.len() ==> laid_out(
                canvas_tiles(canvases),
                stable_order(in_turn(canvases.len()), canvas_keys(canvases)),
            ).contains(#[trigger] canvas_tiles(canvases)[i]),
        laid_out(
            canvas_tiles(canvases),
            stable_order(in_turn(canvases.len()), canvas_keys(canvases)),
        ).len() == canvases.len(),
{
    let n = canvases.len();
    let tiles = canvas_tiles(canvases);
    let keys = canvas_keys(canvases);
    let start = in_turn(n);
    let sorted = stable_order(start, keys);
    let laid = laid_out(tiles, sorted);
    lemma_stable_order(start, keys);
    assert(start.no_duplicates());
    assert forall|k: int| 0 <= k < sorted.len() implies #[trigger] sorted[k] < n by {
        assert(sorted.contains(sorted[k]));
        assert(start.contains(sorted[k]));
        let m = choose|m: int| 0 <= m < start.len() && start[m] == sorted[k];
    }
    assert forall|i: int, j: int| 0 <= i < j < laid.len() implies (#[trigger] laid[i]).corner.1 < (
    #[trigger] laid[j]).corner.1 by {
        let hi = sorted[i] as int;
        let hj = sorted[j] as int;
        assert(sorted[i] < n && sorted[j] < n);
        assert(sorted[i] != sorted[j]);
        assert(keys[hi] <= keys[hj]);
        assert(canvases[hi].1@.corner.1 != canvases[hj].1@.corner.1);
    }
    assert forall|k: int| 0 <= k < n implies tiles.contains(#[trigger] laid[k]) by {
        assert(sorted[k] < n);
        assert(tiles[sorted[k] as int] == laid[k]);
    }
    assert forall|i: int| 0 <= i < n implies laid.contains(#[trigger] tiles[i]) by {
        assert(start[i] == i as usize);
        assert(start.contains(i as usize));
        assert(sorted.contains(i as usize));
        let k = choose|k: int| 0 <= k < sorted.len() && sorted[k] == i as usize;
        assert(laid[k] == tiles[i]);
    }
}

/// What is glued does not depend on the order in which the canvases come
/// back, nor on the numbers they carry: two lists of canvases that hold the
/// same tiles, no two of which begin at the same row, give the same image.
pub proof fn lemma_glue_is_order_free(a: Seq<(usize, PngTile)>, b: Seq<(usize, PngTile)>)
    requires
        0 < a.len() <= usize::MAX,
        b.len() <= usize::MAX,
        rows_differ(a),
        rows_differ(b),
        forall|i: int| 0 <= i < a.len() ==> canvas_tiles(b).contains(#[trigger] canvas_tiles(a)[i]),
        forall|j: int| 0 <= j < b.len() ==> canvas_tiles(a).contains(#[trigger] canvas_tiles(b)[j]),
    ensures
        join_all(canvas_tiles(a), stable_order(in_turn(a.len()), canvas_keys(a))) == join_all(
            canvas_tiles(b),
            stable_order(in_turn(b.len()), canvas_keys(b)),
        ),
{
    let sorted_a = stable_order(in_turn(a.len()), canvas_keys(a));
    let sorted_b = stable_order(in_turn(b.len()), canvas_keys(b));
    let laid_a = laid_out(canvas_tiles(a), sorted_a);
    let laid_b = laid_out(canvas_tiles(b), sorted_b);
    lemma_sorted_canvases_rise(a);
    lemma_sorted_canvases_rise(b);
    assert forall|i: int| 0 <= i < laid_a.len() implies laid_b.contains(#[trigger] laid_a[i]) by {
        assert(canvas_tiles(a).contains(laid_a[i]));
        let m = choose|m: int| 0 <= m < a.len() && canvas_tiles(a)[m] == laid_a[i];
        assert(canvas_tiles(b).contains(canvas_tiles(a)[m]));
        let r = choose|r: int| 0 <= r < b.len() && canvas_tiles(b)[r] == laid_a[i];
        assert(laid_b.contains(canvas_tiles(b)[r]));
    }
    assert forall|j: int| 0 <= j < laid_b.len() implies laid_a.contains(#[trigger] laid_b[j]) by {
        assert(canvas_tiles(b).contains(laid_b[j]));
        let m = choose|m: int| 0 <= m < b.len() && canvas_tiles(b)[m] == laid_b[j];
        assert(canvas_tiles(a).contains(canvas_tiles(b)[m]));
        let r = choose|r: int| 0 <= r < a.len() && canvas_tiles(a)[r] == laid_b[j];
        assert(laid_a.contains(canvas_tiles(a)[r]));
    }
    lemma_rising_is_one(laid_a, laid_b);
    assert(sorted_a.len() == laid_a.len() && sorted_b.len() == laid_b.len());
    lemma_join_all_is_join_seq(canvas_tiles(a), sorted_a);
    lemma_join_all_is_join_seq(canvas_tiles(b), sorted_b);
}

/// Joins canvases vertically in the order of the rows at which their tiles
/// begin, the least on top. Tiles that begin at the same row keep the order
/// in which they came. The number beside each tile says which worker made
/// it and has no part in the order.
/// In which order the canvases are handed in does not matter otherwise.
pub fn glue_canvases(canvases: Vec<(usize, PngTile)>) -> (tile: PngTile)
    requires
        canvases@.len() > 0,
        height_sum(canvas_tiles(canvases@), in_turn(canvases@.len())) <= usize::MAX,
    ensures
        tile@ == join_all(
            canvas_tiles(canvases@),
            stable_order(in_turn(canvases@.len()), canvas_keys(canvases@)),
        ),
{
    let n: usize = canvases.len();
    let ghost tiles = canvas_tiles(canvases@);
    let ghost ids = canvas_keys(canvases@);
    let mut keys: Vec<i128> = Vec::new();
    let mut order: Vec<usize> = Vec::new();
    let mut i: usize = 0;
    while i < n
        invariant
            n == canvases@.len(),
            i <= n,
            keys@.len() == i,
            order@.len() == i,
            forall|k: int| 0 <= k < i ==> #[trigger] keys@[k] == canvases@[k].1@.corner.1 as i128,
            forall|k: int| 0 <= k < i ==> #[trigger] order@[k] == k,
        decreases n - i,
    {
        keys.push(canvases[i].1.upper_left().1 as i128);
        order.push(i);
        i += 1;
    }
    assert(keys@ =~= ids);
    assert(order@ =~= in_turn(n as nat));
    sort_range(&mut order, 0, n, &keys);
    let ghost sorted = stable_order(in_turn(n as nat), ids);
    proof {
        let start = in_turn(n as nat);
        assert(start.subrange(0, n as int) =~= start);
        assert(sorted_slice(start, 0, n as int, ids) =~= sorted);
        lemma_stable_order(start, ids);
        lemma_height_sum_sorted(tiles, start, ids);
        assert forall|k: int| 0 <= k < sorted.len() implies #[trigger] sorted[k] < n by {
            assert(sorted.contains(sorted[k]));
            assert(start.contains(sorted[k]));
            let j = choose|j: int| 0 <= j < start.len() && start[j] == sorted[k];
        }
    }
    let mut acc: PngTile = canvases[order[0]].1.duplicate();
    proof {
        assert(sorted.subrange(0, 1).drop_last() =~= Seq::<usize>::empty());
        assert(sorted.subrange(0, 1).last() == sorted[0]);
        assert(height_sum(tiles, Seq::<usize>::empty()) == 0);
    }
    let mut k: usize = 1;
    while k < n
        invariant
            n == canvases@.len(),
            1 <= k <= n,
            order@ == sorted,
            sorted.len() == n,
            tiles == canvas_tiles(canvases@),
            forall|j: int| 0 <= j < sorted.len() ==> #[trigger] sorted[j] < n,
            height_sum(tiles, sorted) <= usize::MAX,
            acc@ == join_all(tiles, sorted.subrange(0, k as int)),
            acc@.dims.1 == height_sum(tiles, sorted.subrange(0, k as int)),
        decreases n - k,
    {
        proof {
            let next = sorted.subrange(0, k + 1);
            assert(next.drop_last() =~= sorted.subrange(0, k as int));
            assert(next.last() == sorted[k as int]);
            lemma_height_sum_prefix(tiles, sorted, k + 1);
        }
        let below = canvases[order[k]].1.duplicate();
        acc = acc.join_vertical(below);
        k += 1;
    }
    assert(sorted.subrange(0, n as int) =~= sorted);
    acc
}

} // verus!
