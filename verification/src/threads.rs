use vstd::prelude::*;
use crate::io::{PngTile, TileView};
use crate::parallelization::{
    canvas_keys, canvas_tiles, glue_canvases, height_sum, join_all, lemma_height_sum_sorted,
    lemma_join_all_dims,
};
use crate::sorting::{in_turn, lemma_stable_order, stable_order};
use crate::types::{Dimensions, TileCorner};

verus! {

/// Height of band `i` when `height` rows are shared among `cores` workers:
/// the quotient, and one row more for each of the first `height % cores` bands.
pub open spec fn band_height(height: nat, cores: nat, i: nat) -> nat
    recommends
        cores > 0,
{
    if i < height % cores {
        height / cores + 1
    } else {
        height / cores
    }
}

/// First row of band `i`: the heights of the bands above it, added up.
pub open spec fn band_offset(height: nat, cores: nat, i: nat) -> nat
    recommends
        cores > 0,
    decreases i,
{
    if i == 0 {
        0
    } else {
        band_offset(height, cores, (i - 1) as nat) + band_height(height, cores, (i - 1) as nat)
    }
}

/// The offset of a band in closed form.
pub proof fn lemma_band_offset_closed(height: nat, cores: nat, i: nat)
    requires
        cores > 0,
    ensures
        band_offset(height, cores, i) == i * (height / cores) + (if i < height % cores {
            i
        } else {
            height % cores
        }),
    decreases i,
{
    if i > 0 {
        lemma_band_offset_closed(height, cores, (i - 1) as nat);
        let q: int = (height / cores) as int;
        let j: int = i - 1;
        assert((j + 1) * q == j * q + q) by (nonlinear_arith);
        assert(i * (height / cores) == (j + 1) * q);
        assert(((i - 1) as nat) * (height / cores) == j * q);
    } else {
        assert(i * (height / cores) == 0) by (nonlinear_arith)
            requires
                i == 0,
        ;
    }
}

/// The bands cover the image exactly: the offset past the last band is the
/// image's height.
pub proof fn lemma_bands_cover(height: nat, cores: nat)
    requires
        cores > 0,
    ensures
        band_offset(height, cores, cores) == height,
{
    lemma_band_offset_closed(height, cores, cores);
    assert(height == cores * (height / cores) + height % cores) by (nonlinear_arith)
        requires
            cores > 0,
    ;
    assert(height % cores < cores) by (nonlinear_arith)
        requires
            cores > 0,
    ;
}

/// Offsets grow with the band's index and never pass the image's height.
pub proof fn lemma_band_offset_bounded(height: nat, cores: nat, i: nat)
    requires
        cores > 0,
        i <= cores,
    ensures
        band_offset(height, cores, i) <= height,
        i < cores ==> band_offset(height, cores, i) + band_height(height, cores, i) <= height,
    decreases cores - i,
{
    if i < cores {
        lemma_band_offset_bounded(height, cores, i + 1);
    } else {
        lemma_bands_cover(height, cores);
    }
}

/// The number of workers for the parallelism that the machine reports: 1
/// where it reports none.
pub open spec fn spec_cores(available: Option<usize>) -> usize {
    match available {
        Some(n) => if n > 0 {
            n
        } else {
            1
        },
        None => 1,
    }
}

/// The band that `determine_work_with_cores` hands to worker `i`.
pub open spec fn band(image_dims: Dimensions, cores: nat, i: nat) -> (Dimensions, TileCorner) {
    (
        Dimensions(image_dims.0, band_height(image_dims.1 as nat, cores, i) as usize),
        TileCorner(0, band_offset(image_dims.1 as nat, cores, i) as usize),
    )
}

/// Divides the image's rows into `num_cores` horizontal bands whose heights
/// differ by one row at most, the taller ones first.
pub fn determine_work_with_cores(image_dims: Dimensions, num_cores: usize) -> (results: Vec<
    (Dimensions, TileCorner),
>)
    requires
        num_cores > 0,
    ensures
        results@.len() == num_cores,
        forall|i: int|
            0 <= i < num_cores ==> #[trigger] results@[i] == band(
                image_dims,
                num_cores as nat,
                i as nat,
            ),
{
    let base_work: usize = image_dims.1 / num_cores;
    let mut remainder: usize = image_dims.1 % num_cores;
    let mut y_offset: usize = 0;
    let ghost height: nat = image_dims.1 as nat;
    let ghost cores: nat = num_cores as nat;

    let mut results: Vec<(Dimensions, TileCorner)> = Vec::new();
    let mut done: usize = 0;
    while done < num_cores
        invariant
            num_cores > 0,
            height == image_dims.1,
            cores == num_cores,
            done <= num_cores,
            base_work == height / cores,
            remainder == (if done < height % cores {
                height % cores - done
            } else {
                0
            }),
            y_offset == band_offset(height, cores, done as nat),
            results@.len() == done,
            forall|i: int|
                0 <= i < done ==> #[trigger] results@[i] == band(image_dims, cores, i as nat),
        decreases num_cores - done,
    {
        let extra_work: usize = if remainder != 0 {
            remainder -= 1;
            1
        } else {
            0
        };
        proof {
            lemma_band_offset_bounded(height, cores, done as nat);
            assert(base_work + extra_work == band_height(height, cores, done as nat));
        }

        let new_dims = Dimensions(image_dims.0, base_work + extra_work);
        let corner = TileCorner(0, y_offset);

        y_offset += base_work + extra_work;

        results.push((new_dims, corner));
        done += 1;
    }

    results
}

/// The heights of any two bands differ by one row at most, and each band
/// begins where the one above it ends.
pub proof fn lemma_bands_tile(height: nat, cores: nat, i: nat, j: nat)
    requires
        cores > 0,
    ensures
        band_height(height, cores, i) <= band_height(height, cores, j) + 1,
        band_offset(height, cores, i + 1) == band_offset(height, cores, i) + band_height(
            height,
            cores,
            i,
        ),
{
}

/// The heights of the first `count` bands add up to the offset of the next.
pub proof fn lemma_band_heights_add_up(
    tiles: Seq<TileView>,
    image_dims: Dimensions,
    cores: nat,
    count: nat,
)
    requires
        0 < cores <= usize::MAX,
        count <= cores,
        tiles.len() == cores,
        forall|i: int| 0 <= i < cores ==> (#[trigger] tiles[i]).dims == band(image_dims, cores, i as nat).0,
    ensures
        height_sum(tiles, in_turn(count)) == band_offset(image_dims.1 as nat, cores, count),
    decreases count,
{
    if count > 0 {
        let before = (count - 1) as nat;
        lemma_band_heights_add_up(tiles, image_dims, cores, before);
        lemma_band_offset_bounded(image_dims.1 as nat, cores, before);
        assert(in_turn(count).drop_last() =~= in_turn(before));
        assert(in_turn(count).last() == before);
        assert(tiles[before as int].dims == band(image_dims, cores, before).0);
    }
}

/// The bands of an image, rendered by as many workers and glued together,
/// fill the image: wherever each tile says it begins, the result is as wide
/// and as high as the image.
pub proof fn lemma_glued_bands_fill_image(
    canvases: Seq<(usize, PngTile)>,
    image_dims: Dimensions,
    cores: nat,
)
    requires
        0 < cores <= usize::MAX,
        canvases.len() == cores,
        forall|i: int|
            0 <= i < cores ==> (#[trigger] canvases[i]).1@.dims == band(
                image_dims,
                cores,
                i as nat,
            ).0,
    ensures
        height_sum(canvas_tiles(canvases), in_turn(cores)) == image_dims.1,
        join_all(
            canvas_tiles(canvases),
            stable_order(in_turn(cores), canvas_keys(canvases)),
        ).dims == image_dims,
{
    let tiles = canvas_tiles(canvases);
    let keys = canvas_keys(canvases);
    let sorted = stable_order(in_turn(cores), keys);
    assert forall|i: int| 0 <= i < cores implies (#[trigger] tiles[i]).dims == band(
        image_dims,
        cores,
        i as nat,
    ).0 by {
        assert(canvases[i].1@.dims == band(image_dims, cores, i as nat).0);
    }
    lemma_band_heights_add_up(tiles, image_dims, cores, cores);
    lemma_bands_cover(image_dims.1 as nat, cores);
    lemma_height_sum_sorted(tiles, in_turn(cores), keys);
    lemma_stable_order(in_turn(cores), keys);
    lemma_join_all_dims(tiles, sorted);
    assert(sorted.contains(sorted[0]));
    assert(in_turn(cores).contains(sorted[0]));
    let first = sorted[0] as int;
    let j = choose|j: int| 0 <= j < in_turn(cores).len() && in_turn(cores)[j] == sorted[0];
    assert(0 <= first < cores);
    assert(tiles[first].dims == band(image_dims, cores, first as nat).0);
}

/// The number of workers to use: the parallelism that the machine reports,
/// and 1 where it reports none.
pub fn estimate_cores(available: Option<usize>) -> (cores: usize)
    ensures
        cores > 0,
        cores == spec_cores(available),
{
    match available {
        Some(n) => if n > 0 {
            n
        } else {
            1
        },
        None => 1,
    }
}

/// Divides the image's rows into one band for each worker that
/// `estimate_cores` counts.
pub fn determine_work(image_dims: Dimensions, available: Option<usize>) -> (results: Vec<
    (Dimensions, TileCorner),
>)
    ensures
        results@.len() == spec_cores(available),
        forall|i: int|
            0 <= i < results@.len() ==> #[trigger] results@[i] == band(
                image_dims,
                spec_cores(available) as nat,
                i as nat,
            ),
{
    determine_work_with_cores(image_dims, estimate_cores(available))
}

/// Joins the canvases that the workers hand back, in the order of the rows
/// at which their tiles begin, the least on top.
pub fn join_canvases(canvases: Vec<(usize, PngTile)>) -> (tile: PngTile)
    requires
        canvases@.len() > 0,
        height_sum(canvas_tiles(canvases@), in_turn(canvases@.len())) <= usize::MAX,
    ensures
        tile@ == join_all(
            canvas_tiles(canvases@),
            stable_order(in_turn(canvases@.len()), canvas_keys(canvases@)),
        ),
{
    glue_canvases(canvases)
}

} // verus!
