//! The palette: tiles keyed by their average colour, and the search for the
//! tile whose key is nearest to a colour.

use vstd::prelude::*;
use crate::error::MosaicError;
use crate::raster::{buffer_clone, buffer_height, buffer_width, ImgBuffer, RasterView};
use crate::sums::{lemma_uniform_block_sum, sum_block};

verus! {

/// The side of a tile, in pixels.
#[verifier::inline]
pub const BLOCK_SIZE: u32 = 16;

/// The palette: each tile with its colour key, in the order of insertion.
pub type BlockMap = Vec<([u8; 3], ImgBuffer)>;

/// The distance between two samples of one channel.
pub open spec fn channel_gap(a: int, b: int) -> int {
    if a >= b {
        a - b
    } else {
        b - a
    }
}

/// The distance between two colours: the sum over the three channels of the
/// absolute difference.
pub open spec fn color_distance(a: Seq<u8>, b: Seq<u8>) -> int
    recommends
        a.len() == 3,
        b.len() == 3,
{
    channel_gap(a[0] as int, b[0] as int) + channel_gap(a[1] as int, b[1] as int) + channel_gap(
        a[2] as int,
        b[2] as int,
    )
}

/// The key of a tile: for each channel, the sum over all its pixels divided
/// by the pixel count of a tile of `BLOCK_SIZE` by `BLOCK_SIZE`, whatever the
/// size of the tile itself, and cut to eight bits.
pub open spec fn average_key(tile: RasterView) -> Seq<u8> {
    Seq::new(
        3,
        |c: int|
            ((tile.block_sum(0, 0, tile.width, tile.height, c) / (BLOCK_SIZE * BLOCK_SIZE)) % 256) as u8,
    )
}

/// The tiles among the decoded files of a palette directory, in their order:
/// a file that did not decode holds no tile and is passed over.
pub open spec fn usable_tiles(files: Seq<Option<ImgBuffer>>) -> Seq<ImgBuffer>
    decreases files.len(),
{
    if files.len() == 0 {
        Seq::empty()
    } else {
        match files.last() {
            Some(tile) => usable_tiles(files.drop_last()).push(tile),
            None => usable_tiles(files.drop_last()),
        }
    }
}

/// The key of a tile of `BLOCK_SIZE` by `BLOCK_SIZE` pixels that all have one
/// colour is that colour.
pub proof fn lemma_uniform_tile_key(tile: RasterView, color: [u8; 3])
    requires
        tile.width * tile.height == BLOCK_SIZE * BLOCK_SIZE,
        forall|x: int, y: int| tile.contains(x, y) ==> #[trigger] tile.pixel(x, y) == color,
    ensures
        average_key(tile) == color@,
{
    assert forall|c: int| 0 <= c < 3 implies #[trigger] average_key(tile)[c] == color[c] by {
        lemma_uniform_block_sum(tile, 0, 0, tile.width, tile.height, c, color[c] as int);
    }
}

/// Entry `i` of the palette is the one a query colour is matched with: no
/// key is nearer to the query, and every earlier key is farther from it.
pub open spec fn is_best_match(map: Seq<([u8; 3], ImgBuffer)>, query: Seq<u8>, i: int) -> bool {
    &&& 0 <= i < map.len()
    &&& forall|j: int|
        0 <= j < map.len() ==> color_distance(query, map[i].0@) <= color_distance(
            query,
            (#[trigger] map[j]).0@,
        )
    &&& forall|j: int|
        0 <= j < i ==> color_distance(query, map[i].0@) < color_distance(
            query,
            (#[trigger] map[j]).0@,
        )
}

/// The index of the entry that a query colour is matched with.
pub open spec fn best_match(map: Seq<([u8; 3], ImgBuffer)>, query: Seq<u8>) -> int {
    choose|i: int| is_best_match(map, query, i)
}

/// Among the first `n` entries of a palette, the earliest of those nearest
/// to the query colour.
proof fn lemma_nearest_of_first(map: Seq<([u8; 3], ImgBuffer)>, query: Seq<u8>, n: nat) -> (i: int)
    requires
        0 < n <= map.len(),
    ensures
        0 <= i < n,
        forall|j: int|
            0 <= j < n ==> color_distance(query, map[i].0@) <= color_distance(
                query,
                (#[trigger] map[j]).0@,
            ),
        forall|j: int|
            0 <= j < i ==> color_distance(query, map[i].0@) < color_distance(
                query,
                (#[trigger] map[j]).0@,
            ),
    decreases n,
{
    if n == 1 {
        0
    } else {
        let earlier = lemma_nearest_of_first(map, query, (n - 1) as nat);
        if color_distance(query, map[n - 1].0@) < color_distance(query, map[earlier].0@) {
            n - 1
        } else {
            earlier
        }
    }
}

/// A palette that holds a tile has a match for every query colour: an entry
/// whose key no other key is nearer than, and the earliest such entry.
pub proof fn lemma_best_match_exists(map: Seq<([u8; 3], ImgBuffer)>, query: Seq<u8>)
    requires
        map.len() > 0,
    ensures
        is_best_match(map, query, best_match(map, query)),
{
    let i = lemma_nearest_of_first(map, query, map.len());
    assert(is_best_match(map, query, i));
}

/// At most one entry of a palette is the match of a query colour.
pub proof fn lemma_best_match_unique(map: Seq<([u8; 3], ImgBuffer)>, query: Seq<u8>, i: int, j: int)
    requires
        is_best_match(map, query, i),
        is_best_match(map, query, j),
    ensures
        i == j,
{
    if i < j {
        assert(color_distance(query, map[j].0@) < color_distance(query, map[i].0@));
    } else if j < i {
        assert(color_distance(query, map[i].0@) < color_distance(query, map[j].0@));
    }
}

/// The distance between two samples of one channel.
fn gap(a: u8, b: u8) -> (d: u32)
    ensures
        d == channel_gap(a as int, b as int),
{
    if a >= b {
        (a - b) as u32
    } else {
        (b - a) as u32
    }
}

/// The distance between two colours.
pub fn distance(a: &[u8; 3], b: &[u8; 3]) -> (d: u32)
    ensures
        d == color_distance(a@, b@),
{
    gap(a[0], b[0]) + gap(a[1], b[1]) + gap(a[2], b[2])
}

/// The key of a tile: the average of each channel over its pixels, taken as
/// if the tile held `BLOCK_SIZE` by `BLOCK_SIZE` of them.
pub fn tile_key(tile: &ImgBuffer) -> (key: [u8; 3])
    ensures
        key@ == average_key(tile@),
        forall|c: int|
            0 <= c < 3 ==> #[trigger] key@[c] == (tile@.block_sum(
                0,
                0,
                tile@.width,
                tile@.height,
                c,
            ) / (BLOCK_SIZE * BLOCK_SIZE)) % 256,
{
    let width: u32 = buffer_width(tile);
    let height: u32 = buffer_height(tile);
    let sums: [u128; 3] = sum_block(tile, 0, 0, width, height);
    let pixels: u128 = (BLOCK_SIZE * BLOCK_SIZE) as u128;
    let key: [u8; 3] = [
        ((sums[0] / pixels) % 256) as u8,
        ((sums[1] / pixels) % 256) as u8,
        ((sums[2] / pixels) % 256) as u8,
    ];
    key
}

/// Builds the palette from the files of a palette directory, each given as
/// the tile it decoded to, or as `None` where it did not decode.  Every tile
/// is kept with its key, in the order of the files; nothing is sorted and
/// nothing is dropped for having the key of another.
pub fn get_blocks_map(files: Vec<Option<ImgBuffer>>) -> (map: BlockMap)
    ensures
        map@.len() == usable_tiles(files@).len(),
        forall|k: int|
            0 <= k < map@.len() ==> (#[trigger] map@[k]).1 == usable_tiles(files@)[k]
                && map@[k].0@ == average_key(map@[k].1@),
{
    let mut map: BlockMap = Vec::new();
    let ghost mut seen: Seq<Option<ImgBuffer>> = Seq::empty();
    for file in it: files
        invariant
            seen == files@.take(it.index() as int),
            map@.len() == usable_tiles(seen).len(),
            forall|k: int|
                0 <= k < map@.len() ==> (#[trigger] map@[k]).1 == usable_tiles(seen)[k]
                    && map@[k].0@ == average_key(map@[k].1@),
    {
        proof {
            let next = files@.take(it.index() + 1);
            assert(next.drop_last() =~= seen);
            seen = next;
        }
        match file {
            Some(tile) => {
                let key: [u8; 3] = tile_key(&tile);
                map.push((key, tile));
            },
            None => {},
        }
    }
    assert(files@.take(files@.len() as int) =~= files@);
    map
}

/// Finds the tile whose key is nearest to `pixel` and returns a copy of it.
/// Of several keys at the same distance the earliest in the palette wins.
/// An empty palette has no match.
pub fn get_best_block(map: &BlockMap, pixel: &[u8; 3]) -> (found: Result<ImgBuffer, MosaicError>)
    ensures
        found is Err <==> map@.len() == 0,
        found matches Err(e) ==> e == MosaicError::EmptyPalette,
        found matches Ok(tile) ==> is_best_match(map@, pixel@, best_match(map@, pixel@)) && tile@
            == map@[best_match(map@, pixel@)].1@,
{
    let mut difference: u32 = u32::MAX;
    let mut best: usize = 0;
    let mut k: usize = 0;
    while k < map.len()
        invariant
            k <= map@.len(),
            k == 0 ==> difference == u32::MAX && best == 0,
            k > 0 ==> best < k && difference == color_distance(pixel@, map@[best as int].0@),
            forall|j: int|
                0 <= j < k ==> difference <= color_distance(pixel@, (#[trigger] map@[j]).0@),
            forall|j: int|
                0 <= j < best ==> difference < color_distance(pixel@, (#[trigger] map@[j]).0@),
        decreases map@.len() - k,
    {
        let d: u32 = distance(pixel, &map[k].0);
        if d < difference {
            best = k;
            difference = d;
        }
        k = k + 1;
    }
    if map.len() == 0 {
        return Err(MosaicError::EmptyPalette);
    }
    proof {
        lemma_best_match_unique(map@, pixel@, best as int, best_match(map@, pixel@));
    }
    Ok(buffer_clone(&map[best].1))
}

} // verus!
