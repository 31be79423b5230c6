//! The two conversion directions of the codec.
//!
//! Decoding (`from_words`) resolves each word to its table index, splits the
//! index into a (row, column) cell address of its level's raster, and
//! accumulates the cells' angular offsets from the global origin at
//! (-90, -180) degrees.  Encoding (`to_words`) walks the levels the other
//! way, dividing the residual offset by each level's tile size.
//!
//! All angles are fixed-point integers in units of 10^-11 degree; see `grid`.

use crate::error::Error;
use crate::grid::level_limit;
use crate::grid::FULL_TURN_UNITS;
use crate::grid::MIN_WORDLIST_LEN;
use crate::grid::raster_cols;
use crate::grid::raster_cols_at;
use crate::grid::raster_rows;
use crate::grid::raster_rows_at;
use crate::grid::tile_size;
use crate::grid::tile_size_at;
use crate::grid::LAT_RANGE_UNITS;
use crate::grid::LEVEL_COUNT;
use crate::grid::LNG_RANGE_UNITS;
use crate::vocab::first_index;
use crate::vocab::get_word_idx;
use crate::vocab::lemma_first_index;
use crate::vocab::list_has_word;
use crate::vocab::word_views;
use vstd::arithmetic::div_mod::lemma_div_is_ordered;
use vstd::arithmetic::div_mod::lemma_div_pos_is_pos;
use vstd::arithmetic::div_mod::lemma_fundamental_div_mod;
use vstd::arithmetic::div_mod::lemma_fundamental_div_mod_converse;
use vstd::arithmetic::div_mod::lemma_mod_division_less_than_divisor;
use vstd::arithmetic::mul::lemma_mul_inequality;
use vstd::prelude::*;

verus! {

/// The raster row a word addresses at level `i`: the quotient of its table
/// index by the level's column count.
pub open spec fn word_row(wl: Seq<Seq<char>>, w: Seq<char>, i: int) -> int {
    first_index(wl, w) / raster_cols(i)
}

/// The raster column a word addresses at level `i`: the remainder of its
/// table index by the level's column count.
pub open spec fn word_col(wl: Seq<Seq<char>>, w: Seq<char>, i: int) -> int {
    first_index(wl, w) % raster_cols(i)
}

/// Whether `w` is a legal code word at position `i` of a sequence: it is in
/// the table, and its table index addresses a cell of level `i`'s raster.
pub open spec fn valid_word_at(wl: Seq<Seq<char>>, w: Seq<char>, i: int) -> bool {
    &&& list_has_word(wl, w)
    &&& first_index(wl, w) < level_limit(i)
}

/// Whether the first `n` words of `ws` are each legal at their position.
pub open spec fn prefix_valid(wl: Seq<Seq<char>>, ws: Seq<Seq<char>>, n: int) -> bool {
    forall|i: int| 0 <= i < n ==> valid_word_at(wl, ws[i], i)
}

/// Sum of the latitude offsets selected by the first `n` words of `ws`, in
/// angle units.
pub open spec fn lat_units_sum(wl: Seq<Seq<char>>, ws: Seq<Seq<char>>, n: int) -> int
    decreases n,
{
    if n <= 0 {
        0
    } else {
        lat_units_sum(wl, ws, n - 1) + word_row(wl, ws[n - 1], n - 1) * tile_size(n - 1)
    }
}

/// Sum of the longitude offsets selected by the first `n` words of `ws`, in
/// angle units.
pub open spec fn lng_units_sum(wl: Seq<Seq<char>>, ws: Seq<Seq<char>>, n: int) -> int
    decreases n,
{
    if n <= 0 {
        0
    } else {
        lng_units_sum(wl, ws, n - 1) + word_col(wl, ws[n - 1], n - 1) * tile_size(n - 1)
    }
}

/// The latitude `ws` decodes to, in angle units: the global minimum plus the
/// offsets of all its words.
pub open spec fn decoded_lat_units(wl: Seq<Seq<char>>, ws: Seq<Seq<char>>) -> int {
    -LAT_RANGE_UNITS + lat_units_sum(wl, ws, ws.len() as int)
}

/// The longitude `ws` decodes to, in angle units.
pub open spec fn decoded_lng_units(wl: Seq<Seq<char>>, ws: Seq<Seq<char>>) -> int {
    -LNG_RANGE_UNITS + lng_units_sum(wl, ws, ws.len() as int)
}

/// Largest latitude offset the first `n` levels can contribute together:
/// each level at most its highest row times its tile size.
spec fn lat_sum_cap(n: int) -> int {
    if n <= 0 {
        0
    } else if n == 1 {
        17_437_500_000_000
    } else if n == 2 {
        17_987_500_000_000
    } else if n == 3 {
        17_999_722_222_188
    } else if n == 4 {
        17_999_993_827_104
    } else {
        17_999_999_691_302
    }
}

/// Largest longitude offset the first `n` levels can contribute together.
spec fn lng_sum_cap(n: int) -> int {
    if n <= 0 {
        0
    } else if n == 1 {
        35_437_500_000_000
    } else if n == 2 {
        35_987_500_000_000
    } else if n == 3 {
        35_999_722_222_188
    } else if n == 4 {
        35_999_993_827_104
    } else {
        35_999_999_691_302
    }
}

/// A word that is legal at position `i` addresses a real cell: its row and
/// column are within level `i`'s raster, recompose to its table index, and
/// contribute a bounded angular offset.
pub proof fn lemma_cell_of_valid_word(wl: Seq<Seq<char>>, w: Seq<char>, i: int)
    requires
        0 <= i < LEVEL_COUNT,
        valid_word_at(wl, w, i),
    ensures
        0 <= first_index(wl, w) < level_limit(i),
        0 <= word_row(wl, w, i) <= raster_rows(i) - 1,
        0 <= word_col(wl, w, i) <= raster_cols(i) - 1,
        word_row(wl, w, i) * raster_cols(i) + word_col(wl, w, i) == first_index(wl, w),
        0 <= word_row(wl, w, i) * tile_size(i) <= (raster_rows(i) - 1) * tile_size(i),
        0 <= word_col(wl, w, i) * tile_size(i) <= (raster_cols(i) - 1) * tile_size(i),
{
    let idx = first_index(wl, w);
    let rows = raster_rows(i);
    let cols = raster_cols(i);
    lemma_first_index(wl, w);
    assert(0 <= idx < rows * cols);
    lemma_fundamental_div_mod(idx, cols);
    lemma_mod_division_less_than_divisor(idx, cols);
    let row = idx / cols;
    let col = idx % cols;
    assert(row >= 0) by (nonlinear_arith)
        requires
            idx == row * cols + col,
            idx >= 0,
            col < cols,
            cols > 0,
    ;
    if row > rows - 1 {
        assert(idx >= rows * cols) by (nonlinear_arith)
            requires
                idx == row * cols + col,
                col >= 0,
                row >= rows,
                cols > 0,
        ;
    }
    lemma_mul_inequality(row, rows - 1, tile_size(i));
    lemma_mul_inequality(col, cols - 1, tile_size(i));
    lemma_mul_inequality(0, row, tile_size(i));
    lemma_mul_inequality(0, col, tile_size(i));
}

/// Each word's offset is below the span of its level's raster, so the sums
/// stay within half a turn of latitude and a full turn of longitude.
proof fn lemma_units_sum_bounds(wl: Seq<Seq<char>>, ws: Seq<Seq<char>>, n: int)
    requires
        0 <= n <= LEVEL_COUNT,
        n <= ws.len(),
        prefix_valid(wl, ws, n),
    ensures
        0 <= lat_units_sum(wl, ws, n) <= lat_sum_cap(n),
        0 <= lng_units_sum(wl, ws, n) <= lng_sum_cap(n),
    decreases n,
{
    if n > 0 {
        lemma_units_sum_bounds(wl, ws, n - 1);
        let i = n - 1;
        assert(valid_word_at(wl, ws[i], i));
        lemma_cell_of_valid_word(wl, ws[i], i);
    }
}

/// Decode an ordered sequence of up to `LEVEL_COUNT` words into the
/// coordinates of the grid cell they address, as `(latitude, longitude)` in
/// angle units of 10^-11 degree.
///
/// Starting at the global minimum (-90, -180) degrees, each word at position
/// `i` contributes `(row * tile, col * tile)`, where `(row, col)` is its
/// table index read as a row-major cell address of level `i`'s raster.
///
/// Fails with `TooManyWords` when more than `LEVEL_COUNT` words are supplied,
/// and with `InvalidWord` at the first word that is absent from the table or
/// whose index is out of its level's raster.
pub fn from_words(words: &Vec<String>, wordlist: &Vec<String>) -> (r: Result<(i64, i64), Error>)
    ensures
        ({
            let wl = word_views(wordlist@);
            let ws = word_views(words@);
            &&& (words@.len() > LEVEL_COUNT ==> (r matches Err(Error::TooManyWords(c)) && c
                == words@.len()))
            &&& (words@.len() <= LEVEL_COUNT && prefix_valid(wl, ws, ws.len() as int) ==> (
            r matches Ok(p) && p.0 == decoded_lat_units(wl, ws) && p.1 == decoded_lng_units(
                wl,
                ws,
            )))
            &&& (words@.len() <= LEVEL_COUNT && !prefix_valid(wl, ws, ws.len() as int) ==> (
            r matches Err(Error::InvalidWord(w)) && (exists|i: int|
                0 <= i < ws.len() && prefix_valid(wl, ws, i) && !valid_word_at(wl, ws[i], i) && w@
                    == ws[i])))
        }),
{
    if words.len() > LEVEL_COUNT {
        return Err(Error::TooManyWords(words.len()));
    }
    let ghost wl = word_views(wordlist@);
    let ghost ws = word_views(words@);
    let mut lat_acc: u64 = 0;
    let mut lng_acc: u64 = 0;
    let mut i: usize = 0;
    while i < words.len()
        invariant
            words@.len() <= LEVEL_COUNT,
            i <= words@.len(),
            wl == word_views(wordlist@),
            ws == word_views(words@),
            prefix_valid(wl, ws, i as int),
            lat_acc == lat_units_sum(wl, ws, i as int),
            lng_acc == lng_units_sum(wl, ws, i as int),
        decreases words@.len() - i,
    {
        assert(ws[i as int] == words@[i as int]@);
        let idx = match get_word_idx(words[i].as_str(), wordlist) {
            Ok(idx) => idx,
            Err(e) => {
                assert(!valid_word_at(wl, ws[i as int], i as int));
                return Err(e);
            },
        };
        let rows = raster_rows_at(i);
        let cols = raster_cols_at(i);
        if idx as u64 >= rows * cols {
            assert(!valid_word_at(wl, ws[i as int], i as int));
            return Err(Error::InvalidWord(words[i].clone()));
        }
        assert(valid_word_at(wl, ws[i as int], i as int));
        assert(prefix_valid(wl, ws, i + 1));
        proof {
            lemma_cell_of_valid_word(wl, ws[i as int], i as int);
            lemma_units_sum_bounds(wl, ws, i as int);
            lemma_units_sum_bounds(wl, ws, i + 1);
        }
        let row = (idx as u64) / cols;
        let col = (idx as u64) % cols;
        let t = tile_size_at(i);
        assert(row == word_row(wl, ws[i as int], i as int));
        assert(col == word_col(wl, ws[i as int], i as int));
        assert(lat_acc + row * t == lat_units_sum(wl, ws, i + 1));
        assert(lng_acc + col * t == lng_units_sum(wl, ws, i + 1));
        lat_acc = lat_acc + row * t;
        lng_acc = lng_acc + col * t;
        i = i + 1;
    }
    proof {
        lemma_units_sum_bounds(wl, ws, ws.len() as int);
    }
    let lat: i64 = (lat_acc as i64) - LAT_RANGE_UNITS;
    let lng: i64 = (lng_acc as i64) - LNG_RANGE_UNITS;
    Ok((lat, lng))
}

/// Whether a coordinate pair is within the global bounds the encoder
/// accepts: latitude in [-90, 90] and longitude in [-180, 180] degrees,
/// bounds inclusive.
pub open spec fn coords_in_range(lat: int, lng: int) -> bool {
    &&& -LAT_RANGE_UNITS <= lat <= LAT_RANGE_UNITS
    &&& -LNG_RANGE_UNITS <= lng <= LNG_RANGE_UNITS
}

/// Latitude as a non-negative offset from the south pole.
pub open spec fn norm_lat_units(lat: int) -> int {
    lat + LAT_RANGE_UNITS
}

/// Longitude as a non-negative offset, wrapped at the antimeridian: both
/// -180 and 180 degrees normalize to a full turn, every other in-range
/// longitude to its offset from -180.
pub open spec fn norm_lng_units(lng: int) -> int {
    if lng == -LNG_RANGE_UNITS || lng == LNG_RANGE_UNITS {
        FULL_TURN_UNITS as int
    } else {
        lng + LNG_RANGE_UNITS
    }
}

/// The latitude offset still unconsumed when the encoder reaches level `i`:
/// the normalized offset, less the tiles selected at the coarser levels.
pub open spec fn lat_rem(lat: int, i: int) -> int
    decreases i,
{
    if i <= 0 {
        norm_lat_units(lat)
    } else {
        lat_rem(lat, i - 1) % tile_size(i - 1)
    }
}

/// The longitude offset still unconsumed when the encoder reaches level `i`.
pub open spec fn lng_rem(lng: int, i: int) -> int
    decreases i,
{
    if i <= 0 {
        norm_lng_units(lng)
    } else {
        lng_rem(lng, i - 1) % tile_size(i - 1)
    }
}

/// The raster row the encoder selects at level `i`.
pub open spec fn lat_cell_row(lat: int, i: int) -> int {
    lat_rem(lat, i) / tile_size(i)
}

/// The raster column the encoder selects at level `i`.
pub open spec fn lng_cell_col(lng: int, i: int) -> int {
    lng_rem(lng, i) / tile_size(i)
}

/// The table index of the word the encoder emits at level `i`: the row-major
/// address of the selected cell.
pub open spec fn encoded_word_index(lat: int, lng: int, i: int) -> int {
    lat_cell_row(lat, i) * raster_cols(i) + lng_cell_col(lng, i)
}

/// Largest raster row the encoder can select at level `i` for an in-range
/// latitude.  Row 32 of level 0 is reached only at the north pole; levels 2
/// and 3 can reach row 45 on residuals within a sliver of a full parent
/// tile, because 45 tiles of those levels fall just short of the parent.
pub open spec fn max_cell_row(i: int) -> int {
    if i == 0 {
        32
    } else if i == 1 {
        44
    } else if i <= 3 {
        45
    } else {
        19
    }
}

/// Largest raster column the encoder can select at level `i` for an in-range
/// longitude.  Column 64 of level 0 is reached only at the antimeridian.
pub open spec fn max_cell_col(i: int) -> int {
    if i == 0 {
        64
    } else {
        max_cell_row(i)
    }
}

/// Bounds of the encoder walk: residuals are non-negative and below the
/// parent tile, and each level's cell address stays within `max_cell_row`
/// and `max_cell_col`, so no word index can reach `MIN_WORDLIST_LEN`.
pub proof fn lemma_encode_level_bounds(lat: int, lng: int, i: int)
    requires
        coords_in_range(lat, lng),
        0 <= i < LEVEL_COUNT,
    ensures
        0 <= lat_rem(lat, i),
        0 <= lng_rem(lng, i),
        i == 0 ==> lat_rem(lat, i) <= 18_000_000_000_000 && lng_rem(lng, i)
            <= 36_000_000_000_000,
        i >= 1 ==> lat_rem(lat, i) < tile_size(i - 1) && lng_rem(lng, i) < tile_size(i - 1),
        0 <= lat_cell_row(lat, i) <= max_cell_row(i),
        0 <= lng_cell_col(lng, i) <= max_cell_col(i),
        0 <= encoded_word_index(lat, lng, i) < MIN_WORDLIST_LEN,
    decreases i,
{
    let lr = lat_rem(lat, i);
    let gr = lng_rem(lng, i);
    let t = tile_size(i);
    if i == 0 {
        lemma_div_is_ordered(lr, 18_000_000_000_000, t);
        lemma_fundamental_div_mod_converse(18_000_000_000_000, 562_500_000_000, 32, 0);
        lemma_div_is_ordered(gr, 36_000_000_000_000, t);
        lemma_fundamental_div_mod_converse(36_000_000_000_000, 562_500_000_000, 64, 0);
    } else {
        lemma_encode_level_bounds(lat, lng, i - 1);
        lemma_mod_division_less_than_divisor(lat_rem(lat, i - 1), tile_size(i - 1));
        lemma_mod_division_less_than_divisor(lng_rem(lng, i - 1), tile_size(i - 1));
        if i == 1 {
            lemma_div_is_ordered(lr, 562_499_999_999, t);
            lemma_div_is_ordered(gr, 562_499_999_999, t);
            lemma_fundamental_div_mod_converse(
                562_499_999_999,
                12_500_000_000,
                44,
                12_499_999_999,
            );
        } else if i == 2 {
            lemma_div_is_ordered(lr, 12_499_999_999, t);
            lemma_div_is_ordered(gr, 12_499_999_999, t);
            lemma_fundamental_div_mod_converse(12_499_999_999, 277_777_777, 45, 34);
        } else if i == 3 {
            lemma_div_is_ordered(lr, 277_777_776, t);
            lemma_div_is_ordered(gr, 277_777_776, t);
            lemma_fundamental_div_mod_converse(277_777_776, 6_172_839, 45, 21);
        } else {
            lemma_div_is_ordered(lr, 6_172_838, t);
            lemma_div_is_ordered(gr, 6_172_838, t);
            lemma_fundamental_div_mod_converse(6_172_838, 308_642, 19, 308_640);
        }
    }
    lemma_div_pos_is_pos(lr, t);
    lemma_div_pos_is_pos(gr, t);
}

/// Encode a coordinate pair, given as `(latitude, longitude)` in angle units
/// of 10^-11 degree, into the `LEVEL_COUNT` words that address its finest
/// grid cell.
///
/// The coordinates are normalized to non-negative offsets from (-90, -180)
/// degrees, with both longitude extremes wrapping to a full turn; each level
/// then divides the residual offsets by its tile size to select a raster
/// cell, whose row-major address picks the emitted word from the table.
///
/// Fails with `CoordinatesOutOfRange` if and only if the latitude is outside
/// [-90, 90] or the longitude outside [-180, 180] degrees.
pub fn to_words(lat_units: i64, lng_units: i64, wordlist: &Vec<String>) -> (r: Result<
    Vec<String>,
    Error,
>)
    requires
        wordlist@.len() >= crate::grid::MIN_WORDLIST_LEN,
    ensures
        ({
            let wl = word_views(wordlist@);
            &&& (coords_in_range(lat_units as int, lng_units as int) <==> r is Ok)
            &&& (r matches Ok(code) ==> code@.len() == LEVEL_COUNT && (forall|i: int|
                0 <= i < LEVEL_COUNT ==> 0 <= encoded_word_index(
                    lat_units as int,
                    lng_units as int,
                    i,
                ) < wordlist@.len() && code@[i]@ == wl[encoded_word_index(
                    lat_units as int,
                    lng_units as int,
                    i,
                )]) && word_views(code@) == encoded_prefix(
                wl,
                lat_units as int,
                lng_units as int,
                LEVEL_COUNT as int,
            ))
            &&& (!coords_in_range(lat_units as int, lng_units as int) ==> (
            r matches Err(Error::CoordinatesOutOfRange)))
        }),
{
    if lat_units < -LAT_RANGE_UNITS || lat_units > LAT_RANGE_UNITS || lng_units
        < -LNG_RANGE_UNITS || lng_units > LNG_RANGE_UNITS {
        return Err(Error::CoordinatesOutOfRange);
    }
    let mut lat_r: u64 = (lat_units + LAT_RANGE_UNITS) as u64;
    let mut lng_r: u64 = if lng_units == -LNG_RANGE_UNITS || lng_units == LNG_RANGE_UNITS {
        crate::grid::FULL_TURN_UNITS
    } else {
        (lng_units + LNG_RANGE_UNITS) as u64
    };
    let mut code: Vec<String> = Vec::new();
    let mut i: usize = 0;
    while i < LEVEL_COUNT
        invariant
            wordlist@.len() >= crate::grid::MIN_WORDLIST_LEN,
            coords_in_range(lat_units as int, lng_units as int),
            i <= LEVEL_COUNT,
            lat_r == lat_rem(lat_units as int, i as int),
            lng_r == lng_rem(lng_units as int, i as int),
            code@.len() == i,
            forall|j: int|
                0 <= j < i ==> 0 <= encoded_word_index(lat_units as int, lng_units as int, j)
                    < wordlist@.len() && code@[j]@ == word_views(wordlist@)[encoded_word_index(
                    lat_units as int,
                    lng_units as int,
                    j,
                )],
        decreases LEVEL_COUNT - i,
    {
        proof {
            lemma_encode_level_bounds(lat_units as int, lng_units as int, i as int);
        }
        let t = tile_size_at(i);
        let cols = raster_cols_at(i);
        let row = lat_r / t;
        let col = lng_r / t;
        lat_r = lat_r % t;
        lng_r = lng_r % t;
        assert(row == lat_cell_row(lat_units as int, i as int));
        assert(col == lng_cell_col(lng_units as int, i as int));
        let widx = row * cols + col;
        assert(widx == encoded_word_index(lat_units as int, lng_units as int, i as int));
        assert(widx < wordlist@.len());
        let word = wordlist[widx as usize].clone();
        assert(word@ == word_views(wordlist@)[widx as int]);
        code.push(word);
        i = i + 1;
    }
    proof {
        assert(word_views(code@) =~= encoded_prefix(
            word_views(wordlist@),
            lat_units as int,
            lng_units as int,
            LEVEL_COUNT as int,
        ));
    }
    Ok(code)
}

/// The first `k` words the encoder emits for a coordinate pair, as character
/// sequences: word `i` is the table entry at level `i`'s encoded index.
pub open spec fn encoded_prefix(wl: Seq<Seq<char>>, lat: int, lng: int, k: int) -> Seq<Seq<char>> {
    Seq::new(k as nat, |i: int| wl[encoded_word_index(lat, lng, i)])
}

/// Whether the first `k` levels of the encoding of `(lat, lng)` each select
/// a cell strictly inside their raster.
///
/// This fails only on thin boundary strips: at latitude 90 or longitude
/// +-180 degrees, where level 0 runs over by one row or column, and on
/// residuals within a sliver of a full parent tile at levels 2 and 3, whose
/// 45 tiles fall just short of covering the parent.  On those strips the
/// encoder emits a word that addresses a cell outside the raster, which the
/// decoder rejects, so no round trip is possible there.
pub open spec fn encoding_stays_in_rasters(lat: int, lng: int, k: int) -> bool {
    forall|i: int|
        0 <= i < k ==> lat_cell_row(lat, i) < raster_rows(i) && lng_cell_col(lng, i) < raster_cols(
            i,
        )
}

/// A word emitted at a level that stays inside its raster is a legal code
/// word at that position, and decodes back to the cell it was encoded from.
proof fn lemma_encoded_word_decodes(wl: Seq<Seq<char>>, lat: int, lng: int, k: int, i: int)
    requires
        crate::vocab::distinct_words(wl),
        wl.len() >= MIN_WORDLIST_LEN,
        coords_in_range(lat, lng),
        1 <= k <= LEVEL_COUNT,
        encoding_stays_in_rasters(lat, lng, k),
        0 <= i < k,
    ensures
        valid_word_at(wl, encoded_prefix(wl, lat, lng, k)[i], i),
        word_row(wl, encoded_prefix(wl, lat, lng, k)[i], i) == lat_cell_row(lat, i),
        word_col(wl, encoded_prefix(wl, lat, lng, k)[i], i) == lng_cell_col(lng, i),
{
    lemma_encode_level_bounds(lat, lng, i);
    let row = lat_cell_row(lat, i);
    let col = lng_cell_col(lng, i);
    let rows = raster_rows(i);
    let cols = raster_cols(i);
    let wi = encoded_word_index(lat, lng, i);
    let w = encoded_prefix(wl, lat, lng, k)[i];
    assert(w == wl[wi]);
    crate::vocab::lemma_first_index_of_member(wl, wi);
    assert(first_index(wl, w) == wi);
    assert(wi < rows * cols) by (nonlinear_arith)
        requires
            wi == row * cols + col,
            row <= rows - 1,
            col <= cols - 1,
            cols > 0,
    ;
    lemma_fundamental_div_mod_converse(wi, cols, row, col);
}

/// Peeling the decoder's sums level by level: the offsets of the first `n`
/// encoded words add up to exactly what the encoder consumed from the
/// normalized coordinates down to level `n`.
proof fn lemma_decode_sum_peel(wl: Seq<Seq<char>>, lat: int, lng: int, k: int, n: int)
    requires
        crate::vocab::distinct_words(wl),
        wl.len() >= MIN_WORDLIST_LEN,
        coords_in_range(lat, lng),
        1 <= k <= LEVEL_COUNT,
        encoding_stays_in_rasters(lat, lng, k),
        0 <= n <= k,
    ensures
        lat_units_sum(wl, encoded_prefix(wl, lat, lng, k), n) == norm_lat_units(lat) - lat_rem(
            lat,
            n,
        ),
        lng_units_sum(wl, encoded_prefix(wl, lat, lng, k), n) == norm_lng_units(lng) - lng_rem(
            lng,
            n,
        ),
    decreases n,
{
    if n > 0 {
        lemma_decode_sum_peel(wl, lat, lng, k, n - 1);
        lemma_encoded_word_decodes(wl, lat, lng, k, n - 1);
        let t = tile_size(n - 1);
        lemma_fundamental_div_mod(lat_rem(lat, n - 1), t);
        lemma_fundamental_div_mod(lng_rem(lng, n - 1), t);
        assert(lat_cell_row(lat, n - 1) * t == t * (lat_rem(lat, n - 1) / t));
        assert(lng_cell_col(lng, n - 1) * t == t * (lng_rem(lng, n - 1) / t));
    }
}

/// Prefix coarsening: decoding the first `k` words of an encoding yields the
/// south-west corner of the level-`k - 1` cell the coordinates lie in, which
/// is within one tile of that level below the original point.  With
/// `k == LEVEL_COUNT` this is the full-precision round trip.
///
/// The words of the prefix are all legal at their positions, so the decoder
/// accepts them; the requirement that each level stay inside its raster
/// excludes only the boundary strips described at
/// `encoding_stays_in_rasters`.
pub proof fn lemma_prefix_round_trip(wl: Seq<Seq<char>>, lat: int, lng: int, k: int)
    requires
        crate::vocab::distinct_words(wl),
        wl.len() >= MIN_WORDLIST_LEN,
        coords_in_range(lat, lng),
        1 <= k <= LEVEL_COUNT,
        encoding_stays_in_rasters(lat, lng, k),
    ensures
        ({
            let ws = encoded_prefix(wl, lat, lng, k);
            &&& ws.len() == k
            &&& prefix_valid(wl, ws, k)
            &&& 0 <= lat - decoded_lat_units(wl, ws) < tile_size(k - 1)
            &&& 0 <= lng - decoded_lng_units(wl, ws) < tile_size(k - 1)
        }),
{
    let ws = encoded_prefix(wl, lat, lng, k);
    assert forall|i: int| 0 <= i < k implies valid_word_at(wl, ws[i], i) by {
        lemma_encoded_word_decodes(wl, lat, lng, k, i);
    }
    lemma_decode_sum_peel(wl, lat, lng, k, k);
    lemma_encode_level_bounds(lat, lng, k - 1);
    lemma_mod_division_less_than_divisor(lat_rem(lat, k - 1), tile_size(k - 1));
    lemma_mod_division_less_than_divisor(lng_rem(lng, k - 1), tile_size(k - 1));
    assert(lat_rem(lat, k) == lat_rem(lat, k - 1) % tile_size(k - 1));
    assert(decoded_lat_units(wl, ws) == lat - lat_rem(lat, k));
    if lng == -LNG_RANGE_UNITS || lng == LNG_RANGE_UNITS {
        lemma_fundamental_div_mod_converse(36_000_000_000_000, 562_500_000_000, 64, 0);
        assert(lng_cell_col(lng, 0) == 64);
        assert(lat_cell_row(lat, 0) < raster_rows(0) && lng_cell_col(lng, 0) < raster_cols(0));
        assert(false);
    }
    assert(norm_lng_units(lng) == lng + LNG_RANGE_UNITS);
    assert(decoded_lng_units(wl, ws) == lng - lng_rem(lng, k));
}

/// Full-precision round trip: the five words encoded from an in-range
/// coordinate pair are all legal code words, and decoding them reproduces
/// the pair to within the finest tile size, 0.00000308642 degrees.
///
/// Holds wherever every level's cell stays inside its raster; see
/// `encoding_stays_in_rasters` for the boundary strips where it cannot.
pub proof fn lemma_round_trip(wl: Seq<Seq<char>>, lat: int, lng: int)
    requires
        crate::vocab::distinct_words(wl),
        wl.len() >= MIN_WORDLIST_LEN,
        coords_in_range(lat, lng),
        encoding_stays_in_rasters(lat, lng, LEVEL_COUNT as int),
    ensures
        ({
            let ws = encoded_prefix(wl, lat, lng, LEVEL_COUNT as int);
            &&& ws.len() == LEVEL_COUNT
            &&& prefix_valid(wl, ws, LEVEL_COUNT as int)
            &&& 0 <= lat - decoded_lat_units(wl, ws) < 308_642
            &&& 0 <= lng - decoded_lng_units(wl, ws) < 308_642
        }),
{
    lemma_prefix_round_trip(wl, lat, lng, LEVEL_COUNT as int);
}

} // verus!
