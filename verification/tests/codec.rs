use threewords::get_word_idx;
use threewords::Error;

/// Angle units per degree: the library's fixed-point scale.
const UNITS: f64 = 1e11;

/// A vocabulary table for the tests: 2200 distinct filler words, with the
/// four words of the worked example placed at their expected indices.
fn sample_wordlist() -> Vec<String> {
    let mut v: Vec<String> = Vec::new();
    for i in 0..2200 {
        v.push(format!("w{:04}", i));
    }
    v[1634] = "slush".to_string();
    v[154] = "battle".to_string();
    v[440] = "damage".to_string();
    v[468] = "dentist".to_string();
    v
}

fn words(list: &[&str]) -> Vec<String> {
    list.iter().map(|w| w.to_string()).collect()
}

fn from_words_degrees(ws: &Vec<String>, wl: &Vec<String>) -> Result<(f64, f64), Error> {
    let (lat, lng) = threewords::from_words(ws, wl)?;
    Ok((lat as f64 / UNITS, lng as f64 / UNITS))
}

fn to_units(degrees: f64) -> i64 {
    (degrees * UNITS).round() as i64
}

#[test]
fn test_words_to_coords() {
    let wl = sample_wordlist();
    let ws = words(&["slush", "battle", "damage", "dentist"]);

    let (lat, lng) = from_words_degrees(&ws, &wl).unwrap();
    assert_eq!(lat, 51.02561728383f64);
    assert_eq!(lng, 13.72333333297f64);
}

#[test]
fn test_coords_to_words() {
    let wl = sample_wordlist();
    let code = threewords::to_words(to_units(51.02561728383f64), to_units(13.72333333297f64), &wl)
        .unwrap();
    let expected = words(&["slush", "battle", "damage", "dentist"]);

    assert_eq!(expected[..], code[..4]);
    assert_eq!(code.len(), 5);
}

#[test]
fn test_words_to_coords_exact_units() {
    let wl = sample_wordlist();
    let ws = words(&["slush", "battle", "damage", "dentist"]);

    let (lat, lng) = threewords::from_words(&ws, &wl).unwrap();
    assert_eq!(lat, 5_102_561_728_383);
    assert_eq!(lng, 1_372_333_333_297);
}

#[test]
fn test_no_words_decode_to_origin() {
    let wl = sample_wordlist();
    let ws: Vec<String> = Vec::new();

    assert_eq!(
        threewords::from_words(&ws, &wl),
        Ok((-9_000_000_000_000, -18_000_000_000_000))
    );
}

#[test]
fn test_single_word_decodes_coarsely() {
    let wl = sample_wordlist();
    let ws = words(&["slush"]);

    // Index 1634 is row 25, column 34 of the 32 x 64 level-0 raster.
    let (lat, lng) = threewords::from_words(&ws, &wl).unwrap();
    assert_eq!(lat, -9_000_000_000_000 + 25 * 562_500_000_000);
    assert_eq!(lng, -18_000_000_000_000 + 34 * 562_500_000_000);
}

#[test]
fn test_too_many_words() {
    let wl = sample_wordlist();
    let ws = words(&["a", "b", "c", "d", "e", "f"]);

    assert_eq!(threewords::from_words(&ws, &wl), Err(Error::TooManyWords(6)));
}

#[test]
fn test_unknown_word() {
    let wl = sample_wordlist();
    let ws = words(&["slush", "battle", "damage", "notaword"]);

    assert_eq!(
        threewords::from_words(&ws, &wl),
        Err(Error::InvalidWord("notaword".to_string()))
    );
}

#[test]
fn test_word_index_beyond_level_limit() {
    let wl = sample_wordlist();

    // "slush" is in the table at 1634, but level 4's raster has only
    // 20 * 20 = 400 cells, so it is no legal fifth word.
    let ws = words(&["slush", "battle", "damage", "dentist", "slush"]);
    assert_eq!(
        threewords::from_words(&ws, &wl),
        Err(Error::InvalidWord("slush".to_string()))
    );

    // Index 2100 exceeds even level 0's 32 * 64 = 2048 cells.
    let ws0 = words(&["w2100"]);
    assert_eq!(
        threewords::from_words(&ws0, &wl),
        Err(Error::InvalidWord("w2100".to_string()))
    );
}

#[test]
fn test_first_invalid_word_is_reported() {
    let wl = sample_wordlist();
    let ws = words(&["notaword", "alsobad"]);

    assert_eq!(
        threewords::from_words(&ws, &wl),
        Err(Error::InvalidWord("notaword".to_string()))
    );
}

#[test]
fn test_boundary_coordinates_encode() {
    let wl = sample_wordlist();

    // The north-east extreme: latitude row 32 and the antimeridian wrap to
    // column 64 address the one cell beyond the level-0 raster.
    let code = threewords::to_words(to_units(90.0), to_units(180.0), &wl).unwrap();
    assert_eq!(code, words(&["w2112", "w0000", "w0000", "w0000", "w0000"]));

    // The south-west extreme: row 0, and the antimeridian wrap again.
    let code = threewords::to_words(to_units(-90.0), to_units(-180.0), &wl).unwrap();
    assert_eq!(code, words(&["w0064", "w0000", "w0000", "w0000", "w0000"]));
}

#[test]
fn test_boundary_encoding_does_not_round_trip() {
    let wl = sample_wordlist();

    // At the antimeridian the level-0 word addresses the cell one past the
    // raster; it exists in the table, but the decoder rejects it, so the
    // extreme corner encodes without failing yet does not round-trip.
    let code = threewords::to_words(to_units(90.0), to_units(180.0), &wl).unwrap();
    assert_eq!(
        threewords::from_words(&code, &wl),
        Err(Error::InvalidWord("w2112".to_string()))
    );
}

#[test]
fn test_coordinates_out_of_range() {
    let wl = sample_wordlist();

    assert_eq!(
        threewords::to_words(to_units(90.0001), to_units(0.0), &wl),
        Err(Error::CoordinatesOutOfRange)
    );
    assert_eq!(
        threewords::to_words(to_units(0.0), to_units(-180.00001), &wl),
        Err(Error::CoordinatesOutOfRange)
    );
}

#[test]
fn test_round_trip_full_precision() {
    let wl = sample_wordlist();
    let lat: i64 = to_units(12.345);
    let lng: i64 = to_units(-55.5);

    let code = threewords::to_words(lat, lng, &wl).unwrap();
    let (dec_lat, dec_lng) = threewords::from_words(&code, &wl).unwrap();

    // The decoded point is the south-west corner of the finest cell, within
    // one level-4 tile (0.00000308642 degrees) of the original.
    assert!(0 <= lat - dec_lat && lat - dec_lat < 308_642);
    assert!(0 <= lng - dec_lng && lng - dec_lng < 308_642);
}

#[test]
fn test_prefix_coarsening() {
    let wl = sample_wordlist();
    let lat: i64 = to_units(12.345);
    let lng: i64 = to_units(-55.5);

    let code = threewords::to_words(lat, lng, &wl).unwrap();
    let prefix: Vec<String> = code[..2].to_vec();
    let (dec_lat, dec_lng) = threewords::from_words(&prefix, &wl).unwrap();

    // A two-word prefix decodes to the corner of the level-1 cell, within
    // one level-1 tile (0.125 degrees) of the original.
    assert!(0 <= lat - dec_lat && lat - dec_lat < 12_500_000_000);
    assert!(0 <= lng - dec_lng && lng - dec_lng < 12_500_000_000);
}

#[test]
fn test_get_word_idx_found() {
    let wl = sample_wordlist();

    assert_eq!(get_word_idx("slush", &wl), Ok(1634));
    assert_eq!(get_word_idx("w0000", &wl), Ok(0));
}

#[test]
fn test_get_word_idx_absent() {
    let wl = sample_wordlist();

    assert_eq!(
        get_word_idx("notaword", &wl),
        Err(Error::InvalidWord("notaword".to_string()))
    );
}

#[test]
fn test_get_word_idx_first_occurrence() {
    let wl = words(&["alpha", "beta", "alpha"]);

    assert_eq!(get_word_idx("alpha", &wl), Ok(0));
}
