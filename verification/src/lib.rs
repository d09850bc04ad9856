//! Verified codec for the Encoded Polyline Algorithm Format.
//!
//! A path is transmitted as a compact ASCII string: each coordinate is
//! delta-encoded against the previous point, scaled to a fixed-point
//! integer, zig-zag transformed, split into 5-bit groups and offset into
//! the printable ASCII range, with a continuation bit marking group
//! boundaries. This crate holds the integer and string halves of the
//! codec, fully verified; callers supply coordinate differences already
//! scaled by `10^precision` and turn decoded fixed-point values back
//! into fractional degrees.

pub mod chunks;

use vstd::prelude::*;

verus! {

use crate::chunks::{
    Chunks,
    char_codes,
    chunks_of,
    decoded_value,
    line_chunks,
    marked_chunks,
    is_continuation,
    raw_u32,
    lemma_char_codes_push,
    lemma_char_codes_append,
    lemma_chunks_of_bounded,
    lemma_line_chunks_of_marked,
    lemma_marked_chunks_flags,
    lemma_raw_of_chunks,
};

/// One per-axis coordinate difference, already scaled by `10^precision`
/// and rounded to an integer. `negative` records the sign of the
/// unscaled difference, which alone decides the zig-zag complement: a
/// difference may round to zero and still have been negative.
#[derive(Clone, Copy, PartialEq, Eq, Structural, Debug)]
pub struct ScaledDelta {
    pub value: i32,
    pub negative: bool,
}

/// A decoded point, each axis an integer count of `10^-precision`
/// degree units.
#[derive(Clone, Copy, PartialEq, Eq, Structural, Debug)]
pub struct ScaledPoint {
    pub latitude: i64,
    pub longitude: i64,
}

/// The zig-zag transform: the value shifted left once to make room for
/// the sign, complemented when the unscaled difference was negative.
pub open spec fn zigzag_code(value: i32, negative: bool) -> u32 {
    let shifted = (value as u32) << 1;
    if negative {
        !shifted
    } else {
        shifted
    }
}

/// The code points that encode one scaled difference.
pub open spec fn element_codes(d: ScaledDelta) -> Seq<u32> {
    marked_chunks(chunks_of(zigzag_code(d.value, d.negative)))
}

/// The code points that encode a sequence of scaled differences.
pub open spec fn encoded_codes(deltas: Seq<ScaledDelta>) -> Seq<u32>
    decreases deltas.len(),
{
    if deltas.len() == 0 {
        Seq::empty()
    } else {
        element_codes(deltas[0]) + encoded_codes(deltas.skip(1))
    }
}

/// decode's group scanner: characters gather into `buf` until one
/// without the continuation flag completes a group; a group left
/// unfinished at the end of the input is dropped.
pub open spec fn scan_groups(codes: Seq<u32>, buf: Seq<u32>) -> Seq<Seq<u32>>
    decreases codes.len(),
{
    if codes.len() == 0 {
        Seq::empty()
    } else if is_continuation(codes[0]) {
        scan_groups(codes.skip(1), buf.push(codes[0]))
    } else {
        seq![buf.push(codes[0])] + scan_groups(codes.skip(1), Seq::empty())
    }
}

/// The scaled difference held by one completed coordinate group.
pub open spec fn group_delta(group: Seq<u32>) -> i32 {
    decoded_value(line_chunks(group))
}

/// All scaled differences read from a polyline's code points.
pub open spec fn group_deltas(codes: Seq<u32>) -> Seq<i32> {
    scan_groups(codes, Seq::empty()).map_values(|g: Seq<u32>| group_delta(g))
}

/// Differences paired into (latitude, longitude); a dangling last
/// difference with no partner is dropped.
pub open spec fn paired(deltas: Seq<i32>) -> Seq<(i32, i32)> {
    Seq::new(deltas.len() / 2, |k: int| (deltas[2 * k], deltas[2 * k + 1]))
}

/// The sum of the first `k` latitude differences.
pub open spec fn sum_latitudes(pairs: Seq<(i32, i32)>, k: int) -> int
    decreases k,
{
    if k <= 0 {
        0
    } else {
        sum_latitudes(pairs, k - 1) + pairs[k - 1].0
    }
}

/// The sum of the first `k` longitude differences.
pub open spec fn sum_longitudes(pairs: Seq<(i32, i32)>, k: int) -> int
    decreases k,
{
    if k <= 0 {
        0
    } else {
        sum_longitudes(pairs, k - 1) + pairs[k - 1].1
    }
}

/// Each point is the running sum of the differences up to it: the
/// decoder reconstructs a path from (0, 0) one difference at a time.
pub open spec fn accumulated_points(pairs: Seq<(i32, i32)>) -> Seq<ScaledPoint> {
    Seq::new(
        pairs.len(),
        |k: int|
            (ScaledPoint {
                latitude: sum_latitudes(pairs, k + 1) as i64,
                longitude: sum_longitudes(pairs, k + 1) as i64,
            }),
    )
}

/// What decoding a polyline's code points yields: scan out the groups,
/// read a difference from each, pair and accumulate.
pub open spec fn decoded_points(codes: Seq<u32>) -> Seq<ScaledPoint> {
    accumulated_points(paired(group_deltas(codes)))
}

/// A scan yields at most one group per character.
proof fn lemma_scan_groups_len(codes: Seq<u32>, buf: Seq<u32>)
    ensures
        scan_groups(codes, buf).len() <= codes.len(),
    decreases codes.len(),
{
    if codes.len() == 0 {
    } else if is_continuation(codes[0]) {
        lemma_scan_groups_len(codes.skip(1), buf.push(codes[0]));
    } else {
        lemma_scan_groups_len(codes.skip(1), Seq::empty());
    }
}

/// Encodes one scaled difference: zig-zag transform, split into 5-bit
/// groups, groups marked and rendered as characters.
pub fn encode_element(value: i32, negative: bool) -> (s: String)
    ensures
        char_codes(s@) == element_codes((ScaledDelta { value, negative })),
{
    let mut element_int: u32 = #[verifier::truncate] (value as u32);
    element_int = element_int << 1u32;
    if negative {
        element_int = !element_int;
    }

    let mut c = Chunks::new();
    c.parse(element_int);
    proof {
        lemma_chunks_of_bounded(element_int);
    }
    c.string()
}

/// Encodes a sequence of scaled differences: the concatenation of the
/// per-difference encodings, in order; no differences give the empty
/// string.
pub fn encode_scaled(deltas: &Vec<ScaledDelta>) -> (s: String)
    ensures
        char_codes(s@) == encoded_codes(deltas@),
        deltas@.len() == 0 ==> s@ == Seq::<char>::empty(),
{
    let mut encoded = String::new();

    let mut idx: usize = 0;
    while idx < deltas.len()
        invariant
            idx <= deltas@.len(),
            char_codes(encoded@) == encoded_codes(deltas@.take(idx as int)),
        decreases deltas@.len() - idx,
    {
        let d = deltas[idx];
        let part = encode_element(d.value, d.negative);
        let ghost pre = encoded@;
        encoded.append(part.as_str());
        proof {
            lemma_char_codes_append(pre, part@);
            lemma_encoded_codes_take_step(deltas@, idx as int);
            assert(deltas@.take(idx as int).push(deltas@[idx as int]) =~= deltas@.take(
                idx + 1,
            ));
        }
        idx += 1;
    }
    proof {
        assert(deltas@.take(deltas@.len() as int) =~= deltas@);
    }
    encoded
}

/// Decodes one completed coordinate group into its scaled difference.
pub fn decode_element(group: &str) -> (v: i32)
    ensures
        v == group_delta(char_codes(group@)),
{
    let mut c = Chunks::new();
    c.parse_line(group);
    c.coordinate_value()
}

/// Decodes a polyline string into scaled points: characters gather into
/// groups at clear continuation flags, each group yields one scaled
/// difference, differences pair up as (latitude, longitude) — a
/// dangling unpaired difference is dropped — and each point is the
/// running sum of the pairs so far. An empty string yields no points.
///
/// The length bound keeps the running sums within 64 bits.
pub fn decode_scaled(polyline: &str) -> (points: Vec<ScaledPoint>)
    requires
        polyline@.len() <= 0x4000_0000,
    ensures
        points@ == decoded_points(char_codes(polyline@)),
        polyline@.len() == 0 ==> points@ == Seq::<ScaledPoint>::empty(),
{
    let ghost codes = char_codes(polyline@);

    let length = polyline.unicode_len();
    let mut group = String::new();
    let mut coordinates: Vec<i32> = Vec::new();
    let ghost mut done: Seq<Seq<u32>> = Seq::empty();

    proof {
        assert(codes.len() == polyline@.len());
        assert(codes.skip(0) =~= codes);
        assert(char_codes(group@) =~= Seq::<u32>::empty());
        assert(Seq::<Seq<u32>>::empty() + scan_groups(codes, Seq::<u32>::empty())
            =~= scan_groups(codes, Seq::<u32>::empty()));
    }
    let mut i: usize = 0;
    while i < length
        invariant
            codes == char_codes(polyline@),
            codes.len() == length,
            length == polyline@.len(),
            i <= length,
            scan_groups(codes, Seq::empty()) == done + scan_groups(
                codes.skip(i as int),
                char_codes(group@),
            ),
            coordinates@ == done.map_values(|g: Seq<u32>| group_delta(g)),
        decreases length - i,
    {
        let letter = polyline.get_char(i);
        let ghost buf0 = char_codes(group@);
        let ghost g0 = group@;
        group.push(letter);
        proof {
            lemma_char_codes_push(g0, letter);
            assert(char_codes(group@) == buf0.push(letter as u32));
            assert(codes.skip(i as int)[0] == codes[i as int]);
            assert(codes[i as int] == letter as u32);
            assert(codes.skip(i as int).skip(1) =~= codes.skip(i as int + 1));
        }

        let offset = (letter as u32).wrapping_sub(63);
        if offset & 0x20 == 0 {
            let value = decode_element(group.as_str());
            coordinates.push(value);
            proof {
                assert(!is_continuation(codes[i as int]));
                assert(scan_groups(codes.skip(i as int), buf0) == seq![char_codes(group@)]
                    + scan_groups(codes.skip(i as int + 1), Seq::empty()));
                assert(done + (seq![char_codes(group@)] + scan_groups(
                    codes.skip(i as int + 1),
                    Seq::empty(),
                )) =~= done.push(char_codes(group@)) + scan_groups(
                    codes.skip(i as int + 1),
                    Seq::empty(),
                ));
                done = done.push(char_codes(group@));
                assert(coordinates@ =~= done.map_values(|g: Seq<u32>| group_delta(g)));
            }
            group = String::new();
            proof {
                assert(char_codes(group@) =~= Seq::<u32>::empty());
            }
        } else {
            proof {
                assert(is_continuation(codes[i as int]));
                assert(scan_groups(codes.skip(i as int), buf0) == scan_groups(
                    codes.skip(i as int + 1),
                    char_codes(group@),
                ));
            }
        }
        i += 1;
    }
    proof {
        assert(codes.skip(length as int) =~= Seq::<u32>::empty());
        assert(scan_groups(codes, Seq::empty()) =~= done);
        lemma_scan_groups_len(codes, Seq::empty());
        assert(coordinates@ == group_deltas(codes));
        assert(coordinates@.len() <= codes.len());
    }

    let ghost pairs = paired(coordinates@);
    let mut points: Vec<ScaledPoint> = Vec::new();
    let mut latitude: i64 = 0;
    let mut longitude: i64 = 0;

    let mut j: usize = 1;
    while j < coordinates.len()
        invariant
            coordinates@ == group_deltas(codes),
            coordinates@.len() <= 0x4000_0000,
            pairs == paired(coordinates@),
            j % 2 == 1,
            j <= coordinates@.len() + 1,
            j == 2 * points@.len() + 1,
            points@ == accumulated_points(pairs).take(points@.len() as int),
            latitude == sum_latitudes(pairs, points@.len() as int),
            longitude == sum_longitudes(pairs, points@.len() as int),
            -(points@.len() as int) * 0x8000_0000 <= latitude <= (points@.len() as int)
                * 0x8000_0000,
            -(points@.len() as int) * 0x8000_0000 <= longitude <= (points@.len() as int)
                * 0x8000_0000,
        decreases coordinates@.len() + 1 - j,
    {
        let ghost k = points@.len() as int;
        proof {
            assert(2 * k + 2 <= coordinates@.len());
            assert(k + 1 <= coordinates@.len() / 2);
            assert(k < pairs.len());
        }
        let lat_delta = coordinates[j - 1];
        let lon_delta = coordinates[j];
        proof {
            assert(pairs[k] == (coordinates@[2 * k], coordinates@[2 * k + 1]));
        }
        latitude = latitude + lat_delta as i64;
        longitude = longitude + lon_delta as i64;
        points.push(ScaledPoint { latitude, longitude });
        proof {
            assert(sum_latitudes(pairs, k + 1) == sum_latitudes(pairs, k) + pairs[k].0);
            assert(sum_longitudes(pairs, k + 1) == sum_longitudes(pairs, k) + pairs[k].1);
            assert(points@ =~= accumulated_points(pairs).take(k + 1));
        }
        j += 2;
    }
    proof {
        assert(points@.len() == pairs.len());
        assert(accumulated_points(pairs).take(pairs.len() as int) =~= accumulated_points(pairs));
    }
    points
}

/// Extending the encoded prefix by one difference appends that
/// difference's codes.
proof fn lemma_encoded_codes_take_step(deltas: Seq<ScaledDelta>, k: int)
    requires
        0 <= k < deltas.len(),
    ensures
        encoded_codes(deltas.take(k).push(deltas[k])) == encoded_codes(deltas.take(k))
            + element_codes(deltas[k]),
{
    lemma_encoded_codes_snoc(deltas.take(k), deltas[k]);
}

/// Whether a scaled difference survives the zig-zag transform's single
/// left shift without losing its top bit.
pub open spec fn value_in_range(v: int) -> bool {
    -0x4000_0000 <= v < 0x4000_0000
}

/// Undoing the zig-zag transform recovers an in-range value, whatever
/// the recorded sign was.
proof fn lemma_unzigzag(u: u32, value: i32, negative: bool)
    requires
        value_in_range(value as int),
        u == zigzag_code(value, negative),
    ensures
        (if u & 1 == 1 {
            !(u as i32)
        } else {
            u as i32
        }) >> 1 == value,
{
    assert((if u & 1 == 1 {
        !(u as i32)
    } else {
        u as i32
    }) >> 1 == value) by (bit_vector)
        requires
            -0x4000_0000 <= value < 0x4000_0000,
            u == zigzag_code(value, negative),
    ;
}

/// LAW (round trip, one difference): decoding the encoding of one
/// in-range scaled difference yields the difference back.
pub proof fn lemma_element_round_trip(d: ScaledDelta)
    requires
        value_in_range(d.value as int),
    ensures
        group_delta(element_codes(d)) == d.value,
{
    let z = zigzag_code(d.value, d.negative);
    lemma_chunks_of_bounded(z);
    lemma_line_chunks_of_marked(chunks_of(z));
    lemma_raw_of_chunks(z);
    lemma_unzigzag(raw_u32(chunks_of(z)), d.value, d.negative);
}

/// Scanning from the middle of a well-shaped group, with its start
/// already buffered, completes that group and scans on.
proof fn lemma_scan_from_group_middle(g: Seq<u32>, rest: Seq<u32>, k: int)
    requires
        0 <= k < g.len(),
        forall|j: int| 0 <= j < g.len() - 1 ==> is_continuation(#[trigger] g[j]),
        !is_continuation(g[g.len() - 1]),
    ensures
        scan_groups(g.skip(k) + rest, g.take(k)) == seq![g] + scan_groups(rest, Seq::empty()),
    decreases g.len() - k,
{
    let s = g.skip(k) + rest;
    assert(s[0] == g[k]);
    if k == g.len() - 1 {
        assert(!is_continuation(s[0]));
        assert(g.take(k).push(g[k]) =~= g);
        assert(s.skip(1) =~= rest);
        assert(scan_groups(s, g.take(k)) == seq![g] + scan_groups(rest, Seq::empty()));
    } else {
        assert(is_continuation(s[0]));
        assert(g.take(k).push(g[k]) =~= g.take(k + 1));
        assert(s.skip(1) =~= g.skip(k + 1) + rest);
        lemma_scan_from_group_middle(g, rest, k + 1);
    }
}

/// Scanning a well-shaped group followed by anything emits that group
/// first.
proof fn lemma_scan_group_prefix(g: Seq<u32>, rest: Seq<u32>)
    requires
        g.len() >= 1,
        forall|j: int| 0 <= j < g.len() - 1 ==> is_continuation(#[trigger] g[j]),
        !is_continuation(g[g.len() - 1]),
    ensures
        scan_groups(g + rest, Seq::empty()) == seq![g] + scan_groups(rest, Seq::empty()),
{
    assert(g.take(0) =~= Seq::<u32>::empty());
    assert(g.skip(0) + rest =~= g + rest);
    lemma_scan_from_group_middle(g, rest, 0);
}

/// Scanning an encoded difference sequence finds exactly the
/// per-difference groups.
proof fn lemma_scan_encoded(deltas: Seq<ScaledDelta>)
    ensures
        scan_groups(encoded_codes(deltas), Seq::empty()) == deltas.map_values(
            |d: ScaledDelta| element_codes(d),
        ),
    decreases deltas.len(),
{
    if deltas.len() == 0 {
        assert(scan_groups(encoded_codes(deltas), Seq::empty()) =~= deltas.map_values(
            |d: ScaledDelta| element_codes(d),
        ));
    } else {
        let d = deltas[0];
        let g = element_codes(d);
        let z = zigzag_code(d.value, d.negative);
        lemma_chunks_of_bounded(z);
        lemma_marked_chunks_flags(chunks_of(z));
        lemma_scan_encoded(deltas.skip(1));
        lemma_scan_group_prefix(g, encoded_codes(deltas.skip(1)));
        assert(seq![g] + deltas.skip(1).map_values(|e: ScaledDelta| element_codes(e))
            =~= deltas.map_values(|e: ScaledDelta| element_codes(e)));
    }
}

/// LAW (round trip, difference sequence): the differences read back
/// from an encoded sequence of in-range differences are exactly the
/// values that were encoded.
pub proof fn lemma_deltas_round_trip(deltas: Seq<ScaledDelta>)
    requires
        forall|j: int| 0 <= j < deltas.len() ==> value_in_range((#[trigger] deltas[j]).value as int),
    ensures
        group_deltas(encoded_codes(deltas)) == deltas.map_values(|d: ScaledDelta| d.value),
{
    lemma_scan_encoded(deltas);
    assert forall|j: int| 0 <= j < deltas.len() implies group_deltas(encoded_codes(deltas))[j]
        == deltas[j].value by {
        lemma_element_round_trip(deltas[j]);
    }
    assert(group_deltas(encoded_codes(deltas)) =~= deltas.map_values(|d: ScaledDelta| d.value));
}

/// The latitude a point is measured against: the previous point's, or
/// zero for the first.
pub open spec fn prev_latitude(points: Seq<ScaledPoint>, k: int) -> int {
    if k == 0 {
        0
    } else {
        points[k - 1].latitude as int
    }
}

/// The longitude a point is measured against.
pub open spec fn prev_longitude(points: Seq<ScaledPoint>, k: int) -> int {
    if k == 0 {
        0
    } else {
        points[k - 1].longitude as int
    }
}

/// The flat difference sequence that encodes a path: for each point in
/// order, its latitude difference then its longitude difference from
/// the point before, each with the sign of the unscaled difference.
pub open spec fn point_deltas(points: Seq<ScaledPoint>) -> Seq<ScaledDelta> {
    Seq::new(
        2 * points.len(),
        |j: int|
            (if j % 2 == 0 {
                ScaledDelta {
                    value: (points[j / 2].latitude - prev_latitude(points, j / 2)) as i32,
                    negative: points[j / 2].latitude - prev_latitude(points, j / 2) < 0,
                }
            } else {
                ScaledDelta {
                    value: (points[j / 2].longitude - prev_longitude(points, j / 2)) as i32,
                    negative: points[j / 2].longitude - prev_longitude(points, j / 2) < 0,
                }
            }),
    )
}

/// Whether every per-axis difference along a path fits the format's
/// 31 usable bits.
pub open spec fn deltas_representable(points: Seq<ScaledPoint>) -> bool {
    forall|k: int|
        0 <= k < points.len() ==> value_in_range(
            (#[trigger] points[k]).latitude - prev_latitude(points, k),
        ) && value_in_range(points[k].longitude - prev_longitude(points, k))
}

/// The running sums of a path's own differences telescope back to the
/// path.
proof fn lemma_sums_telescope(points: Seq<ScaledPoint>, pairs: Seq<(i32, i32)>, k: int)
    requires
        deltas_representable(points),
        pairs.len() == points.len(),
        forall|j: int|
            0 <= j < pairs.len() ==> (#[trigger] pairs[j]).0 == points[j].latitude
                - prev_latitude(points, j) && pairs[j].1 == points[j].longitude - prev_longitude(
                points,
                j,
            ),
        0 <= k <= points.len(),
    ensures
        sum_latitudes(pairs, k) == prev_latitude(points, k),
        sum_longitudes(pairs, k) == prev_longitude(points, k),
    decreases k,
{
    if k > 0 {
        lemma_sums_telescope(points, pairs, k - 1);
    }
}

/// LAW (round trip, whole path): decoding the encoding of a path's
/// difference sequence yields exactly the path's points, so long as
/// every per-axis difference fits the format's 31 usable bits.
pub proof fn lemma_points_round_trip(points: Seq<ScaledPoint>)
    requires
        deltas_representable(points),
    ensures
        decoded_points(encoded_codes(point_deltas(points))) == points,
{
    let ds = point_deltas(points);
    assert forall|j: int| 0 <= j < ds.len() implies value_in_range(
        (#[trigger] ds[j]).value as int,
    ) by {
        assert(0 <= j / 2 < points.len());
    }
    lemma_deltas_round_trip(ds);
    let vals = ds.map_values(|d: ScaledDelta| d.value);
    let pairs = paired(vals);
    assert(pairs.len() == points.len());
    assert forall|j: int| 0 <= j < pairs.len() implies (#[trigger] pairs[j]).0 == points[j].latitude
        - prev_latitude(points, j) && pairs[j].1 == points[j].longitude - prev_longitude(
        points,
        j,
    ) by {
        assert(vals[2 * j] == ds[2 * j].value);
        assert(vals[2 * j + 1] == ds[2 * j + 1].value);
        assert((2 * j) / 2 == j && (2 * j + 1) / 2 == j);
    }
    assert forall|k: int| 0 <= k < points.len() implies accumulated_points(pairs)[k]
        == points[k] by {
        lemma_sums_telescope(points, pairs, k + 1);
    }
    assert(decoded_points(encoded_codes(ds)) =~= points);
}

/// LAW (zero difference): a difference of zero with a non-negative sign
/// encodes as the single character '?', so a repeated point adds "??".
pub proof fn lemma_zero_delta_encodes_query(d: ScaledDelta)
    requires
        d.value == 0,
        !d.negative,
    ensures
        element_codes(d) == seq!['?' as u32],
{
    assert(zigzag_code(0i32, false) == 0) by (bit_vector);
    assert(element_codes(d) =~= seq!['?' as u32]);
}

/// Appending one difference appends its codes.
proof fn lemma_encoded_codes_snoc(deltas: Seq<ScaledDelta>, d: ScaledDelta)
    ensures
        encoded_codes(deltas.push(d)) == encoded_codes(deltas) + element_codes(d),
    decreases deltas.len(),
{
    if deltas.len() == 0 {
        assert(deltas.push(d)[0] == d);
        assert(deltas.push(d).skip(1) =~= Seq::<ScaledDelta>::empty());
        assert(encoded_codes(Seq::<ScaledDelta>::empty()) == Seq::<u32>::empty());
        assert(encoded_codes(deltas.push(d)) == element_codes(d) + Seq::<u32>::empty());
        assert(element_codes(d) + Seq::<u32>::empty() =~= encoded_codes(deltas) + element_codes(
            d,
        ));
    } else {
        assert(deltas.push(d)[0] == deltas[0]);
        assert(deltas.push(d).skip(1) =~= deltas.skip(1).push(d));
        lemma_encoded_codes_snoc(deltas.skip(1), d);
        assert(element_codes(deltas[0]) + (encoded_codes(deltas.skip(1)) + element_codes(d))
            =~= (element_codes(deltas[0]) + encoded_codes(deltas.skip(1))) + element_codes(d));
    }
}

} // verus!
