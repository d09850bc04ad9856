use polyline::{decode_scaled, encode_scaled, ScaledDelta, ScaledPoint};

/// The per-axis scaled differences the encoder consumes: each axis's
/// change from the previous point, scaled by 10^precision and rounded
/// half away from zero, with the sign of the unscaled difference.
fn deltas_for(points: &[(f64, f64)], precision: u32) -> Vec<ScaledDelta> {
    let factor = 10_u32.pow(precision) as f64;
    let mut out = Vec::new();
    let mut latitude = 0.0_f64;
    let mut longitude = 0.0_f64;
    for &(lat, lon) in points {
        let dlat = lat - latitude;
        let dlon = lon - longitude;
        out.push(ScaledDelta {
            value: (dlat * factor).round() as i32,
            negative: dlat < 0.0,
        });
        out.push(ScaledDelta {
            value: (dlon * factor).round() as i32,
            negative: dlon < 0.0,
        });
        latitude = lat;
        longitude = lon;
    }
    out
}

fn encode(points: &[(f64, f64)], precision: u32) -> String {
    encode_scaled(&deltas_for(points, precision))
}

fn decode(polyline: &str, precision: u32) -> Vec<(f64, f64)> {
    let factor = 10_u32.pow(precision) as f64;
    let mut out = Vec::new();
    for p in decode_scaled(polyline) {
        out.push((p.latitude as f64 / factor, p.longitude as f64 / factor));
    }
    out
}

#[test]
fn encode5_empty_string() {
    assert_eq!(encode(&[], 5), "");
}

#[test]
fn encode5_single_point() {
    assert_eq!(encode(&[(-79.448, -179.9832104)], 5), "~d|cN`~oia@");
}

#[test]
fn encode5_multiple_points() {
    assert_eq!(
        encode(&[(38.5, -120.2), (40.7, -120.95), (43.252, -126.453)], 5),
        "_p~iF~ps|U_ulLnnqC_mqNvxq`@"
    );
}

#[test]
fn encode5_same_point_twice() {
    assert_eq!(
        encode(&[(-37.472889, -72.353958), (-37.472889, -72.353958)], 5),
        "p|ucFfsrxL??"
    );
}

#[test]
fn encode6_empty_string() {
    assert_eq!(encode(&[], 6), "");
}

#[test]
fn encode6_multiple_points() {
    assert_eq!(
        encode(
            &[
                (48.208771, 16.372572),
                (48.210133, 16.374164),
                (48.210495, 16.373436),
            ],
            6
        ),
        "ewl}zAwthf^ctAobBsUnl@"
    );
}

#[test]
fn encode6_multiple_points_with_minimal_distance() {
    assert_eq!(
        encode(
            &[
                (-37.472889, -72.353958),
                (-37.472687, -72.357526),
                (-37.472165, -72.357484),
                (-37.472273, -72.355672),
                (-37.472889, -72.353958),
            ],
            6
        ),
        "pfdnfAjic_iCsK~}Es_@sAvEgpBne@cjB"
    );
}

#[test]
fn encode6_same_point_twice() {
    assert_eq!(
        encode(&[(-37.472889, -72.353958), (-37.472889, -72.353958)], 6),
        "pfdnfAjic_iC??"
    );
}

#[test]
fn encode6_single_point() {
    assert_eq!(encode(&[(-79.4486385, -179.9832104)], 6), "|bdpvCruhhvI");
}

#[test]
fn decode5_empty_string() {
    assert_eq!(decode("", 5), vec![]);
}

#[test]
fn decode5_not_a_polyline() {
    assert_eq!(decode("a", 5), vec![]);
}

#[test]
fn decode5_single_point() {
    assert_eq!(decode("~d|cN`~oia@", 5), vec![(-79.448, -179.98321)]);
}

#[test]
fn decode5_multiple_points() {
    assert_eq!(
        decode("_p~iF~ps|U_ulLnnqC_mqNvxq`@", 5),
        vec![(38.5, -120.2), (40.7, -120.95), (43.252, -126.453)]
    );
}

#[test]
fn decode5_same_point_twice() {
    assert_eq!(
        decode("p|ucFfsrxL??", 5),
        vec![(-37.47289, -72.35396), (-37.47289, -72.35396)]
    );
}

#[test]
fn decode6_empty_string() {
    assert_eq!(decode("", 6), vec![]);
}

#[test]
fn decode6_not_a_polyline() {
    assert_eq!(decode("a", 6), vec![]);
}

#[test]
fn decode6_multiple_points() {
    assert_eq!(
        decode("ewl}zAwthf^ctAobBsUnl@", 6),
        vec![
            (48.208771, 16.372572),
            (48.210133, 16.374164),
            (48.210495, 16.373436),
        ]
    );
}

#[test]
fn decode6_multiple_points_with_minimal_distance() {
    assert_eq!(
        decode("pfdnfAjic_iCsK~}Es_@sAvEgpBne@cjB", 6),
        vec![
            (-37.472889, -72.353958),
            (-37.472687, -72.357526),
            (-37.472165, -72.357484),
            (-37.472273, -72.355672),
            (-37.472889, -72.353958),
        ]
    );
}

#[test]
fn decode6_same_point_twice() {
    assert_eq!(
        decode("pfdnfAjic_iC??", 6),
        vec![
            (-37.472889, -72.353958),
            (-37.472889, -72.353958),
        ]
    );
}

#[test]
fn decode6_single_point() {
    assert_eq!(decode("|bdpvCruhhvI", 6), vec![(-79.448639, -179.98321)]);
}

#[test]
fn decode_scaled_empty_string() {
    assert_eq!(decode_scaled(""), vec![]);
}

#[test]
fn decode_scaled_unterminated_group_is_dropped() {
    // 'a' reads as 34, which keeps its continuation flag, so the group
    // never completes and no point comes out.
    assert_eq!(decode_scaled("a"), vec![]);
}

#[test]
fn decode_scaled_odd_delta_is_dropped() {
    // "??" is two zero differences (one point); one more "?" leaves a
    // dangling latitude with no longitude, which is discarded.
    assert_eq!(
        decode_scaled("???"),
        vec![ScaledPoint {
            latitude: 0,
            longitude: 0
        }]
    );
}

#[test]
fn round_trip_matches_rounded_input() {
    // Coordinates expressible in 5 decimal digits survive the trip.
    let points = [(12.34567, 89.01234), (12.34891, 89.01567), (12.35678, 89.01891)];
    let encoded = encode(&points, 5);
    assert_eq!(encoded, "mgjjAcfh~OgSySep@gS");
    assert_eq!(decode(&encoded, 5), points.to_vec());
}

#[test]
fn precision_sensitivity() {
    // A sixth decimal digit is kept at precision 6 and rounded away at
    // precision 5, so the strings must differ.
    let points = [(48.208771, 16.372572), (48.210133, 16.374164)];
    assert_ne!(encode(&points, 5), encode(&points, 6));
}

#[test]
fn decode_accumulates_rounded_deltas() {
    // The fractional parts straddle the rounding boundary at precision
    // 5: the encoder's differences come from raw input (0.000006 then
    // 0.000008, each rounding up to one unit), while a rounded
    // accumulator would have seen 0.00001 then 0.000004 (one unit, then
    // none). The decoder sums the transmitted units: 1, then 2.
    let points = [(0.000006, 0.0), (0.000014, 0.0)];
    let encoded = encode(&points, 5);
    let scaled = decode_scaled(&encoded);
    assert_eq!(
        scaled,
        vec![
            ScaledPoint {
                latitude: 1,
                longitude: 0
            },
            ScaledPoint {
                latitude: 2,
                longitude: 0
            },
        ]
    );
    assert_eq!(decode(&encoded, 5), vec![(0.00001, 0.0), (0.00002, 0.0)]);
}

#[test]
fn negative_difference_that_rounds_to_zero_still_decodes_to_zero() {
    // A tiny negative difference rounds to zero but keeps its sign, so
    // its encoding is not "?"; decoding still recovers zero.
    let deltas = vec![
        ScaledDelta {
            value: 0,
            negative: true,
        },
        ScaledDelta {
            value: 0,
            negative: false,
        },
    ];
    let encoded = encode_scaled(&deltas);
    assert_ne!(encoded, "??");
    assert_eq!(
        decode_scaled(&encoded),
        vec![ScaledPoint {
            latitude: 0,
            longitude: 0
        }]
    );
}
