use timebase::align::{align, AlignedRow};
use timebase::convert::{coerce_to_integer, convert_tag, parse_i32};
use timebase::timebase::{GetDataResponse, Tag as RawTag, TagData, TagItem, TagValue};
use timebase::timeseries::{classify, DataPoint, DataQuality, DataSeries, DataValue, SeriesError, Tag};

fn plain_tag(name: &str) -> Tag {
    Tag {
        name: name.to_string(),
        description: None,
        format: None,
        uom: None,
        states: Vec::new(),
        fields: Vec::new(),
    }
}

fn series(name: &str, points: Vec<(i64, Option<DataValue>)>) -> DataSeries {
    let data = points
        .into_iter()
        .map(|(t, v)| DataPoint {
            timestamp: t,
            value: v,
            quality: DataQuality::Good(0xC0u8 as i16),
        })
        .collect();
    match DataSeries::new(plain_tag(name), data) {
        Ok(s) => s,
        Err(_) => panic!("series fixture must be sorted"),
    }
}

// ---- quality classification ----

#[test]
fn classify_full_domain() {
    for raw in 0..=0xFFFFu32 {
        let code = raw as u16 as i16;
        let field = (raw >> 6) & 0x3;
        let got = classify(code);
        let expected = match field {
            0 => DataQuality::Bad(code),
            3 => DataQuality::Good(code),
            _ => DataQuality::Unknown(code),
        };
        assert_eq!(got, expected);
    }
}

#[test]
fn classify_examples() {
    assert_eq!(classify(0x0000), DataQuality::Bad(0x0000));
    assert_eq!(classify(0x0040), DataQuality::Unknown(0x0040));
    assert_eq!(classify(0x0080u16 as i16), DataQuality::Unknown(0x0080u16 as i16));
    assert_eq!(classify(0x00C0u16 as i16), DataQuality::Good(0x00C0u16 as i16));
    // bits outside the mask do not change the category
    assert_eq!(classify(0x1f00u16 as i16), DataQuality::Bad(0x1f00u16 as i16));
}

// ---- point query ----

#[test]
fn value_at_after_last_returns_last() {
    let s = series("a", vec![(0, Some(DataValue::Integer(1))), (10, Some(DataValue::Integer(2)))]);
    assert_eq!(s.get_value_at(10), Some(&DataValue::Integer(2)));
    assert_eq!(s.get_value_at(1000), Some(&DataValue::Integer(2)));
}

#[test]
fn value_at_exact_timestamp() {
    let s = series(
        "a",
        vec![
            (0, Some(DataValue::Integer(1))),
            (10, Some(DataValue::Integer(2))),
            (20, Some(DataValue::Integer(3))),
        ],
    );
    assert_eq!(s.get_value_at(0), Some(&DataValue::Integer(1)));
    assert_eq!(s.get_value_at(10), Some(&DataValue::Integer(2)));
    assert_eq!(s.get_value_at(20), Some(&DataValue::Integer(3)));
}

#[test]
fn value_at_between_samples_holds_earlier() {
    let s = series(
        "a",
        vec![
            (0, Some(DataValue::Integer(1))),
            (10, Some(DataValue::Integer(2))),
            (20, Some(DataValue::Integer(3))),
        ],
    );
    assert_eq!(s.get_value_at(9), Some(&DataValue::Integer(1)));
    assert_eq!(s.get_value_at(11), Some(&DataValue::Integer(2)));
    assert_eq!(s.get_value_at(19), Some(&DataValue::Integer(2)));
}

#[test]
fn value_at_before_first_clamps_low() {
    let s = series("a", vec![(5, Some(DataValue::Integer(7))), (9, Some(DataValue::Integer(8)))]);
    assert_eq!(s.get_value_at(-100), Some(&DataValue::Integer(7)));
    assert_eq!(s.get_value_at(4), Some(&DataValue::Integer(7)));
}

#[test]
fn value_at_empty_series_is_absent() {
    let s = series("a", vec![]);
    assert_eq!(s.get_value_at(0), None);
    assert_eq!(s.get_value_at(i64::MAX), None);
    assert_eq!(s.get_value_at(i64::MIN), None);
}

#[test]
fn value_at_absent_sample_value() {
    let s = series("a", vec![(0, Some(DataValue::Integer(1))), (10, None)]);
    assert_eq!(s.get_value_at(10), None);
    assert_eq!(s.get_value_at(5), Some(&DataValue::Integer(1)));
}

#[test]
fn series_construction_rejects_out_of_order() {
    let mk = |ts: Vec<i64>| {
        DataSeries::new(
            plain_tag("a"),
            ts.into_iter()
                .map(|t| DataPoint { timestamp: t, value: None, quality: DataQuality::Bad(0) })
                .collect(),
        )
    };
    assert!(mk(vec![1, 2, 3]).is_ok());
    assert_eq!(mk(vec![2, 1]).unwrap_err(), SeriesError::OutOfOrder);
    // duplicate timestamps are not defined behaviour and are rejected too
    assert_eq!(mk(vec![1, 1]).unwrap_err(), SeriesError::OutOfOrder);
}

// ---- alignment ----

fn row_values(r: &AlignedRow) -> (i64, Vec<Option<DataValue>>) {
    (r.timestamp, r.values.clone())
}

#[test]
fn align_scenario_two_tags() {
    // Tag1: t=0 -> 1, t=2 -> 3; Tag2: t=1 -> "on"
    let list = vec![
        series("t1", vec![(0, Some(DataValue::Integer(1))), (2, Some(DataValue::Integer(3)))]),
        series("t2", vec![(1, Some(DataValue::Text("on".to_string())))]),
    ];
    // base variant: the final pending state is not emitted
    let rows = align(&list, 0, false);
    assert_eq!(rows.len(), 2);
    assert_eq!(row_values(&rows[0]), (0, vec![Some(DataValue::Integer(1)), None]));
    assert_eq!(
        row_values(&rows[1]),
        (1, vec![Some(DataValue::Integer(1)), Some(DataValue::Text("on".to_string()))])
    );
    // fixed variant: the final pending state is emitted as well
    let rows = align(&list, 0, true);
    assert_eq!(rows.len(), 3);
    assert_eq!(
        row_values(&rows[2]),
        (2, vec![Some(DataValue::Integer(3)), Some(DataValue::Text("on".to_string()))])
    );
}

#[test]
fn align_row_arity_matches_series_count() {
    let list = vec![
        series("a", vec![(0, Some(DataValue::Integer(1)))]),
        series("b", vec![]),
        series("c", vec![(1, Some(DataValue::Integer(2))), (3, None)]),
    ];
    for rows in [align(&list, 0, false), align(&list, 0, true)] {
        for r in &rows {
            assert_eq!(r.values.len(), list.len());
        }
    }
}

#[test]
fn align_twice_is_identical() {
    let list = vec![
        series("a", vec![(0, Some(DataValue::Integer(1))), (5, Some(DataValue::Integer(2)))]),
        series("b", vec![(3, Some(DataValue::Text("x".to_string())))]),
    ];
    let once = align(&list, 0, true);
    let twice = align(&list, 0, true);
    assert_eq!(once.len(), twice.len());
    for (r1, r2) in once.iter().zip(twice.iter()) {
        assert_eq!(row_values(r1), row_values(r2));
    }
}

#[test]
fn align_empty_list_and_empty_series() {
    let empty: Vec<DataSeries> = vec![];
    assert_eq!(align(&empty, 0, false).len(), 0);
    let rows = align(&empty, 7, true);
    assert_eq!(rows.len(), 1);
    assert_eq!(row_values(&rows[0]), (7, vec![]));

    let list = vec![series("a", vec![])];
    assert_eq!(align(&list, 0, false).len(), 0);
    let rows = align(&list, 0, true);
    assert_eq!(rows.len(), 1);
    assert_eq!(row_values(&rows[0]), (0, vec![None]));
}

#[test]
fn align_samples_before_start_are_folded_in() {
    // samples at or before the start instant only seed the first row
    let list = vec![series(
        "a",
        vec![
            (-5, Some(DataValue::Integer(1))),
            (0, Some(DataValue::Integer(2))),
            (4, Some(DataValue::Integer(3))),
        ],
    )];
    let rows = align(&list, 0, true);
    assert_eq!(rows.len(), 2);
    assert_eq!(row_values(&rows[0]), (0, vec![Some(DataValue::Integer(2))]));
    assert_eq!(row_values(&rows[1]), (4, vec![Some(DataValue::Integer(3))]));
}

#[test]
fn align_equal_timestamps_share_one_row() {
    let list = vec![
        series("a", vec![(1, Some(DataValue::Integer(10))), (2, Some(DataValue::Integer(11)))]),
        series("b", vec![(1, Some(DataValue::Integer(20)))]),
    ];
    let rows = align(&list, 0, true);
    assert_eq!(rows.len(), 3);
    assert_eq!(row_values(&rows[0]), (0, vec![None, None]));
    assert_eq!(
        row_values(&rows[1]),
        (1, vec![Some(DataValue::Integer(10)), Some(DataValue::Integer(20))])
    );
    assert_eq!(
        row_values(&rows[2]),
        (2, vec![Some(DataValue::Integer(11)), Some(DataValue::Integer(20))])
    );
}

// ---- coercion ----

#[test]
fn coerce_text_to_integer() {
    assert_eq!(coerce_to_integer(&Some(TagValue::Text("42".to_string()))), Some(42));
    assert_eq!(coerce_to_integer(&Some(TagValue::Text("abc".to_string()))), None);
}

#[test]
fn coerce_other_shapes() {
    assert_eq!(coerce_to_integer(&Some(TagValue::Integer(-7))), Some(-7));
    assert_eq!(coerce_to_integer(&Some(TagValue::Float(3.5f64.to_bits()))), None);
    assert_eq!(coerce_to_integer(&None), None);
}

#[test]
fn parse_i32_edges() {
    assert_eq!(parse_i32("0"), Some(0));
    assert_eq!(parse_i32("+7"), Some(7));
    assert_eq!(parse_i32("-13"), Some(-13));
    assert_eq!(parse_i32("0042"), Some(42));
    assert_eq!(parse_i32("2147483647"), Some(i32::MAX));
    assert_eq!(parse_i32("-2147483648"), Some(i32::MIN));
    assert_eq!(parse_i32("2147483648"), None);
    assert_eq!(parse_i32("-2147483649"), None);
    assert_eq!(parse_i32("99999999999999999999"), None);
    assert_eq!(parse_i32("000000000000000000005"), Some(5));
    assert_eq!(parse_i32(""), None);
    assert_eq!(parse_i32("-"), None);
    assert_eq!(parse_i32("+"), None);
    assert_eq!(parse_i32("1 2"), None);
    assert_eq!(parse_i32("4.2"), None);
}

// ---- response conversion ----

fn raw_tag(name: &str, uom: Option<Vec<(i32, String)>>) -> RawTag {
    RawTag {
        name: name.to_string(),
        description: Some("d".to_string()),
        format: None,
        uom,
        fields: Some(vec![("k".to_string(), "v".to_string())]),
        data_type: None,
    }
}

#[test]
fn convert_tag_single_entry_is_uom() {
    let t = convert_tag(&raw_tag("a", Some(vec![(0, "degC".to_string())])));
    assert_eq!(t.uom, Some("degC".to_string()));
    assert!(t.states.is_empty());
}

#[test]
fn convert_tag_many_entries_are_states() {
    let t = convert_tag(&raw_tag(
        "a",
        Some(vec![(0, "off".to_string()), (1, "on".to_string())]),
    ));
    assert_eq!(t.uom, None);
    assert_eq!(t.states, vec![(0, "off".to_string()), (1, "on".to_string())]);
}

#[test]
fn convert_tag_empty_or_missing_mapping_is_unitless() {
    let t = convert_tag(&raw_tag("a", Some(vec![])));
    assert_eq!(t.uom, None);
    assert!(t.states.is_empty());
    let t = convert_tag(&raw_tag("a", None));
    assert_eq!(t.uom, None);
    assert!(t.states.is_empty());
    assert_eq!(t.fields, vec![("k".to_string(), "v".to_string())]);
}

#[test]
fn time_series_classifies_and_retags() {
    let resp = GetDataResponse {
        start: 0,
        end: 100,
        tags: vec![TagItem {
            tag: raw_tag("a", None),
            data: vec![
                TagData { timestamp: 1, value: Some(TagValue::Integer(5)), quality: 0x00C0u16 as i16 },
                TagData { timestamp: 2, value: Some(TagValue::Float(1.5f64.to_bits())), quality: 0x0000 },
                TagData { timestamp: 3, value: Some(TagValue::Text("on".to_string())), quality: 0x0040 },
                TagData { timestamp: 4, value: None, quality: 0x0080u16 as i16 },
            ],
        }],
    };
    let list = resp.time_series().expect("sorted input");
    assert_eq!(list.len(), 1);
    let s = &list[0];
    assert_eq!(s.tag.name, "a");
    assert_eq!(s.data.len(), 4);
    assert_eq!(s.data[0].value, Some(DataValue::Integer(5)));
    assert_eq!(s.data[0].quality, DataQuality::Good(0x00C0u16 as i16));
    assert_eq!(s.data[1].value, Some(DataValue::Float(1.5f64.to_bits())));
    assert_eq!(s.data[1].quality, DataQuality::Bad(0x0000));
    assert_eq!(s.data[2].value, Some(DataValue::Text("on".to_string())));
    assert_eq!(s.data[2].quality, DataQuality::Unknown(0x0040));
    assert_eq!(s.data[3].value, None);
    assert_eq!(s.data[3].quality, DataQuality::Unknown(0x0080u16 as i16));
}

#[test]
fn time_series_rejects_unsorted_tag() {
    let resp = GetDataResponse {
        start: 0,
        end: 100,
        tags: vec![TagItem {
            tag: raw_tag("a", None),
            data: vec![
                TagData { timestamp: 2, value: None, quality: 0 },
                TagData { timestamp: 1, value: None, quality: 0 },
            ],
        }],
    };
    assert_eq!(resp.time_series().unwrap_err(), SeriesError::OutOfOrder);
}

#[test]
fn get_data_points_coerces_each_sample() {
    let item = TagItem {
        tag: raw_tag("a", None),
        data: vec![
            TagData { timestamp: 1, value: Some(TagValue::Integer(5)), quality: 0 },
            TagData { timestamp: 2, value: Some(TagValue::Text("42".to_string())), quality: 0 },
            TagData { timestamp: 3, value: Some(TagValue::Text("abc".to_string())), quality: 0 },
            TagData { timestamp: 4, value: Some(TagValue::Float(2.5f64.to_bits())), quality: 0 },
            TagData { timestamp: 5, value: None, quality: 0 },
        ],
    };
    let pts = item.get_data_points();
    let got: Vec<(i64, Option<i32>)> = pts.iter().map(|p| (p.timestamp, p.value)).collect();
    assert_eq!(got, vec![(1, Some(5)), (2, Some(42)), (3, None), (4, None), (5, None)]);
}
