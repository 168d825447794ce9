use inoxset::codec::{
    deserialize_event_config, deserialize_part, deserialize_period, deserialize_u64_vec,
    serialize_compaction, serialize_event_config, serialize_part, serialize_period_into,
    serialize_u64_vec,
};
use inoxset::types::{EventConfig, Granularity, Part, PartKind, Period, Rollup};

fn sample_part() -> Part {
    Part {
        part_id: 0x0102,
        kind: PartKind::Delta,
        event: "é".to_string(),
        period: Period::Month(2026, 3),
        file_path: "p".to_string(),
        size_bytes: 3,
        cardinality: 4,
        created_at: 5,
        level: 6,
    }
}

#[test]
fn event_rows() {
    let ec = EventConfig::new("a".to_string(), Granularity::Month, Rollup::Auto);
    assert_eq!(serialize_event_config(&ec), vec![1, 3, 0]);
    let back = deserialize_event_config("a", &[1, 3, 0, 77]).unwrap();
    assert_eq!(back.name, "a");
    assert_eq!(back.rollup_chain, vec![Granularity::Month, Granularity::Year]);
    // A static event never rolls up, whatever the row says.
    assert_eq!(deserialize_event_config("a", &[1, 0, 0]).unwrap().rollup, Rollup::Off);
    let err = |data: &[u8]| deserialize_event_config("a", data).err().unwrap().message();
    let head = "catalog data corrupted: event 'a': ";
    assert_eq!(err(&[1, 2]), format!("{head}expected at least 3 bytes, got 2"));
    assert_eq!(err(&[9, 2, 0]), format!("{head}unsupported version byte 9 (expected 1)"));
    assert_eq!(err(&[1, 5, 0]), format!("{head}unknown granularity byte 5"));
    assert_eq!(err(&[1, 2, 2]), format!("{head}unknown rollup byte 2"));
}

#[test]
fn period_rows() {
    let cases: Vec<(Period, Vec<u8>)> = vec![
        (Period::Static, vec![0]),
        (Period::Hour(0x0201, 3, 4, 5), vec![1, 1, 2, 3, 4, 5]),
        (Period::Day(2026, 3, 11), vec![2, 0xEA, 7, 3, 11]),
        (Period::Month(2026, 255), vec![3, 0xEA, 7, 255]),
        (Period::Year(65535), vec![4, 255, 255]),
    ];
    for (p, bytes) in cases {
        let mut buf = vec![42];
        serialize_period_into(&mut buf, &p);
        assert_eq!(&buf[1..], &bytes[..]);
        buf.push(43);
        assert_eq!(deserialize_period("c", &buf, 1).unwrap(), (p, bytes.len()));
    }
    let err = |data: &[u8], at: usize| deserialize_period("c", data, at).err().unwrap().message();
    let head = "catalog data corrupted: c: ";
    assert_eq!(err(&[1], 3), format!("{head}period tag missing (offset 3, len 1)"));
    assert_eq!(err(&[9, 1, 2], 0), format!("{head}unknown period tag 9"));
    assert_eq!(err(&[1, 1, 2], 0), format!("{head}truncated Hour period (need 6, have 3)"));
    assert_eq!(err(&[0, 2, 2], 1), format!("{head}truncated Day period (need 6, have 3)"));
    assert_eq!(err(&[3], 0), format!("{head}truncated Month period (need 4, have 1)"));
    assert_eq!(err(&[4, 1], 0), format!("{head}truncated Year period (need 3, have 2)"));
}

#[test]
fn list_rows() {
    let ids = [1u64, u64::MAX, 0x0102_0304];
    let bytes = serialize_u64_vec(&ids);
    assert_eq!(bytes.len(), 25);
    assert_eq!(&bytes[..9], &[1, 1, 0, 0, 0, 0, 0, 0, 0]);
    assert_eq!(deserialize_u64_vec("k", &bytes).unwrap(), ids.to_vec());
    assert_eq!(deserialize_u64_vec("k", &[1]).unwrap(), Vec::<u64>::new());
    let err = |data: &[u8]| deserialize_u64_vec("k", data).err().unwrap().message();
    let head = "catalog data corrupted: k: u64 list ";
    assert_eq!(err(&[]), format!("{head}missing version byte"));
    assert_eq!(err(&[2]), format!("{head}unsupported version byte 2 (expected 1)"));
    assert_eq!(err(&[1, 0, 0]), format!("{head}payload length 2 is not a multiple of 8"));
}

#[test]
fn part_rows() {
    let part = sample_part();
    let bytes = serialize_part(&part).unwrap();
    let expected: Vec<u8> = vec![
        1, 2, 1, 0, 0, 0, 0, 0, 0, 1, 3, 0, 0, 0, 0, 0, 0, 0, 4, 0, 0, 0, 0, 0, 0, 0, 5, 0, 0, 0,
        0, 0, 0, 0, 6, 3, 0xEA, 7, 3, 2, 0, 0xC3, 0xA9, 1, 0, b'p',
    ];
    assert_eq!(bytes, expected);
    let back = deserialize_part("c", &bytes).unwrap();
    assert_eq!(back.part_id, part.part_id);
    assert_eq!(back.kind, part.kind);
    assert_eq!(back.event, part.event);
    assert_eq!(back.period, part.period);
    assert_eq!(back.file_path, part.file_path);
    assert_eq!(
        (back.size_bytes, back.cardinality, back.created_at, back.level),
        (3, 4, 5, 6)
    );
}

#[test]
fn part_row_faults() {
    let bytes = serialize_part(&sample_part()).unwrap();
    let err = |data: &[u8]| deserialize_part("c", data).err().unwrap().message();
    let head = "catalog data corrupted: c: ";
    assert_eq!(
        err(&bytes[..39]),
        format!("{head}part data too short (need at least 40, got 39)")
    );
    let with = |at: usize, v: u8| {
        let mut b = bytes.clone();
        b[at] = v;
        b
    };
    assert_eq!(err(&with(0, 2)), format!("{head}unsupported part version byte 2 (expected 1)"));
    assert_eq!(err(&with(9, 7)), format!("{head}unknown part kind byte 7"));
    assert_eq!(err(&with(35, 8)), format!("{head}unknown period tag 8"));
    assert_eq!(err(&bytes[..40]), format!("{head}truncated event name length"));
    assert_eq!(err(&bytes[..42]), format!("{head}truncated event name (need 2 bytes)"));
    assert_eq!(err(&with(42, 0xFF)), format!("{head}event name is not valid UTF-8"));
    assert_eq!(err(&bytes[..44]), format!("{head}truncated file path length"));
    assert_eq!(err(&bytes[..45]), format!("{head}truncated file path (need 1 bytes)"));
    assert_eq!(err(&with(45, 0x80)), format!("{head}file path is not valid UTF-8"));
}

#[test]
fn overlong_texts_are_refused() {
    let mut part = sample_part();
    part.file_path = "x".repeat(65_536);
    assert_eq!(
        serialize_part(&part).err().unwrap().message(),
        "catalog data corrupted: part_id=258: file path length 65536 exceeds u16::MAX"
    );
    part.event = "é".repeat(40_000);
    assert_eq!(
        serialize_part(&part).err().unwrap().message(),
        "catalog data corrupted: part_id=258: event name length 80000 exceeds u16::MAX"
    );
    part.event = "x".repeat(65_535);
    part.file_path = "y".repeat(65_535);
    let bytes = serialize_part(&part).unwrap();
    let back = deserialize_part("c", &bytes).unwrap();
    assert_eq!(back.event.len(), 65_535);
    assert_eq!(back.file_path, part.file_path);
}

#[test]
fn compaction_records() {
    assert_eq!(
        serialize_compaction(1, 2, 3, 4, 0x0506),
        vec![
            1, 1, 0, 0, 0, 0, 0, 0, 0, 2, 0, 0, 0, 3, 0, 0, 0, 4, 0, 0, 0, 6, 5, 0, 0, 0, 0, 0, 0
        ]
    );
}

#[test]
fn part_rows_end_where_they_end() {
    let part = sample_part();
    let row = serialize_part(&part).unwrap();
    let mut longer = row.clone();
    longer.extend([1, 2, 3]);
    let back = deserialize_part("c", &longer).unwrap();
    assert_eq!((back.part_id, back.file_path.as_str()), (0x0102, "p"));
    for n in 0..row.len() {
        assert!(deserialize_part("c", &row[..n]).is_err());
    }
    let ec = EventConfig::new("a".to_string(), Granularity::Day, Rollup::Auto);
    let row = serialize_event_config(&ec);
    for n in 0..row.len() {
        assert!(deserialize_event_config("a", &row[..n]).is_err());
    }
}

#[test]
fn a_list_row_is_that_of_its_list() {
    let row: Vec<u8> = std::iter::once(1).chain((0..16u8).map(|b| b.wrapping_mul(37))).collect();
    let ids = deserialize_u64_vec("c", &row).unwrap();
    assert_eq!(ids.len(), 2);
    assert_eq!(serialize_u64_vec(&ids), row);
    let bytes = [9, 2, 0xEA, 7, 3, 11, 9];
    let (p, n) = deserialize_period("c", &bytes, 1).unwrap();
    let mut again = Vec::new();
    serialize_period_into(&mut again, &p);
    assert_eq!(&again[..], &bytes[1..1 + n]);
}
