use serde_json::Value;
use spectral3d_cli::record::{
    read_record, read_value, record_value, verdict, write_record, Record, RecordError,
};

fn offsets(xs: &[f64]) -> Vec<Value> {
    xs.iter().map(|x| Value::from(*x)).collect()
}

fn bits(xs: &[f64]) -> Vec<u64> {
    xs.iter().map(|x| x.to_bits()).collect()
}

fn record(hash: &str, xs: &[f64]) -> Record {
    Record { hash: hash.to_string(), offsets: bits(xs) }
}

#[test]
fn record_is_written_over_several_lines() {
    let text = write_record("9f2c", offsets(&[0.5, -1.25]));
    assert_eq!(
        text,
        "{\n  \"hash\": \"9f2c\",\n  \"helper\": {\n    \"offsets\": [\n      0.5,\n      -1.25\n    ]\n  }\n}\n"
    );
}

#[test]
fn record_reads_back() {
    let xs = [0.0, -0.0, 0.5, 1e-300, 123456.789, 1e300];
    let made = record_value("h \"q\" \u{1f980}", offsets(&xs));
    assert_eq!(read_value(&made, 6), Ok(record("h \"q\" \u{1f980}", &xs)));
}

#[test]
fn written_record_reads_back_to_the_last_bit() {
    let mut xs = vec![
        0.0,
        -0.0,
        0.1,
        0.25,
        -7.5e-250,
        5e-324,
        0.30000000000000004,
        1e16,
        123456789012345680.0,
        f64::MAX,
        f64::MIN_POSITIVE,
        2.2250738585072011e-308,
        1.2345678901234567e-300,
        9007199254740993.0,
    ];
    // Some more numbers of all sizes.
    let mut bits = 0x9e3779b97f4a7c15u64;
    for _ in 0..2000 {
        bits = bits.wrapping_mul(6364136223846793005).wrapping_add(1442695040888963407);
        let x = f64::from_bits(bits);
        if x.is_finite() {
            xs.push(x);
        }
    }
    let text = write_record("tab\there \\ \u{7}", offsets(&xs));
    assert_eq!(read_record(text.as_bytes(), xs.len()), Ok(record("tab\there \\ \u{7}", &xs)));
}

#[test]
fn registered_object_passes() {
    // The identity of a made-up object, given the offsets.
    let recover = |bits: &[u64]| format!("{:x}", bits.iter().fold(7, |h: u64, b| h.rotate_left(9) ^ b));
    let xs = [0.1, -2.75e-9, 3e200];
    let hash = recover(&bits(&xs));
    let text = write_record(&hash, offsets(&xs));
    match read_record(text.as_bytes(), 3) {
        Ok(r) => {
            assert_eq!(verdict(&recover(&r.offsets), &r.hash), "PASS ✓");
            assert_eq!(verdict(&recover(&[0, 0, 0]), &r.hash), "FAIL ✗");
        }
        Err(e) => panic!("{}", e.message("r.json", 3)),
    }
}

#[test]
fn whole_numbers_are_offsets_too() {
    let bytes = br#"{"helper": {"offsets": [3, -2, 1.5]}, "hash": "x", "more": [null, true]}"#;
    assert_eq!(read_record(bytes, 3), Ok(record("x", &[3.0, -2.0, 1.5])));
    let bytes = br#"{"helper": {"offsets": [18446744073709551615]}, "hash": "x"}"#;
    assert_eq!(read_record(bytes, 1), Ok(record("x", &[18446744073709551615.0])));
}

#[test]
fn bytes_that_are_no_json() {
    for bytes in [&b"{"[..], &b""[..], &b"{} x"[..], &b"\xff"[..]] {
        let reason = serde_json::from_slice::<Value>(bytes).unwrap_err().to_string();
        let e = read_record(bytes, 1);
        assert_eq!(e, Err(RecordError::NotJson { reason }));
        assert_eq!(e.unwrap_err().message("r.json", 1), "r.json isn't valid JSON");
    }
}

#[test]
fn missing_hash() {
    for bytes in [&b"{}"[..], &b"[]"[..], &b"3"[..], &br#"{"hash": 7}"#[..], &br#"{"hash": null}"#[..]] {
        assert_eq!(read_record(bytes, 0), Err(RecordError::NoHash));
    }
    assert_eq!(RecordError::NoHash.message("a/b.json", 4), "no \"hash\" string in a/b.json");
}

#[test]
fn missing_offsets() {
    for bytes in [
        &br#"{"hash": "x"}"#[..],
        &br#"{"hash": "x", "helper": []}"#[..],
        &br#"{"hash": "x", "helper": {"offsets": {}}}"#[..],
        &br#"{"hash": "x", "offsets": []}"#[..],
    ] {
        assert_eq!(read_record(bytes, 0), Err(RecordError::NoOffsets));
    }
    assert_eq!(
        RecordError::NoOffsets.message("b.json", 4),
        "no \"helper.offsets\" array in b.json"
    );
}

#[test]
fn offsets_that_are_no_numbers() {
    let made = record_value("x", offsets(&[1.0, f64::NAN]));
    assert_eq!(read_value(&made, 2), Err(RecordError::NotANumber));
    let bytes = br#"{"hash": "x", "helper": {"offsets": ["1"]}}"#;
    assert_eq!(read_record(bytes, 7), Err(RecordError::NotANumber));
    assert_eq!(RecordError::NotANumber.message("b.json", 4), "a helper offset isn't a number");
}

#[test]
fn wrong_number_of_offsets() {
    let made = record_value("x", offsets(&[1.0, 2.0]));
    assert_eq!(read_value(&made, 3), Err(RecordError::WrongCount { got: 2 }));
    assert_eq!(
        RecordError::WrongCount { got: 2 }.message("b.json", 16),
        "expected 16 offsets, got 2"
    );
}

#[test]
fn verdict_compares_hashes() {
    assert_eq!(verdict("9f2c", "9f2c"), "PASS ✓");
    assert_eq!(verdict("9f2c", "9f2d"), "FAIL ✗");
    assert_eq!(verdict("9f2", "9f2c"), "FAIL ✗");
    assert_eq!(verdict("", ""), "PASS ✓");
}
