use kvserver::wire::{
    decode_response, encode_request, frame_len, parse_request, str_eq, to_cmd, Command,
    ExcessiveDataError, ParseError, ResponseCode, TooManyArgsError, TrailingGarbageError,
    InvalidCmd,
};

fn payload_of(args: &[&str]) -> Vec<u8> {
    let v: Vec<String> = args.iter().map(|s| s.to_string()).collect();
    let frame = encode_request(&v).expect("fits in a frame");
    frame[4..].to_vec()
}

#[test]
fn encode_request_exact_bytes() {
    let frame = encode_request(&vec!["get".to_string(), "k".to_string()]).unwrap();
    assert_eq!(
        frame,
        vec![16, 0, 0, 0, 2, 0, 0, 0, 3, 0, 0, 0, b'g', b'e', b't', 1, 0, 0, 0, b'k']
    );
}

#[test]
fn encode_request_empty_vector() {
    let frame = encode_request(&vec![]).unwrap();
    assert_eq!(frame, vec![4, 0, 0, 0, 0, 0, 0, 0]);
}

#[test]
fn encode_request_too_long() {
    // 4 (count) + 4 (length) + 4088 bytes = 4096 fits; one more byte does not.
    let fits = vec!["x".repeat(4088)];
    assert!(encode_request(&fits).is_some());
    let too_long = vec!["x".repeat(4089)];
    assert!(encode_request(&too_long).is_none());
}

#[test]
fn round_trip_keeps_strings_and_order() {
    let args = ["set", "clé", "välue ✓", "", "z"];
    let payload = payload_of(&args);
    let mut out = Vec::new();
    assert_eq!(parse_request(&payload, payload.len(), &mut out), Ok(()));
    assert_eq!(out, args.to_vec());
}

#[test]
fn round_trip_no_arguments() {
    let payload = payload_of(&[]);
    let mut out = Vec::new();
    assert_eq!(parse_request(&payload, payload.len(), &mut out), Ok(()));
    assert!(out.is_empty());
}

#[test]
fn round_trip_many_arguments() {
    // 4 + 818 * 5 = 4094 bytes: the most one-byte arguments a frame holds.
    let owned: Vec<String> = (0..818).map(|i| format!("{}", i % 10)).collect();
    let frame = encode_request(&owned).unwrap();
    let payload = &frame[4..];
    let mut out = Vec::new();
    assert_eq!(parse_request(payload, payload.len(), &mut out), Ok(()));
    assert_eq!(out.len(), 818);
    for (a, b) in out.iter().zip(owned.iter()) {
        assert_eq!(*a, b.as_str());
    }
}

#[test]
fn parse_appends_after_existing() {
    let payload = payload_of(&["b"]);
    let mut out = vec!["a"];
    assert_eq!(parse_request(&payload, payload.len(), &mut out), Ok(()));
    assert_eq!(out, vec!["a", "b"]);
}

#[test]
fn too_many_args_rejected() {
    let mut payload = vec![1, 4, 0, 0]; // 1025
    payload.extend_from_slice(&[9, 9, 9]);
    let mut out = Vec::new();
    assert_eq!(
        parse_request(&payload, payload.len(), &mut out),
        Err(ParseError::TooManyArgsError(TooManyArgsError))
    );
    assert!(out.is_empty());
}

#[test]
fn max_args_count_accepted() {
    let mut payload = vec![0, 4, 0, 0]; // 1024
    for _ in 0..1024 {
        payload.extend_from_slice(&[0, 0, 0, 0]);
    }
    let mut out = Vec::new();
    assert_eq!(parse_request(&payload, payload.len(), &mut out), Ok(()));
    assert_eq!(out.len(), 1024);
}

#[test]
fn excessive_data_reports_offsets() {
    // One argument declared 10 bytes long in a 12-byte payload.
    let payload = vec![1, 0, 0, 0, 10, 0, 0, 0, b'a', b'b', b'c', b'd'];
    let mut out = Vec::new();
    assert_eq!(
        parse_request(&payload, payload.len(), &mut out),
        Err(ParseError::ExcessiveDataError(ExcessiveDataError { last_position: 18, given_len: 12 }))
    );
}

#[test]
fn excessive_data_on_second_entry() {
    let payload = vec![2, 0, 0, 0, 1, 0, 0, 0, b'a', 5, 0, 0, 0, b'b'];
    let mut out = Vec::new();
    assert_eq!(
        parse_request(&payload, payload.len(), &mut out),
        Err(ParseError::ExcessiveDataError(ExcessiveDataError { last_position: 18, given_len: 14 }))
    );
}

#[test]
fn trailing_garbage_rejected() {
    let mut payload = payload_of(&["get", "a"]);
    payload.push(0);
    let mut out = Vec::new();
    assert_eq!(
        parse_request(&payload, payload.len(), &mut out),
        Err(ParseError::TrailingGarbageError(TrailingGarbageError))
    );
}

#[test]
fn framing_error_on_short_payload() {
    let mut out = Vec::new();
    assert_eq!(parse_request(&[1, 0], 2, &mut out), Err(ParseError::FramingError));
    // The count says one entry but its length field is cut short.
    let payload = vec![1, 0, 0, 0, 1, 0];
    assert_eq!(parse_request(&payload, 20, &mut out), Err(ParseError::FramingError));
}

#[test]
fn invalid_utf8_rejected() {
    let payload = vec![1, 0, 0, 0, 2, 0, 0, 0, 0xff, 0xfe];
    let mut out = Vec::new();
    assert_eq!(parse_request(&payload, payload.len(), &mut out), Err(ParseError::InvalidUtf8));
}

#[test]
fn to_cmd_classifies_get_set_del() {
    let p = payload_of(&["get", "k"]);
    match to_cmd(&p, p.len()) {
        Ok(Command::Get(c)) => assert_eq!(c.key, "k"),
        _ => panic!("expected get"),
    }
    let p = payload_of(&["set", "k", "v"]);
    match to_cmd(&p, p.len()) {
        Ok(Command::Put(c)) => {
            assert_eq!(c.key, "k");
            assert_eq!(c.value, "v");
        }
        _ => panic!("expected set"),
    }
    let p = payload_of(&["del", "k"]);
    match to_cmd(&p, p.len()) {
        Ok(Command::Del(c)) => assert_eq!(c.key, "k"),
        _ => panic!("expected del"),
    }
}

#[test]
fn to_cmd_rejects_unknown_shapes() {
    for args in [vec!["get"], vec!["get", "a", "b"], vec!["set", "a"], vec!["put", "a"], vec![]] {
        let p = payload_of(&args);
        assert!(matches!(to_cmd(&p, p.len()), Err(ParseError::InvalidCmd(InvalidCmd))));
    }
}

#[test]
fn to_cmd_passes_parse_errors_on() {
    let payload = vec![1, 0, 0, 0, 10, 0, 0, 0];
    assert!(matches!(
        to_cmd(&payload, payload.len()),
        Err(ParseError::ExcessiveDataError(ExcessiveDataError { last_position: 18, given_len: 8 }))
    ));
}

#[test]
fn str_eq_compares_content() {
    assert!(str_eq("abc", "abc"));
    assert!(!str_eq("abc", "abd"));
    assert!(!str_eq("abc", "ab"));
    assert!(str_eq("", ""));
}

#[test]
fn response_codes_encode() {
    assert_eq!(ResponseCode::Success.to_u32(), 0);
    assert_eq!(ResponseCode::Error.to_u32(), 1);
    assert_eq!(ResponseCode::Nonexistent.to_u32(), 2);
    assert_eq!(ResponseCode::from_u32(2), Some(ResponseCode::Nonexistent));
    assert_eq!(ResponseCode::from_u32(3), None);
}

#[test]
fn frame_len_reads_header() {
    assert_eq!(frame_len(&[5, 0, 0, 0]), Some(5));
    assert_eq!(frame_len(&[0, 16, 0, 0]), Some(4096));
    assert_eq!(frame_len(&[1, 16, 0, 0]), None);
    assert_eq!(frame_len(&[5, 0]), None);
}

#[test]
fn decode_response_splits_code_and_text() {
    assert_eq!(decode_response(&[0, 0, 0, 0, b'1']), Some((ResponseCode::Success, "1")));
    assert_eq!(decode_response(&[2, 0, 0, 0]), Some((ResponseCode::Nonexistent, "")));
    assert_eq!(decode_response(&[7, 0, 0, 0]), None);
    assert_eq!(decode_response(&[0, 0, 0]), None);
    assert_eq!(decode_response(&[0, 0, 0, 0, 0xff]), None);
}
