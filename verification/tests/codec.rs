use goms_rs::{decode, encode, read_line, read_lines, FramingError, Message};

fn strings(items: &[&str]) -> Vec<String> {
    items.iter().map(|s| s.to_string()).collect()
}

#[test]
fn encode_writes_the_five_fields_line_by_line() {
    let msg = Message::new("hget".to_string(), 1, strings(&["k", "f"]));
    assert_eq!(encode(&msg), b"hget\n1\n2\nk\nf\n".to_vec());
}

#[test]
fn encode_of_a_message_without_values_has_three_lines() {
    let msg = Message::new("heartbeat".to_string(), 42, Vec::new());
    assert_eq!(encode(&msg), b"heartbeat\n42\n0\n".to_vec());
}

#[test]
fn encode_writes_a_negative_sequence_with_its_sign() {
    let msg = Message::new("watch".to_string(), -7, strings(&["a"]));
    assert_eq!(encode(&msg), b"watch\n-7\n1\na\n".to_vec());
}

#[test]
fn encode_writes_text_as_utf8() {
    let msg = Message::new("hset".to_string(), 3, strings(&["clé", "名前", "ü"]));
    let mut expected: Vec<u8> = Vec::new();
    expected.extend_from_slice("hset\n3\n3\nclé\n名前\nü\n".as_bytes());
    assert_eq!(encode(&msg), expected);
}

#[test]
fn decode_reads_back_what_encode_wrote() {
    let msg = Message::new(
        "hset".to_string(),
        9001,
        strings(&["nodeRegister:game0", "status", "up"]),
    );
    let frame = encode(&msg);
    let (back, used) = decode(&frame).unwrap();
    assert_eq!(back, msg);
    assert_eq!(used, frame.len());
}

#[test]
fn decode_round_trips_empty_texts_and_extreme_sequences() {
    for seq in [i64::MIN, -1, 0, 1, i64::MAX] {
        let msg = Message::new(String::new(), seq, strings(&["", "x", ""]));
        let frame = encode(&msg);
        let (back, used) = decode(&frame).unwrap();
        assert_eq!(back, msg);
        assert_eq!(used, frame.len());
    }
}

#[test]
fn decode_round_trips_text_outside_ascii() {
    let msg = Message::new("观察".to_string(), 5, strings(&["ключ", "🙂", "a\tb"]));
    let (back, _) = decode(&encode(&msg)).unwrap();
    assert_eq!(back, msg);
}

#[test]
fn decode_leaves_what_follows_the_frame() {
    let first = Message::new("hget".to_string(), 1, strings(&["k", "f"]));
    let second = Message::new("del".to_string(), 2, strings(&["k"]));
    let mut stream = encode(&first);
    stream.extend_from_slice(&encode(&second));
    let (a, used) = decode(&stream).unwrap();
    assert_eq!(a, first);
    assert_eq!(used, encode(&first).len());
    let (b, rest) = decode(&stream[used..]).unwrap();
    assert_eq!(b, second);
    assert_eq!(used + rest, stream.len());
}

#[test]
fn decode_of_nothing_is_truncated() {
    assert_eq!(decode(b""), Err(FramingError::Truncated));
}

#[test]
fn decode_fails_when_the_stream_ends_inside_a_line() {
    assert_eq!(decode(b"hget"), Err(FramingError::Truncated));
    assert_eq!(decode(b"hget\n1"), Err(FramingError::Truncated));
    assert_eq!(decode(b"hget\n1\n2"), Err(FramingError::Truncated));
}

#[test]
fn decode_fails_when_a_value_line_is_missing() {
    assert_eq!(decode(b"hget\n1\n2\nk\n"), Err(FramingError::Truncated));
    assert_eq!(decode(b"hget\n1\n2\nk\nf"), Err(FramingError::Truncated));
}

#[test]
fn decode_every_proper_prefix_of_a_frame_is_truncated() {
    let frame = encode(&Message::new("hset".to_string(), 12, strings(&["k", "f", "v"])));
    for cut in 0..frame.len() {
        assert_eq!(decode(&frame[..cut]), Err(FramingError::Truncated));
    }
}

#[test]
fn decode_rejects_a_sequence_that_is_no_number() {
    assert_eq!(decode(b"hget\nabc\n0\n"), Err(FramingError::InvalidSequence));
    assert_eq!(decode(b"hget\n\n0\n"), Err(FramingError::InvalidSequence));
    assert_eq!(decode(b"hget\n1 \n0\n"), Err(FramingError::InvalidSequence));
    assert_eq!(
        decode(b"hget\n9223372036854775808\n0\n"),
        Err(FramingError::InvalidSequence)
    );
}

#[test]
fn decode_rejects_a_count_that_is_no_number() {
    assert_eq!(decode(b"hget\n1\nx\n"), Err(FramingError::InvalidCount));
    assert_eq!(decode(b"hget\n1\n1.5\na\n"), Err(FramingError::InvalidCount));
}

#[test]
fn decode_looks_at_the_sequence_before_the_count() {
    assert_eq!(decode(b"hget\nabc\nxyz\n"), Err(FramingError::InvalidSequence));
}

#[test]
fn decode_wants_the_whole_header_before_it_judges_the_sequence() {
    assert_eq!(decode(b"hget\nabc\n"), Err(FramingError::Truncated));
}

#[test]
fn decode_rejects_a_line_that_is_not_utf8() {
    assert_eq!(decode(b"hg\xffet\n1\n0\n"), Err(FramingError::InvalidText));
    assert_eq!(decode(b"hget\n1\n1\n\xc3\n"), Err(FramingError::InvalidText));
}

#[test]
fn decode_takes_a_negative_count_for_none() {
    let (msg, used) = decode(b"hgetall\n4\n-3\nleft\n").unwrap();
    assert_eq!(msg, Message::new("hgetall".to_string(), 4, Vec::new()));
    assert_eq!(used, 13);
}

#[test]
fn decode_accepts_a_plus_sign_and_leading_zeros() {
    let (msg, _) = decode(b"hget\n+007\n01\nv\n").unwrap();
    assert_eq!(msg, Message::new("hget".to_string(), 7, strings(&["v"])));
}

#[test]
fn decode_keeps_a_carriage_return_as_part_of_the_text() {
    let (msg, _) = decode(b"hget\r\n1\n0\n").unwrap();
    assert_eq!(msg.cmd, "hget\r");
}

#[test]
fn a_value_with_a_line_break_does_not_survive() {
    let msg = Message::new("hset".to_string(), 1, strings(&["a\nb"]));
    let frame = encode(&msg);
    assert_eq!(frame, b"hset\n1\n1\na\nb\n".to_vec());
    let (back, used) = decode(&frame).unwrap();
    assert_eq!(back, Message::new("hset".to_string(), 1, strings(&["a"])));
    assert!(used < frame.len());
}

#[test]
fn read_line_gives_the_text_and_the_next_position() {
    let buf = b"one\ntwo\n";
    assert_eq!(read_line(buf, 0), Ok(("one".to_string(), 4)));
    assert_eq!(read_line(buf, 4), Ok(("two".to_string(), 8)));
    assert_eq!(read_line(buf, 2), Ok(("e".to_string(), 4)));
    assert_eq!(read_line(buf, 3), Ok((String::new(), 4)));
}

#[test]
fn read_line_without_a_terminator_is_truncated() {
    assert_eq!(read_line(b"one\ntw", 4), Err(FramingError::Truncated));
    assert_eq!(read_line(b"one\n", 4), Err(FramingError::Truncated));
    assert_eq!(read_line(b"one\n", 99), Err(FramingError::Truncated));
}

#[test]
fn read_line_rejects_bytes_that_are_not_utf8() {
    assert_eq!(read_line(b"\xe2\x82\n", 0), Err(FramingError::InvalidText));
    assert_eq!(read_line(b"\xed\xa0\x80\n", 0), Err(FramingError::InvalidText));
}

#[test]
fn read_lines_reads_as_many_as_asked() {
    let buf = b"a\nb\nc\n";
    assert_eq!(read_lines(buf, 0, 2), Ok((strings(&["a", "b"]), 4)));
    assert_eq!(read_lines(buf, 2, 2), Ok((strings(&["b", "c"]), 6)));
    assert_eq!(read_lines(buf, 0, 0), Ok((Vec::new(), 0)));
    assert_eq!(read_lines(buf, 3, -1), Ok((Vec::new(), 3)));
    assert_eq!(read_lines(buf, 0, 4), Err(FramingError::Truncated));
}

#[test]
fn read_lines_fails_as_its_first_bad_line_does() {
    assert_eq!(read_lines(b"a\n\xff\nc", 0, 3), Err(FramingError::InvalidText));
    assert_eq!(read_lines(b"a\nb\n\xff", 0, 3), Err(FramingError::Truncated));
}
