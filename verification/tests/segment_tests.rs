use segment_rust::error::SegmentError;
use segment_rust::frame::append_frame;
use segment_rust::message::Message;
use segment_rust::segment::Segment;
use segment_rust::storable::Storable;

#[test]
fn test_write() {
    let mut segment = Segment::<Message>::new(0);
    let mut file: Vec<u8> = Vec::new();
    let message = Message::new("hello world!");

    let latest_offset = segment.write(&message, &mut file).unwrap();

    let serialized_msg = bincode::serialize(&message.content);
    assert_eq!(latest_offset, 4 + serialized_msg.unwrap().len() as u64);
}

#[test]
fn test_read() {
    let mut segment = Segment::<Message>::new(0);
    let mut file: Vec<u8> = Vec::new();

    let message = Message::new("hello world!");
    segment.write(&message, &mut file).unwrap();

    let message_read = segment
        .read(&file, 0)
        .unwrap_or_else(|e| panic!("error when read from the segment: {:#?}", e));
    assert_eq!(message_read.content, "hello world!");
}

#[test]
fn test_save_read_message() {
    let mut segment = Segment::<Message>::new(0);
    let mut file: Vec<u8> = Vec::new();
    let message = Message::new("hello integration test!");
    segment
        .write(&message, &mut file)
        .expect("cannot write message to the integration test segment");

    let message_read = segment
        .read(&file, 0)
        .expect("cannot read message at 0 offset from integration test segment");

    assert_eq!(message.content, message_read.content);
}

#[test]
fn length_constant_is_four() {
    assert_eq!(Segment::<Message>::LENGTH, 4);
}

#[test]
fn new_segment_starts_at_zero_and_is_named_by_its_base_offset() {
    let segment = Segment::<Message>::new(0);
    assert_eq!(segment.base_offset(), 0);
    assert_eq!(segment.write_position(), 0);
    assert_eq!(segment.path(), "00000000.segment");
}

#[test]
fn new_segment_keeps_its_base_offset() {
    let segment = Segment::<Message>::new(4_096);
    assert_eq!(segment.base_offset(), 4_096);
    assert_eq!(segment.write_position(), 0);
    assert_eq!(segment.path(), "00004096.segment");
}

#[test]
fn write_returns_four_plus_content_length() {
    for text in ["", "a", "hello world!", "h\u{e9}llo"] {
        let mut segment = Segment::<Message>::new(0);
        let mut file = Vec::new();
        let message = Message::new(text);
        let position = segment.write(&message, &mut file).unwrap();
        assert_eq!(position, 4 + message.content_length() as u64);
        assert_eq!(position, message.total_length() as u64);
        assert_eq!(position, segment.write_position());
        assert_eq!(position, file.len() as u64);
    }
}

#[test]
fn write_of_hello_world_returns_twenty_four() {
    let mut segment = Segment::<Message>::new(0);
    let mut file = Vec::new();
    assert_eq!(segment.write(&Message::new("hello world!"), &mut file), Ok(24));
}

#[test]
fn write_lays_out_prefix_and_payload() {
    let mut segment = Segment::<Message>::new(0);
    let mut file = Vec::new();
    segment.write(&Message::new("hi"), &mut file).unwrap();
    assert_eq!(file, vec![0, 0, 0, 10, 2, 0, 0, 0, 0, 0, 0, 0, b'h', b'i']);
}

#[test]
fn write_leaves_identity_alone() {
    let mut segment = Segment::<Message>::new(3);
    let mut file = Vec::new();
    segment.write(&Message::new("x"), &mut file).unwrap();
    assert_eq!(segment.base_offset(), 3);
    assert_eq!(segment.path(), "00000003.segment");
}

#[test]
fn writes_land_one_after_the_other() {
    let texts = ["first", "", "the third record", "4"];
    let mut segment = Segment::<Message>::new(0);
    let mut file = Vec::new();
    let mut starts = Vec::new();
    let mut position = 0u64;
    for text in texts {
        let message = Message::new(text);
        starts.push(position);
        let next = segment.write(&message, &mut file).unwrap();
        assert_eq!(next, position + message.total_length() as u64);
        assert!(next > position);
        position = next;
    }
    assert_eq!(starts, vec![0, 17, 29, 57]);
    assert_eq!(position, 70);
    for (start, text) in starts.iter().zip(texts) {
        assert_eq!(segment.read(&file, *start).unwrap().content, text);
    }
}

#[test]
fn written_bytes_are_never_changed_by_later_writes() {
    let mut segment = Segment::<Message>::new(0);
    let mut file = Vec::new();
    segment.write(&Message::new("one"), &mut file).unwrap();
    let before = file.clone();
    segment.write(&Message::new("two"), &mut file).unwrap();
    assert_eq!(&file[..before.len()], &before[..]);
}

#[test]
fn append_moves_the_position_by_the_frame() {
    let mut segment = Segment::<Message>::new(0);
    let mut sink = Vec::new();
    assert_eq!(segment.append(&[1, 2, 3], &mut sink), 7);
    assert_eq!(segment.append(&[], &mut sink), 11);
    assert_eq!(segment.write_position(), 11);
    assert_eq!(sink, vec![0, 0, 0, 3, 1, 2, 3, 0, 0, 0, 0]);
}

#[test]
fn read_of_an_empty_segment_is_short() {
    let segment = Segment::<Message>::new(0);
    assert_eq!(segment.read(&[], 0).unwrap_err(), SegmentError::ShortRead);
}

#[test]
fn read_of_a_truncated_frame_is_short() {
    let mut segment = Segment::<Message>::new(0);
    let mut file = Vec::new();
    segment.write(&Message::new("hello world!"), &mut file).unwrap();
    file.truncate(file.len() - 1);
    assert_eq!(segment.read(&file, 0).unwrap_err(), SegmentError::ShortRead);
    file.truncate(3);
    assert_eq!(segment.read(&file, 0).unwrap_err(), SegmentError::ShortRead);
}

#[test]
fn read_at_the_write_position_is_short() {
    let mut segment = Segment::<Message>::new(0);
    let mut file = Vec::new();
    let end = segment.write(&Message::new("hello world!"), &mut file).unwrap();
    assert_eq!(segment.read(&file, end).unwrap_err(), SegmentError::ShortRead);
}

#[test]
fn read_of_a_frame_that_holds_no_record_fails() {
    let segment = Segment::<Message>::new(0);
    let mut file = Vec::new();
    append_frame(&mut file, &[1, 2, 3]);
    assert_eq!(segment.read(&file, 0).unwrap_err(), SegmentError::Deserialization);
}

#[test]
fn read_at_an_offset_inside_a_frame_does_not_check_it() {
    let mut segment = Segment::<Message>::new(0);
    let mut file = Vec::new();
    segment.write(&Message::new("hello world!"), &mut file).unwrap();
    // Offset 1 reads the bytes 0, 0, 20, 12 as a length far behind the end.
    assert_eq!(segment.read(&file, 1).unwrap_err(), SegmentError::ShortRead);
    // Offset 8 reads four zero bytes as an empty frame, which holds no text.
    assert_eq!(segment.read(&file, 8).unwrap_err(), SegmentError::Deserialization);
}

#[test]
fn read_can_give_a_wrong_record_at_a_wrong_offset() {
    // A payload that holds, from its second byte on, a frame with a text.
    let mut inner = vec![0u8, 0, 0, 9, 1, 0, 0, 0, 0, 0, 0, 0, b'!'];
    let mut payload = vec![7u8];
    payload.append(&mut inner);
    let mut file = Vec::new();
    append_frame(&mut file, &payload);
    let segment = Segment::<Message>::new(0);
    assert_eq!(segment.read(&file, 5).unwrap().content, "!");
}

#[test]
fn reconstruct_takes_the_name_and_the_length() {
    let segment = Segment::<Message>::reconstruct("00000042.segment", 1_000).unwrap();
    assert_eq!(segment.base_offset(), 42);
    assert_eq!(segment.write_position(), 1_000);
    assert_eq!(segment.path(), "00000042.segment");
}

#[test]
fn reconstruct_of_an_empty_file_starts_at_zero() {
    let segment = Segment::<Message>::reconstruct("00000000.segment", 0).unwrap();
    assert_eq!(segment.base_offset(), 0);
    assert_eq!(segment.write_position(), 0);
}

#[test]
fn reconstruct_gives_back_a_written_segment() {
    let mut segment = Segment::<Message>::new(17);
    let mut file = Vec::new();
    segment.write(&Message::new("hello world!"), &mut file).unwrap();
    segment.write(&Message::new("and more"), &mut file).unwrap();
    let written = file.len() as u64;
    assert_eq!(written, 44);

    let again = Segment::<Message>::reconstruct(segment.path(), written).unwrap();
    assert_eq!(again.base_offset(), 17);
    assert_eq!(again.write_position(), written);
    assert_eq!(again.write_position(), segment.write_position());
    assert_eq!(again.path(), segment.path());
}

#[test]
fn reconstructed_segment_appends_right_behind_the_file() {
    let mut segment = Segment::<Message>::new(0);
    let mut file = Vec::new();
    let first_end = segment.write(&Message::new("before"), &mut file).unwrap();

    let mut again = Segment::<Message>::reconstruct(segment.path(), file.len() as u64).unwrap();
    let second_end = again.write(&Message::new("after"), &mut file).unwrap();
    assert_eq!(second_end, file.len() as u64);
    assert_eq!(again.read(&file, 0).unwrap().content, "before");
    assert_eq!(again.read(&file, first_end).unwrap().content, "after");
}

#[test]
fn reconstruct_refuses_a_name_that_is_no_number() {
    for name in ["", "abc.segment", ".segment", "-1.segment", "18446744073709551616.segment",
        "00000000.log", "x00000000.segment"]
    {
        assert_eq!(
            Segment::<Message>::reconstruct(name, 0).unwrap_err(),
            SegmentError::MalformedName,
            "{:?}",
            name
        );
    }
}

#[test]
fn clone_keeps_the_segment() {
    let mut segment = Segment::<Message>::new(5);
    let mut file = Vec::new();
    segment.write(&Message::new("x"), &mut file).unwrap();
    let copy = segment.clone();
    assert_eq!(copy.base_offset(), 5);
    assert_eq!(copy.write_position(), segment.write_position());
    assert_eq!(copy.path(), segment.path());
}

#[test]
fn errors_compare_and_print() {
    assert_eq!(SegmentError::ShortRead, SegmentError::ShortRead);
    assert_ne!(SegmentError::ShortRead, SegmentError::Deserialization);
    assert_ne!(SegmentError::Serialization, SegmentError::MalformedName);
    assert_eq!(format!("{:?}", SegmentError::MalformedName), "MalformedName");
    let copy = SegmentError::Serialization;
    assert_eq!(copy.clone(), copy);
}

#[test]
fn records_of_one_write_round_trip() {
    for text in ["", "hello world!", "h\u{e9}llo w\u{f6}rld", "\u{1f600}"] {
        let mut segment = Segment::<Message>::new(0);
        let mut file = Vec::new();
        let message = Message::new(text);
        segment.write(&message, &mut file).unwrap();
        assert_eq!(segment.read(&file, 0).unwrap(), message);
        assert_eq!(Message::deserialize(&file[4..]).unwrap(), message);
    }
}
