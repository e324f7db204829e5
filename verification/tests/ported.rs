use stream_framer::FrameParser;
use stream_framer::FrameWriter;
use stream_framer::ParsedStreamData;
use stream_framer::HDR_SIZE;
use stream_framer::magic_prefix;

/// Frames `quantity` copies of `payload`, concatenates the frames, feeds the
/// concatenation to the parser in chunks of `packet_size` bytes, carrying the
/// residues between calls, and returns the reconstructed messages.
fn drive(payload: &[u8], quantity: usize, packet_size: usize) -> Vec<Vec<u8>> {
    let mut concatenated: Vec<u8> = Vec::new();
    for _ in 0..quantity {
        let frame = payload.to_vec().prepend_frame().expect("failed to prepend frame");
        concatenated.extend_from_slice(&frame);
    }
    assert_eq!(concatenated.len(), (payload.len() + HDR_SIZE) * quantity);

    let mut received: Vec<Vec<u8>> = Vec::new();
    let mut previous_incompleted_data: Option<(usize, Vec<u8>)> = None;
    let mut truncated_header: Option<Vec<u8>> = None;
    for chunk in concatenated.chunks(packet_size) {
        let parsed = chunk
            .to_vec()
            .parse_frame_header(previous_incompleted_data.take(), truncated_header.take())
            .expect("parse failed");
        for p in parsed {
            match p {
                ParsedStreamData::Completed(data) => received.push(data),
                ParsedStreamData::Incompleted(message_size, data) => {
                    previous_incompleted_data = Some((message_size, data));
                }
                ParsedStreamData::TruncatedHeader(hdr) => {
                    truncated_header = Some(hdr);
                }
            }
        }
    }
    assert!(previous_incompleted_data.is_none());
    assert!(truncated_header.is_none());
    received
}

const LONG_CONTENT: &str = "Une nouvelle phrase test d'un certain nombre de bytes, je ne sais  Lorem ipsum dolor sit amet, officia excepteur ex fugiat reprehenderit enim labore culpa sint ad nisi Lorem pariatur mollit ex esse exercitation amet. Nisi anim cupidatat excepteur officia. Reprehenderit nostrud nostrud ipsum Lorem est aliquip amet voluptate voluptate dolor minim nulla est proident. Nostrud officia pariatur ut officia. Sit irure elit esse ea nulla sunt ex occaecat reprehenderit commodo officia dolor Lorem duis laboris cupidatat officia voluptate. Culpa proident adipisicing id nulla nisi laboris ex in Lorem sunt duis officia eiusmod. Aliqua reprehenderit commodo ex non excepteur duis sunt velit enim. Voluptate laboris sint cupidatat ullamco ut ea consectetur et est culpa et culpa duis.";

#[test]
fn write_header() {
    let input = "Une phrase test pour voir.".to_string();
    let test_body = input.clone().as_bytes().to_vec();
    let test_body_len = test_body.len();

    let frame = match test_body.prepend_frame() {
        Ok(frame) => frame,
        Err(_) => panic!("failed to prepend frame"),
    };
    let frame_len = frame.len();

    assert!(frame_len != test_body_len);
    assert!(frame_len - HDR_SIZE == test_body_len);

    let hdr: [u8; HDR_SIZE] = frame[0..HDR_SIZE].try_into().expect("wrong header len");
    let magic = magic_prefix();
    assert_eq!(&hdr[..magic.len()], magic.as_slice());

    let body = String::from_utf8_lossy(&frame[HDR_SIZE..]);
    let retrieved_len = u32::from_be_bytes(hdr[magic.len()..].try_into().unwrap());

    assert!(retrieved_len == test_body_len as u32);
    assert!(input == body);

    let test_body = input.clone().as_bytes().to_vec();
    let test_body_len = test_body.len();
    let frame = test_body.prepend_frame().unwrap();

    let mut truncated_header: Option<Vec<u8>> = None;
    let mut previous_incompleted_data: Option<(usize, Vec<u8>)> = None;

    let res = frame.parse_frame_header(previous_incompleted_data.take(), truncated_header.take());
    assert!(res.is_ok());

    for parsed in res.unwrap() {
        match parsed {
            ParsedStreamData::Completed(data) => {
                assert!(data.len() == test_body_len);
                assert!(String::from_utf8_lossy(&data) == input);
            }
            ParsedStreamData::Incompleted(_size, _data) => {}
            ParsedStreamData::TruncatedHeader(_hdr) => {}
        }
    }
}

#[test]
fn write_header_large_splitted_data() {
    let packet_size = 256;
    let messages_quantity = 1700000;
    let test_content = "Une nouvelle phrase test d'un certain nombre de bytes".to_string();
    assert!(test_content.len() * messages_quantity > packet_size);

    let received = drive(test_content.as_bytes(), messages_quantity, packet_size);
    assert!(received.len() == messages_quantity);
    assert!(String::from_utf8_lossy(&received[0]) == test_content);
    assert!(String::from_utf8_lossy(&received[messages_quantity - 1]) == test_content);
}

#[test]
fn send_messages_larger_than_packet_size() {
    let packet_size = 128;
    let messages_quantity = 100000;
    let test_content = LONG_CONTENT.to_string();
    assert!(test_content.len() * messages_quantity > packet_size);
    assert!(test_content.len() > packet_size);

    let received = drive(test_content.as_bytes(), messages_quantity, packet_size);
    assert!(received.len() == messages_quantity);
    assert!(String::from_utf8_lossy(&received[0]) == test_content);
}

#[test]
fn send_messages_larger_than_packet_size_with_very_tiny_packet() {
    let packet_size = HDR_SIZE;
    let messages_quantity = 1010;
    let test_content = LONG_CONTENT.to_string();
    assert!(test_content.len() * messages_quantity > packet_size);
    assert!(test_content.len() > packet_size);

    let received = drive(test_content.as_bytes(), messages_quantity, packet_size);
    assert!(received.len() == messages_quantity);
    assert!(String::from_utf8_lossy(&received[0]) == test_content);
}

#[test]
fn send_messages_larger_than_packet_size_with_very_tiny_packet_inferior_to_hdr_size() {
    let packet_size = HDR_SIZE - 1;
    let messages_quantity = 10;
    let test_content = LONG_CONTENT.to_string();
    assert!(test_content.len() * messages_quantity > packet_size);
    assert!(test_content.len() > packet_size);

    let received = drive(test_content.as_bytes(), messages_quantity, packet_size);
    assert!(received.len() == messages_quantity);
    assert!(String::from_utf8_lossy(&received[0]) == test_content);
}

#[test]
fn send_messages_larger_than_packet_size_with_very_tiny_packet_inferior_to_hdr_size_2() {
    let packet_size = HDR_SIZE - 2;
    let messages_quantity = 1000;
    let test_content = LONG_CONTENT.to_string();
    assert!(test_content.len() * messages_quantity > packet_size);
    assert!(test_content.len() > packet_size);

    let received = drive(test_content.as_bytes(), messages_quantity, packet_size);
    assert!(received.len() == messages_quantity);
    assert!(String::from_utf8_lossy(&received[0]) == test_content);
}

#[test]
fn send_messages_larger_than_packet_size_with_very_tiny_packet_inferior_to_hdr_size_3() {
    let packet_size = HDR_SIZE - 3;
    let messages_quantity = 1001;
    let test_content = LONG_CONTENT.to_string();
    assert!(test_content.len() * messages_quantity > packet_size);
    assert!(test_content.len() > packet_size);

    let received = drive(test_content.as_bytes(), messages_quantity, packet_size);
    assert!(received.len() == messages_quantity);
    assert!(String::from_utf8_lossy(&received[0]) == test_content);
}

#[test]
fn send_messages_larger_than_packet_size_with_very_tiny_packet_inferior_to_hdr_size_4() {
    let packet_size = HDR_SIZE - 4;
    let messages_quantity = 1001;
    let test_content = LONG_CONTENT.to_string();
    assert!(test_content.len() * messages_quantity > packet_size);
    assert!(test_content.len() > packet_size);

    let received = drive(test_content.as_bytes(), messages_quantity, packet_size);
    assert!(received.len() == messages_quantity);
    assert!(String::from_utf8_lossy(&received[0]) == test_content);
}

#[test]
fn send_messages_larger_than_packet_size_with_very_tiny_packet_inferior_to_hdr_size_5() {
    let packet_size = HDR_SIZE - 5;
    let messages_quantity = 1001;
    let test_content = LONG_CONTENT.to_string();
    assert!(test_content.len() * messages_quantity > packet_size);
    assert!(test_content.len() > packet_size);

    let received = drive(test_content.as_bytes(), messages_quantity, packet_size);
    assert!(received.len() == messages_quantity);
    assert!(String::from_utf8_lossy(&received[0]) == test_content);
}

#[test]
fn send_messages_larger_than_packet_size_with_very_tiny_packet_inferior_to_hdr_size_6() {
    let packet_size = HDR_SIZE - 6;
    let messages_quantity = 1001;
    let test_content = LONG_CONTENT.to_string();
    assert!(test_content.len() * messages_quantity > packet_size);
    assert!(test_content.len() > packet_size);

    let received = drive(test_content.as_bytes(), messages_quantity, packet_size);
    assert!(received.len() == messages_quantity);
    assert!(String::from_utf8_lossy(&received[0]) == test_content);
}

#[test]
fn send_messages_larger_than_packet_size_with_very_tiny_packet_inferior_to_hdr_size_7() {
    let packet_size = HDR_SIZE - 7;
    let messages_quantity = 1001;
    let test_content = LONG_CONTENT.to_string();
    assert!(test_content.len() * messages_quantity > packet_size);
    assert!(test_content.len() > packet_size);

    let received = drive(test_content.as_bytes(), messages_quantity, packet_size);
    assert!(received.len() == messages_quantity);
    assert!(String::from_utf8_lossy(&received[0]) == test_content);
}

#[test]
fn send_messages_larger_than_packet_size_with_very_tiny_packet_inferior_to_hdr_size_8() {
    let packet_size = HDR_SIZE - 8;
    let messages_quantity = 1003;
    let test_content = LONG_CONTENT.to_string();
    assert!(test_content.len() * messages_quantity > packet_size);
    assert!(test_content.len() > packet_size);

    let received = drive(test_content.as_bytes(), messages_quantity, packet_size);
    assert!(received.len() == messages_quantity);
    assert!(String::from_utf8_lossy(&received[0]) == test_content);
}

#[test]
fn send_messages_larger_than_packet_size_with_very_tiny_packet_inferior_to_hdr_size_10() {
    let packet_size = HDR_SIZE - 10;
    let messages_quantity = 1003;
    let test_content = LONG_CONTENT.to_string();
    assert!(test_content.len() * messages_quantity > packet_size);
    assert!(test_content.len() > packet_size);

    let received = drive(test_content.as_bytes(), messages_quantity, packet_size);
    assert!(received.len() == messages_quantity);
    assert!(String::from_utf8_lossy(&received[0]) == test_content);
}

#[test]
fn send_messages_larger_than_packet_size_with_very_tiny_packet_inferior_to_hdr_size_11() {
    let packet_size = HDR_SIZE - 11;
    let messages_quantity = 1013;
    let test_content = LONG_CONTENT.to_string();
    assert!(test_content.len() * messages_quantity > packet_size);
    assert!(test_content.len() > packet_size);

    let received = drive(test_content.as_bytes(), messages_quantity, packet_size);
    assert!(received.len() == messages_quantity);
    assert!(String::from_utf8_lossy(&received[0]) == test_content);
}

#[test]
fn send_messages_of_zero_len() {
    let packet_size = 128;
    let messages_quantity = 100000;
    let test_content = "".to_string();
    assert!(test_content.len() == 0);

    let received = drive(test_content.as_bytes(), messages_quantity, packet_size);
    assert!(received.len() == messages_quantity);
    assert!(received[0].is_empty());
    assert!(received[messages_quantity - 1].is_empty());
}
