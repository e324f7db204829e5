use stream_framer::FrameWriter;
use stream_framer::HeaderParsing;
use stream_framer::Truncating;
use stream_framer::HDR_SIZE;
use stream_framer::compose_header_candidat;
use stream_framer::has_hdr_first;
use stream_framer::has_no_hdr_start;
use stream_framer::is_data_size_truncating_next_header;
use stream_framer::is_header;
use stream_framer::magic_prefix;

#[test]
fn frame_layout_is_magic_len_body() {
    let payload = b"Une phrase test pour voir.";
    let framed = payload.to_vec().prepend_frame().unwrap();
    assert_eq!(framed.len(), HDR_SIZE + payload.len());
    assert_eq!(&framed[..8], magic_prefix().as_slice());
    assert_eq!(&framed[8..12], 26u32.to_be_bytes().as_slice());
    assert_eq!(&framed[12..], payload);
}

#[test]
fn prepend_in_place_matches_consuming_form() {
    let payload = vec![9u8; 300];
    let consumed = payload.clone().prepend_frame().unwrap();
    let mut in_place = payload;
    in_place.prepend_frame_in_place().unwrap();
    assert_eq!(consumed, in_place);
    assert_eq!(&in_place[8..12], 300u32.to_be_bytes().as_slice());
}

#[test]
fn writer_is_pure() {
    let a = b"same input".to_vec().prepend_frame().unwrap();
    let b = b"same input".to_vec().prepend_frame().unwrap();
    assert_eq!(a, b);
}

#[test]
fn is_header_checks_length_and_magic() {
    let mut hdr = magic_prefix();
    hdr.extend_from_slice(&[0, 0, 0, 5]);
    assert!(is_header(&hdr));
    assert!(!is_header(&hdr[..11]));
    let mut corrupted = hdr.clone();
    corrupted[0] = 0x01;
    assert!(!is_header(&corrupted));
}

#[test]
fn compose_header_merges_pending_prefix() {
    let framed = b"abc".to_vec().prepend_frame().unwrap();
    let (consumed, hdr) = compose_header_candidat(&framed[5..], Some(framed[..5].to_vec())).unwrap();
    assert_eq!(consumed, 7);
    assert_eq!(hdr.as_slice(), &framed[..12]);
    let (consumed, hdr) = compose_header_candidat(&framed, None).unwrap();
    assert_eq!(consumed, 12);
    assert_eq!(hdr.as_slice(), &framed[..12]);
}

#[test]
fn has_hdr_first_splits_the_announced_body() {
    match has_hdr_first(3, b"abc".to_vec()) {
        HeaderParsing::Completed(n, body) => {
            assert_eq!(n, 3);
            assert_eq!(body, b"abc");
        }
        _ => panic!("expected a completed body"),
    }
    match has_hdr_first(3, b"abcde".to_vec()) {
        HeaderParsing::OneMessageAndRemains((n, body), rest) => {
            assert_eq!(n, 3);
            assert_eq!(body, b"abc");
            assert_eq!(rest, b"de");
        }
        _ => panic!("expected a message and a remainder"),
    }
    match has_hdr_first(5, b"abc".to_vec()) {
        HeaderParsing::DataTooLittle(body) => {
            assert_eq!(body, b"abc");
        }
        _ => panic!("expected too little data"),
    }
}

#[test]
fn has_no_hdr_start_extends_the_pending_body() {
    match has_no_hdr_start(b"cdef".to_vec(), Some((4, b"ab".to_vec()))) {
        Ok(HeaderParsing::OneMessageAndRemains((n, body), rest)) => {
            assert_eq!(n, 4);
            assert_eq!(body, b"abcd");
            assert_eq!(rest, b"ef");
        }
        _ => panic!("expected a message and a remainder"),
    }
    match has_no_hdr_start(b"cd".to_vec(), Some((4, b"ab".to_vec()))) {
        Ok(HeaderParsing::Completed(n, body)) => {
            assert_eq!(n, 4);
            assert_eq!(body, b"abcd");
        }
        _ => panic!("expected a completed body"),
    }
    match has_no_hdr_start(b"c".to_vec(), Some((4, b"ab".to_vec()))) {
        Ok(HeaderParsing::StartWithNoHeaderAndIncompleted(n, body)) => {
            assert_eq!(n, 4);
            assert_eq!(body, b"abc");
        }
        _ => panic!("expected a still-incomplete body"),
    }
    match has_no_hdr_start(b"abc".to_vec(), None) {
        Err(handed_back) => assert_eq!(handed_back, b"abc"),
        _ => panic!("expected the data handed back"),
    }
}

#[test]
fn truncation_check_merges_short_chunks() {
    let mut pending = Some(vec![0x00u8, 0xF1]);
    match is_data_size_truncating_next_header(vec![0x01, 0xE4], &None, &mut pending) {
        Truncating::Yes(merged) => assert_eq!(merged, vec![0x00, 0xF1, 0x01, 0xE4]),
        _ => panic!("expected a truncation"),
    }
    assert!(pending.is_none());

    let mut pending = Some(vec![0x00u8, 0xF1]);
    match is_data_size_truncating_next_header(vec![7; 10], &None, &mut pending) {
        Truncating::No((handed_on, header_next)) => {
            assert_eq!(handed_on, vec![7; 10]);
            assert!(header_next);
        }
        _ => panic!("expected the chunk handed on"),
    }
    assert_eq!(pending, Some(vec![0x00u8, 0xF1]));

    let mut pending = None;
    match is_data_size_truncating_next_header(vec![7; 3], &Some((9, vec![1, 2])), &mut pending) {
        Truncating::No((handed_on, header_next)) => {
            assert_eq!(handed_on, vec![7; 3]);
            assert!(!header_next);
        }
        _ => panic!("expected the chunk handed on"),
    }
}
