use evt3_core::decoder::Evt3Decoder;
use evt3_core::file::words_from_le_bytes;
use evt3_core::types::CdEvent;

fn geometry_after(line: &str) -> (u32, u32) {
    let mut decoder = Evt3Decoder::new();
    decoder.parse_header_line(line);
    (decoder.metadata.width, decoder.metadata.height)
}

#[test]
fn test_parse_header_line_format() {
    let mut decoder = Evt3Decoder::new();
    decoder.parse_header_line("% format EVT3;width=640;height=480");
    assert_eq!(decoder.metadata.width, 640);
    assert_eq!(decoder.metadata.height, 480);
}

#[test]
fn test_parse_header_line_geometry() {
    let mut decoder = Evt3Decoder::new();
    decoder.parse_header_line("% geometry 320x240");
    assert_eq!(decoder.metadata.width, 320);
    assert_eq!(decoder.metadata.height, 240);
}

#[test]
fn format_line_is_trimmed_at_the_right() {
    assert_eq!(geometry_after("% format EVT3;width=640;height=480\n"), (640, 480));
    assert_eq!(geometry_after("% format EVT3;width=640;height=480 \t\r\n"), (640, 480));
    assert_eq!(geometry_after("% format EVT3;width=640;height=480\u{a0}\u{3000}"), (640, 480));
    assert_eq!(geometry_after(" % format EVT3;width=640;height=480"), (1280, 720));
}

#[test]
fn format_line_skips_bad_fields() {
    assert_eq!(geometry_after("% format EVT3;width=abc;height=480"), (1280, 480));
    assert_eq!(geometry_after("% format EVT3;width=640;height="), (640, 720));
    assert_eq!(geometry_after("% format EVT3;width=4294967295;height=4294967296"), (4294967295, 720));
    assert_eq!(geometry_after("% format EVT3;width= 640;height=480"), (1280, 480));
    assert_eq!(geometry_after("% format EVT3;Width=640;height=480"), (1280, 480));
    assert_eq!(geometry_after("% format EVT3;width=+640;height=0480"), (640, 480));
    assert_eq!(geometry_after("% format EVT3;width=-1;height=+"), (1280, 720));
    assert_eq!(geometry_after("% format width=1;;x=2;width=3;height=4=5"), (3, 720));
    assert_eq!(geometry_after("% format EVT3"), (1280, 720));
    assert_eq!(geometry_after("% format "), (1280, 720));
    assert_eq!(geometry_after("% format"), (1280, 720));
    assert_eq!(geometry_after("% format EVT3;width=1;fps=30;height=2;"), (1, 2));
}

#[test]
fn geometry_line_takes_both_or_neither() {
    assert_eq!(geometry_after("% geometry 320x"), (1280, 720));
    assert_eq!(geometry_after("% geometry x240"), (1280, 720));
    assert_eq!(geometry_after("% geometry 320xx240"), (1280, 720));
    assert_eq!(geometry_after("% geometry 320 x 240"), (1280, 720));
    assert_eq!(geometry_after("% geometry 320240"), (1280, 720));
    assert_eq!(geometry_after("% geometry 0x0"), (0, 0));
    assert_eq!(geometry_after("% geometry 320x240\n"), (320, 240));
    assert_eq!(geometry_after("% geometry 4294967296x240"), (1280, 720));
}

#[test]
fn other_lines_change_nothing() {
    assert_eq!(geometry_after("% evt 3.0"), (1280, 720));
    assert_eq!(geometry_after("% evt 2.1"), (1280, 720));
    assert_eq!(geometry_after("% date 2024-01-01"), (1280, 720));
    assert_eq!(geometry_after(""), (1280, 720));
    assert_eq!(geometry_after("%"), (1280, 720));
    assert_eq!(geometry_after("format EVT3;width=640;height=480"), (1280, 720));
}

#[test]
fn parsing_a_line_twice_is_parsing_it_once() {
    for line in [
        "% format EVT3;width=640;height=480",
        "% format EVT3;width=640",
        "% geometry 320x240",
        "% evt 3.0",
        "% format width=1;width=2;height=x",
    ] {
        let mut decoder = Evt3Decoder::new();
        decoder.parse_header_line(line);
        let once = (decoder.metadata.width, decoder.metadata.height);
        decoder.parse_header_line(line);
        assert_eq!((decoder.metadata.width, decoder.metadata.height), once);
    }
}

#[test]
fn format_line_round_trip() {
    for (w, h) in [(0u32, 0u32), (1, 2), (640, 480), (1280, 720), (u32::MAX, 7), (9, u32::MAX)] {
        let mut data = format!("% format EVT3;width={};height={}\n", w, h).into_bytes();
        data.push(0x00);
        data.push(0x80);
        let mut decoder = Evt3Decoder::new();
        let consumed = decoder.parse_header(&data).unwrap();
        assert_eq!(consumed, data.len() - 2);
        assert_eq!((decoder.metadata.width, decoder.metadata.height), (w, h));
        let again = decoder.parse_header(&data).unwrap();
        assert_eq!(again, consumed);
        assert_eq!((decoder.metadata.width, decoder.metadata.height), (w, h));
    }
}

#[test]
fn preamble_ends_at_first_other_byte() {
    let mut decoder = Evt3Decoder::new();
    let data = b"% evt 3.0\n% geometry 320x240\n\x00\x80% geometry 1x1\n";
    assert_eq!(decoder.parse_header(data).unwrap(), 29);
    assert_eq!((decoder.metadata.width, decoder.metadata.height), (320, 240));
}

#[test]
fn preamble_ends_with_end_line() {
    let mut decoder = Evt3Decoder::new();
    let data = b"% geometry 320x240\n% end\n% geometry 1x1\n";
    assert_eq!(decoder.parse_header(data).unwrap(), 25);
    assert_eq!((decoder.metadata.width, decoder.metadata.height), (320, 240));

    let mut decoder = Evt3Decoder::new();
    let data = b"% endless geometry\n% geometry 1x1\n";
    assert_eq!(decoder.parse_header(data).unwrap(), 19);
    assert_eq!((decoder.metadata.width, decoder.metadata.height), (1280, 720));
}

#[test]
fn preamble_without_final_line_feed() {
    let mut decoder = Evt3Decoder::new();
    let data = b"% geometry 320x240";
    assert_eq!(decoder.parse_header(data).unwrap(), data.len());
    assert_eq!((decoder.metadata.width, decoder.metadata.height), (320, 240));
}

#[test]
fn no_preamble() {
    let mut decoder = Evt3Decoder::new();
    assert_eq!(decoder.parse_header(b"").unwrap(), 0);
    assert_eq!(decoder.parse_header(&[0x00, 0x80, 0x25]).unwrap(), 0);
    assert_eq!((decoder.metadata.width, decoder.metadata.height), (1280, 720));
}

#[test]
fn preamble_line_that_is_not_text_is_passed_over() {
    // The second line is not valid UTF-8: it states nothing, and the lines
    // around it are read as ever.
    let mut decoder = Evt3Decoder::new();
    let data = b"% geometry 320x240\n% \xff\xfe\n% format EVT3;height=7\n\x00\x80";
    assert_eq!(decoder.parse_header(data).unwrap(), data.len() - 2);
    assert_eq!((decoder.metadata.width, decoder.metadata.height), (320, 7));

    let mut decoder = Evt3Decoder::new();
    assert_eq!(decoder.parse_header(&[0x25, 0xFF]).unwrap(), 2);
    assert_eq!((decoder.metadata.width, decoder.metadata.height), (1280, 720));

    // A geometry among bytes that are no text is not read.
    let mut decoder = Evt3Decoder::new();
    let data = b"% geometry 320x240\xff\n\x00\x80";
    assert_eq!(decoder.parse_header(data).unwrap(), data.len() - 2);
    assert_eq!((decoder.metadata.width, decoder.metadata.height), (1280, 720));
}

#[test]
fn end_line_is_told_by_its_first_bytes() {
    let mut decoder = Evt3Decoder::new();
    let data = b"% end \xff\xfe\n% geometry 1x1\n";
    assert_eq!(decoder.parse_header(data).unwrap(), 9);
    assert_eq!((decoder.metadata.width, decoder.metadata.height), (1280, 720));

    let mut decoder = Evt3Decoder::new();
    let data = b"% en\n% geometry 3x4\n% end";
    assert_eq!(decoder.parse_header(data).unwrap(), data.len());
    assert_eq!((decoder.metadata.width, decoder.metadata.height), (3, 4));
}

#[test]
fn file_with_a_preamble_line_that_is_not_text_is_decoded() {
    let mut data = b"% geometry 320x240\n% \xff\xfe\n".to_vec();
    for word in [0x8000u16, 0x6064, 0x0032, 0x2864] {
        data.extend_from_slice(&word.to_le_bytes());
    }
    let mut decoder = Evt3Decoder::new();
    let result = decoder.decode_file(&data).unwrap();
    assert_eq!(result.metadata.width, 320);
    assert_eq!(result.metadata.height, 240);
    assert_eq!(result.cd_events, vec![CdEvent::new(100, 50, 1, 100)]);
    assert!(result.trigger_events.is_empty());
    assert!(decoder.first_time_base_set);

    // Whatever the bytes are, decoding gives a result.
    for contents in [&[0x25u8, 0xFF][..], &[0x25][..], &[0xFF][..], &b"%%%\n\n"[..]] {
        let mut decoder = Evt3Decoder::new();
        assert!(decoder.decode_file(contents).is_ok());
    }
}

#[test]
fn words_are_little_endian() {
    assert_eq!(words_from_le_bytes(&[0x00, 0x80, 0x64, 0x60]), vec![0x8000, 0x6064]);
    assert_eq!(words_from_le_bytes(&[0x34, 0x12]), vec![0x1234]);
    assert_eq!(words_from_le_bytes(&[0xFF, 0xFF]), vec![0xFFFF]);
    assert_eq!(words_from_le_bytes(&[]), Vec::<u16>::new());
}

#[test]
fn odd_trailing_byte_is_dropped() {
    assert_eq!(words_from_le_bytes(&[0x00, 0x80, 0x64]), vec![0x8000]);
    assert_eq!(words_from_le_bytes(&[0x64]), Vec::<u16>::new());

    let mut decoder = Evt3Decoder::new();
    let data: Vec<u8> = vec![0x00, 0x80, 0x64, 0x60, 0x32, 0x00, 0x64, 0x28, 0x65];
    let result = decoder.decode_file(&data).unwrap();
    assert_eq!(result.cd_events, vec![CdEvent::new(100, 50, 1, 100)]);
    assert!(result.trigger_events.is_empty());
}

#[test]
fn file_with_preamble_is_decoded() {
    let mut data = b"% evt 3.0\n% format EVT3;width=640;height=480\n% end\n".to_vec();
    for word in [0x8000u16, 0x6001, 0xA201, 0x0032, 0x2864] {
        data.extend_from_slice(&word.to_le_bytes());
    }
    let mut decoder = Evt3Decoder::new();
    let result = decoder.decode_file(&data).unwrap();
    assert_eq!(result.metadata.width, 640);
    assert_eq!(result.metadata.height, 480);
    assert_eq!(result.cd_events, vec![CdEvent::new(100, 50, 1, 1)]);
    assert_eq!(result.trigger_events.len(), 1);
    assert_eq!(result.trigger_events[0].id, 2);
    assert_eq!(result.trigger_events[0].value, 1);
    assert_eq!(result.trigger_events[0].timestamp, 1);
    assert_eq!(decoder.metadata.width, 640);
}

#[test]
fn empty_file_gives_empty_result() {
    let mut decoder = Evt3Decoder::new();
    let result = decoder.decode_file(&[]).unwrap();
    assert!(result.cd_events.is_empty());
    assert!(result.trigger_events.is_empty());
    assert_eq!(result.metadata.width, 1280);
    assert_eq!(result.metadata.height, 720);
    assert!(!decoder.first_time_base_set);
}

#[test]
fn file_longer_than_one_chunk() {
    // One ADDR_X word after each TIME_LOW word, over more than two chunks.
    let pairs: usize = 1_100_000;
    let mut data: Vec<u8> = Vec::with_capacity(4 * pairs + 3);
    data.extend_from_slice(&0x8000u16.to_le_bytes());
    for i in 0..pairs {
        data.extend_from_slice(&(0x6000u16 | (i % 4096) as u16).to_le_bytes());
        data.extend_from_slice(&(0x2800u16 | (i % 2048) as u16).to_le_bytes());
    }
    data.push(0x25);
    let mut decoder = Evt3Decoder::new();
    let result = decoder.decode_file(&data).unwrap();
    assert_eq!(result.cd_events.len(), pairs);
    for i in [0usize, 1, 499_999, 500_000, 999_999, 1_000_000, 1_099_999] {
        assert_eq!(
            result.cd_events[i],
            CdEvent::new((i % 2048) as u16, 0, 1, (i % 4096) as u64)
        );
    }
}
