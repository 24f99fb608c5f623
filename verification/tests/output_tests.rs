use evt3_core::columns::{decode_bytes, Events, TriggerEvents};
use evt3_core::output::{
    write_binary, write_csv, write_trigger_csv, BinaryWriter, CsvWriter, TriggerCsvWriter,
};
use evt3_core::{CdEvent, Evt3Decoder, FieldOrder, OutputError, SensorMetadata, TriggerEvent};

fn invalid_format(text: &str) -> String {
    match FieldOrder::from_str(text) {
        Err(OutputError::InvalidFormat(message)) => message,
        other => panic!("unexpected: {:?}", other),
    }
}

/// A recording in memory: a preamble, then rows of vector bursts under a
/// clock that moves forward.
fn recording() -> Vec<u8> {
    let mut data = b"% evt 3.0\n% format EVT3;width=1280;height=720\n% end\n".to_vec();
    let mut words: Vec<u16> = vec![0x8000];
    for step in 0..600u16 {
        words.push(0x8000 | (step / 100));
        words.push(0x6000 | ((step % 100) * 40));
        words.push(step);
        words.push(0x2800 | (step * 2));
        words.push(0x3000 | step);
        words.push(0x4A5A);
        words.push(0x50F0);
        words.push(0xA101);
    }
    for word in words {
        data.extend_from_slice(&word.to_le_bytes());
    }
    data
}

#[test]
fn test_field_order_parsing() {
    assert_eq!(FieldOrder::from_str("x,y,p,t").unwrap(), FieldOrder::XYPT);
    assert_eq!(FieldOrder::from_str("t,x,y,p").unwrap(), FieldOrder::TXYP);
    assert_eq!(FieldOrder::from_str("x,y,t,p").unwrap(), FieldOrder::XYTP);
    assert_eq!(
        FieldOrder::from_str("X, Y, P, T").unwrap(),
        FieldOrder::XYPT
    );
}

#[test]
fn test_field_order_invalid() {
    assert!(FieldOrder::from_str("x,y,z,t").is_err());
    assert!(FieldOrder::from_str("x,y,p").is_err());
    assert!(FieldOrder::from_str("x,x,y,t").is_err());
}

#[test]
fn test_csv_writer() {
    let output;
    {
        let mut writer = CsvWriter::new(FieldOrder::XYPT);
        writer
            .write_header(Some(&SensorMetadata {
                width: 640,
                height: 480,
            }))
            .unwrap();
        writer
            .write_events(&[
                CdEvent::new(100, 200, 1, 12345),
                CdEvent::new(101, 201, 0, 12346),
            ])
            .unwrap();
        writer.flush().unwrap();
        output = writer.into_bytes();
    }

    let output_str = String::from_utf8(output).unwrap();
    assert!(output_str.contains("%geometry:640,480"));
    assert!(output_str.contains("100,200,1,12345"));
    assert!(output_str.contains("101,201,0,12346"));
}

#[test]
fn test_csv_writer_txyp_order() {
    let output;
    {
        let mut writer = CsvWriter::new(FieldOrder::TXYP);
        writer
            .write_events(&[CdEvent::new(100, 200, 1, 12345)])
            .unwrap();
        writer.flush().unwrap();
        output = writer.into_bytes();
    }

    let output_str = String::from_utf8(output).unwrap();
    assert!(output_str.contains("12345,100,200,1"));
}

#[test]
fn test_timestamps_monotonic() {
    let mut decoder = Evt3Decoder::new();
    let result = decoder.decode_file(&recording()).expect("Failed to decode file");

    let mut last_time = 0u64;
    for (i, event) in result.cd_events.iter().enumerate() {
        assert!(
            event.timestamp >= last_time,
            "Timestamp decreased at event {}: {} -> {}",
            i,
            last_time,
            event.timestamp
        );
        last_time = event.timestamp;
    }
    assert_eq!(result.cd_events.len(), 600 * 11);
    assert_eq!(last_time, 5 * 4096 + 99 * 40);
}

#[test]
fn test_coordinates_in_bounds() {
    let mut decoder = Evt3Decoder::new();
    let result = decoder.decode_file(&recording()).expect("Failed to decode file");

    for (i, event) in result.cd_events.iter().enumerate() {
        assert!(
            event.x < result.metadata.width as u16,
            "Event {} x={} exceeds width {}",
            i,
            event.x,
            result.metadata.width
        );
        assert!(
            event.y < result.metadata.height as u16,
            "Event {} y={} exceeds height {}",
            i,
            event.y,
            result.metadata.height
        );
        assert!(
            event.polarity <= 1,
            "Event {} has invalid polarity {}",
            i,
            event.polarity
        );
    }
    assert_eq!(result.trigger_events.len(), 600);
}

#[test]
fn test_field_order_formats() {
    let mut decoder = Evt3Decoder::new();
    let result = decoder.decode_file(&recording()).expect("Failed to decode file");

    let events: Vec<_> = result.cd_events.iter().take(10).cloned().collect();

    let output_xypt;
    {
        let mut writer = CsvWriter::new(FieldOrder::XYPT);
        writer.write_events(&events).unwrap();
        writer.flush().unwrap();
        output_xypt = writer.into_bytes();
    }
    let xypt_str = String::from_utf8(output_xypt).unwrap();
    assert!(xypt_str.lines().nth(1).unwrap().split(',').count() == 4);

    let output_txyp;
    {
        let mut writer = CsvWriter::new(FieldOrder::TXYP);
        writer.write_events(&events).unwrap();
        writer.flush().unwrap();
        output_txyp = writer.into_bytes();
    }
    let txyp_str = String::from_utf8(output_txyp).unwrap();
    assert!(txyp_str.lines().nth(1).unwrap().split(',').count() == 4);
}

#[test]
fn test_binary_output() {
    let mut decoder = Evt3Decoder::new();
    let result = decoder.decode_file(&recording()).expect("Failed to decode file");

    let data = write_binary(&result.cd_events, &result.metadata).unwrap();
    assert_eq!(&data[0..8], b"EVT3BIN\0");

    let version = u32::from_le_bytes([data[8], data[9], data[10], data[11]]);
    assert_eq!(version, 1);

    let width = u32::from_le_bytes([data[12], data[13], data[14], data[15]]);
    let height = u32::from_le_bytes([data[16], data[17], data[18], data[19]]);
    assert_eq!(width, 1280);
    assert_eq!(height, 720);

    let count = u64::from_le_bytes([
        data[20], data[21], data[22], data[23], data[24], data[25], data[26], data[27],
    ]);
    assert_eq!(count, result.cd_events.len() as u64);
    assert_eq!(data.len(), 28 + 14 * result.cd_events.len());
}

#[test]
fn field_order_names_and_spacing() {
    assert_eq!(FieldOrder::from_str("x,y,pol,time").unwrap(), FieldOrder::XYPT);
    assert_eq!(FieldOrder::from_str("x,y,polarity,timestamp").unwrap(), FieldOrder::XYPT);
    assert_eq!(FieldOrder::from_str(" Timestamp ,\tX,y , POL\n").unwrap(), FieldOrder::TXYP);
    assert_eq!(FieldOrder::from_str("\u{a0}x\u{3000},y,t,p").unwrap(), FieldOrder::XYTP);
    assert_eq!(FieldOrder::from_str("y,x,p,t").unwrap(), FieldOrder::Custom([1, 0, 2, 3]));
    assert_eq!(FieldOrder::from_str("t,p,y,x").unwrap(), FieldOrder::Custom([3, 2, 1, 0]));
    assert_eq!(FieldOrder::from_str("p,t,x,y").unwrap(), FieldOrder::Custom([2, 3, 0, 1]));
    assert_eq!(FieldOrder::default(), FieldOrder::XYPT);
}

#[test]
fn field_order_error_messages() {
    let four = "Format must have exactly 4 fields: x, y, p, t";
    assert_eq!(invalid_format("x,y,p"), four);
    assert_eq!(invalid_format(""), four);
    assert_eq!(invalid_format("x,y,p,t,"), four);
    assert_eq!(invalid_format("x,y,p,t,x"), four);
    assert_eq!(invalid_format("a,b,c"), four);
    assert_eq!(invalid_format("x,y,z,t"), "Unknown field: z. Use x, y, p, t");
    assert_eq!(invalid_format("x,y, Zed ,t"), "Unknown field: zed. Use x, y, p, t");
    assert_eq!(invalid_format("x,,p,t"), "Unknown field: . Use x, y, p, t");
    assert_eq!(invalid_format("x,x,y,t"), "Duplicate field: x");
    assert_eq!(invalid_format("x,y,p,POL"), "Duplicate field: pol");
    assert_eq!(invalid_format("t,y,p,time"), "Duplicate field: time");
    assert_eq!(invalid_format("x,x,z,t"), "Duplicate field: x");
    assert_eq!(invalid_format("x,z,x,t"), "Unknown field: z. Use x, y, p, t");
    assert_eq!(invalid_format("\u{c4},y,p,t"), "Unknown field: \u{e4}. Use x, y, p, t");
}

#[test]
fn field_order_from_names() {
    let names = |list: &[&str]| list.iter().map(|s| s.to_string()).collect::<Vec<String>>();
    assert_eq!(FieldOrder::from_names(&names(&["x", "y", "p", "t"])).unwrap(), FieldOrder::XYPT);
    assert_eq!(
        FieldOrder::from_names(&names(&["timestamp", "x", "y", "polarity"])).unwrap(),
        FieldOrder::TXYP
    );
    assert_eq!(
        FieldOrder::from_names(&names(&["y", "t", "x", "p"])).unwrap(),
        FieldOrder::Custom([1, 3, 0, 2])
    );
    // Names are taken as they are: no trimming and no change of case here.
    assert!(FieldOrder::from_names(&names(&["X", "y", "p", "t"])).is_err());
    assert!(FieldOrder::from_names(&names(&[" x", "y", "p", "t"])).is_err());
    assert!(FieldOrder::from_names(&names(&["x", "y", "p"])).is_err());
}

#[test]
fn field_order_headers() {
    assert_eq!(FieldOrder::XYPT.header(), "x,y,polarity,timestamp");
    assert_eq!(FieldOrder::TXYP.header(), "timestamp,x,y,polarity");
    assert_eq!(FieldOrder::XYTP.header(), "x,y,timestamp,polarity");
    assert_eq!(FieldOrder::Custom([3, 2, 1, 0]).header(), "x,y,polarity,timestamp");
}

#[test]
fn field_order_validity() {
    assert!(FieldOrder::XYPT.is_valid());
    assert!(FieldOrder::Custom([3, 3, 3, 3]).is_valid());
    assert!(!FieldOrder::Custom([0, 1, 2, 4]).is_valid());
}

#[test]
fn csv_exact_bytes_in_each_order() {
    let events = [CdEvent::new(0, 2047, 1, u64::MAX), CdEvent::new(65535, 0, 0, 0)];
    let meta = SensorMetadata { width: 0, height: u32::MAX };
    let bytes = write_csv(&events, Some(&meta), FieldOrder::XYPT).unwrap();
    assert_eq!(
        String::from_utf8(bytes).unwrap(),
        "%geometry:0,4294967295\n0,2047,1,18446744073709551615\n65535,0,0,0\n"
    );
    let bytes = write_csv(&events, None, FieldOrder::TXYP).unwrap();
    assert_eq!(
        String::from_utf8(bytes).unwrap(),
        "18446744073709551615,0,2047,1\n0,65535,0,0\n"
    );
    let bytes = write_csv(&events, None, FieldOrder::XYTP).unwrap();
    assert_eq!(
        String::from_utf8(bytes).unwrap(),
        "0,2047,18446744073709551615,1\n65535,0,0,0\n"
    );
    let bytes = write_csv(&events, None, FieldOrder::Custom([2, 3, 1, 0])).unwrap();
    assert_eq!(
        String::from_utf8(bytes).unwrap(),
        "1,18446744073709551615,2047,0\n0,0,0,65535\n"
    );
    let bytes = write_csv(&[], None, FieldOrder::XYPT).unwrap();
    assert!(bytes.is_empty());
}

#[test]
fn csv_decimal_digits() {
    for n in [0u64, 1, 9, 10, 11, 99, 100, 101, 1000, 4096, 123456789, 10_000_000_000] {
        let bytes = write_csv(&[CdEvent::new(7, 8, 0, n)], None, FieldOrder::TXYP).unwrap();
        assert_eq!(String::from_utf8(bytes).unwrap(), format!("{},7,8,0\n", n));
    }
}

#[test]
fn csv_writer_header_is_optional() {
    let mut writer = CsvWriter::new(FieldOrder::XYPT);
    writer.write_header(None).unwrap();
    writer.flush().unwrap();
    assert!(writer.into_bytes().is_empty());
}

#[test]
fn trigger_csv_exact_bytes() {
    let events = [TriggerEvent::new(1, 2, 300), TriggerEvent::new(0, 15, 0)];
    let bytes = write_trigger_csv(&events).unwrap();
    assert_eq!(String::from_utf8(bytes).unwrap(), "1,2,300\n0,15,0\n");

    let mut writer = TriggerCsvWriter::new();
    writer.write_events(&events[..1]).unwrap();
    writer.write_events(&events[1..]).unwrap();
    writer.flush().unwrap();
    assert_eq!(String::from_utf8(writer.into_bytes()).unwrap(), "1,2,300\n0,15,0\n");
}

#[test]
fn binary_exact_bytes() {
    let meta = SensorMetadata { width: 0x0102_0304, height: 720 };
    let events = [CdEvent::new(0x1234, 0x0567, 1, 0x0102_0304_0506_0708)];
    let bytes = write_binary(&events, &meta).unwrap();
    let expected: Vec<u8> = vec![
        b'E', b'V', b'T', b'3', b'B', b'I', b'N', 0, // magic
        1, 0, 0, 0, // version
        0x04, 0x03, 0x02, 0x01, // width
        0xD0, 0x02, 0, 0, // height
        1, 0, 0, 0, 0, 0, 0, 0, // count
        0x34, 0x12, // x
        0x67, 0x05, // y
        1, 0, // polarity, padding
        0x08, 0x07, 0x06, 0x05, 0x04, 0x03, 0x02, 0x01, // timestamp
    ];
    assert_eq!(bytes, expected);

    let mut writer = BinaryWriter::new();
    writer.write_header(&meta, 1).unwrap();
    writer.write_events(&events).unwrap();
    writer.flush().unwrap();
    assert_eq!(writer.into_bytes(), expected);
}

#[test]
fn output_error_messages() {
    assert_eq!(OutputError::Io("disk full".to_string()).message(), "IO error: disk full");
    assert_eq!(
        OutputError::InvalidFormat("x".to_string()).message(),
        "Invalid format: x"
    );
}

#[test]
fn events_in_columns() {
    let events = vec![CdEvent::new(1, 2, 1, 30), CdEvent::new(4, 5, 0, 60)];
    let columns = Events::from_cd_events(events, 640, 480);
    assert_eq!(columns.x, vec![1, 4]);
    assert_eq!(columns.y, vec![2, 5]);
    assert_eq!(columns.polarity, vec![1, 0]);
    assert_eq!(columns.timestamp, vec![30, 60]);
    assert_eq!(columns.len(), 2);
    assert_eq!(columns.sensor_size(), (640, 480));

    let triggers = vec![TriggerEvent::new(1, 2, 3), TriggerEvent::new(0, 5, 6)];
    let columns = TriggerEvents::from_trigger_events(triggers);
    assert_eq!(columns.value, vec![1, 0]);
    assert_eq!(columns.id, vec![2, 5]);
    assert_eq!(columns.timestamp, vec![3, 6]);
    assert_eq!(columns.len(), 2);

    let empty = Events::from_cd_events(Vec::new(), 1, 2);
    assert_eq!(empty.len(), 0);
}

#[test]
fn bytes_decoded_into_columns() {
    let data: Vec<u8> = vec![0x00, 0x80, 0x64, 0x60, 0x32, 0x00, 0x64, 0x28, 0x99];
    let columns = decode_bytes(&data, 320, 240);
    assert_eq!(columns.x, vec![100]);
    assert_eq!(columns.y, vec![50]);
    assert_eq!(columns.polarity, vec![1]);
    assert_eq!(columns.timestamp, vec![100]);
    assert_eq!(columns.sensor_size(), (320, 240));

    // A preamble is not read here: its bytes are taken as words.
    let columns = decode_bytes(b"% geometry 1x1\n", 320, 240);
    assert_eq!(columns.sensor_size(), (320, 240));
}

#[test]
fn field_order_parse_method() {
    let order: FieldOrder = "t,x,y,p".parse().unwrap();
    assert_eq!(order, FieldOrder::TXYP);
    assert!("x,y".parse::<FieldOrder>().is_err());
}

#[test]
fn csv_writer_takes_any_order_until_an_event_is_written() {
    let mut writer = CsvWriter::new(FieldOrder::Custom([9, 9, 9, 9]));
    writer
        .write_header(Some(&SensorMetadata { width: 3, height: 4 }))
        .unwrap();
    writer.write_events(&[]).unwrap();
    writer.flush().unwrap();
    assert_eq!(String::from_utf8(writer.into_bytes()).unwrap(), "%geometry:3,4\n");

    let bytes = write_csv(&[], None, FieldOrder::Custom([0, 0, 0, 7])).unwrap();
    assert!(bytes.is_empty());
}
