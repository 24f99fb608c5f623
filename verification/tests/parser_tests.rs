use evt3_core::parser::{
    addr_x_get_polarity, addr_x_get_x, addr_y_get_system_type, addr_y_get_y, ext_trigger_get_id,
    ext_trigger_get_value, get_event_type, get_payload, parse_event_type, time_get_value,
    vect_12_get_valid, vect_8_get_valid, vect_base_x_get_polarity, vect_base_x_get_x,
};
use evt3_core::types::{CdEvent, RawEventType, SensorMetadata, TriggerEvent};

#[test]
fn test_addr_y_parsing() {
    // type=0, system_type=0, y=500
    let word: u16 = 0b0000_0_00111110100;
    assert_eq!(addr_y_get_y(word), 500);
    assert_eq!(addr_y_get_system_type(word), 0);

    // type=0, system_type=1, y=100
    let word2: u16 = 0b0000_1_00001100100;
    assert_eq!(addr_y_get_y(word2), 100);
    assert_eq!(addr_y_get_system_type(word2), 1);
}

#[test]
fn test_addr_x_parsing() {
    // type=2, pol=1, x=300
    let word: u16 = 0b0010_1_00100101100;
    assert_eq!(get_event_type(word), 0x2);
    assert_eq!(addr_x_get_x(word), 300);
    assert_eq!(addr_x_get_polarity(word), 1);
}

#[test]
fn test_vect_12_parsing() {
    // type=4, valid=0b101010101010
    let word: u16 = 0b0100_101010101010;
    assert_eq!(get_event_type(word), 0x4);
    assert_eq!(vect_12_get_valid(word), 0b101010101010);
}

#[test]
fn test_time_parsing() {
    // TIME_HIGH type=8, time=0xABC
    let word: u16 = 0b1000_101010111100;
    assert_eq!(get_event_type(word), 0x8);
    assert_eq!(time_get_value(word), 0xABC);
}

#[test]
fn test_ext_trigger_parsing() {
    // type=A, id=2, value=1
    let word: u16 = 0b1010_0010_0000000_1;
    assert_eq!(get_event_type(word), 0xA);
    assert_eq!(ext_trigger_get_id(word), 2);
    assert_eq!(ext_trigger_get_value(word), 1);
}

#[test]
fn test_raw_event_type_parsing() {
    assert_eq!(RawEventType::from_u8(0x0), Some(RawEventType::AddrY));
    assert_eq!(RawEventType::from_u8(0x2), Some(RawEventType::AddrX));
    assert_eq!(RawEventType::from_u8(0x8), Some(RawEventType::TimeHigh));
    assert_eq!(RawEventType::from_u8(0x1), None); // Reserved
    assert_eq!(RawEventType::from_u8(0x9), None); // Reserved
}

#[test]
fn test_cd_event_creation() {
    let event = CdEvent::new(100, 200, 1, 12345);
    assert_eq!(event.x, 100);
    assert_eq!(event.y, 200);
    assert_eq!(event.polarity, 1);
    assert_eq!(event.timestamp, 12345);
}

#[test]
fn trigger_event_creation() {
    let event = TriggerEvent::new(1, 7, 99);
    assert_eq!(event.value, 1);
    assert_eq!(event.id, 7);
    assert_eq!(event.timestamp, 99);
}

#[test]
fn default_geometry() {
    let m = SensorMetadata::default();
    assert_eq!(m.width, 1280);
    assert_eq!(m.height, 720);
}

#[test]
fn every_code_maps_as_the_taxonomy_says() {
    let known = [
        (0x0u8, RawEventType::AddrY),
        (0x2, RawEventType::AddrX),
        (0x3, RawEventType::VectBaseX),
        (0x4, RawEventType::Vect12),
        (0x5, RawEventType::Vect8),
        (0x6, RawEventType::TimeLow),
        (0x7, RawEventType::Continued4),
        (0x8, RawEventType::TimeHigh),
        (0xA, RawEventType::ExtTrigger),
        (0xE, RawEventType::Others),
        (0xF, RawEventType::Continued12),
    ];
    for (code, kind) in known {
        assert_eq!(RawEventType::from_u8(code), Some(kind));
        assert_eq!(kind.code(), code);
        assert_eq!(parse_event_type((code as u16) << 12 | 0x0ABC), Some(kind));
    }
    for code in [0x1u8, 0x9, 0xB, 0xC, 0xD, 0x10, 0xFF] {
        assert_eq!(RawEventType::from_u8(code), None);
    }
    assert_eq!(parse_event_type(0x1FFF), None);
    assert_eq!(parse_event_type(0xD000), None);
}

#[test]
fn fields_of_extreme_words() {
    assert_eq!(get_event_type(0xFFFF), 0xF);
    assert_eq!(get_event_type(0x0FFF), 0x0);
    assert_eq!(get_payload(0xFFFF), 0x0FFF);
    assert_eq!(get_payload(0xF000), 0);
    assert_eq!(addr_y_get_y(0xFFFF), 0x7FF);
    assert_eq!(addr_x_get_x(0xF800), 0);
    assert_eq!(addr_x_get_polarity(0xF7FF), 0);
    assert_eq!(addr_x_get_polarity(0x0800), 1);
    assert_eq!(vect_base_x_get_x(0x3FFF), 0x7FF);
    assert_eq!(vect_base_x_get_polarity(0x3FFF), 1);
    assert_eq!(vect_base_x_get_polarity(0x37FF), 0);
    assert_eq!(vect_12_get_valid(0x4FFF), 0xFFF);
    assert_eq!(vect_8_get_valid(0x5FFF), 0xFF);
    assert_eq!(vect_8_get_valid(0x5F00), 0);
    assert_eq!(time_get_value(0x6FFF), 0xFFF);
    assert_eq!(ext_trigger_get_id(0xAF00), 15);
    assert_eq!(ext_trigger_get_id(0xA0FF), 0);
    assert_eq!(ext_trigger_get_value(0xAFFE), 0);
    assert_eq!(ext_trigger_get_value(0xA001), 1);
}
