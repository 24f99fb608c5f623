//! Event structures and the raw word taxonomy of EVT 3.0.

use vstd::prelude::*;

verus! {

/// A decoded change-detection (CD) event: one pixel reported a brightness
/// change of a given polarity at a given microsecond.
#[derive(Debug, Clone, Copy, PartialEq, Eq, Structural)]
pub struct CdEvent {
    /// X coordinate of the pixel.
    pub x: u16,
    /// Y coordinate of the pixel.
    pub y: u16,
    /// Event polarity: 0 = OFF (decrease), 1 = ON (increase in brightness).
    pub polarity: u8,
    /// Timestamp in microseconds.
    pub timestamp: u64,
}

impl CdEvent {
    /// Creates a new CD event from its four fields.
    #[inline]
    pub fn new(x: u16, y: u16, polarity: u8, timestamp: u64) -> (e: Self)
        ensures
            e == (CdEvent { x, y, polarity, timestamp }),
    {
        CdEvent { x, y, polarity, timestamp }
    }
}

/// An external trigger event: an edge detected on an external trigger signal.
#[derive(Debug, Clone, Copy, PartialEq, Eq, Structural)]
pub struct TriggerEvent {
    /// Edge polarity: 0 = falling edge, 1 = rising edge.
    pub value: u8,
    /// Trigger channel id.
    pub id: u8,
    /// Timestamp in microseconds.
    pub timestamp: u64,
}

impl TriggerEvent {
    /// Creates a new trigger event from its three fields.
    #[inline]
    pub fn new(value: u8, id: u8, timestamp: u64) -> (e: Self)
        ensures
            e == (TriggerEvent { value, id, timestamp }),
    {
        TriggerEvent { value, id, timestamp }
    }
}

/// The word types of EVT 3.0. The four most significant bits of each 16-bit
/// word hold the code of one of them, or a reserved code.
#[derive(Debug, Clone, Copy, PartialEq, Eq, Structural)]
pub enum RawEventType {
    /// Y coordinate and system type (code 0x0).
    AddrY,
    /// Single event with X coordinate and polarity (code 0x2).
    AddrX,
    /// Base X coordinate for the vector words that follow (code 0x3).
    VectBaseX,
    /// Vector word with 12 validity bits (code 0x4).
    Vect12,
    /// Vector word with 8 validity bits (code 0x5).
    Vect8,
    /// Lower 12 bits of the timestamp (code 0x6).
    TimeLow,
    /// Continuation word with 4 bits of data (code 0x7).
    Continued4,
    /// Upper 12 bits of the timestamp (code 0x8).
    TimeHigh,
    /// External trigger (code 0xA).
    ExtTrigger,
    /// Extension word (code 0xE).
    Others,
    /// Continuation word with 12 bits of data (code 0xF).
    Continued12,
}

/// The word type that a 4-bit code stands for, if it stands for any.
pub open spec fn event_type_of_code(value: u8) -> Option<RawEventType> {
    if value == 0x0 {
        Some(RawEventType::AddrY)
    } else if value == 0x2 {
        Some(RawEventType::AddrX)
    } else if value == 0x3 {
        Some(RawEventType::VectBaseX)
    } else if value == 0x4 {
        Some(RawEventType::Vect12)
    } else if value == 0x5 {
        Some(RawEventType::Vect8)
    } else if value == 0x6 {
        Some(RawEventType::TimeLow)
    } else if value == 0x7 {
        Some(RawEventType::Continued4)
    } else if value == 0x8 {
        Some(RawEventType::TimeHigh)
    } else if value == 0xA {
        Some(RawEventType::ExtTrigger)
    } else if value == 0xE {
        Some(RawEventType::Others)
    } else if value == 0xF {
        Some(RawEventType::Continued12)
    } else {
        None
    }
}

impl RawEventType {
    /// The 4-bit code of this word type.
    pub open spec fn spec_code(self) -> u8 {
        match self {
            RawEventType::AddrY => 0x0,
            RawEventType::AddrX => 0x2,
            RawEventType::VectBaseX => 0x3,
            RawEventType::Vect12 => 0x4,
            RawEventType::Vect8 => 0x5,
            RawEventType::TimeLow => 0x6,
            RawEventType::Continued4 => 0x7,
            RawEventType::TimeHigh => 0x8,
            RawEventType::ExtTrigger => 0xA,
            RawEventType::Others => 0xE,
            RawEventType::Continued12 => 0xF,
        }
    }

    /// The 4-bit code of this word type.
    #[verifier::when_used_as_spec(spec_code)]
    pub fn code(self) -> (c: u8)
        ensures
            c == self.spec_code(),
            c < 16,
    {
        match self {
            RawEventType::AddrY => 0x0,
            RawEventType::AddrX => 0x2,
            RawEventType::VectBaseX => 0x3,
            RawEventType::Vect12 => 0x4,
            RawEventType::Vect8 => 0x5,
            RawEventType::TimeLow => 0x6,
            RawEventType::Continued4 => 0x7,
            RawEventType::TimeHigh => 0x8,
            RawEventType::ExtTrigger => 0xA,
            RawEventType::Others => 0xE,
            RawEventType::Continued12 => 0xF,
        }
    }

    /// Reads a word type from a 4-bit code. Reserved codes, and values above
    /// 15, give `None`.
    #[inline]
    pub fn from_u8(value: u8) -> (t: Option<Self>)
        ensures
            t == event_type_of_code(value),
    {
        match value {
            0x0 => Some(RawEventType::AddrY),
            0x2 => Some(RawEventType::AddrX),
            0x3 => Some(RawEventType::VectBaseX),
            0x4 => Some(RawEventType::Vect12),
            0x5 => Some(RawEventType::Vect8),
            0x6 => Some(RawEventType::TimeLow),
            0x7 => Some(RawEventType::Continued4),
            0x8 => Some(RawEventType::TimeHigh),
            0xA => Some(RawEventType::ExtTrigger),
            0xE => Some(RawEventType::Others),
            0xF => Some(RawEventType::Continued12),
            _ => None,
        }
    }
}

/// A code names a word type exactly when it is that type's own code.
pub proof fn lemma_code_round_trip(value: u8, t: RawEventType)
    ensures
        event_type_of_code(t.spec_code()) == Some(t),
        event_type_of_code(value) == Some(t) <==> value == t.spec_code(),
{
}

/// Sensor geometry, as read from a file's text preamble.
#[derive(Debug, Clone, Copy, PartialEq, Eq, Structural)]
pub struct SensorMetadata {
    /// Sensor width in pixels.
    pub width: u32,
    /// Sensor height in pixels.
    pub height: u32,
}

impl Default for SensorMetadata {
    /// The geometry assumed when a stream does not state one: 1280 x 720.
    fn default() -> (m: Self)
        ensures
            m == (SensorMetadata { width: 1280, height: 720 }),
    {
        SensorMetadata { width: 1280, height: 720 }
    }
}

/// What decoding a whole stream gives.
#[derive(Debug)]
pub struct DecodeResult {
    /// Decoded CD events, in stream order.
    pub cd_events: Vec<CdEvent>,
    /// Decoded trigger events, in stream order.
    pub trigger_events: Vec<TriggerEvent>,
    /// Sensor geometry.
    pub metadata: SensorMetadata,
}

} // verus!
