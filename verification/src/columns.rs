//! Events in columns: one vector for each field, as array libraries take
//! them.

use vstd::prelude::*;
use crate::decoder::{cd_output, initial_state, Evt3Decoder};
use crate::file::{le_words, words_from_le_bytes};
use crate::types::{CdEvent, TriggerEvent};

verus! {

/// CD events in columns, with the geometry of the sensor.
#[derive(Debug)]
pub struct Events {
    /// X coordinates.
    pub x: Vec<u16>,
    /// Y coordinates.
    pub y: Vec<u16>,
    /// Polarities.
    pub polarity: Vec<u8>,
    /// Timestamps in microseconds.
    pub timestamp: Vec<u64>,
    /// Sensor width in pixels.
    pub sensor_width: u32,
    /// Sensor height in pixels.
    pub sensor_height: u32,
}

impl Events {
    /// Whether these are the columns of a sequence of CD events: row `i` of
    /// each column holds that field of event `i`.
    pub open spec fn holds(&self, events: Seq<CdEvent>) -> bool {
        &&& self.x@ == events.map_values(|e: CdEvent| e.x)
        &&& self.y@ == events.map_values(|e: CdEvent| e.y)
        &&& self.polarity@ == events.map_values(|e: CdEvent| e.polarity)
        &&& self.timestamp@ == events.map_values(|e: CdEvent| e.timestamp)
    }

    /// Splits CD events into columns.
    pub fn from_cd_events(events: Vec<CdEvent>, width: u32, height: u32) -> (columns: Self)
        ensures
            columns.holds(events@),
            columns.sensor_width == width,
            columns.sensor_height == height,
    {
        let len = events.len();
        let mut x: Vec<u16> = Vec::with_capacity(len);
        let mut y: Vec<u16> = Vec::with_capacity(len);
        let mut polarity: Vec<u8> = Vec::with_capacity(len);
        let mut timestamp: Vec<u64> = Vec::with_capacity(len);
        let mut i: usize = 0;
        while i < len
            invariant
                i <= len == events@.len(),
                x@ == events@.take(i as int).map_values(|e: CdEvent| e.x),
                y@ == events@.take(i as int).map_values(|e: CdEvent| e.y),
                polarity@ == events@.take(i as int).map_values(|e: CdEvent| e.polarity),
                timestamp@ == events@.take(i as int).map_values(|e: CdEvent| e.timestamp),
            decreases len - i,
        {
            let event = events[i];
            x.push(event.x);
            y.push(event.y);
            polarity.push(event.polarity);
            timestamp.push(event.timestamp);
            proof {
                let next = events@.take(i + 1);
                assert(x@ =~= next.map_values(|e: CdEvent| e.x));
                assert(y@ =~= next.map_values(|e: CdEvent| e.y));
                assert(polarity@ =~= next.map_values(|e: CdEvent| e.polarity));
                assert(timestamp@ =~= next.map_values(|e: CdEvent| e.timestamp));
            }
            i += 1;
        }
        assert(events@.take(len as int) =~= events@);
        Events { x, y, polarity, timestamp, sensor_width: width, sensor_height: height }
    }

    /// The number of events.
    pub fn len(&self) -> (n: usize)
        ensures
            n == self.x@.len(),
    {
        self.x.len()
    }

    /// The geometry of the sensor: width, then height.
    pub fn sensor_size(&self) -> (size: (u32, u32))
        ensures
            size == (self.sensor_width, self.sensor_height),
    {
        (self.sensor_width, self.sensor_height)
    }
}

/// Trigger events in columns.
#[derive(Debug)]
pub struct TriggerEvents {
    /// Edge polarities: 0 = falling, 1 = rising.
    pub value: Vec<u8>,
    /// Channel ids.
    pub id: Vec<u8>,
    /// Timestamps in microseconds.
    pub timestamp: Vec<u64>,
}

impl TriggerEvents {
    /// Whether these are the columns of a sequence of trigger events.
    pub open spec fn holds(&self, events: Seq<TriggerEvent>) -> bool {
        &&& self.value@ == events.map_values(|e: TriggerEvent| e.value)
        &&& self.id@ == events.map_values(|e: TriggerEvent| e.id)
        &&& self.timestamp@ == events.map_values(|e: TriggerEvent| e.timestamp)
    }

    /// Splits trigger events into columns.
    pub fn from_trigger_events(events: Vec<TriggerEvent>) -> (columns: Self)
        ensures
            columns.holds(events@),
    {
        let len = events.len();
        let mut value: Vec<u8> = Vec::with_capacity(len);
        let mut id: Vec<u8> = Vec::with_capacity(len);
        let mut timestamp: Vec<u64> = Vec::with_capacity(len);
        let mut i: usize = 0;
        while i < len
            invariant
                i <= len == events@.len(),
                value@ == events@.take(i as int).map_values(|e: TriggerEvent| e.value),
                id@ == events@.take(i as int).map_values(|e: TriggerEvent| e.id),
                timestamp@ == events@.take(i as int).map_values(|e: TriggerEvent| e.timestamp),
            decreases len - i,
        {
            let event = events[i];
            value.push(event.value);
            id.push(event.id);
            timestamp.push(event.timestamp);
            proof {
                let next = events@.take(i + 1);
                assert(value@ =~= next.map_values(|e: TriggerEvent| e.value));
                assert(id@ =~= next.map_values(|e: TriggerEvent| e.id));
                assert(timestamp@ =~= next.map_values(|e: TriggerEvent| e.timestamp));
            }
            i += 1;
        }
        assert(events@.take(len as int) =~= events@);
        TriggerEvents { value, id, timestamp }
    }

    /// The number of events.
    pub fn len(&self) -> (n: usize)
        ensures
            n == self.value@.len(),
    {
        self.value.len()
    }
}

/// Decodes the bytes of a raw stream, without preamble, with a new decoder,
/// and gives the CD events in columns. The geometry is the one given; a last
/// byte without a partner is dropped.
pub fn decode_bytes(data: &[u8], sensor_width: u32, sensor_height: u32) -> (columns: Events)
    ensures
        columns.holds(cd_output(initial_state(), le_words(data@))),
        columns.sensor_width == sensor_width,
        columns.sensor_height == sensor_height,
{
    let words = words_from_le_bytes(data);
    let mut decoder = Evt3Decoder::new();
    decoder.metadata.width = sensor_width;
    decoder.metadata.height = sensor_height;
    let mut cd_events: Vec<CdEvent> = Vec::new();
    let mut trigger_events: Vec<TriggerEvent> = Vec::new();
    decoder.decode_buffer(words.as_slice(), &mut cd_events, &mut trigger_events);
    assert(cd_events@ =~= cd_output(initial_state(), le_words(data@)));
    Events::from_cd_events(cd_events, sensor_width, sensor_height)
}

} // verus!
