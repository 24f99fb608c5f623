//! Output formats for decoded CD and trigger events.
//!
//! The writers here build the bytes of a file in memory: CSV text, with the
//! fields of an event in a chosen order, or a packed binary layout. Writing
//! the bytes to disk is left to the caller.

use vstd::prelude::*;
use vstd::string::StringExecFns;
use vstd::string::StringSliceAdditionalSpecFns;
use crate::text::{chars_of, decimal_digits, find_char, first_index, lemma_first_index,
    push_decimal, trim, trim_end_at, trim_start_at};
use crate::types::{CdEvent, SensorMetadata, TriggerEvent};

verus! {

/// The byte that separates the fields of a CSV line: `,`.
pub const COMMA: u8 = 0x2C;

/// The byte that ends a CSV line: the line feed.
pub const NEWLINE: u8 = 0x0A;

/// Errors of writing output.
#[derive(Debug)]
pub enum OutputError {
    /// The output could not be written. Holds the message of the failure.
    Io(String),
    /// A format description could not be read.
    InvalidFormat(String),
}

impl OutputError {
    /// The text of this error.
    pub open spec fn spec_message(&self) -> Seq<char> {
        match self {
            OutputError::Io(cause) => "IO error: "@ + cause@,
            OutputError::InvalidFormat(what) => "Invalid format: "@ + what@,
        }
    }

    /// The text of this error.
    pub fn message(&self) -> (text: String)
        ensures
            text@ == self.spec_message(),
    {
        match self {
            OutputError::Io(cause) => String::from_str("IO error: ").concat(cause.as_str()),
            OutputError::InvalidFormat(what) => String::from_str("Invalid format: ").concat(
                what.as_str(),
            ),
        }
    }
}

/// The order of the four fields of a CD event in a CSV line. The fields are
/// numbered: x is 0, y is 1, polarity is 2, timestamp is 3.
#[derive(Debug, Clone, Copy, PartialEq, Eq)]
pub enum FieldOrder {
    /// x, y, polarity, timestamp.
    XYPT,
    /// timestamp, x, y, polarity.
    TXYP,
    /// x, y, timestamp, polarity.
    XYTP,
    /// Any other order: the number of the field in each of the four places.
    Custom([usize; 4]),
}

impl Default for FieldOrder {
    fn default() -> (order: Self)
        ensures
            order == FieldOrder::XYPT,
    {
        FieldOrder::XYPT
    }
}

/// The text that `str::to_lowercase` gives for a text.
pub uninterp spec fn lowercase_of(s: Seq<char>) -> Seq<char>;

/// Turns a text into lower case.
///
/// This is `str::to_lowercase`. The contract gives its result a name and says
/// nothing more of it.
#[verifier::external_body]
fn to_lowercase(s: &str) -> (lower: String)
    ensures
        lower@ == lowercase_of(s@),
{
    s.to_lowercase()
}

/// The parts of a text between separators. A text without separator is one
/// part.
pub open spec fn split_parts(s: Seq<char>, separator: char) -> Seq<Seq<char>>
    decreases s.len(),
    via split_parts_decreases
{
    let at = first_index(s, separator);
    if at >= s.len() {
        seq![s]
    } else {
        seq![s.take(at)] + split_parts(s.skip(at + 1), separator)
    }
}

#[via_fn]
proof fn split_parts_decreases(s: Seq<char>, separator: char) {
    lemma_first_index(s, separator);
}

/// The field names that a format text holds: its parts between commas, each
/// without the white space around it and in lower case.
pub open spec fn field_names(s: Seq<char>) -> Seq<Seq<char>> {
    split_parts(s, ',').map_values(|part: Seq<char>| lowercase_of(trim(part)))
}

/// The number of the field that a name stands for, if it stands for one.
pub open spec fn field_index(name: Seq<char>) -> Option<int> {
    if name == "x"@ {
        Some(0int)
    } else if name == "y"@ {
        Some(1int)
    } else if name == "p"@ || name == "pol"@ || name == "polarity"@ {
        Some(2int)
    } else if name == "t"@ || name == "time"@ || name == "timestamp"@ {
        Some(3int)
    } else {
        None
    }
}

/// What is wrong with the name in place `i`, if anything: it stands for no
/// field, or for the field of an earlier place.
pub open spec fn fault_at(names: Seq<Seq<char>>, i: int) -> Option<Seq<char>> {
    match field_index(names[i]) {
        None => Some("Unknown field: "@ + names[i] + ". Use x, y, p, t"@),
        Some(k) => if exists|j: int| 0 <= j < i && field_index(names[j]) == Some(k) {
            Some("Duplicate field: "@ + names[i])
        } else {
            None
        },
    }
}

/// What is wrong with the first faulty name among the first `n`, if any is.
pub open spec fn first_fault(names: Seq<Seq<char>>, n: nat) -> Option<Seq<char>>
    decreases n,
{
    if n == 0 {
        None
    } else {
        match first_fault(names, (n - 1) as nat) {
            Some(message) => Some(message),
            None => fault_at(names, n - 1),
        }
    }
}

/// The field numbers that four names stand for, or why they are no field
/// order.
pub open spec fn columns_of_names(names: Seq<Seq<char>>) -> Result<Seq<int>, Seq<char>> {
    if names.len() != 4 {
        Err("Format must have exactly 4 fields: x, y, p, t"@)
    } else {
        match first_fault(names, 4) {
            Some(message) => Err(message),
            None => Ok(Seq::new(4, |i: int| field_index(names[i]).unwrap())),
        }
    }
}

/// Whether field numbers are one of the three orders that have a name.
pub open spec fn is_named_order(columns: Seq<int>) -> bool {
    columns == seq![0int, 1, 2, 3] || columns == seq![3int, 0, 1, 2] || columns == seq![
        0int,
        1,
        3,
        2,
    ]
}

/// Whether a result is what parsing gives for the field numbers, or the
/// message, on the right: the order of these numbers, under its name if it
/// has one; or the error with that message.
pub open spec fn is_parse_of(
    r: Result<FieldOrder, OutputError>,
    expected: Result<Seq<int>, Seq<char>>,
) -> bool {
    match (r, expected) {
        (Ok(order), Ok(columns)) => order.columns() == columns && !(order is Custom
            && is_named_order(columns)),
        (Err(OutputError::InvalidFormat(message)), Err(text)) => message@ == text,
        _ => false,
    }
}

/// The views of a sequence of strings.
pub open spec fn texts_of(names: Seq<String>) -> Seq<Seq<char>> {
    names.map_values(|name: String| name@)
}

/// Tells whether a name is a given word.
fn name_is(name: &String, word: &str) -> (b: bool)
    ensures
        b == (name@ == word@),
{
    let key = String::from_str(word);
    *name == key
}

/// Finds the number of the field that a name stands for.
fn field_index_of(name: &String) -> (index: Option<usize>)
    ensures
        match index {
            Some(k) => field_index(name@) == Some(k as int) && k < 4,
            None => field_index(name@) is None,
        },
{
    if name_is(name, "x") {
        Some(0)
    } else if name_is(name, "y") {
        Some(1)
    } else if name_is(name, "p") || name_is(name, "pol") || name_is(name, "polarity") {
        Some(2)
    } else if name_is(name, "t") || name_is(name, "time") || name_is(name, "timestamp") {
        Some(3)
    } else {
        None
    }
}

impl FieldOrder {
    /// The number of the field in each of the four places of a line.
    pub open spec fn columns(self) -> Seq<int> {
        match self {
            FieldOrder::XYPT => seq![0int, 1, 2, 3],
            FieldOrder::TXYP => seq![3int, 0, 1, 2],
            FieldOrder::XYTP => seq![0int, 1, 3, 2],
            FieldOrder::Custom(indices) => seq![
                indices[0] as int,
                indices[1] as int,
                indices[2] as int,
                indices[3] as int,
            ],
        }
    }

    /// Whether each place holds the number of a field.
    pub open spec fn wf(self) -> bool {
        forall|i: int| 0 <= i < 4 ==> 0 <= #[trigger] self.columns()[i] < 4
    }

    /// Tells whether each place holds the number of a field. A custom order
    /// may hold any number; the named orders are always well formed.
    pub fn is_valid(&self) -> (b: bool)
        ensures
            b == self.wf(),
    {
        match self {
            FieldOrder::Custom(indices) => {
                let b = indices[0] < 4 && indices[1] < 4 && indices[2] < 4 && indices[3] < 4;
                proof {
                    let c = self.columns();
                    assert(c[0] == indices[0] && c[1] == indices[1] && c[2] == indices[2] && c[3]
                        == indices[3]);
                }
                b
            },
            _ => {
                proof {
                    let c = self.columns();
                    assert(c[0] < 4 && c[1] < 4 && c[2] < 4 && c[3] < 4);
                }
                true
            },
        }
    }

    /// The CSV column header of this field order. A custom order has the
    /// header of the default order.
    pub fn header(&self) -> (text: &'static str)
        ensures
            text@ == match self {
                FieldOrder::XYPT => "x,y,polarity,timestamp"@,
                FieldOrder::TXYP => "timestamp,x,y,polarity"@,
                FieldOrder::XYTP => "x,y,timestamp,polarity"@,
                FieldOrder::Custom(_) => "x,y,polarity,timestamp"@,
            },
    {
        match self {
            FieldOrder::XYPT => "x,y,polarity,timestamp",
            FieldOrder::TXYP => "timestamp,x,y,polarity",
            FieldOrder::XYTP => "x,y,timestamp,polarity",
            FieldOrder::Custom(_) => "x,y,polarity,timestamp",
        }
    }

    /// Makes a field order from field names, as they come out of a format
    /// text: trimmed and in lower case.
    ///
    /// There must be four names. Each must be one of `x`, `y`, `p`, `pol`,
    /// `polarity`, `t`, `time`, `timestamp`, and no field may come twice.
    /// The error names the first name that breaks this.
    pub fn from_names(names: &Vec<String>) -> (r: Result<FieldOrder, OutputError>)
        ensures
            is_parse_of(r, columns_of_names(texts_of(names@))),
            r is Ok ==> r->Ok_0.wf(),
    {
        let ghost texts = texts_of(names@);
        if names.len() != 4 {
            return Err(
                OutputError::InvalidFormat(
                    String::from_str("Format must have exactly 4 fields: x, y, p, t"),
                ),
            );
        }
        let mut indices: [usize; 4] = [0usize;4];
        let mut used: [bool; 4] = [false;4];
        let mut i: usize = 0;
        while i < 4
            invariant
                i <= 4,
                names@.len() == 4,
                texts == texts_of(names@),
                first_fault(texts, i as nat) is None,
                forall|j: int| 0 <= j < i ==> field_index(texts[j]) == Some(indices@[j] as int),
                forall|j: int| 0 <= j < i ==> indices@[j] < 4,
                forall|k: int|
                    0 <= k < 4 ==> (used@[k] <==> exists|j: int|
                        0 <= j < i && field_index(texts[j]) == Some(k)),
            decreases 4 - i,
        {
            let name = &names[i];
            assert(texts[i as int] == name@);
            let field = match field_index_of(name) {
                Some(k) => k,
                None => {
                    let message = String::from_str("Unknown field: ").concat(
                        name.as_str(),
                    ).concat(". Use x, y, p, t");
                    proof {
                        assert(first_fault(texts, (i + 1) as nat) == fault_at(texts, i as int));
                        lemma_fault_stays(texts, (i + 1) as nat, 4);
                    }
                    return Err(OutputError::InvalidFormat(message));
                },
            };
            if used[field] {
                let message = String::from_str("Duplicate field: ").concat(name.as_str());
                proof {
                    assert(first_fault(texts, (i + 1) as nat) == fault_at(texts, i as int));
                    lemma_fault_stays(texts, (i + 1) as nat, 4);
                }
                return Err(OutputError::InvalidFormat(message));
            }
            proof {
                assert(first_fault(texts, (i + 1) as nat) == fault_at(texts, i as int));
            }
            let ghost used_before = used@;
            indices[i] = field;
            used[field] = true;
            proof {
                assert forall|k: int| 0 <= k < 4 implies (used@[k] <==> exists|j: int|
                    0 <= j < i + 1 && field_index(texts[j]) == Some(k)) by {
                    if k == field {
                        assert(field_index(texts[i as int]) == Some(k));
                    } else {
                        if used_before[k] {
                            let j = choose|j: int|
                                0 <= j < i && field_index(texts[j]) == Some(k);
                            assert(0 <= j < i + 1 && field_index(texts[j]) == Some(k));
                        }
                    }
                }
            }
            i += 1;
        }
        let ghost columns = Seq::new(4, |i: int| field_index(texts[i]).unwrap());
        assert(columns =~= seq![
            indices@[0] as int,
            indices@[1] as int,
            indices@[2] as int,
            indices@[3] as int,
        ]);
        let order = if indices[0] == 0 && indices[1] == 1 && indices[2] == 2 && indices[3] == 3 {
            FieldOrder::XYPT
        } else if indices[0] == 3 && indices[1] == 0 && indices[2] == 1 && indices[3] == 2 {
            FieldOrder::TXYP
        } else if indices[0] == 0 && indices[1] == 1 && indices[2] == 3 && indices[3] == 2 {
            FieldOrder::XYTP
        } else {
            FieldOrder::Custom(indices)
        };
        proof {
            assert(order.columns() =~= columns);
            if order is Custom {
                let a = seq![0int, 1, 2, 3];
                let b = seq![3int, 0, 1, 2];
                let c = seq![0int, 1, 3, 2];
                if columns == a {
                    assert(a[0] == 0 && a[1] == 1 && a[2] == 2 && a[3] == 3);
                }
                if columns == b {
                    assert(b[0] == 3 && b[1] == 0 && b[2] == 1 && b[3] == 2);
                }
                if columns == c {
                    assert(c[0] == 0 && c[1] == 1 && c[2] == 3 && c[3] == 2);
                }
            }
            assert forall|i: int| 0 <= i < 4 implies 0 <= #[trigger] order.columns()[i] < 4 by {
                assert(order.columns()[i] == indices@[i]);
            }
        }
        Ok(order)
    }

    /// Parses a field order from a format text such as `x,y,p,t` or
    /// `t,x,y,p`: four field names between commas. White space around a name
    /// and the case of its letters do not count.
    pub fn from_str(s: &str) -> (r: Result<FieldOrder, OutputError>)
        ensures
            is_parse_of(r, columns_of_names(field_names(s@))),
            r is Ok ==> r->Ok_0.wf(),
    {
        let chars = chars_of(s);
        let text = chars.as_slice();
        let total = text.len();
        let mut names: Vec<String> = Vec::new();
        let mut pos: usize = 0;
        assert(text@.subrange(0, total as int) =~= s@);
        loop
            invariant_except_break
                texts_of(names@) + field_names(text@.subrange(pos as int, total as int))
                    == field_names(s@),
            invariant
                pos <= total == text@.len(),
                text@ == s@,
            ensures
                texts_of(names@) == field_names(s@),
            decreases total - pos,
        {
            let ghost rest = text@.subrange(pos as int, total as int);
            let comma = find_char(text, pos, total, ',');
            let start = trim_start_at(text, pos, comma);
            let end = trim_end_at(text, start, comma);
            let piece = s.substring_char(start, end);
            let name = to_lowercase(piece);
            let ghost before = names@;
            names.push(name);
            proof {
                let part = text@.subrange(pos as int, comma as int);
                assert(rest.take(comma - pos) =~= part);
                assert(piece@ == trim(part));
                assert(texts_of(names@) =~= texts_of(before).push(lowercase_of(trim(part))));
                if comma >= total {
                    assert(part =~= rest);
                    assert(split_parts(rest, ',') =~= seq![rest]);
                    assert(field_names(rest) =~= seq![lowercase_of(trim(part))]);
                    assert(texts_of(names@) =~= texts_of(before) + field_names(rest));
                } else {
                    let after = text@.subrange(comma + 1, total as int);
                    assert(rest.skip(comma - pos + 1) =~= after);
                    assert(split_parts(rest, ',') =~= seq![part] + split_parts(after, ','));
                    assert(field_names(rest) =~= seq![lowercase_of(trim(part))] + field_names(
                        after,
                    ));
                    assert(texts_of(names@) + field_names(after) =~= texts_of(before)
                        + field_names(rest));
                }
            }
            if comma >= total {
                break ;
            }
            pos = comma + 1;
        }
        FieldOrder::from_names(&names)
    }
}

/// The four fields of a CD event as numbers: x, y, polarity, timestamp.
pub open spec fn event_values(event: CdEvent) -> Seq<nat> {
    seq![event.x as nat, event.y as nat, event.polarity as nat, event.timestamp as nat]
}

/// The CSV line of a CD event: its four fields in decimal, in the order given,
/// with commas between them and a line feed at the end.
pub open spec fn csv_line(order: FieldOrder, event: CdEvent) -> Seq<u8> {
    let values = event_values(event);
    let columns = order.columns();
    decimal_digits(values[columns[0]]) + seq![COMMA] + decimal_digits(values[columns[1]]) + seq![
        COMMA,
    ] + decimal_digits(values[columns[2]]) + seq![COMMA] + decimal_digits(values[columns[3]])
        + seq![NEWLINE]
}

/// The CSV lines of a sequence of CD events.
pub open spec fn csv_lines(order: FieldOrder, events: Seq<CdEvent>) -> Seq<u8>
    decreases events.len(),
{
    if events.len() == 0 {
        Seq::empty()
    } else {
        csv_lines(order, events.drop_last()) + csv_line(order, events.last())
    }
}

/// The line that states the geometry at the head of a CSV file:
/// `%geometry:<width>,<height>`.
pub open spec fn geometry_line(metadata: SensorMetadata) -> Seq<u8> {
    "%geometry:".spec_bytes() + decimal_digits(metadata.width as nat) + seq![COMMA]
        + decimal_digits(metadata.height as nat) + seq![NEWLINE]
}

/// The CSV line of a trigger event: value, id and timestamp in decimal.
pub open spec fn trigger_csv_line(event: TriggerEvent) -> Seq<u8> {
    decimal_digits(event.value as nat) + seq![COMMA] + decimal_digits(event.id as nat) + seq![
        COMMA,
    ] + decimal_digits(event.timestamp as nat) + seq![NEWLINE]
}

/// The CSV lines of a sequence of trigger events.
pub open spec fn trigger_csv_lines(events: Seq<TriggerEvent>) -> Seq<u8>
    decreases events.len(),
{
    if events.len() == 0 {
        Seq::empty()
    } else {
        trigger_csv_lines(events.drop_last()) + trigger_csv_line(events.last())
    }
}

/// The lowest `count` bytes of a number, least significant first.
pub open spec fn le_bytes(n: nat, count: nat) -> Seq<u8>
    decreases count,
{
    if count == 0 {
        Seq::empty()
    } else {
        seq![(n % 256) as u8] + le_bytes(n / 256, (count - 1) as nat)
    }
}

/// The bytes that open a binary file: `EVT3BIN` and a zero byte.
pub open spec fn binary_magic() -> Seq<u8> {
    seq![0x45u8, 0x56, 0x54, 0x33, 0x42, 0x49, 0x4E, 0x00]
}

/// The header of a binary file: the magic bytes, the version 1, the width and
/// the height in 4 bytes each, and the number of events in 8 bytes.
pub open spec fn binary_header(metadata: SensorMetadata, event_count: u64) -> Seq<u8> {
    binary_magic() + le_bytes(1, 4) + le_bytes(metadata.width as nat, 4) + le_bytes(
        metadata.height as nat,
        4,
    ) + le_bytes(event_count as nat, 8)
}

/// The 14 bytes of a CD event in a binary file: x and y in 2 bytes each, the
/// polarity, a zero byte, and the timestamp in 8 bytes.
pub open spec fn binary_record(event: CdEvent) -> Seq<u8> {
    le_bytes(event.x as nat, 2) + le_bytes(event.y as nat, 2) + seq![event.polarity, 0u8]
        + le_bytes(event.timestamp as nat, 8)
}

/// The records of a sequence of CD events.
pub open spec fn binary_records(events: Seq<CdEvent>) -> Seq<u8>
    decreases events.len(),
{
    if events.len() == 0 {
        Seq::empty()
    } else {
        binary_records(events.drop_last()) + binary_record(events.last())
    }
}

/// A number in `count` bytes takes `count` bytes.
pub proof fn lemma_le_bytes_len(n: nat, count: nat)
    ensures
        le_bytes(n, count).len() == count,
    decreases count,
{
    if count > 0 {
        lemma_le_bytes_len(n / 256, (count - 1) as nat);
    }
}

/// Appends bytes to a buffer.
fn push_all(buffer: &mut Vec<u8>, bytes: &[u8])
    ensures
        final(buffer)@ == old(buffer)@ + bytes@,
{
    let mut i: usize = 0;
    while i < bytes.len()
        invariant
            i <= bytes@.len(),
            buffer@ == old(buffer)@ + bytes@.take(i as int),
        decreases bytes@.len() - i,
    {
        buffer.push(bytes[i]);
        assert(buffer@ =~= old(buffer)@ + bytes@.take(i + 1));
        i += 1;
    }
    assert(bytes@.take(bytes@.len() as int) =~= bytes@);
}

/// Appends the lowest `count` bytes of a number to a buffer, least
/// significant first.
fn push_le_bytes(buffer: &mut Vec<u8>, n: u64, count: usize)
    ensures
        final(buffer)@ == old(buffer)@ + le_bytes(n as nat, count as nat),
{
    let mut rest = n;
    let mut i: usize = 0;
    while i < count
        invariant
            i <= count,
            buffer@ + le_bytes(rest as nat, (count - i) as nat) == old(buffer)@ + le_bytes(
                n as nat,
                count as nat,
            ),
        decreases count - i,
    {
        let ghost before = buffer@;
        buffer.push((rest % 256) as u8);
        proof {
            assert(le_bytes(rest as nat, (count - i) as nat) == seq![(rest % 256) as u8]
                + le_bytes((rest / 256) as nat, (count - i - 1) as nat));
            assert(buffer@ + le_bytes((rest / 256) as nat, (count - i - 1) as nat) =~= before
                + le_bytes(rest as nat, (count - i) as nat));
        }
        rest = rest / 256;
        i += 1;
    }
    assert(buffer@ + le_bytes(rest as nat, 0) =~= buffer@);
}

/// Writer of CD events as CSV text.
pub struct CsvWriter {
    buffer: Vec<u8>,
    field_order: FieldOrder,
}

impl View for CsvWriter {
    type V = Seq<u8>;

    /// The bytes written so far.
    closed spec fn view(&self) -> Seq<u8> {
        self.buffer@
    }
}

impl CsvWriter {
    /// The field order of the lines that this writer writes.
    pub closed spec fn order(&self) -> FieldOrder {
        self.field_order
    }

    /// Creates a writer that has written nothing.
    pub fn new(field_order: FieldOrder) -> (writer: Self)
        ensures
            writer@ == Seq::<u8>::empty(),
            writer.order() == field_order,
    {
        CsvWriter { buffer: Vec::new(), field_order }
    }

    /// Writes the line that states the geometry, if a geometry is given.
    pub fn write_header(&mut self, metadata: Option<&SensorMetadata>) -> (r: Result<
        (),
        OutputError,
    >)
        ensures
            r is Ok,
            final(self).order() == old(self).order(),
            final(self)@ == match metadata {
                Some(m) => old(self)@ + geometry_line(*m),
                None => old(self)@,
            },
    {
        if let Some(meta) = metadata {
            push_all(&mut self.buffer, "%geometry:".as_bytes());
            push_decimal(&mut self.buffer, meta.width as u64);
            self.buffer.push(COMMA);
            push_decimal(&mut self.buffer, meta.height as u64);
            self.buffer.push(NEWLINE);
            assert(self.buffer@ =~= old(self)@ + geometry_line(*meta));
        }
        Ok(())
    }

    /// Writes one line for each event of a batch. To write an event, each
    /// place of the field order must hold the number of a field.
    pub fn write_events(&mut self, events: &[CdEvent]) -> (r: Result<(), OutputError>)
        requires
            events@.len() > 0 ==> old(self).order().wf(),
        ensures
            r is Ok,
            final(self).order() == old(self).order(),
            final(self)@ == old(self)@ + csv_lines(old(self).order(), events@),
    {
        let mut i: usize = 0;
        while i < events.len()
            invariant
                i <= events@.len(),
                self.order() == old(self).order(),
                events@.len() > 0 ==> self.order().wf(),
                self@ == old(self)@ + csv_lines(self.order(), events@.take(i as int)),
            decreases events@.len() - i,
        {
            self.write_event(&events[i]);
            proof {
                assert(events@.take(i + 1).drop_last() =~= events@.take(i as int));
                assert(self@ =~= old(self)@ + csv_lines(self.order(), events@.take(i + 1)));
            }
            i += 1;
        }
        assert(events@.take(events@.len() as int) =~= events@);
        Ok(())
    }

    /// Writes four numbers as one line.
    fn write_fields(&mut self, a: u64, b: u64, c: u64, d: u64)
        ensures
            final(self).order() == old(self).order(),
            final(self)@ == old(self)@ + (decimal_digits(a as nat) + seq![COMMA] + decimal_digits(
                b as nat,
            ) + seq![COMMA] + decimal_digits(c as nat) + seq![COMMA] + decimal_digits(d as nat)
                + seq![NEWLINE]),
    {
        push_decimal(&mut self.buffer, a);
        self.buffer.push(COMMA);
        push_decimal(&mut self.buffer, b);
        self.buffer.push(COMMA);
        push_decimal(&mut self.buffer, c);
        self.buffer.push(COMMA);
        push_decimal(&mut self.buffer, d);
        self.buffer.push(NEWLINE);
        assert(self.buffer@ =~= old(self)@ + (decimal_digits(a as nat) + seq![COMMA]
            + decimal_digits(b as nat) + seq![COMMA] + decimal_digits(c as nat) + seq![COMMA]
            + decimal_digits(d as nat) + seq![NEWLINE]));
    }

    /// Writes the line of a single CD event.
    #[inline]
    fn write_event(&mut self, event: &CdEvent)
        requires
            old(self).order().wf(),
        ensures
            final(self).order() == old(self).order(),
            final(self)@ == old(self)@ + csv_line(old(self).order(), *event),
    {
        let x = event.x as u64;
        let y = event.y as u64;
        let polarity = event.polarity as u64;
        let timestamp = event.timestamp;
        let ghost columns = self.field_order.columns();
        proof {
            assert(columns[0] == columns[0] && columns[1] == columns[1] && columns[2]
                == columns[2] && columns[3] == columns[3]);
        }
        match self.field_order {
            FieldOrder::XYPT => {
                self.write_fields(x, y, polarity, timestamp);
            },
            FieldOrder::TXYP => {
                self.write_fields(timestamp, x, y, polarity);
            },
            FieldOrder::XYTP => {
                self.write_fields(x, y, timestamp, polarity);
            },
            FieldOrder::Custom(indices) => {
                let values: [u64; 4] = [x, y, polarity, timestamp];
                assert(0 <= columns[0] < 4 && 0 <= columns[1] < 4 && 0 <= columns[2] < 4 && 0
                    <= columns[3] < 4);
                self.write_fields(
                    values[indices[0]],
                    values[indices[1]],
                    values[indices[2]],
                    values[indices[3]],
                );
            },
        }
    }

    /// Completes the output. Nothing is held back, so nothing changes.
    pub fn flush(&mut self) -> (r: Result<(), OutputError>)
        ensures
            r is Ok,
            final(self).order() == old(self).order(),
            final(self)@ == old(self)@,
    {
        Ok(())
    }

    /// Hands out the bytes written.
    pub fn into_bytes(self) -> (bytes: Vec<u8>)
        ensures
            bytes@ == self@,
    {
        self.buffer
    }
}

/// Writer of trigger events as CSV text.
pub struct TriggerCsvWriter {
    buffer: Vec<u8>,
}

impl View for TriggerCsvWriter {
    type V = Seq<u8>;

    /// The bytes written so far.
    closed spec fn view(&self) -> Seq<u8> {
        self.buffer@
    }
}

impl TriggerCsvWriter {
    /// Creates a writer that has written nothing.
    pub fn new() -> (writer: Self)
        ensures
            writer@ == Seq::<u8>::empty(),
    {
        TriggerCsvWriter { buffer: Vec::new() }
    }

    /// Writes one line for each trigger event of a batch: value, id,
    /// timestamp.
    pub fn write_events(&mut self, events: &[TriggerEvent]) -> (r: Result<(), OutputError>)
        ensures
            r is Ok,
            final(self)@ == old(self)@ + trigger_csv_lines(events@),
    {
        let mut i: usize = 0;
        while i < events.len()
            invariant
                i <= events@.len(),
                self@ == old(self)@ + trigger_csv_lines(events@.take(i as int)),
            decreases events@.len() - i,
        {
            let event = &events[i];
            let ghost before = self.buffer@;
            push_decimal(&mut self.buffer, event.value as u64);
            self.buffer.push(COMMA);
            push_decimal(&mut self.buffer, event.id as u64);
            self.buffer.push(COMMA);
            push_decimal(&mut self.buffer, event.timestamp);
            self.buffer.push(NEWLINE);
            proof {
                assert(self.buffer@ =~= before + trigger_csv_line(*event));
                assert(events@.take(i + 1).drop_last() =~= events@.take(i as int));
                assert(self@ =~= old(self)@ + trigger_csv_lines(events@.take(i + 1)));
            }
            i += 1;
        }
        assert(events@.take(events@.len() as int) =~= events@);
        Ok(())
    }

    /// Completes the output. Nothing is held back, so nothing changes.
    pub fn flush(&mut self) -> (r: Result<(), OutputError>)
        ensures
            r is Ok,
            final(self)@ == old(self)@,
    {
        Ok(())
    }

    /// Hands out the bytes written.
    pub fn into_bytes(self) -> (bytes: Vec<u8>)
        ensures
            bytes@ == self@,
    {
        self.buffer
    }
}

/// Writer of CD events in the binary layout: a header of 28 bytes, then 14
/// bytes for each event, every number least significant byte first.
pub struct BinaryWriter {
    buffer: Vec<u8>,
}

impl View for BinaryWriter {
    type V = Seq<u8>;

    /// The bytes written so far.
    closed spec fn view(&self) -> Seq<u8> {
        self.buffer@
    }
}

impl BinaryWriter {
    /// Creates a writer that has written nothing.
    pub fn new() -> (writer: Self)
        ensures
            writer@ == Seq::<u8>::empty(),
    {
        BinaryWriter { buffer: Vec::new() }
    }

    /// Writes the header: magic bytes, version, geometry and event count.
    pub fn write_header(&mut self, metadata: &SensorMetadata, event_count: u64) -> (r: Result<
        (),
        OutputError,
    >)
        ensures
            r is Ok,
            final(self)@ == old(self)@ + binary_header(*metadata, event_count),
    {
        let magic: [u8; 8] = [0x45, 0x56, 0x54, 0x33, 0x42, 0x49, 0x4E, 0x00];
        push_all(&mut self.buffer, magic.as_slice());
        push_le_bytes(&mut self.buffer, 1, 4);
        push_le_bytes(&mut self.buffer, metadata.width as u64, 4);
        push_le_bytes(&mut self.buffer, metadata.height as u64, 4);
        push_le_bytes(&mut self.buffer, event_count, 8);
        assert(magic@ =~= binary_magic());
        assert(self.buffer@ =~= old(self)@ + binary_header(*metadata, event_count));
        Ok(())
    }

    /// Writes one record for each event of a batch.
    pub fn write_events(&mut self, events: &[CdEvent]) -> (r: Result<(), OutputError>)
        ensures
            r is Ok,
            final(self)@ == old(self)@ + binary_records(events@),
    {
        let mut i: usize = 0;
        while i < events.len()
            invariant
                i <= events@.len(),
                self@ == old(self)@ + binary_records(events@.take(i as int)),
            decreases events@.len() - i,
        {
            let event = &events[i];
            let ghost before = self.buffer@;
            push_le_bytes(&mut self.buffer, event.x as u64, 2);
            push_le_bytes(&mut self.buffer, event.y as u64, 2);
            self.buffer.push(event.polarity);
            self.buffer.push(0);
            push_le_bytes(&mut self.buffer, event.timestamp, 8);
            proof {
                assert(self.buffer@ =~= before + binary_record(*event));
                assert(events@.take(i + 1).drop_last() =~= events@.take(i as int));
                assert(self@ =~= old(self)@ + binary_records(events@.take(i + 1)));
            }
            i += 1;
        }
        assert(events@.take(events@.len() as int) =~= events@);
        Ok(())
    }

    /// Completes the output. Nothing is held back, so nothing changes.
    pub fn flush(&mut self) -> (r: Result<(), OutputError>)
        ensures
            r is Ok,
            final(self)@ == old(self)@,
    {
        Ok(())
    }

    /// Hands out the bytes written.
    pub fn into_bytes(self) -> (bytes: Vec<u8>)
        ensures
            bytes@ == self@,
    {
        self.buffer
    }
}

/// Builds the CSV file of CD events: the geometry line, if a geometry is
/// given, then one line for each event.
pub fn write_csv(events: &[CdEvent], metadata: Option<&SensorMetadata>, field_order: FieldOrder) -> (r:
    Result<Vec<u8>, OutputError>)
    requires
        events@.len() > 0 ==> field_order.wf(),
    ensures
        r is Ok,
        r->Ok_0@ == match metadata {
            Some(m) => geometry_line(*m) + csv_lines(field_order, events@),
            None => csv_lines(field_order, events@),
        },
{
    let mut writer = CsvWriter::new(field_order);
    let _ = writer.write_header(metadata);
    let _ = writer.write_events(events);
    let _ = writer.flush();
    let bytes = writer.into_bytes();
    proof {
        match metadata {
            Some(m) => {
                assert(bytes@ =~= geometry_line(*m) + csv_lines(field_order, events@));
            },
            None => {
                assert(bytes@ =~= csv_lines(field_order, events@));
            },
        }
    }
    Ok(bytes)
}

/// Builds the CSV file of trigger events: one line for each event.
pub fn write_trigger_csv(events: &[TriggerEvent]) -> (r: Result<Vec<u8>, OutputError>)
    ensures
        r is Ok,
        r->Ok_0@ == trigger_csv_lines(events@),
{
    let mut writer = TriggerCsvWriter::new();
    let _ = writer.write_events(events);
    let _ = writer.flush();
    let bytes = writer.into_bytes();
    assert(bytes@ =~= trigger_csv_lines(events@));
    Ok(bytes)
}

/// Builds the binary file of CD events: the header, with the number of
/// events, then one record for each event.
pub fn write_binary(events: &[CdEvent], metadata: &SensorMetadata) -> (r: Result<
    Vec<u8>,
    OutputError,
>)
    ensures
        r is Ok,
        r->Ok_0@ == binary_header(*metadata, events@.len() as u64) + binary_records(events@),
{
    let mut writer = BinaryWriter::new();
    let _ = writer.write_header(metadata, events.len() as u64);
    let _ = writer.write_events(events);
    let _ = writer.flush();
    let bytes = writer.into_bytes();
    assert(bytes@ =~= binary_header(*metadata, events@.len() as u64) + binary_records(events@));
    Ok(bytes)
}

impl core::str::FromStr for FieldOrder {
    type Err = OutputError;

    /// Parses a field order from a format text such as `x,y,p,t`, as the
    /// function of the same name on [`FieldOrder`] does: four field names
    /// between commas, white space around a name and the case of its letters
    /// not counting.
    fn from_str(s: &str) -> (r: Result<Self, OutputError>)
        ensures
            is_parse_of(r, columns_of_names(field_names(s@))),
            r is Ok ==> r->Ok_0.wf(),
    {
        FieldOrder::from_str(s)
    }
}

/// A fault among the first names is the first fault among more names too.
proof fn lemma_fault_stays(names: Seq<Seq<char>>, n: nat, m: nat)
    requires
        n <= m,
        first_fault(names, n) is Some,
    ensures
        first_fault(names, m) == first_fault(names, n),
    decreases m - n,
{
    if n < m {
        lemma_fault_stays(names, n, (m - 1) as nat);
    }
}

} // verus!
