//! The text preamble of an EVT 3.0 file.
//!
//! A file may start with text lines that begin with `%` and end with a line
//! feed. The preamble ends at the first line that does not begin with `%`, or
//! with a line that begins with `% end`. Two kinds of line state the sensor
//! geometry:
//!
//! - `% format EVT3;width=<W>;height=<H>`: fields of the form `key=value`,
//!   separated by `;`. The keys `width` and `height` are read; a field whose
//!   value is not a number is skipped.
//! - `% geometry <W>x<H>`: both numbers are taken, or neither.
//!
//! Every other line is passed over, and so is a line that is not valid UTF-8:
//! reading the preamble never fails.

use vstd::prelude::*;
use vstd::string::StringSliceAdditionalSpecFns;
use vstd::slice::slice_subrange;
use vstd::utf8::{decode_utf8, encode_utf8, encode_utf8_decode_utf8, encode_utf8_valid_utf8,
    is_ascii_chars, is_ascii_chars_encode_utf8, valid_utf8};
use crate::decoder::{DecodeError, Evt3Decoder};
use crate::text::{bytes_start_with_at, chars_of, decimal_text, find_byte, find_char,
    first_index, has_prefix, is_digit, is_whitespace, lemma_char_code, lemma_decimal_text_value,
    lemma_first_index, lemma_first_index_after, lemma_first_index_is, lemma_parse_decimal_text,
    parse_u32, parse_u32_at, range_equals, starts_with_at, trim_end, trim_end_at};
use crate::types::SensorMetadata;

verus! {

/// The byte that every line of the preamble begins with: `%`.
pub const HEADER_MARK: u8 = 0x25;

/// The byte that ends a line: the line feed.
pub const LINE_FEED: u8 = 0x0A;

/// The geometry after one field of a format line. A field without `=`, with
/// another key than `width` or `height`, or with a value that is not a number
/// leaves the geometry as it was.
pub open spec fn apply_format_field(m: SensorMetadata, field: Seq<char>) -> SensorMetadata {
    let eq = first_index(field, '=');
    if eq >= field.len() {
        m
    } else if field.take(eq) == "width"@ {
        match parse_u32(field.skip(eq + 1)) {
            Some(w) => SensorMetadata { width: w, ..m },
            None => m,
        }
    } else if field.take(eq) == "height"@ {
        match parse_u32(field.skip(eq + 1)) {
            Some(h) => SensorMetadata { height: h, ..m },
            None => m,
        }
    } else {
        m
    }
}

/// The geometry after the fields of a format line, taken left to right.
pub open spec fn apply_format_fields(m: SensorMetadata, fields: Seq<char>) -> SensorMetadata
    decreases fields.len(),
    via apply_format_fields_decreases
{
    let semi = first_index(fields, ';');
    if semi >= fields.len() {
        apply_format_field(m, fields)
    } else {
        apply_format_fields(apply_format_field(m, fields.take(semi)), fields.skip(semi + 1))
    }
}

#[via_fn]
proof fn apply_format_fields_decreases(m: SensorMetadata, fields: Seq<char>) {
    lemma_first_index(fields, ';');
}

/// The geometry after a geometry line: both numbers are taken, or the
/// geometry stays as it was.
pub open spec fn apply_geometry(m: SensorMetadata, geometry: Seq<char>) -> SensorMetadata {
    let x = first_index(geometry, 'x');
    if x >= geometry.len() {
        m
    } else {
        match (parse_u32(geometry.take(x)), parse_u32(geometry.skip(x + 1))) {
            (Some(w), Some(h)) => SensorMetadata { width: w, height: h },
            _ => m,
        }
    }
}

/// The geometry after one line of the preamble.
pub open spec fn header_line_update(m: SensorMetadata, line: Seq<char>) -> SensorMetadata {
    let text = trim_end(line);
    if has_prefix(text, "% format "@) {
        apply_format_fields(m, text.skip("% format "@.len() as int))
    } else if has_prefix(text, "% geometry "@) {
        apply_geometry(m, text.skip("% geometry "@.len() as int))
    } else {
        m
    }
}

/// Where the line that starts at `pos` ends: behind its line feed, or at the
/// end of the data if no line feed follows.
pub open spec fn line_end(data: Seq<u8>, pos: int) -> int {
    let feed = pos + first_index(data.subrange(pos, data.len() as int), LINE_FEED);
    if feed < data.len() {
        feed + 1
    } else {
        data.len() as int
    }
}

/// The bytes that the line which ends a preamble begins with: `% end`.
pub open spec fn end_mark() -> Seq<u8> {
    seq![0x25u8, 0x20, 0x65, 0x6E, 0x64]
}

/// The geometry after one line of the preamble, given as its bytes. A line
/// that is not valid UTF-8 states no geometry.
pub open spec fn header_bytes_update(m: SensorMetadata, line: Seq<u8>) -> SensorMetadata {
    if valid_utf8(line) {
        header_line_update(m, decode_utf8(line))
    } else {
        m
    }
}

/// What reading a preamble gives.
pub struct HeaderScan {
    /// The geometry after the lines read.
    pub metadata: SensorMetadata,
    /// Where reading stopped: the number of bytes that belong to the preamble.
    pub consumed: int,
}

/// Reads the preamble of `data` from `pos` on, starting with the geometry `m`.
pub open spec fn scan_header(m: SensorMetadata, data: Seq<u8>, pos: int) -> HeaderScan
    decreases data.len() - pos,
    via scan_header_decreases
{
    if pos < 0 || pos >= data.len() || data[pos] != HEADER_MARK {
        HeaderScan { metadata: m, consumed: pos }
    } else {
        let end = line_end(data, pos);
        let line = data.subrange(pos, end);
        if has_prefix(line, end_mark()) {
            HeaderScan { metadata: m, consumed: end }
        } else {
            scan_header(header_bytes_update(m, line), data, end)
        }
    }
}

#[via_fn]
proof fn scan_header_decreases(m: SensorMetadata, data: Seq<u8>, pos: int) {
    if 0 <= pos < data.len() {
        lemma_line_end(data, pos);
    }
}

/// A line holds at least one byte and ends within the data.
pub proof fn lemma_line_end(data: Seq<u8>, pos: int)
    requires
        0 <= pos < data.len(),
    ensures
        pos < line_end(data, pos) <= data.len(),
{
    lemma_first_index(data.subrange(pos, data.len() as int), LINE_FEED);
}

/// What a line, or a preamble, does to the geometry: for each of width and
/// height, the number that it sets, if it sets one.
pub struct GeometryUpdate {
    /// The width that is set, if one is.
    pub width: Option<u32>,
    /// The height that is set, if one is.
    pub height: Option<u32>,
}

impl GeometryUpdate {
    /// The geometry after this update.
    pub open spec fn apply(self, m: SensorMetadata) -> SensorMetadata {
        SensorMetadata {
            width: match self.width {
                Some(w) => w,
                None => m.width,
            },
            height: match self.height {
                Some(h) => h,
                None => m.height,
            },
        }
    }

    /// This update followed by a later one: what the later one sets wins.
    pub open spec fn followed_by(self, later: GeometryUpdate) -> GeometryUpdate {
        GeometryUpdate {
            width: match later.width {
                Some(w) => Some(w),
                None => self.width,
            },
            height: match later.height {
                Some(h) => Some(h),
                None => self.height,
            },
        }
    }
}

/// The update that sets nothing.
pub open spec fn no_update() -> GeometryUpdate {
    GeometryUpdate { width: None, height: None }
}

/// What one field of a format line sets.
pub open spec fn field_update(field: Seq<char>) -> GeometryUpdate {
    let eq = first_index(field, '=');
    if eq >= field.len() {
        no_update()
    } else if field.take(eq) == "width"@ {
        GeometryUpdate { width: parse_u32(field.skip(eq + 1)), height: None }
    } else if field.take(eq) == "height"@ {
        GeometryUpdate { width: None, height: parse_u32(field.skip(eq + 1)) }
    } else {
        no_update()
    }
}

/// What the fields of a format line set.
pub open spec fn fields_update(fields: Seq<char>) -> GeometryUpdate
    decreases fields.len(),
    via fields_update_decreases
{
    let semi = first_index(fields, ';');
    if semi >= fields.len() {
        field_update(fields)
    } else {
        field_update(fields.take(semi)).followed_by(fields_update(fields.skip(semi + 1)))
    }
}

#[via_fn]
proof fn fields_update_decreases(fields: Seq<char>) {
    lemma_first_index(fields, ';');
}

/// What one line of the preamble sets.
pub open spec fn line_update(line: Seq<char>) -> GeometryUpdate {
    let text = trim_end(line);
    if has_prefix(text, "% format "@) {
        fields_update(text.skip("% format "@.len() as int))
    } else if has_prefix(text, "% geometry "@) {
        let geometry = text.skip("% geometry "@.len() as int);
        let x = first_index(geometry, 'x');
        if x >= geometry.len() {
            no_update()
        } else {
            match (parse_u32(geometry.take(x)), parse_u32(geometry.skip(x + 1))) {
                (Some(w), Some(h)) => GeometryUpdate { width: Some(w), height: Some(h) },
                _ => no_update(),
            }
        }
    } else {
        no_update()
    }
}

/// What one line of the preamble, given as its bytes, sets.
pub open spec fn line_bytes_update(line: Seq<u8>) -> GeometryUpdate {
    if valid_utf8(line) {
        line_update(decode_utf8(line))
    } else {
        no_update()
    }
}

/// What the preamble of `data` from `pos` on sets.
pub open spec fn preamble_update(data: Seq<u8>, pos: int) -> GeometryUpdate
    decreases data.len() - pos,
    via preamble_update_decreases
{
    if pos < 0 || pos >= data.len() || data[pos] != HEADER_MARK {
        no_update()
    } else {
        let end = line_end(data, pos);
        let line = data.subrange(pos, end);
        if has_prefix(line, end_mark()) {
            no_update()
        } else {
            line_bytes_update(line).followed_by(preamble_update(data, end))
        }
    }
}

#[via_fn]
proof fn preamble_update_decreases(data: Seq<u8>, pos: int) {
    if 0 <= pos < data.len() {
        lemma_line_end(data, pos);
    }
}

/// The fields of a format line change the geometry by what they set.
proof fn lemma_fields_update(m: SensorMetadata, fields: Seq<char>)
    ensures
        apply_format_fields(m, fields) == fields_update(fields).apply(m),
    decreases fields.len(),
{
    lemma_first_index(fields, ';');
    let semi = first_index(fields, ';');
    if semi < fields.len() {
        lemma_fields_update(apply_format_field(m, fields.take(semi)), fields.skip(semi + 1));
    }
}

/// A line changes the geometry by what it sets, and by nothing else: a field
/// of the geometry that the line does not set stays as it was, and one that it
/// sets does not depend on what it was.
pub proof fn lemma_line_update(m: SensorMetadata, line: Seq<char>)
    ensures
        header_line_update(m, line) == line_update(line).apply(m),
{
    let text = trim_end(line);
    if has_prefix(text, "% format "@) {
        lemma_fields_update(m, text.skip("% format "@.len() as int));
    }
}

/// A preamble changes the geometry by what it sets, and by nothing else.
/// Where reading stops does not depend on the geometry before.
pub proof fn lemma_preamble_update(m: SensorMetadata, data: Seq<u8>, pos: int)
    ensures
        scan_header(m, data, pos).metadata == preamble_update(data, pos).apply(m),
        scan_header(m, data, pos).consumed == scan_header(
            SensorMetadata { width: 0, height: 0 },
            data,
            pos,
        ).consumed,
    decreases data.len() - pos,
{
    if 0 <= pos < data.len() && data[pos] == HEADER_MARK {
        lemma_line_end(data, pos);
        let end = line_end(data, pos);
        let line = data.subrange(pos, end);
        if !has_prefix(line, end_mark()) {
            let zero = SensorMetadata { width: 0, height: 0 };
            if valid_utf8(line) {
                lemma_line_update(m, decode_utf8(line));
                lemma_line_update(zero, decode_utf8(line));
            }
            lemma_preamble_update(header_bytes_update(m, line), data, end);
            lemma_preamble_update(header_bytes_update(zero, line), data, end);
        }
    }
}

/// Reading a preamble stops within the data, at or behind the place where it
/// started.
pub proof fn lemma_scan_header_stops(m: SensorMetadata, data: Seq<u8>, pos: int)
    requires
        0 <= pos <= data.len(),
    ensures
        pos <= scan_header(m, data, pos).consumed <= data.len(),
    decreases data.len() - pos,
{
    if pos < data.len() && data[pos] == HEADER_MARK {
        lemma_line_end(data, pos);
        let end = line_end(data, pos);
        let line = data.subrange(pos, end);
        if !has_prefix(line, end_mark()) {
            lemma_scan_header_stops(header_bytes_update(m, line), data, end);
        }
    }
}

/// What a parsed line does is done once: taking the same line again changes
/// nothing more.
pub proof fn lemma_header_line_idempotent(m: SensorMetadata, line: Seq<char>)
    ensures
        header_line_update(header_line_update(m, line), line) == header_line_update(m, line),
{
    lemma_line_update(m, line);
    lemma_line_update(header_line_update(m, line), line);
}

/// Reading a preamble once more changes nothing more: the second reading
/// gives what the first gave.
pub proof fn lemma_preamble_idempotent(m: SensorMetadata, data: Seq<u8>)
    ensures
        scan_header(scan_header(m, data, 0).metadata, data, 0) == scan_header(m, data, 0),
{
    lemma_preamble_update(m, data, 0);
    lemma_preamble_update(scan_header(m, data, 0).metadata, data, 0);
}

/// A format line that states the width `w` and the height `h`.
pub open spec fn format_line(w: u32, h: u32) -> Seq<char> {
    "% format EVT3;width="@ + decimal_text(w as nat) + ";height="@ + decimal_text(h as nat)
}

/// A digit is neither a separator of a format line nor white space.
proof fn lemma_digit_is_plain(c: char)
    requires
        is_digit(c),
    ensures
        c != ';',
        c != '=',
        !is_whitespace(c),
{
}

/// The field `key=number`, where the key holds no `=`, splits at its `=`.
proof fn lemma_key_value_field(key: Seq<char>, n: u32)
    requires
        forall|i: int| 0 <= i < key.len() ==> key[i] != '=',
    ensures
        first_index(key + seq!['='] + decimal_text(n as nat), '=') == key.len(),
        (key + seq!['='] + decimal_text(n as nat)).take(key.len() as int) == key,
        parse_u32((key + seq!['='] + decimal_text(n as nat)).skip(key.len() as int + 1)) == Some(n),
{
    let number = decimal_text(n as nat);
    let field = key + seq!['='] + number;
    lemma_first_index_is(field, '=', key.len() as int);
    assert(field.take(key.len() as int) =~= key);
    assert(field.skip(key.len() as int + 1) =~= number);
    lemma_parse_decimal_text(n);
}

/// Parsing the format line of a width and a height gives that geometry,
/// whatever the geometry was before.
pub proof fn lemma_format_line_round_trip(m: SensorMetadata, w: u32, h: u32)
    ensures
        header_line_update(m, format_line(w, h)) == (SensorMetadata { width: w, height: h }),
{
    reveal_strlit("% format EVT3;width=");
    reveal_strlit(";height=");
    reveal_strlit("% format ");
    reveal_strlit("width");
    reveal_strlit("height");
    let dw = decimal_text(w as nat);
    let dh = decimal_text(h as nat);
    lemma_decimal_text_value(w as nat);
    lemma_decimal_text_value(h as nat);
    let line = format_line(w, h);
    assert(is_digit(dh[dh.len() - 1]));
    assert(line.last() == dh[dh.len() - 1]);
    lemma_digit_is_plain(line.last());
    assert(trim_end(line) == line);
    let mark = "% format "@;
    assert(line.take(mark.len() as int) =~= mark);
    let fields = line.skip(mark.len() as int);
    let evt = seq!['E', 'V', 'T', '3'];
    let width_key = seq!['w', 'i', 'd', 't', 'h'];
    let height_key = seq!['h', 'e', 'i', 'g', 'h', 't'];
    let width_field = width_key + seq!['='] + dw;
    let height_field = height_key + seq!['='] + dh;
    assert(width_key =~= "width"@);
    assert(height_key =~= "height"@);
    assert(fields =~= evt + seq![';'] + width_field + seq![';'] + height_field);

    // The first field, `EVT3`, holds no `=`.
    lemma_first_index_is(fields, ';', 4);
    assert(fields.take(4) =~= evt);
    lemma_first_index_is(evt, '=', 4);
    assert(apply_format_field(m, evt) == m);

    // The second field states the width.
    let after_evt = fields.skip(5);
    assert(after_evt =~= width_field + (seq![';'] + height_field));
    assert forall|i: int| 0 <= i < width_field.len() implies width_field[i] != ';' by {
        if i >= 6 {
            assert(is_digit(dw[i - 6]));
            lemma_digit_is_plain(dw[i - 6]);
        }
    }
    lemma_first_index_after(width_field, seq![';'] + height_field, ';');
    lemma_first_index_is(seq![';'] + height_field, ';', 0);
    assert(first_index(after_evt, ';') == width_field.len());
    assert(after_evt.take(width_field.len() as int) =~= width_field);
    lemma_key_value_field(width_key, w);
    let with_width = SensorMetadata { width: w, height: m.height };
    assert(apply_format_field(m, width_field) == with_width);

    // The last field states the height.
    let after_width = after_evt.skip(width_field.len() as int + 1);
    assert(after_width =~= height_field);
    assert forall|i: int| 0 <= i < height_field.len() implies height_field[i] != ';' by {
        if i >= 7 {
            assert(is_digit(dh[i - 7]));
            lemma_digit_is_plain(dh[i - 7]);
        }
    }
    lemma_first_index_is(height_field, ';', height_field.len() as int);
    lemma_key_value_field(height_key, h);
    assert(height_key.len() != width_key.len());
    assert(apply_format_field(with_width, height_field) == (SensorMetadata {
        width: w,
        height: h,
    }));
    assert(apply_format_fields(with_width, after_width) == (SensorMetadata {
        width: w,
        height: h,
    }));
    assert(apply_format_fields(m, after_evt) == apply_format_fields(with_width, after_width));
    assert(apply_format_fields(m, fields) == apply_format_fields(m, after_evt));
}

/// Every character of a format line is a printable ASCII character.
proof fn lemma_format_line_is_plain(w: u32, h: u32)
    ensures
        format_line(w, h).len() >= 30,
        forall|i: int|
            0 <= i < format_line(w, h).len() ==> 0x20 <= (#[trigger] format_line(w, h)[i]) as u32
                <= 0x7E,
        format_line(w, h)[0] == '%',
        format_line(w, h)[2] == 'f',
{
    reveal_strlit("% format EVT3;width=");
    reveal_strlit(";height=");
    let head = "% format EVT3;width="@;
    let mid = ";height="@;
    let dw = decimal_text(w as nat);
    let dh = decimal_text(h as nat);
    lemma_decimal_text_value(w as nat);
    lemma_decimal_text_value(h as nat);
    let line = format_line(w, h);
    assert forall|i: int| 0 <= i < head.len() implies 0x20 <= (#[trigger] head[i]) as u32
        <= 0x7E by {
        assert(i == 0 || i == 1 || i == 2 || i == 3 || i == 4 || i == 5 || i == 6 || i == 7 || i
            == 8 || i == 9 || i == 10 || i == 11 || i == 12 || i == 13 || i == 14 || i == 15 || i
            == 16 || i == 17 || i == 18 || i == 19);
    }
    assert forall|i: int| 0 <= i < mid.len() implies 0x20 <= (#[trigger] mid[i]) as u32
        <= 0x7E by {
        assert(i == 0 || i == 1 || i == 2 || i == 3 || i == 4 || i == 5 || i == 6 || i == 7);
    }
    assert forall|i: int| 0 <= i < line.len() implies 0x20 <= (#[trigger] line[i]) as u32
        <= 0x7E by {
        if i < head.len() {
            assert(line[i] == head[i]);
        } else if i < head.len() + dw.len() {
            assert(line[i] == dw[i - head.len()]);
            assert(is_digit(dw[i - head.len()]));
        } else if i < head.len() + dw.len() + mid.len() {
            assert(line[i] == mid[i - head.len() - dw.len()]);
        } else {
            assert(line[i] == dh[i - head.len() - dw.len() - mid.len()]);
            assert(is_digit(dh[i - head.len() - dw.len() - mid.len()]));
        }
    }
    assert(line[0] == head[0]);
    assert(line[2] == head[2]);
}

/// The bytes of a format line with its line feed, followed by bytes that do
/// not go on with a preamble line.
pub open spec fn format_preamble(w: u32, h: u32, rest: Seq<u8>) -> Seq<u8> {
    encode_utf8(format_line(w, h).push('\n')) + rest
}

/// Reading a preamble that is one format line gives the geometry that the
/// line states and stops behind the line.
proof fn lemma_format_preamble_scan(m: SensorMetadata, w: u32, h: u32, rest: Seq<u8>)
    requires
        rest.len() == 0 || rest[0] != HEADER_MARK,
    ensures
        scan_header(m, format_preamble(w, h, rest), 0) == (HeaderScan {
            metadata: SensorMetadata { width: w, height: h },
            consumed: format_line(w, h).len() as int + 1,
        }),
{
    let line = format_line(w, h);
    let text = line.push('\n');
    let bytes = encode_utf8(text);
    let data = format_preamble(w, h, rest);
    lemma_format_line_is_plain(w, h);
    assert forall|i: int| 0 <= i < text.len() implies '\0' <= #[trigger] text[i] <= '\u{7f}' by {
        if i < line.len() {
            assert(text[i] == line[i]);
            assert(0x20 <= line[i] as u32 <= 0x7E);
        } else {
            assert(text[i] == '\n');
        }
        lemma_char_code(text[i]);
    }
    assert(is_ascii_chars(text));
    is_ascii_chars_encode_utf8(text);
    encode_utf8_valid_utf8(text);
    encode_utf8_decode_utf8(text);
    let n = text.len() as int;
    assert(bytes.len() == n);
    assert(data[0] == bytes[0]);
    assert(bytes[0] == text[0] as u8);
    assert(text[0] == line[0]);

    // The line ends at its line feed.
    let tail = data.subrange(0, data.len() as int);
    assert forall|j: int| 0 <= j < n - 1 implies tail[j] != LINE_FEED by {
        assert(tail[j] == bytes[j]);
        assert(bytes[j] == text[j] as u8);
        assert(text[j] == line[j]);
    }
    assert(tail[n - 1] == bytes[n - 1]);
    assert(bytes[n - 1] == text[n - 1] as u8);
    lemma_first_index_is(tail, LINE_FEED, n - 1);
    assert(line_end(data, 0) == n);
    assert(data.subrange(0, n) =~= bytes);

    // It is no end line, and it states the geometry.
    assert(bytes[2] == text[2] as u8);
    assert(text[2] == line[2]);
    assert(bytes.take(5)[2] != end_mark()[2]);
    assert(!has_prefix(bytes, end_mark()));
    assert(text.drop_last() =~= line);
    assert(is_whitespace(text.last()));
    assert(trim_end(text) == trim_end(line));
    lemma_format_line_round_trip(m, w, h);
    let stated = SensorMetadata { width: w, height: h };
    assert(header_line_update(m, text) == stated);

    // What follows does not go on with the preamble.
    if n < data.len() {
        assert(data[n] == rest[0]);
    }
    assert(header_bytes_update(m, bytes) == stated);
    assert(scan_header(stated, data, n) == (HeaderScan { metadata: stated, consumed: n }));
}

/// Reading a preamble that is one format line, followed by a byte other than
/// `%` or by nothing, gives the geometry that the line states, whatever the
/// geometry was before; reading the same bytes once more changes nothing.
pub proof fn lemma_format_preamble_round_trip(m: SensorMetadata, w: u32, h: u32, rest: Seq<u8>)
    requires
        rest.len() == 0 || rest[0] != HEADER_MARK,
    ensures
        scan_header(m, format_preamble(w, h, rest), 0).metadata == (SensorMetadata {
            width: w,
            height: h,
        }),
        scan_header(m, format_preamble(w, h, rest), 0).consumed == format_line(w, h).len() + 1,
        scan_header(
            scan_header(m, format_preamble(w, h, rest), 0).metadata,
            format_preamble(w, h, rest),
            0,
        ) == scan_header(m, format_preamble(w, h, rest), 0),
{
    lemma_format_preamble_scan(m, w, h, rest);
    lemma_format_preamble_scan(SensorMetadata { width: w, height: h }, w, h, rest);
}

/// Reads a byte slice as text.
///
/// This is `core::str::from_utf8`. The contract says of it that it gives the
/// text exactly when the bytes are valid UTF-8, and that the text is then
/// made of these bytes.
#[verifier::external_body]
fn text_of_utf8<'a>(bytes: &'a [u8]) -> (text: Option<&'a str>)
    ensures
        text is Some <==> valid_utf8(bytes@),
        text is Some ==> text->0.spec_bytes() == bytes@,
{
    core::str::from_utf8(bytes).ok()
}

impl Evt3Decoder {
    /// Takes one field of a format line: the range `from..to` of `s`.
    fn parse_format_field(
        &mut self,
        s: &[char],
        from: usize,
        to: usize,
        width_key: &[char],
        height_key: &[char],
    )
        requires
            from <= to <= s@.len(),
            width_key@ == "width"@,
            height_key@ == "height"@,
        ensures
            final(self).metadata == apply_format_field(
                old(self).metadata,
                s@.subrange(from as int, to as int),
            ),
            final(self)@ == old(self)@,
    {
        let ghost field = s@.subrange(from as int, to as int);
        let eq = find_char(s, from, to, '=');
        if eq < to {
            assert(field.take(eq - from) =~= s@.subrange(from as int, eq as int));
            assert(field.skip(eq - from + 1) =~= s@.subrange(eq + 1, to as int));
            if range_equals(s, from, eq, width_key) {
                if let Some(w) = parse_u32_at(s, eq + 1, to) {
                    self.metadata.width = w;
                }
            } else if range_equals(s, from, eq, height_key) {
                if let Some(h) = parse_u32_at(s, eq + 1, to) {
                    self.metadata.height = h;
                }
            }
        }
    }

    /// Takes the fields of a format line: the range `from..to` of `s`.
    fn parse_format_fields(&mut self, s: &[char], from: usize, to: usize)
        requires
            from <= to <= s@.len(),
        ensures
            final(self).metadata == apply_format_fields(
                old(self).metadata,
                s@.subrange(from as int, to as int),
            ),
            final(self)@ == old(self)@,
    {
        let width_key = chars_of("width");
        let height_key = chars_of("height");
        let mut pos = from;
        loop
            invariant
                from <= pos <= to <= s@.len(),
                width_key@ == "width"@,
                height_key@ == "height"@,
                self@ == old(self)@,
                apply_format_fields(self.metadata, s@.subrange(pos as int, to as int))
                    == apply_format_fields(
                    old(self).metadata,
                    s@.subrange(from as int, to as int),
                ),
            ensures
                self@ == old(self)@,
                self.metadata == apply_format_fields(
                    old(self).metadata,
                    s@.subrange(from as int, to as int),
                ),
            decreases to - pos,
        {
            let ghost rest = s@.subrange(pos as int, to as int);
            let semi = find_char(s, pos, to, ';');
            assert(rest.take(semi - pos) =~= s@.subrange(pos as int, semi as int));
            if semi >= to {
                assert(rest.take(semi - pos) =~= rest);
                self.parse_format_field(s, pos, to, width_key.as_slice(), height_key.as_slice());
                break;
            }
            assert(rest.skip(semi - pos + 1) =~= s@.subrange(semi + 1, to as int));
            self.parse_format_field(s, pos, semi, width_key.as_slice(), height_key.as_slice());
            pos = semi + 1;
        }
    }

    /// Takes what follows `% geometry `: the range `from..to` of `s`.
    fn parse_geometry(&mut self, s: &[char], from: usize, to: usize)
        requires
            from <= to <= s@.len(),
        ensures
            final(self).metadata == apply_geometry(
                old(self).metadata,
                s@.subrange(from as int, to as int),
            ),
            final(self)@ == old(self)@,
    {
        let ghost geometry = s@.subrange(from as int, to as int);
        let x = find_char(s, from, to, 'x');
        if x < to {
            assert(geometry.take(x - from) =~= s@.subrange(from as int, x as int));
            assert(geometry.skip(x - from + 1) =~= s@.subrange(x + 1, to as int));
            let width = parse_u32_at(s, from, x);
            let height = parse_u32_at(s, x + 1, to);
            if let Some(w) = width {
                if let Some(h) = height {
                    self.metadata.width = w;
                    self.metadata.height = h;
                }
            }
        }
    }

    /// Parses a single line of the preamble and takes the geometry that it
    /// states. A line that states none, or states it badly, changes nothing.
    pub fn parse_header_line(&mut self, line: &str)
        ensures
            final(self).metadata == header_line_update(old(self).metadata, line@),
            final(self)@ == old(self)@,
    {
        let chars = chars_of(line);
        let s = chars.as_slice();
        let end = trim_end_at(s, 0, s.len());
        assert(s@.subrange(0, s@.len() as int) =~= s@);
        let ghost text = s@.subrange(0, end as int);
        let format_mark = chars_of("% format ");
        let geometry_mark = chars_of("% geometry ");
        if starts_with_at(s, 0, end, format_mark.as_slice()) {
            assert(text.skip(format_mark@.len() as int) =~= s@.subrange(
                format_mark@.len() as int,
                end as int,
            ));
            self.parse_format_fields(s, format_mark.len(), end);
        } else if starts_with_at(s, 0, end, geometry_mark.as_slice()) {
            assert(text.skip(geometry_mark@.len() as int) =~= s@.subrange(
                geometry_mark@.len() as int,
                end as int,
            ));
            self.parse_geometry(s, geometry_mark.len(), end);
        }
    }

    /// Reads the preamble at the start of `data` and takes the geometry that
    /// it states. Gives the number of bytes that belong to the preamble: the
    /// words of the stream start there.
    ///
    /// This never fails: a line that states no geometry, states it badly, or
    /// is not valid UTF-8 is passed over.
    pub fn parse_header(&mut self, data: &[u8]) -> (r: Result<usize, DecodeError>)
        ensures
            r is Ok,
            r->Ok_0 == scan_header(old(self).metadata, data@, 0).consumed,
            r->Ok_0 <= data@.len(),
            final(self).metadata == scan_header(old(self).metadata, data@, 0).metadata,
            final(self)@ == old(self)@,
    {
        let end_bytes: [u8; 5] = [0x25, 0x20, 0x65, 0x6E, 0x64];
        assert(end_bytes@ =~= end_mark());
        let mut pos: usize = 0;
        loop
            invariant
                pos <= data@.len(),
                end_bytes@ == end_mark(),
                self@ == old(self)@,
                scan_header(self.metadata, data@, pos as int) == scan_header(
                    old(self).metadata,
                    data@,
                    0,
                ),
            decreases data@.len() - pos,
        {
            if pos >= data.len() || data[pos] != HEADER_MARK {
                return Ok(pos);
            }
            proof {
                lemma_line_end(data@, pos as int);
            }
            let feed = find_byte(data, pos, data.len(), LINE_FEED);
            let end = if feed < data.len() {
                feed + 1
            } else {
                data.len()
            };
            if bytes_start_with_at(data, pos, end, end_bytes.as_slice()) {
                return Ok(end);
            }
            let line = slice_subrange(data, pos, end);
            if let Some(text) = text_of_utf8(line) {
                proof {
                    encode_utf8_decode_utf8(text@);
                }
                self.parse_header_line(text);
            }
            pos = end;
        }
    }
}

} // verus!
