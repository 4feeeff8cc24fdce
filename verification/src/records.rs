//! Reading alignment records from the lines of a comma-separated table.
//!
//! A line is cut at every comma. A record needs nineteen fields; the
//! tiles are read here, from six fields that hold whole numbers below
//! 256. The six fields that hold coordinates are handed on as text, cut
//! and trimmed, for the caller to decode.

use vstd::prelude::*;
use crate::coord::Position;
use crate::graph::{with_anchor, Anchor, AnchorGraph, Tile};
use crate::map_id::TileKey;

verus! {

/// The number of fields that a record needs.
pub const FIELDS_NEEDED: usize = 19;

/// The fields of the source tile: area, grid X, grid Z.
pub const SOURCE_TILE_AT: usize = 5;

/// The fields of the source point: X, Y, Z.
pub const SOURCE_POINT_AT: usize = 9;

/// The fields of the destination tile: area, grid X, grid Z.
pub const DESTINATION_TILE_AT: usize = 12;

/// The fields of the destination point: X, Y, Z.
pub const DESTINATION_POINT_AT: usize = 16;

/// A record as far as it can be read without decoding coordinates.
#[derive(Debug)]
pub struct RawRecord {
    pub source: TileKey,
    pub destination: TileKey,
    /// The texts of the source point's coordinates: X, Y, Z.
    pub source_point: Vec<Vec<char>>,
    /// The texts of the destination point's coordinates: X, Y, Z.
    pub destination_point: Vec<Vec<char>>,
}

/// The mathematical content of a raw record.
pub ghost struct RecordText {
    pub source: TileKey,
    pub destination: TileKey,
    pub source_point: Seq<Seq<char>>,
    pub destination_point: Seq<Seq<char>>,
}

/// The texts as sequences of characters.
pub open spec fn texts(fields: Seq<Vec<char>>) -> Seq<Seq<char>> {
    Seq::new(fields.len(), |i: int| fields[i]@)
}

impl View for RawRecord {
    type V = RecordText;

    open spec fn view(&self) -> RecordText {
        RecordText {
            source: self.source,
            destination: self.destination,
            source_point: texts(self.source_point@),
            destination_point: texts(self.destination_point@),
        }
    }
}

/// Whether a character is white space.
pub open spec fn is_space(c: char) -> bool {
    let code = c as u32;
    ||| 0x09 <= code <= 0x0D
    ||| code == 0x20
    ||| code == 0x85
    ||| code == 0xA0
    ||| code == 0x1680
    ||| 0x2000 <= code <= 0x200A
    ||| code == 0x2028
    ||| code == 0x2029
    ||| code == 0x202F
    ||| code == 0x205F
    ||| code == 0x3000
}

/// The places of the commas of a line, in rising order.
pub open spec fn commas(line: Seq<char>) -> Seq<int>
    decreases line.len(),
{
    if line.len() == 0 {
        Seq::empty()
    } else if line.last() == ',' {
        commas(line.drop_last()).push(line.len() - 1)
    } else {
        commas(line.drop_last())
    }
}

/// The number of fields of a line: one more than it has commas.
pub open spec fn field_count(line: Seq<char>) -> nat {
    commas(line).len() + 1
}

/// Where field `n` begins.
pub open spec fn field_start(line: Seq<char>, n: int) -> int {
    if n <= 0 {
        0
    } else {
        commas(line)[n - 1] + 1
    }
}

/// Where field `n` ends.
pub open spec fn field_end(line: Seq<char>, n: int) -> int {
    if n < commas(line).len() {
        commas(line)[n]
    } else {
        line.len() as int
    }
}

/// Field `n` of a line, counted from zero.
pub open spec fn field(line: Seq<char>, n: int) -> Seq<char> {
    line.subrange(field_start(line, n), field_end(line, n))
}

/// The number of white-space characters at the front of a text.
pub open spec fn leading_spaces(text: Seq<char>) -> nat
    decreases text.len(),
{
    if text.len() > 0 && is_space(text[0]) {
        1 + leading_spaces(text.skip(1))
    } else {
        0
    }
}

/// The number of white-space characters at the end of a text.
pub open spec fn trailing_spaces(text: Seq<char>) -> nat
    decreases text.len(),
{
    if text.len() > 0 && is_space(text.last()) {
        1 + trailing_spaces(text.drop_last())
    } else {
        0
    }
}

/// A text without the white space at its front and at its end.
pub open spec fn trimmed(text: Seq<char>) -> Seq<char> {
    let rest = text.skip(leading_spaces(text) as int);
    rest.take(rest.len() - trailing_spaces(rest))
}

/// Whether a character is a decimal digit.
pub open spec fn is_digit(c: char) -> bool {
    '0' <= c <= '9'
}

/// The number that a run of decimal digits writes.
pub open spec fn decimal(digits: Seq<char>) -> nat
    decreases digits.len(),
{
    if digits.len() == 0 {
        0
    } else {
        decimal(digits.drop_last()) * 10 + (digits.last() as u32 - '0' as u32) as nat
    }
}

/// Whether a text holds decimal digits only.
pub open spec fn all_digits(digits: Seq<char>) -> bool {
    forall|i: int| 0 <= i < digits.len() ==> is_digit(#[trigger] digits[i])
}

/// A text without the plus sign that it may begin with.
pub open spec fn unsigned_part(text: Seq<char>) -> Seq<char> {
    if text.len() > 0 && text[0] == '+' {
        text.skip(1)
    } else {
        text
    }
}

/// The whole number below 256 that a text writes: decimal digits, at
/// least one, after at most one plus sign.
pub open spec fn byte_value(text: Seq<char>) -> Option<u8> {
    let digits = unsigned_part(text);
    if digits.len() > 0 && all_digits(digits) && decimal(digits) <= 255 {
        Some(decimal(digits) as u8)
    } else {
        None
    }
}

/// The whole number that field `n` writes, once trimmed.
pub open spec fn byte_field(line: Seq<char>, n: int) -> Option<u8> {
    byte_value(trimmed(field(line, n)))
}

/// The tile that three fields from `n` on write.
pub open spec fn tile_fields(line: Seq<char>, n: int) -> Option<TileKey> {
    match (byte_field(line, n), byte_field(line, n + 1), byte_field(line, n + 2)) {
        (Some(area), Some(grid_x), Some(grid_z)) => Some(TileKey { area, grid_x, grid_z }),
        _ => None,
    }
}

/// The trimmed texts of three fields from `n` on.
pub open spec fn text_fields(line: Seq<char>, n: int) -> Seq<Seq<char>> {
    seq![
        trimmed(field(line, n)),
        trimmed(field(line, n + 1)),
        trimmed(field(line, n + 2)),
    ]
}

/// The record that a line holds: none if the line has fewer fields than
/// a record needs, or if one of its tile fields writes no whole number
/// below 256.
pub open spec fn record_of(line: Seq<char>) -> Option<RecordText> {
    if field_count(line) < FIELDS_NEEDED {
        None
    } else {
        match (
            tile_fields(line, SOURCE_TILE_AT as int),
            tile_fields(line, DESTINATION_TILE_AT as int),
        ) {
            (Some(source), Some(destination)) => Some(
                RecordText {
                    source,
                    destination,
                    source_point: text_fields(line, SOURCE_POINT_AT as int),
                    destination_point: text_fields(line, DESTINATION_POINT_AT as int),
                },
            ),
            _ => None,
        }
    }
}

/// The records of the first `n` lines of a table, in order. The first
/// line is the header and holds none.
pub open spec fn records_of(lines: Seq<Seq<char>>, n: nat) -> Seq<RecordText>
    decreases n,
{
    if n <= 1 {
        Seq::empty()
    } else {
        let before = records_of(lines, (n - 1) as nat);
        match record_of(lines[n - 1]) {
            Some(record) => before.push(record),
            None => before,
        }
    }
}

/// The lines as sequences of characters.
pub open spec fn line_texts(lines: Seq<Vec<char>>) -> Seq<Seq<char>> {
    Seq::new(lines.len(), |i: int| lines[i]@)
}

/// The records as their mathematical content.
pub open spec fn record_texts(records: Seq<RawRecord>) -> Seq<RecordText> {
    Seq::new(records.len(), |i: int| records[i]@)
}

/// The places of commas as whole numbers.
spec fn places(found: Seq<usize>) -> Seq<int> {
    Seq::new(found.len(), |i: int| found[i] as int)
}

/// The places of the commas lie within the line and rise.
proof fn lemma_commas_in_range(line: Seq<char>)
    ensures
        forall|i: int| 0 <= i < commas(line).len() ==> 0 <= #[trigger] commas(line)[i] < line.len(),
        forall|i: int, j: int|
            0 <= i < j < commas(line).len() ==> #[trigger] commas(line)[i] < #[trigger] commas(
                line,
            )[j],
    decreases line.len(),
{
    if line.len() > 0 {
        let shorter = line.drop_last();
        lemma_commas_in_range(shorter);
        let before = commas(shorter);
        let all = commas(line);
        assert(forall|i: int| 0 <= i < before.len() ==> all[i] == before[i]);
        assert forall|i: int| 0 <= i < all.len() implies 0 <= #[trigger] all[i] < line.len() by {
            if i < before.len() {
                assert(0 <= before[i] < shorter.len());
            }
        }
        assert forall|i: int, j: int| 0 <= i < j < all.len() implies #[trigger] all[i]
            < #[trigger] all[j] by {
            assert(0 <= before[i] < shorter.len());
            if j < before.len() {
                assert(before[i] < before[j]);
            }
        }
    }
}

/// Whether a character is white space.
fn space(c: char) -> (yes: bool)
    ensures
        yes == is_space(c),
{
    let code = c as u32;
    (0x09 <= code && code <= 0x0D) || code == 0x20 || code == 0x85 || code == 0xA0 || code
        == 0x1680 || (0x2000 <= code && code <= 0x200A) || code == 0x2028 || code == 0x2029
        || code == 0x202F || code == 0x205F || code == 0x3000
}

/// The places of the commas of a line.
fn comma_places(line: &Vec<char>) -> (found: Vec<usize>)
    ensures
        places(found@) == commas(line@),
{
    let mut found: Vec<usize> = Vec::new();
    let mut i: usize = 0;
    proof {
        assert(places(found@) =~= commas(line@.take(0)));
    }
    while i < line.len()
        invariant
            i <= line.len(),
            places(found@) == commas(line@.take(i as int)),
        decreases line.len() - i,
    {
        proof {
            assert(line@.take(i + 1).drop_last() =~= line@.take(i as int));
        }
        let ghost before = found@;
        if line[i] == ',' {
            found.push(i);
            proof {
                assert(places(found@) =~= places(before).push(i as int));
            }
        }
        i = i + 1;
    }
    proof {
        assert(line@.take(line@.len() as int) =~= line@);
    }
    found
}

/// The part of `line[start..end]` that is left when the white space at
/// both ends is cut off.
fn trim_range(line: &Vec<char>, start: usize, end: usize) -> (range: (usize, usize))
    requires
        start <= end <= line@.len(),
    ensures
        start <= range.0 <= range.1 <= end,
        line@.subrange(range.0 as int, range.1 as int) == trimmed(
            line@.subrange(start as int, end as int),
        ),
{
    let ghost text = line@.subrange(start as int, end as int);
    let mut a: usize = start;
    proof {
        assert(text.skip(0) =~= text);
    }
    while a < end && space(line[a])
        invariant
            start <= a <= end <= line@.len(),
            text == line@.subrange(start as int, end as int),
            leading_spaces(text) == (a - start) + leading_spaces(text.skip(a - start)),
        decreases end - a,
    {
        proof {
            assert(text.skip(a - start).skip(1) =~= text.skip(a - start + 1));
        }
        a = a + 1;
    }
    let ghost rest = text.skip(a - start);
    assert(leading_spaces(text) == a - start);
    let mut b: usize = end;
    proof {
        assert(rest.take(end - a) =~= rest);
    }
    while b > a && space(line[b - 1])
        invariant
            a <= b <= end <= line@.len(),
            start <= a,
            text == line@.subrange(start as int, end as int),
            rest == text.skip(a - start),
            trailing_spaces(rest) == (end - b) + trailing_spaces(rest.take(b - a)),
        decreases b,
    {
        proof {
            assert(rest.take(b - a).drop_last() =~= rest.take(b - a - 1));
        }
        b = b - 1;
    }
    proof {
        assert(trailing_spaces(rest.take(b - a)) == 0);
        assert(rest.take(rest.len() - (end - b)) =~= line@.subrange(a as int, b as int));
    }
    (a, b)
}

/// The whole number below 256 that `line[start..end]` writes.
fn parse_byte(line: &Vec<char>, start: usize, end: usize) -> (value: Option<u8>)
    requires
        start <= end <= line@.len(),
    ensures
        value == byte_value(line@.subrange(start as int, end as int)),
{
    let ghost text = line@.subrange(start as int, end as int);
    let first: usize = if start < end && line[start] == '+' {
        start + 1
    } else {
        start
    };
    let ghost digits = line@.subrange(first as int, end as int);
    proof {
        if first > start {
            assert(text.skip(1) =~= digits);
        } else {
            assert(text =~= digits);
        }
    }
    if first == end {
        return None;
    }
    let mut total: u32 = 0;
    let mut i: usize = first;
    proof {
        assert(digits.take(0) =~= Seq::<char>::empty());
    }
    while i < end
        invariant
            first <= i <= end <= line@.len(),
            first < end,
            text == line@.subrange(start as int, end as int),
            digits == line@.subrange(first as int, end as int),
            digits == unsigned_part(text),
            forall|k: int| 0 <= k < i - first ==> is_digit(#[trigger] digits[k]),
            total == if decimal(digits.take(i - first)) > 255 {
                256
            } else {
                decimal(digits.take(i - first))
            },
        decreases end - i,
    {
        let c = line[i];
        if !('0' <= c && c <= '9') {
            proof {
                let at = i - first;
                assert(digits[at] == c);
                assert(!is_digit(digits[at]));
                assert(byte_value(text) is None);
            }
            return None;
        }
        proof {
            assert(digits.take(i - first + 1).drop_last() =~= digits.take(i - first));
            assert(digits.take(i - first + 1).last() == c);
        }
        let d: u32 = c as u32 - '0' as u32;
        total = total * 10 + d;
        if total > 255 {
            total = 256;
        }
        i = i + 1;
    }
    proof {
        assert(digits.take(digits.len() as int) =~= digits);
    }
    if total > 255 {
        None
    } else {
        Some(total as u8)
    }
}

/// A copy of `line[start..end]`.
fn copy_range(line: &Vec<char>, start: usize, end: usize) -> (copy: Vec<char>)
    requires
        start <= end <= line@.len(),
    ensures
        copy@ == line@.subrange(start as int, end as int),
{
    let mut copy: Vec<char> = Vec::new();
    let mut i: usize = start;
    while i < end
        invariant
            start <= i <= end <= line@.len(),
            copy@ == line@.subrange(start as int, i as int),
        decreases end - i,
    {
        copy.push(line[i]);
        proof {
            assert(copy@ =~= line@.subrange(start as int, i + 1));
        }
        i = i + 1;
    }
    copy
}

/// Where field `n` of a line lies.
fn field_range(line: &Vec<char>, found: &Vec<usize>, n: usize) -> (range: (usize, usize))
    requires
        places(found@) == commas(line@),
        n <= found@.len(),
    ensures
        range.0 == field_start(line@, n as int),
        range.1 == field_end(line@, n as int),
        range.0 <= range.1 <= line@.len(),
{
    proof {
        lemma_commas_in_range(line@);
        if 0 < n {
            assert(places(found@)[n - 1] == found@[n - 1]);
        }
        if n < found@.len() {
            assert(places(found@)[n as int] == found@[n as int]);
        }
        if 0 < n && n < found@.len() {
            assert(commas(line@)[n - 1] < commas(line@)[n as int]);
        }
    }
    let length = line.len();
    let start: usize = if n == 0 {
        0
    } else {
        found[n - 1] + 1
    };
    let end: usize = if n < found.len() {
        found[n]
    } else {
        length
    };
    (start, end)
}

/// The whole number that field `n` writes, once trimmed.
fn read_byte(line: &Vec<char>, found: &Vec<usize>, n: usize) -> (value: Option<u8>)
    requires
        places(found@) == commas(line@),
        n <= found@.len(),
    ensures
        value == byte_field(line@, n as int),
{
    let (start, end) = field_range(line, found, n);
    let (a, b) = trim_range(line, start, end);
    proof {
        assert(line@.subrange(a as int, b as int) == trimmed(field(line@, n as int)));
    }
    parse_byte(line, a, b)
}

/// The tile that three fields from `n` on write.
fn read_tile(line: &Vec<char>, found: &Vec<usize>, n: usize) -> (tile: Option<TileKey>)
    requires
        places(found@) == commas(line@),
        n + 2 <= found@.len(),
        n <= DESTINATION_POINT_AT,
    ensures
        tile == tile_fields(line@, n as int),
{
    let area = read_byte(line, found, n);
    let grid_x = read_byte(line, found, n + 1);
    let grid_z = read_byte(line, found, n + 2);
    match (area, grid_x, grid_z) {
        (Some(area), Some(grid_x), Some(grid_z)) => Some(TileKey { area, grid_x, grid_z }),
        _ => None,
    }
}

/// The trimmed text of field `n`.
fn read_text(line: &Vec<char>, found: &Vec<usize>, n: usize) -> (text: Vec<char>)
    requires
        places(found@) == commas(line@),
        n <= found@.len(),
    ensures
        text@ == trimmed(field(line@, n as int)),
{
    let (start, end) = field_range(line, found, n);
    let (a, b) = trim_range(line, start, end);
    copy_range(line, a, b)
}

/// The trimmed texts of three fields from `n` on.
fn read_texts(line: &Vec<char>, found: &Vec<usize>, n: usize) -> (fields: Vec<Vec<char>>)
    requires
        places(found@) == commas(line@),
        n + 2 <= found@.len(),
        n <= DESTINATION_POINT_AT,
    ensures
        texts(fields@) == text_fields(line@, n as int),
{
    let mut fields: Vec<Vec<char>> = Vec::new();
    fields.push(read_text(line, found, n));
    fields.push(read_text(line, found, n + 1));
    fields.push(read_text(line, found, n + 2));
    proof {
        assert(texts(fields@) =~= text_fields(line@, n as int));
    }
    fields
}

/// Reads one line of the table. There is a record exactly if the line
/// has all the fields a record needs and each of its six tile fields
/// writes a whole number below 256.
pub fn scan_line(line: &Vec<char>) -> (record: Option<RawRecord>)
    ensures
        record is Some == record_of(line@) is Some,
        record matches Some(r) ==> Some(r@) == record_of(line@),
{
    let found = comma_places(line);
    if found.len() < FIELDS_NEEDED - 1 {
        return None;
    }
    let source = match read_tile(line, &found, SOURCE_TILE_AT) {
        Some(tile) => tile,
        None => {
            return None;
        },
    };
    let destination = match read_tile(line, &found, DESTINATION_TILE_AT) {
        Some(tile) => tile,
        None => {
            return None;
        },
    };
    let source_point = read_texts(line, &found, SOURCE_POINT_AT);
    let destination_point = read_texts(line, &found, DESTINATION_POINT_AT);
    Some(RawRecord { source, destination, source_point, destination_point })
}

/// Reads the lines of a table: the first line is the header and is
/// passed over, and so is every line that holds no record.
pub fn scan_table(lines: &Vec<Vec<char>>) -> (records: Vec<RawRecord>)
    ensures
        record_texts(records@) == records_of(line_texts(lines@), lines@.len()),
{
    let mut records: Vec<RawRecord> = Vec::new();
    let ghost all = line_texts(lines@);
    proof {
        assert(record_texts(records@) =~= records_of(all, 0));
        assert(records_of(all, 1) =~= records_of(all, 0));
    }
    if lines.len() == 0 {
        return records;
    }
    let mut i: usize = 1;
    while i < lines.len()
        invariant
            1 <= i <= lines.len(),
            all == line_texts(lines@),
            record_texts(records@) == records_of(all, i as nat),
        decreases lines.len() - i,
    {
        let ghost before = records@;
        proof {
            assert(all[i as int] == lines@[i as int]@);
        }
        match scan_line(&lines[i]) {
            Some(record) => {
                records.push(record);
                proof {
                    assert(record_texts(records@) =~= record_texts(before).push(
                        records@[before.len() as int]@,
                    ));
                }
            },
            None => {},
        }
        i = i + 1;
    }
    records
}

/// The two points of a record, decoded.
#[derive(Clone, Copy, Debug, PartialEq, Eq, Structural)]
pub struct Decoded {
    pub source: Position,
    pub destination: Position,
}

/// The anchor that a record and its decoded points make.
pub open spec fn anchor_of(record: RecordText, points: Decoded) -> Anchor {
    Anchor {
        src_pos: points.source,
        dst_area_no: record.destination.area,
        dst_grid_x: record.destination.grid_x,
        dst_grid_z: record.destination.grid_z,
        dst_pos: points.destination,
    }
}

/// The graph of the first `n` records: each record whose points could be
/// decoded adds its anchor to the list of its source tile.
pub open spec fn graph_of(records: Seq<RecordText>, points: Seq<Option<Decoded>>, n: nat) -> Seq<
    Tile,
>
    decreases n,
{
    if n == 0 {
        Seq::empty()
    } else {
        let before = graph_of(records, points, (n - 1) as nat);
        match points[n - 1] {
            Some(pair) => with_anchor(
                before,
                records[n - 1].source,
                anchor_of(records[n - 1], pair),
            ),
            None => before,
        }
    }
}

/// Builds the anchor graph from the records of a table and their decoded
/// points; a record whose points could not be decoded is passed over.
pub fn build_graph(records: &Vec<RawRecord>, points: &Vec<Option<Decoded>>) -> (graph: AnchorGraph)
    requires
        points@.len() == records@.len(),
    ensures
        graph.wf(),
        graph@ == graph_of(record_texts(records@), points@, records@.len()),
{
    let mut graph = AnchorGraph::new();
    let ghost all = record_texts(records@);
    let mut i: usize = 0;
    while i < records.len()
        invariant
            i <= records.len(),
            points@.len() == records@.len(),
            all == record_texts(records@),
            graph.wf(),
            graph@ == graph_of(all, points@, i as nat),
        decreases records.len() - i,
    {
        proof {
            assert(all[i as int] == records@[i as int]@);
        }
        match points[i] {
            Some(pair) => {
                let record = &records[i];
                let anchor = Anchor {
                    src_pos: pair.source,
                    dst_area_no: record.destination.area,
                    dst_grid_x: record.destination.grid_x,
                    dst_grid_z: record.destination.grid_z,
                    dst_pos: pair.destination,
                };
                graph.insert(record.source, anchor);
            },
            None => {},
        }
        i = i + 1;
    }
    graph
}

} // verus!
