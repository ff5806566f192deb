//! Terms in which the laws of single operations are stated.

use vstd::prelude::*;
use vstd::utf8::encode_utf8;

use crate::protocol::RecordView;
use crate::rows::RowView;

verus! {

/// Whether a memory can be seen at `now`: it was read before, or it is not on probation, or its
/// probation lasts longer.
pub open spec fn visible(row: RowView, now: int) -> bool {
    row.use_count != 0 || row.probation_until_ms is None || row.probation_until_ms->0 > now
}

/// The bytes of all of `contents`.
pub open spec fn bytes_of(contents: Seq<Seq<char>>) -> int {
    contents.fold_left(0int, |sum: int, content: Seq<char>| sum + encode_utf8(content).len())
}

/// The contents of `rows`.
pub open spec fn contents_of(rows: Seq<RowView>) -> Seq<Seq<char>> {
    rows.map_values(|row: RowView| row.content)
}

/// The memories of `namespace` that can be seen at `now`.
pub open spec fn visible_in(rows: Seq<RowView>, namespace: Seq<char>, now: int) -> Seq<RowView> {
    rows.filter(|row: RowView| row.namespace == namespace && visible(row, now))
}

/// The largest number that a signed 64-bit integer holds is where a later time stops, and the
/// smallest is where an earlier one stops.
pub open spec fn within_i64(n: int) -> int {
    if n > 0x7fff_ffff_ffff_ffff {
        0x7fff_ffff_ffff_ffff
    } else if n < -0x8000_0000_0000_0000 {
        -0x8000_0000_0000_0000
    } else {
        n
    }
}

/// Whether `record` shows the memory `row` as it stands.
pub open spec fn shows(record: RecordView, row: RowView) -> bool {
    &&& record.key.namespace == Some(row.namespace)
    &&& record.key.id == row.id
    &&& record.key.version == row.version
    &&& record.content == row.content
    &&& record.created_at_ms == row.created_at_ms
    &&& record.updated_at_ms == row.updated_at_ms
    &&& record.last_scanned_at_ms == row.last_scanned_at_ms
    &&& record.scan_count == row.scan_count
    &&& record.last_used_at_ms == row.last_used_at_ms
    &&& record.use_count == row.use_count
    &&& record.probation_until_ms == row.probation_until_ms
}

} // verus!
