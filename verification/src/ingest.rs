//! Tailing the access log: what each poll does with the file it finds.

use vstd::prelude::*;
use crate::text::{is_ws, trim_end};

verus! {

/// What one poll of the log file does.
#[derive(PartialEq, Eq, Structural, Debug, Clone, Copy)]
pub enum IngestAction {
    /// First start: remember where the file ends and read nothing.
    RecordStart { pos: u64, inode: u64 },
    /// Nothing new to read.
    Idle,
    /// Read the lines from this byte offset on.
    ReadFrom { pos: u64 },
}

/// The offset to resume from: zero after a rotation (a new inode, or a file
/// shorter than the stored offset), the stored offset otherwise.
pub open spec fn resume_pos(last_pos: u64, last_inode: u64, file_len: u64, file_inode: u64) -> u64 {
    if last_inode != 0 && (file_inode != last_inode || file_len < last_pos) { 0 } else { last_pos }
}

/// The decision of a poll (`ingest_batch`): on the first start the existing
/// content is skipped; after that the file is read from where the last read
/// ended, or from the start after a rotation, when it holds more.
pub fn ingest_plan(last_pos: u64, last_inode: u64, file_len: u64, file_inode: u64) -> (a: IngestAction)
    ensures
        last_inode == 0 ==> a == (IngestAction::RecordStart { pos: file_len, inode: file_inode }),
        last_inode != 0 && file_len <= resume_pos(last_pos, last_inode, file_len, file_inode) ==> a
            == IngestAction::Idle,
        last_inode != 0 && file_len > resume_pos(last_pos, last_inode, file_len, file_inode) ==> a
            == (IngestAction::ReadFrom { pos: resume_pos(last_pos, last_inode, file_len, file_inode) }),
{
    let mut pos = last_pos;
    if last_inode != 0 && (file_inode != last_inode || file_len < last_pos) {
        pos = 0;
    }
    if last_inode == 0 {
        return IngestAction::RecordStart { pos: file_len, inode: file_inode };
    }
    if file_len <= pos {
        return IngestAction::Idle;
    }
    IngestAction::ReadFrom { pos }
}

/// The text of a read line without trailing whitespace, or `None` when nothing
/// is left (such lines are skipped).
pub fn line_payload(line: &str) -> (r: Option<String>)
    ensures
        trim_end(line@).len() == 0 ==> r is None,
        trim_end(line@).len() > 0 ==> (r matches Some(s) && s@ == trim_end(line@)),
{
    let v = crate::text::chars_of(line);
    let t = crate::text::trim_end_chars(&v);
    if t.len() == 0 {
        None
    } else {
        Some(crate::text::string_from_chars(&t))
    }
}

/// The file offset after reading `n` more bytes; `None` when it would pass
/// `u64::MAX`.
pub fn advance(pos: u64, n: usize) -> (r: Option<u64>)
    ensures
        r is Some <==> pos + n <= u64::MAX,
        r matches Some(p) ==> p == pos + n,
{
    if n as u64 > u64::MAX - pos {
        None
    } else {
        Some(pos + n as u64)
    }
}

} // verus!
