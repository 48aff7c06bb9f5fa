//! The consumer offset snapshot: the drained offset, written as hexadecimal
//! text, and read back on startup.
use vstd::prelude::*;

use crate::hex::{format_hex, hex_number, hex_text, parse_hex};

verus! {

/// The text of a snapshot file, `content`, without one trailing newline.
pub open spec fn snapshot_body(content: Seq<char>) -> Seq<char> {
    if content.len() > 0 && content.last() == '\n' {
        content.drop_last()
    } else {
        content
    }
}

/// The offset a snapshot file holds: its hexadecimal number, and 0 when the
/// text is not one.
pub open spec fn snapshot_value(content: Seq<char>) -> usize {
    match hex_number(snapshot_body(content)) {
        Some(n) => n,
        None => 0,
    }
}

/// The text written to the snapshot file for `offset`.
pub fn offset_snapshot_text(offset: usize) -> (r: String)
    ensures
        r@ == hex_text(offset as nat),
{
    format_hex(offset)
}

/// The consumer offset to start from, given the snapshot file's text.
pub fn read_offset_snapshot(content: &String) -> (r: usize)
    ensures
        r == snapshot_value(content@),
{
    let s = content.as_str();
    let len = s.unicode_len();
    let body = if len > 0 && s.get_char(len - 1) == '\n' {
        s.substring_char(0, len - 1)
    } else {
        s
    };
    assert(body@ =~= snapshot_body(content@));
    match parse_hex(body) {
        Some(n) => n,
        None => 0,
    }
}

} // verus!
