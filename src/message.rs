//! Messages and their wire form `[<HEX-OFFSET>] <TEXT>`.
use vstd::prelude::*;

use crate::hex::{
    format_hex, hex_digit, hex_text, hex_value, is_hex_digit, is_hex_text, lemma_hex_round_trip,
    lemma_hex_value_grows,
};

verus! {

/// A text line with the offset it was admitted under.
pub struct QueueMessage {
    offset: usize,
    msg: String,
}

/// The error of reading a line that is not in wire form.
#[derive(Debug, PartialEq, Eq, Structural)]
pub struct ParseQueueMessageError;

impl View for QueueMessage {
    type V = (usize, Seq<char>);

    closed spec fn view(&self) -> (usize, Seq<char>) {
        (self.offset, self.msg@)
    }
}

/// The wire form of a message with offset `offset` and text `text`.
pub open spec fn wire_text(offset: usize, text: Seq<char>) -> Seq<char> {
    seq!['['] + hex_text(offset as nat) + seq![']', ' '] + text
}

/// The number of hexadecimal digits in `s` from position `i` on, up to the
/// first character that is not one.
pub open spec fn hex_run(s: Seq<char>, i: int) -> nat
    decreases s.len() - i,
{
    if i < 0 || i >= s.len() || !is_hex_digit(s[i]) {
        0
    } else {
        1 + hex_run(s, i + 1)
    }
}

/// What a line in wire form holds: the offset and the text, or nothing when
/// the line is not in wire form or its offset does not fit a `usize`.
pub open spec fn parse_wire(line: Seq<char>) -> Option<(usize, Seq<char>)> {
    let close: int = 1 + hex_run(line, 1) as int;
    let digits = line.subrange(1, close);
    if line.len() >= close + 2 && line[0] == '[' && hex_run(line, 1) > 0 && line[close] == ']'
        && line[close + 1] == ' ' && hex_value(digits) <= usize::MAX {
        Some((hex_value(digits) as usize, line.subrange(close + 2, line.len() as int)))
    } else {
        None
    }
}

proof fn lemma_hex_run_of_digits(s: Seq<char>, d: Seq<char>, i: int)
    requires
        0 <= i <= d.len(),
        is_hex_text(d) || d.len() == 0,
        s.len() > d.len(),
        s.subrange(0, d.len() as int) == d,
        !is_hex_digit(s[d.len() as int]),
    ensures
        hex_run(s, i) == d.len() - i,
    decreases d.len() - i,
{
    if i < d.len() {
        assert(s[i] == d[i]);
        lemma_hex_run_of_digits(s, d, i + 1);
    }
}

/// The wire form reads back as the message it was written from.
pub proof fn lemma_wire_round_trip(offset: usize, text: Seq<char>)
    ensures
        parse_wire(wire_text(offset, text)) == Some((offset, text)),
{
    let h = hex_text(offset as nat);
    lemma_hex_round_trip(offset as nat);
    let line = wire_text(offset, text);
    let rest = line.subrange(1, line.len() as int);
    assert(rest =~= h + seq![']', ' '] + text);
    assert(rest.subrange(0, h.len() as int) =~= h);
    lemma_hex_run_of_digits(rest, h, 0);
    assert forall|i: int| 0 <= i <= h.len() implies hex_run(line, i + 1) == hex_run(rest, i) by {
        lemma_hex_run_shift(line, rest, i);
    }
    assert(line.subrange(1, 1 + h.len() as int) =~= h);
    assert(line.subrange(h.len() + 3 as int, line.len() as int) =~= text);
}

proof fn lemma_hex_run_shift(line: Seq<char>, rest: Seq<char>, i: int)
    requires
        line.len() >= 1,
        rest == line.subrange(1, line.len() as int),
        0 <= i,
    ensures
        hex_run(line, i + 1) == hex_run(rest, i),
    decreases rest.len() - i,
{
    if i < rest.len() {
        assert(line[i + 1] == rest[i]);
        lemma_hex_run_shift(line, rest, i + 1);
    }
}

impl QueueMessage {
    pub fn new(offset: usize, msg: String) -> (r: QueueMessage)
        ensures
            r@ == (offset, msg@),
    {
        QueueMessage { offset, msg }
    }

    pub fn get_msg(&self) -> (r: String)
        ensures
            r@ == self@.1,
    {
        self.msg.clone()
    }

    pub fn get_offset(&self) -> (r: usize)
        ensures
            r == self@.0,
    {
        self.offset
    }

    /// The wire form `[<HEX-OFFSET>] <TEXT>`, with the offset in upper-case
    /// hexadecimal.
    pub fn to_string(&self) -> (r: String)
        ensures
            r@ == wire_text(self@.0, self@.1),
    {
        let mut r = String::from_str("[");
        let h = format_hex(self.offset);
        r.append(h.as_str());
        r.append("] ");
        r.append(self.msg.as_str());
        proof {
            reveal_strlit("[");
            reveal_strlit("] ");
            assert(r@ =~= wire_text(self.offset, self.msg@));
        }
        r
    }

    /// Reads a line in wire form; the text is everything after the first
    /// space.
    pub fn try_from(value: String) -> (r: Result<QueueMessage, ParseQueueMessageError>)
        ensures
            match parse_wire(value@) {
                Some(p) => r matches Ok(m) && m@ == p,
                None => r matches Err(_),
            },
    {
        let s = value.as_str();
        let len = s.unicode_len();
        if len < 1 || s.get_char(0) != '[' {
            return Err(ParseQueueMessageError);
        }
        let mut i: usize = 1;
        let mut n: usize = 0;
        while i < len
            invariant
                s@ == value@,
                len == s@.len(),
                1 <= i <= len,
                forall|k: int| 1 <= k < i ==> is_hex_digit(#[trigger] s@[k]),
                hex_run(s@, 1) >= i - 1,
                n as nat == hex_value(s@.subrange(1, i as int)),
            ensures
                s@ == value@,
                len == s@.len(),
                1 <= i <= len,
                forall|k: int| 1 <= k < i ==> is_hex_digit(#[trigger] s@[k]),
                i == len || !is_hex_digit(s@[i as int]),
                n as nat == hex_value(s@.subrange(1, i as int)),
            decreases len - i,
        {
            let c = s.get_char(i);
            match hex_digit(c) {
                Some(d) => {
                    proof {
                        lemma_hex_run_prefix(s@, 1, i as int + 1);
                        assert(s@.subrange(1, i + 1).drop_last() =~= s@.subrange(1, i as int));
                    }
                    if n > (usize::MAX - d as usize) / 16 {
                        proof {
                            lemma_hex_run_prefix(s@, 1, i as int + 1);
                            lemma_hex_run_bound(s@, 1);
                            let close: int = 1 + hex_run(s@, 1) as int;
                            let digits = s@.subrange(1, close);
                            lemma_hex_value_grows(digits, i as int);
                            assert(digits.subrange(0, i as int) =~= s@.subrange(1, i + 1));
                            let dv = d as int;
                            let nv = n as int;
                            assert(nv * 16 + dv > usize::MAX) by (nonlinear_arith)
                                requires
                                    nv > (usize::MAX - dv) / 16,
                                    0 <= dv < 16,
                            ;
                        }
                        return Err(ParseQueueMessageError);
                    }
                    n = n * 16 + d as usize;
                    i = i + 1;
                },
                None => {
                    break ;
                },
            }
        }
        proof {
            lemma_hex_run_prefix(s@, 1, i as int);
        }
        if i == 1 || len - i < 2 || s.get_char(i) != ']' || s.get_char(i + 1) != ' ' {
            return Err(ParseQueueMessageError);
        }
        let text = s.substring_char(i + 2, len);
        Ok(QueueMessage { offset: n, msg: String::from_str(text) })
    }
}

proof fn lemma_hex_run_bound(s: Seq<char>, i: int)
    requires
        0 <= i <= s.len(),
    ensures
        hex_run(s, i) <= s.len() - i,
    decreases s.len() - i,
{
    if i < s.len() {
        lemma_hex_run_bound(s, i + 1);
    }
}

/// `hex_run` counts a whole run: where the digits from `start` to `end` are
/// all hexadecimal, the run reaches at least `end`, and where `end` is not a
/// digit, exactly `end`.
proof fn lemma_hex_run_prefix(s: Seq<char>, start: int, end: int)
    requires
        0 <= start <= end <= s.len(),
        forall|k: int| start <= k < end ==> is_hex_digit(#[trigger] s[k]),
    ensures
        hex_run(s, start) >= end - start,
        end < s.len() && !is_hex_digit(s[end]) ==> hex_run(s, start) == end - start,
        end == s.len() ==> hex_run(s, start) == end - start,
    decreases end - start,
{
    if start < end {
        lemma_hex_run_prefix(s, start + 1, end);
    }
}

} // verus!
