//! Finding the receiver of a member access that is still being typed, such
//! as `value.` or `value.pre`, from the text before the cursor.

use vstd::prelude::*;
use vstd::string::StringSliceAdditionalSpecFns;

use crate::text::{char_floor, clamp_to_char_boundary, ident_byte, is_identifier_byte};
use crate::workspace::TextRange;

verus! {

/// Whether a byte is ASCII white space: space, tab, line feed, form feed or
/// carriage return.
pub open spec fn ascii_space_byte(byte: u8) -> bool {
    byte == 32 || byte == 9 || byte == 10 || byte == 12 || byte == 13
}

/// Whether a byte is ASCII white space, as `ascii_space_byte` states.
pub fn is_ascii_whitespace_byte(byte: u8) -> (r: bool)
    ensures
        r == ascii_space_byte(byte),
{
    byte == 32 || byte == 9 || byte == 10 || byte == 12 || byte == 13
}

/// Where the run of identifier bytes that ends at `i` starts.
pub open spec fn ident_run_start(b: Seq<u8>, i: int) -> int
    decreases i,
{
    if 0 < i <= b.len() && ident_byte(b[i - 1]) {
        ident_run_start(b, i - 1)
    } else {
        i
    }
}

/// Where the run of white space bytes that ends at `i` starts.
pub open spec fn space_run_start(b: Seq<u8>, i: int) -> int
    decreases i,
{
    if 0 < i <= b.len() && ascii_space_byte(b[i - 1]) {
        space_run_start(b, i - 1)
    } else {
        i
    }
}

/// The cursor position that member access looks back from: the offset,
/// clamped to the text and moved back onto a character boundary.
pub open spec fn cursor_at(b: Seq<u8>, offset: int) -> int {
    char_floor(b, if offset < b.len() { offset } else { b.len() as int })
}

/// The position of the `.` of a member access being typed at cursor `c`:
/// the byte just before the identifier that ends at `c`, when it is a dot.
pub open spec fn member_dot(b: Seq<u8>, c: int) -> Option<int> {
    let p = ident_run_start(b, c);
    if p == 0 || b[p - 1] != 46 {
        None
    } else {
        Some(p - 1)
    }
}

/// The span of the receiver's name before that dot: the identifier that
/// ends where the white space before the dot starts; none when it is empty.
pub open spec fn receiver_span(b: Seq<u8>, c: int) -> Option<(int, int)> {
    match member_dot(b, c) {
        None => None,
        Some(d) => {
            let e = space_run_start(b, d);
            let s = ident_run_start(b, e);
            if s == e {
                None
            } else {
                Some((s, e))
            }
        },
    }
}

proof fn lemma_ident_run(b: Seq<u8>, i: int)
    requires
        0 <= i <= b.len(),
    ensures
        0 <= ident_run_start(b, i) <= i,
        forall|k: int| ident_run_start(b, i) <= k < i ==> ident_byte(#[trigger] b[k]),
        ident_run_start(b, i) == 0 || !ident_byte(b[ident_run_start(b, i) - 1]),
    decreases i,
{
    if 0 < i && ident_byte(b[i - 1]) {
        lemma_ident_run(b, i - 1);
    }
}

proof fn lemma_space_run(b: Seq<u8>, i: int)
    requires
        0 <= i <= b.len(),
    ensures
        0 <= space_run_start(b, i) <= i,
        forall|k: int| space_run_start(b, i) <= k < i ==> ascii_space_byte(#[trigger] b[k]),
    decreases i,
{
    if 0 < i && ascii_space_byte(b[i - 1]) {
        lemma_space_run(b, i - 1);
    }
}

proof fn lemma_char_floor_bounds(b: Seq<u8>, n: int)
    requires
        0 <= n,
    ensures
        0 <= char_floor(b, n) <= n,
    decreases n,
{
    if n > 0 && !vstd::utf8::is_char_boundary(b, n) {
        lemma_char_floor_bounds(b, n - 1);
    }
}

/// Scans back from the cursor over an identifier, and returns where it
/// starts.
fn ident_start_before(bytes: &[u8], from: usize) -> (r: usize)
    requires
        from <= bytes@.len(),
    ensures
        r == ident_run_start(bytes@, from as int),
{
    let mut p = from;
    while p > 0 && is_identifier_byte(bytes[p - 1])
        invariant
            p <= from <= bytes@.len(),
            ident_run_start(bytes@, p as int) == ident_run_start(bytes@, from as int),
        decreases p,
    {
        p -= 1;
    }
    p
}

/// The position of the dot of a member access being typed at `offset`, as
/// `member_dot` states of the cursor there.
pub fn incomplete_member_dot_offset(text: &str, offset: u32) -> (r: Option<u32>)
    ensures
        match member_dot(text.spec_bytes(), cursor_at(text.spec_bytes(), offset as int)) {
            Some(d) => r == Some(d as u32) && d < offset,
            None => r is None,
        },
{
    let bytes = text.as_bytes();
    let len = bytes.len();
    assert(len == bytes@.len());
    assert(text.len() == len);
    let top = if (offset as usize) < len {
        offset as usize
    } else {
        len
    };
    let c = clamp_to_char_boundary(text, top);
    proof {
        lemma_char_floor_bounds(bytes@, top as int);
    }
    let p = ident_start_before(bytes, c);
    proof {
        lemma_ident_run(bytes@, c as int);
    }
    if p == 0 || bytes[p - 1] != 46 {
        return None;
    }
    Some((p - 1) as u32)
}

/// The name of the receiver of a member access being typed at `offset`:
/// the identifier before the dot, across white space, as `receiver_span`
/// states; its UTF-8 encoding is exactly those bytes of the text.
pub fn incomplete_member_receiver_name(text: &str, offset: u32) -> (r: Option<String>)
    ensures
        match receiver_span(text.spec_bytes(), cursor_at(text.spec_bytes(), offset as int)) {
            Some((s, e)) => r is Some && vstd::utf8::encode_utf8(r->0@) == text.spec_bytes().subrange(s, e),
            None => r is None,
        },
{
    let bytes = text.as_bytes();
    let ghost b = text.spec_bytes();
    let len = bytes.len();
    assert(len == bytes@.len());
    assert(text.len() == len);
    let top = if (offset as usize) < len {
        offset as usize
    } else {
        len
    };
    let c = clamp_to_char_boundary(text, top);
    proof {
        lemma_char_floor_bounds(b, top as int);
    }
    let p = ident_start_before(bytes, c);
    proof {
        lemma_ident_run(b, c as int);
    }
    if p == 0 || bytes[p - 1] != 46 {
        return None;
    }
    let mut receiver_end = p - 1;
    while receiver_end > 0 && is_ascii_whitespace_byte(bytes[receiver_end - 1])
        invariant
            receiver_end <= p - 1 < b.len(),
            b == bytes@,
            space_run_start(b, receiver_end as int) == space_run_start(b, p - 1),
        decreases receiver_end,
    {
        receiver_end -= 1;
    }
    let receiver_start = ident_start_before(bytes, receiver_end);
    if receiver_start == receiver_end {
        return None;
    }
    proof {
        let d = p - 1;
        lemma_space_run(b, d as int);
        lemma_ident_run(b, receiver_end as int);
        vstd::utf8::encode_utf8_valid_utf8(text@);
        assert(ascii_space_byte(b[receiver_end as int]) || receiver_end == d);
        vstd::utf8::is_char_boundary_iff_not_is_continuation_byte(b, receiver_end as int);
    }
    let (head, _) = text.split_at(receiver_end);
    proof {
        let hb = head.spec_bytes();
        vstd::utf8::encode_utf8_valid_utf8(head@);
        assert(hb[receiver_start as int] == b[receiver_start as int]);
        assert(ident_byte(b[receiver_start as int]));
        vstd::utf8::is_char_boundary_iff_not_is_continuation_byte(hb, receiver_start as int);
    }
    let (_, word) = head.split_at(receiver_start);
    proof {
        assert(word.spec_bytes() =~= b.subrange(receiver_start as int, receiver_end as int));
    }
    Some(word.to_owned())
}

/// The index of the longest range that ends at `end`, the last of them on a
/// tie; none when no range ends there.
pub open spec fn longest_ending_at(rs: Seq<TextRange>, end: u32) -> Option<int>
    decreases rs.len(),
{
    if rs.len() == 0 {
        None
    } else {
        let before = longest_ending_at(rs.drop_last(), end);
        let i = rs.len() - 1;
        if rs[i].end == end {
            match before {
                Some(j) => if rs[i].end - rs[i].start >= rs[j].end - rs[j].start {
                    Some(i)
                } else {
                    Some(j)
                },
                None => Some(i),
            }
        } else {
            before
        }
    }
}

/// The index of the longest range that ends at `end`, as
/// `longest_ending_at` states.
pub fn longest_range_ending_at(ranges: &[TextRange], end: u32) -> (r: Option<usize>)
    ensures
        match longest_ending_at(ranges@, end) {
            Some(i) => r == Some(i as usize),
            None => r is None,
        },
{
    let mut best: Option<usize> = None;
    let mut i: usize = 0;
    while i < ranges.len()
        invariant
            0 <= i <= ranges.len(),
            match longest_ending_at(ranges@.take(i as int), end) {
                Some(j) => best == Some(j as usize) && 0 <= j < i && ranges@[j].end == end,
                None => best is None,
            },
        decreases ranges.len() - i,
    {
        proof {
            let t = ranges@.take(i + 1);
            assert(t.drop_last() =~= ranges@.take(i as int));
            assert(t[i as int] == ranges@[i as int]);
            if let Some(j) = longest_ending_at(ranges@.take(i as int), end) {
                assert(t[j] == ranges@[j]);
            }
        }
        let r = ranges[i];
        if r.end == end {
            best = match best {
                Some(j) => if r.start <= ranges[j].start {
                    Some(i)
                } else {
                    Some(j)
                },
                None => Some(i),
            };
        }
        i += 1;
    }
    assert(ranges@.take(i as int) =~= ranges@);
    best
}

/// The expression whose value a member access being typed at `offset` reads:
/// of the expressions that end at its dot, the longest, the last of them on
/// a tie; given the ranges of the file's expressions, by index.
pub fn incomplete_member_receiver_expr(text: &str, offset: u32, expr_ranges: &[TextRange]) -> (r: Option<usize>)
    ensures
        match member_dot(text.spec_bytes(), cursor_at(text.spec_bytes(), offset as int)) {
            Some(d) => match longest_ending_at(expr_ranges@, d as u32) {
                Some(i) => r == Some(i as usize),
                None => r is None,
            },
            None => r is None,
        },
{
    let dot = match incomplete_member_dot_offset(text, offset) {
        Some(d) => d,
        None => return None,
    };
    longest_range_ending_at(expr_ranges, dot)
}

} // verus!
