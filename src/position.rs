use vstd::prelude::*;
use vstd::utf8::{
    decode_utf8, decode_utf8_encode_utf8, encode_scalar, encode_utf8, is_char_boundary,
    length_of_first_scalar, pop_first_scalar, valid_first_scalar, valid_utf8, valid_utf8_split,
};

verus! {

/// Number of `\n` bytes among the first `k` bytes of `b`.
pub open spec fn newlines_before(b: Seq<u8>, k: int) -> nat
    decreases k,
{
    if k <= 0 {
        0
    } else {
        newlines_before(b, k - 1) + if b[k - 1] == 10u8 { 1nat } else { 0nat }
    }
}

/// Index of the first byte of the line holding byte `k`: one past the last
/// `\n` before `k`, or 0 when there is none.
pub open spec fn line_start(b: Seq<u8>, k: int) -> int
    decreases k,
{
    if k <= 0 {
        0
    } else if b[k - 1] == 10u8 {
        k
    } else {
        line_start(b, k - 1)
    }
}

/// UTF-16 code units contributed by one byte of UTF-8 text: a continuation
/// byte adds nothing, the lead byte of a four-byte sequence (a code point
/// above U+FFFF) adds a surrogate pair, any other lead byte adds one unit.
pub open spec fn byte_utf16_units(x: u8) -> nat {
    if 0x80u8 <= x && x < 0xC0u8 {
        0
    } else if x >= 0xF0u8 {
        2
    } else {
        1
    }
}

/// UTF-16 length of the text encoded by the bytes `b[lo..hi]`.
pub open spec fn utf16_units(b: Seq<u8>, lo: int, hi: int) -> nat
    decreases hi - lo,
{
    if hi <= lo {
        0
    } else {
        utf16_units(b, lo, hi - 1) + byte_utf16_units(b[hi - 1])
    }
}

/// Zero-based (line, UTF-16 column) of byte offset `k` in `b`.
pub open spec fn position_at(b: Seq<u8>, k: int) -> (nat, nat) {
    (newlines_before(b, k), utf16_units(b, line_start(b, k), k))
}

/// Lexicographic order on (line, column) pairs.
pub open spec fn lex_le(p: (nat, nat), q: (nat, nat)) -> bool {
    p.0 < q.0 || (p.0 == q.0 && p.1 <= q.1)
}

proof fn lemma_newlines_bound(b: Seq<u8>, k: int)
    requires
        0 <= k,
    ensures
        newlines_before(b, k) <= k,
    decreases k,
{
    if k > 0 {
        lemma_newlines_bound(b, k - 1);
    }
}

proof fn lemma_line_start_bound(b: Seq<u8>, k: int)
    requires
        0 <= k,
    ensures
        0 <= line_start(b, k) <= k,
    decreases k,
{
    if k > 0 {
        lemma_line_start_bound(b, k - 1);
    }
}

proof fn lemma_units_bound(b: Seq<u8>, lo: int, hi: int)
    requires
        lo <= hi,
    ensures
        utf16_units(b, lo, hi) <= 2 * (hi - lo),
    decreases hi - lo,
{
    if hi > lo {
        lemma_units_bound(b, lo, hi - 1);
    }
}

/// Converting a later byte offset never gives an earlier (line, column):
/// for offsets `a <= c` in the buffer, the position of `a` is
/// lexicographically at most the position of `c`.
pub proof fn lemma_position_monotone(b: Seq<u8>, a: int, c: int)
    requires
        0 <= a <= c <= b.len(),
    ensures
        lex_le(position_at(b, a), position_at(b, c)),
    decreases c - a,
{
    if c > a {
        lemma_position_monotone(b, a, c - 1);
        lemma_line_start_bound(b, c - 1);
    }
}

/// A cursor fed a non-decreasing sequence of byte offsets into one buffer
/// reports a lexicographically non-decreasing sequence of positions.
pub proof fn lemma_positions_sorted(b: Seq<u8>, offsets: Seq<int>)
    requires
        forall|i: int| 0 <= i < offsets.len() ==> 0 <= #[trigger] offsets[i] <= b.len(),
        forall|i: int, j: int| 0 <= i <= j < offsets.len() ==> offsets[i] <= offsets[j],
    ensures
        forall|i: int, j: int|
            0 <= i <= j < offsets.len() ==> lex_le(
                #[trigger] position_at(b, offsets[i]),
                #[trigger] position_at(b, offsets[j]),
            ),
{
    assert forall|i: int, j: int| 0 <= i <= j < offsets.len() implies lex_le(
        #[trigger] position_at(b, offsets[i]),
        #[trigger] position_at(b, offsets[j]),
    ) by {
        lemma_position_monotone(b, offsets[i], offsets[j]);
    }
}

/// Forward-only cursor converting byte offsets of one buffer into
/// zero-based (line, UTF-16 column) positions.
pub struct AccumulatePosition {
    pub line_num: usize,
    pub line_pos: usize,
    pub last_offset: usize,
}

impl AccumulatePosition {
    /// The cursor's fields describe its last offset in buffer `b`.
    pub open spec fn synced(&self, b: Seq<u8>) -> bool {
        &&& self.last_offset <= b.len()
        &&& self.line_num == newlines_before(b, self.last_offset as int)
        &&& self.line_pos == utf16_units(
            b,
            line_start(b, self.last_offset as int),
            self.last_offset as int,
        )
    }

    /// A cursor at the start of a buffer: line 0, column 0, offset 0.
    pub fn new() -> (r: Self)
        ensures
            r.line_num == 0,
            r.line_pos == 0,
            r.last_offset == 0,
            forall|b: Seq<u8>| #[trigger] r.synced(b),
    {
        AccumulatePosition { line_num: 0, line_pos: 0, last_offset: 0 }
    }

    /// Moves the cursor forward to `byte_offset` and returns its position.
    /// The line is the previous line plus the newlines passed over; the
    /// column is the UTF-16 length of the text between the start of the
    /// current line and `byte_offset`. The buffer is UTF-8 text and the
    /// offset falls between two characters.
    pub fn pos(&mut self, buffer: &[u8], byte_offset: usize) -> (r: (usize, usize))
        requires
            old(self).synced(buffer@),
            old(self).last_offset <= byte_offset <= buffer@.len(),
            buffer@.len() <= isize::MAX,
            valid_utf8(buffer@),
            is_char_boundary(buffer@, byte_offset as int),
        ensures
            r.0 == position_at(buffer@, byte_offset as int).0,
            r.1 == position_at(buffer@, byte_offset as int).1,
            r.0 == old(self).line_num + newlines_before(buffer@, byte_offset as int)
                - newlines_before(buffer@, old(self).last_offset as int),
            final(self).synced(buffer@),
            final(self).last_offset == byte_offset,
            final(self).line_num == r.0,
            final(self).line_pos == r.1,
            r.1 == utf16_len(
                decode_utf8(
                    buffer@.subrange(line_start(buffer@, byte_offset as int), byte_offset as int),
                ),
            ),
    {
        let ghost b = buffer@;
        let mut newlines: usize = 0;
        let mut i: usize = self.last_offset;
        proof {
            lemma_newlines_bound(b, byte_offset as int);
        }
        while i < byte_offset
            invariant
                self.last_offset <= i <= byte_offset <= b.len(),
                b == buffer@,
                self.line_num == newlines_before(b, self.last_offset as int),
                self.line_num + newlines == newlines_before(b, i as int),
                newlines_before(b, byte_offset as int) <= byte_offset,
            decreases byte_offset - i,
        {
            proof {
                lemma_newlines_mono(b, i as int + 1, byte_offset as int);
            }
            if buffer[i] == 10u8 {
                newlines = newlines + 1;
            }
            i = i + 1;
        }
        let line_num = self.line_num + newlines;

        let mut start: usize = byte_offset;
        while start > 0 && buffer[start - 1] != 10u8
            invariant
                start <= byte_offset <= b.len(),
                b == buffer@,
                line_start(b, byte_offset as int) == line_start(b, start as int),
            decreases start,
        {
            start = start - 1;
        }

        let mut line_pos: usize = 0;
        let mut k: usize = start;
        while k < byte_offset
            invariant
                start <= k <= byte_offset <= b.len(),
                b.len() <= isize::MAX,
                b == buffer@,
                line_pos == utf16_units(b, start as int, k as int),
            decreases byte_offset - k,
        {
            proof {
                lemma_units_bound(b, start as int, k as int);
            }
            let x = buffer[k];
            if 0x80u8 <= x && x < 0xC0u8 {
            } else if x >= 0xF0u8 {
                line_pos = line_pos + 2;
            } else {
                line_pos = line_pos + 1;
            }
            k = k + 1;
        }

        proof {
            lemma_column_decodes(b, byte_offset as int);
        }
        self.line_num = line_num;
        self.line_pos = line_pos;
        self.last_offset = byte_offset;
        (line_num, line_pos)
    }
}

proof fn lemma_newlines_mono(b: Seq<u8>, j: int, k: int)
    requires
        0 <= j <= k,
    ensures
        newlines_before(b, j) <= newlines_before(b, k),
    decreases k - j,
{
    if j < k {
        lemma_newlines_mono(b, j, k - 1);
    }
}


/// UTF-16 code units of one character: two for a code point above U+FFFF,
/// one otherwise.
pub open spec fn char_utf16_width(c: char) -> nat {
    if (c as u32) > 0xFFFF {
        2
    } else {
        1
    }
}

/// UTF-16 length of a text.
pub open spec fn utf16_len(cs: Seq<char>) -> nat
    decreases cs.len(),
{
    if cs.len() == 0 {
        0
    } else {
        char_utf16_width(cs[0]) + utf16_len(cs.drop_first())
    }
}

proof fn lemma_units_split(b: Seq<u8>, lo: int, mid: int, hi: int)
    requires
        lo <= mid <= hi,
    ensures
        utf16_units(b, lo, hi) == utf16_units(b, lo, mid) + utf16_units(b, mid, hi),
    decreases hi - mid,
{
    if hi > mid {
        lemma_units_split(b, lo, mid, hi - 1);
    }
}

proof fn lemma_units_frame(b1: Seq<u8>, lo1: int, b2: Seq<u8>, lo2: int, n: int)
    requires
        0 <= n,
        forall|i: int| 0 <= i < n ==> #[trigger] b1[lo1 + i] == b2[lo2 + i],
    ensures
        utf16_units(b1, lo1, lo1 + n) == utf16_units(b2, lo2, lo2 + n),
    decreases n,
{
    if n > 0 {
        lemma_units_frame(b1, lo1, b2, lo2, n - 1);
        assert(b1[lo1 + (n - 1)] == b2[lo2 + (n - 1)]);
    }
}

proof fn lemma_units_concat(x: Seq<u8>, y: Seq<u8>)
    ensures
        utf16_units(x + y, 0, (x + y).len() as int) == utf16_units(x, 0, x.len() as int)
            + utf16_units(y, 0, y.len() as int),
{
    let b = x + y;
    lemma_units_split(b, 0, x.len() as int, b.len() as int);
    lemma_units_frame(b, 0, x, 0, x.len() as int);
    lemma_units_frame(b, x.len() as int, y, 0, y.len() as int);
}

proof fn lemma_lead_bytes(v: u32)
    ensures
        (v & 0x7F) as u8 <= 0x7F,
        0xC0 <= (0xC0u8 | ((v >> 6) & 0x1F) as u8) <= 0xDF,
        0xE0 <= (0xE0u8 | ((v >> 12) & 0x0F) as u8) <= 0xEF,
        0xF0 <= (0xF0u8 | ((v >> 18) & 0x7) as u8),
        0x80 <= (0x80u8 | (v & 0x3F) as u8) < 0xC0,
        0x80 <= (0x80u8 | ((v >> 6) & 0x3F) as u8) < 0xC0,
        0x80 <= (0x80u8 | ((v >> 12) & 0x3F) as u8) < 0xC0,
{
    assert((v & 0x7F) as u8 <= 0x7F) by (bit_vector);
    assert(0xC0 <= (0xC0u8 | ((v >> 6) & 0x1F) as u8) <= 0xDF) by (bit_vector);
    assert(0xE0 <= (0xE0u8 | ((v >> 12) & 0x0F) as u8) <= 0xEF) by (bit_vector);
    assert(0xF0 <= (0xF0u8 | ((v >> 18) & 0x7) as u8)) by (bit_vector);
    assert(0x80 <= (0x80u8 | (v & 0x3F) as u8) < 0xC0) by (bit_vector);
    assert(0x80 <= (0x80u8 | ((v >> 6) & 0x3F) as u8) < 0xC0) by (bit_vector);
    assert(0x80 <= (0x80u8 | ((v >> 12) & 0x3F) as u8) < 0xC0) by (bit_vector);
}

proof fn lemma_units_of_char(c: char)
    ensures
        utf16_units(encode_scalar(c as u32), 0, encode_scalar(c as u32).len() as int)
            == char_utf16_width(c),
{
    let v = c as u32;
    lemma_lead_bytes(v);
    let e = encode_scalar(v);
    assert(utf16_units(e, 0, 0) == 0);
    if e.len() >= 2 {
        assert(utf16_units(e, 0, 1) == byte_utf16_units(e[0]));
        assert(utf16_units(e, 0, 2) == utf16_units(e, 0, 1) + byte_utf16_units(e[1]));
    }
    if e.len() >= 3 {
        assert(utf16_units(e, 0, 3) == utf16_units(e, 0, 2) + byte_utf16_units(e[2]));
    }
    if e.len() >= 4 {
        assert(utf16_units(e, 0, 4) == utf16_units(e, 0, 3) + byte_utf16_units(e[3]));
    }
}

/// For any text, counting UTF-16 units over its UTF-8 bytes gives the
/// UTF-16 length of its characters: a code point above U+FFFF counts two,
/// any other one.
pub proof fn lemma_utf16_units_of_text(cs: Seq<char>)
    ensures
        utf16_units(encode_utf8(cs), 0, encode_utf8(cs).len() as int) == utf16_len(cs),
    decreases cs.len(),
{
    if cs.len() > 0 {
        lemma_utf16_units_of_text(cs.drop_first());
        lemma_units_of_char(cs[0]);
        lemma_units_concat(encode_scalar(cs[0] as u32), encode_utf8(cs.drop_first()));
    }
}


proof fn lemma_line_start_after_newline(b: Seq<u8>, k: int)
    requires
        0 <= k <= b.len(),
    ensures
        line_start(b, k) > 0 ==> b[line_start(b, k) - 1] == 10u8,
    decreases k,
{
    if k > 0 {
        lemma_line_start_after_newline(b, k - 1);
    }
}

/// In UTF-8 text, the byte after a `\n` starts a character.
proof fn lemma_newline_is_boundary(q: Seq<u8>, k: int)
    requires
        valid_utf8(q),
        0 < k <= q.len(),
        q[k - 1] == 10u8,
    ensures
        is_char_boundary(q, k),
    decreases q.len(),
{
    let n = length_of_first_scalar(q);
    assert(valid_first_scalar(q));
    let tail = pop_first_scalar(q);
    assert(valid_utf8(tail));
    if k - 1 < n {
        assert(k == 1 && n == 1);
        assert(is_char_boundary(tail, 0));
    } else {
        assert(tail[k - n - 1] == q[k - 1]);
        lemma_newline_is_boundary(tail, k - n);
    }
}

/// The column counted over the bytes of a line prefix is the UTF-16 length
/// of the characters those bytes decode to.
proof fn lemma_column_decodes(b: Seq<u8>, k: int)
    requires
        valid_utf8(b),
        0 <= k <= b.len(),
        is_char_boundary(b, k),
    ensures
        utf16_units(b, line_start(b, k), k) == utf16_len(
            decode_utf8(b.subrange(line_start(b, k), k)),
        ),
{
    let ls = line_start(b, k);
    lemma_line_start_bound(b, k);
    lemma_line_start_after_newline(b, k);
    valid_utf8_split(b, k);
    let p = b.subrange(0, k);
    if ls > 0 {
        assert(p[ls - 1] == 10u8);
        lemma_newline_is_boundary(p, ls);
    }
    assert(is_char_boundary(p, ls));
    valid_utf8_split(p, ls);
    let sl = p.subrange(ls, k);
    assert(sl =~= b.subrange(ls, k));
    decode_utf8_encode_utf8(sl);
    let t = decode_utf8(sl);
    lemma_utf16_units_of_text(t);
    lemma_units_frame(b, ls, sl, 0, k - ls);
}

} // verus!
