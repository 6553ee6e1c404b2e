//! Positions in a document and byte offsets in its text, one from the other.

use crate::protocol::Position;
use crate::text::{last_index, lemma_last_index};
use vstd::prelude::*;
use vstd::utf8::{char_is_scalar, encode_scalar, encode_utf8};

verus! {

/// The number of bytes that a character takes in UTF-8.
pub open spec fn utf8_width(c: char) -> nat {
    let u = c as u32;
    if u < 0x80 {
        1
    } else if u < 0x800 {
        2
    } else if u < 0x10000 {
        3
    } else {
        4
    }
}

/// The number of code units that a character takes in UTF-16.
pub open spec fn utf16_width(c: char) -> nat {
    if (c as u32) < 0x10000 {
        1
    } else {
        2
    }
}

/// The number of bytes that a text takes in UTF-8.
pub open spec fn byte_len(s: Seq<char>) -> nat
    decreases s.len(),
{
    if s.len() == 0 {
        0
    } else {
        byte_len(s.drop_last()) + utf8_width(s.last())
    }
}

/// The number of code units that a text takes in UTF-16.
pub open spec fn utf16_len(s: Seq<char>) -> nat
    decreases s.len(),
{
    if s.len() == 0 {
        0
    } else {
        utf16_len(s.drop_last()) + utf16_width(s.last())
    }
}

/// The byte offset of the character at an index.
pub open spec fn offset_of(s: Seq<char>, index: int) -> int {
    byte_len(s.take(index)) as int
}

/// The number of line breaks in a text.
pub open spec fn newlines(s: Seq<char>) -> nat
    decreases s.len(),
{
    if s.len() == 0 {
        0
    } else {
        newlines(s.drop_last()) + if s.last() == '\n' {
            1nat
        } else {
            0
        }
    }
}

/// The number of the line that an index lies on.
pub open spec fn line_of(s: Seq<char>, index: int) -> nat {
    newlines(s.take(index))
}

/// The index at which the line of an index starts.
pub open spec fn line_start(s: Seq<char>, index: int) -> int {
    last_index(s.take(index), '\n') + 1
}

/// The number of UTF-16 code units between the start of the line and an index.
pub open spec fn column_of(s: Seq<char>, index: int) -> nat {
    utf16_len(s.subrange(line_start(s, index), index))
}

/// A count as a protocol value holds it.
pub open spec fn clamped(n: nat) -> u32 {
    if n <= u32::MAX {
        n as u32
    } else {
        u32::MAX
    }
}

/// The position of the character at an index; a count that a position cannot
/// hold is given as the largest that it can.
pub open spec fn position_of(s: Seq<char>, index: int) -> Position {
    Position { line: clamped(line_of(s, index)), character: clamped(column_of(s, index)) }
}

/// The first index at or behind `from` whose byte offset is not below `byte`,
/// or the length.
pub open spec fn index_at_byte(s: Seq<char>, byte: int, from: int) -> int
    decreases s.len() - from,
{
    if from >= s.len() {
        s.len() as int
    } else if offset_of(s, from) >= byte {
        from
    } else {
        index_at_byte(s, byte, from + 1)
    }
}

/// Whether a position on the line of an index is met at that index: the column
/// is reached, or the line ends.
pub open spec fn meets(s: Seq<char>, position: Position, index: int) -> bool {
    line_of(s, index) == position.line && (column_of(s, index) >= position.character || s[index]
        == '\n')
}

/// The first index at or behind `from` at which a position is met, or the
/// length. So a column past the end of its line is the end of that line, and a
/// line past the end of the text is the end of the text.
pub open spec fn index_of_position(s: Seq<char>, position: Position, from: int) -> int
    decreases s.len() - from,
{
    if from >= s.len() {
        s.len() as int
    } else if meets(s, position, from) {
        from
    } else {
        index_of_position(s, position, from + 1)
    }
}

/// The byte offset of a position.
pub open spec fn offset_of_position(s: Seq<char>, position: Position) -> int {
    offset_of(s, index_of_position(s, position, 0))
}

/// The byte column of a position: its byte offset within its line.
pub open spec fn byte_column_of_position(s: Seq<char>, position: Position) -> int {
    let index = index_of_position(s, position, 0);
    offset_of(s, index) - offset_of(s, line_start(s, index))
}

// ---------------------------------------------------------------------------
// Facts
// ---------------------------------------------------------------------------

proof fn lemma_encode_push(s: Seq<char>, c: char)
    ensures
        encode_utf8(s.push(c)) == encode_utf8(s) + encode_scalar(c as u32),
    decreases s.len(),
{
    if s.len() == 0 {
        assert(s.push(c).drop_first() =~= s);
        assert(encode_utf8(s) =~= Seq::empty());
        assert(encode_utf8(s.push(c)) =~= encode_utf8(s) + encode_scalar(c as u32));
    } else {
        lemma_encode_push(s.drop_first(), c);
        assert(s.push(c).drop_first() =~= s.drop_first().push(c));
        assert(encode_utf8(s.push(c)) =~= encode_utf8(s) + encode_scalar(c as u32));
    }
}

/// The bytes of a text are as many as its characters' widths add up to.
pub proof fn lemma_byte_len(s: Seq<char>)
    ensures
        byte_len(s) == encode_utf8(s).len(),
    decreases s.len(),
{
    if s.len() > 0 {
        lemma_byte_len(s.drop_last());
        lemma_encode_push(s.drop_last(), s.last());
        assert(s.drop_last().push(s.last()) =~= s);
        char_is_scalar(s.last());
    }
}

pub proof fn lemma_offset_next(s: Seq<char>, index: int)
    requires
        0 <= index < s.len(),
    ensures
        s.take(index + 1).drop_last() == s.take(index),
        s.take(index + 1).last() == s[index],
        offset_of(s, index + 1) == offset_of(s, index) + utf8_width(s[index]),
        line_of(s, index + 1) == line_of(s, index) + if s[index] == '\n' {
            1nat
        } else {
            0
        },
{
    assert(s.take(index + 1).drop_last() =~= s.take(index));
}

proof fn lemma_next_column(s: Seq<char>, index: int)
    requires
        0 <= index < s.len(),
    ensures
        s[index] == '\n' ==> line_start(s, index + 1) == index + 1 && column_of(s, index + 1) == 0,
        s[index] != '\n' ==> line_start(s, index + 1) == line_start(s, index) && column_of(
            s,
            index + 1,
        ) == column_of(s, index) + utf16_width(s[index]),
{
    lemma_offset_next(s, index);
    lemma_last_index(s.take(index), '\n');
    if s[index] != '\n' {
        let start = line_start(s, index);
        assert(s.subrange(start, index + 1).drop_last() =~= s.subrange(start, index));
        assert(s.subrange(start, index + 1).last() == s[index]);
    }
}

pub proof fn lemma_offset_monotone(s: Seq<char>, i: int, j: int)
    requires
        0 <= i <= j <= s.len(),
    ensures
        offset_of(s, i) + (j - i) <= offset_of(s, j),
        line_of(s, i) <= line_of(s, j),
    decreases j - i,
{
    if i < j {
        lemma_offset_monotone(s, i, j - 1);
        lemma_offset_next(s, j - 1);
    }
}

/// The offset of the end is the length in bytes.
pub proof fn lemma_offset_end(s: Seq<char>)
    ensures
        offset_of(s, s.len() as int) == byte_len(s),
        offset_of(s, 0) == 0,
{
    assert(s.take(s.len() as int) =~= s);
}

pub proof fn lemma_index_of_position(s: Seq<char>, position: Position, from: int)
    requires
        0 <= from <= s.len(),
    ensures
        ({
            let r = index_of_position(s, position, from);
            from <= r <= s.len() && (r < s.len() ==> meets(s, position, r)) && forall|k: int|
                from <= k < r ==> !meets(s, position, k)
        }),
    decreases s.len() - from,
{
    if from < s.len() && !meets(s, position, from) {
        lemma_index_of_position(s, position, from + 1);
    }
}

proof fn lemma_is_index_of_position(s: Seq<char>, position: Position, from: int, at: int)
    requires
        0 <= from <= at <= s.len(),
        at < s.len() ==> meets(s, position, at),
        forall|k: int| from <= k < at ==> !meets(s, position, k),
    ensures
        index_of_position(s, position, from) == at,
    decreases s.len() - from,
{
    if from < at {
        lemma_is_index_of_position(s, position, from + 1, at);
    }
}

pub proof fn lemma_index_at_byte(s: Seq<char>, byte: int, from: int)
    requires
        0 <= from <= s.len(),
    ensures
        ({
            let r = index_at_byte(s, byte, from);
            from <= r <= s.len() && (r < s.len() ==> offset_of(s, r) >= byte) && forall|k: int|
                from <= k < r ==> offset_of(s, k) < byte
        }),
    decreases s.len() - from,
{
    if from < s.len() && offset_of(s, from) < byte {
        lemma_index_at_byte(s, byte, from + 1);
    }
}

pub proof fn lemma_is_index_at_byte(s: Seq<char>, byte: int, from: int, at: int)
    requires
        0 <= from <= at <= s.len(),
        at < s.len() ==> offset_of(s, at) >= byte,
        forall|k: int| from <= k < at ==> offset_of(s, k) < byte,
    ensures
        index_at_byte(s, byte, from) == at,
    decreases s.len() - from,
{
    if from < at {
        lemma_is_index_at_byte(s, byte, from + 1, at);
    }
}

// ---------------------------------------------------------------------------
// Conversions
// ---------------------------------------------------------------------------

/// The number of bytes that a character takes in UTF-8.
pub fn width8(c: char) -> (r: usize)
    ensures
        r == utf8_width(c),
{
    let u: u32 = c as u32;
    if u < 0x80 {
        1
    } else if u < 0x800 {
        2
    } else if u < 0x10000 {
        3
    } else {
        4
    }
}

fn width16(c: char) -> (r: u64)
    ensures
        r == utf16_width(c),
{
    if (c as u32) < 0x10000 {
        1
    } else {
        2
    }
}

fn clamp(n: u64) -> (r: u32)
    ensures
        r == clamped(n as nat),
{
    if n <= u32::MAX as u64 {
        n as u32
    } else {
        u32::MAX
    }
}

pub fn position_to_byte_offset(source: &str, position: Position) -> (r: usize)
    ensures
        r == offset_of_position(source@, position),
{
    position_to_byte_offset_and_column(source, position).0
}

/// Returns the byte offset of `position`, together with its column expressed
/// as a byte offset within its line (as tree-sitter's points expect, unlike
/// the UTF-16 units of `Position::character`).
pub fn position_to_byte_offset_and_column(source: &str, position: Position) -> (r: (usize, usize))
    ensures
        r.0 == offset_of_position(source@, position),
        r.1 == byte_column_of_position(source@, position),
{
    let ghost s = source@;
    let total: usize = source.as_bytes().len();
    proof {
        lemma_byte_len(s);
        lemma_offset_end(s);
        assert(s.take(0) =~= Seq::empty());
        assert(s.subrange(0, 0) =~= Seq::empty());
    }
    let mut line: u64 = 0;
    let mut character: u64 = 0;
    let mut line_start_byte: usize = 0;
    let mut offset: usize = 0;
    for c in it: source.chars()
        invariant
            s == source@,
            it.seq() == s,
            total == byte_len(s),
            offset == offset_of(s, it.index() as int),
            line == line_of(s, it.index() as int),
            character <= offset,
            line <= offset,
            line_start_byte == offset_of(s, line_start(s, it.index() as int)),
            line_start_byte <= offset,
            line == position.line ==> character == column_of(s, it.index() as int),
            line != position.line ==> character == 0,
            line < position.line ==> forall|k: int|
                0 <= k <= it.index() ==> line_of(s, k) < position.line,
            forall|k: int| 0 <= k < it.index() ==> !meets(s, position, k),
    {
        let ghost i = it.index() as int;
        proof {
            lemma_offset_next(s, i);
            lemma_next_column(s, i);
            lemma_offset_monotone(s, i + 1, s.len() as int);
            lemma_offset_end(s);
        }
        if line == position.line as u64 && character >= position.character as u64 {
            proof {
                lemma_is_index_of_position(s, position, 0, i);
            }
            return (offset, offset - line_start_byte);
        }
        if c == '\n' {
            if line == position.line as u64 {
                proof {
                    lemma_is_index_of_position(s, position, 0, i);
                }
                return (offset, offset - line_start_byte);
            }
            line += 1;
            character = 0;
            line_start_byte = offset + width8(c);
        } else if line == position.line as u64 {
            character += width16(c);
        }
        offset += width8(c);
    }
    proof {
        lemma_is_index_of_position(s, position, 0, s.len() as int);
    }
    (offset, offset - line_start_byte)
}

/// The position of the first character that starts at or behind a byte offset.
pub fn byte_offset_to_position(source: &str, byte_offset: usize) -> (r: Position)
    ensures
        r == position_of(source@, index_at_byte(source@, byte_offset as int, 0)),
{
    let ghost s = source@;
    let total: usize = source.as_bytes().len();
    proof {
        lemma_byte_len(s);
        lemma_offset_end(s);
        assert(s.take(0) =~= Seq::empty());
        assert(s.subrange(0, 0) =~= Seq::empty());
    }
    let mut line: u64 = 0;
    let mut character: u64 = 0;
    let mut offset: usize = 0;
    for c in it: source.chars()
        invariant
            s == source@,
            it.seq() == s,
            total == byte_len(s),
            offset == offset_of(s, it.index() as int),
            line == line_of(s, it.index() as int),
            line <= offset,
            character <= offset,
            character == column_of(s, it.index() as int),
            forall|k: int| 0 <= k < it.index() ==> offset_of(s, k) < byte_offset,
    {
        let ghost i = it.index() as int;
        proof {
            lemma_offset_next(s, i);
            lemma_next_column(s, i);
            lemma_offset_monotone(s, i + 1, s.len() as int);
            lemma_offset_end(s);
        }
        if offset >= byte_offset {
            proof {
                lemma_is_index_at_byte(s, byte_offset as int, 0, i);
            }
            return Position { line: clamp(line), character: clamp(character) };
        }
        if c == '\n' {
            line += 1;
            character = 0;
        } else {
            character += width16(c);
        }
        offset += width8(c);
    }
    proof {
        lemma_is_index_at_byte(s, byte_offset as int, 0, s.len() as int);
    }
    Position { line: clamp(line), character: clamp(character) }
}

// ---------------------------------------------------------------------------
// Laws
// ---------------------------------------------------------------------------

proof fn lemma_columns_grow(s: Seq<char>, i: int, j: int)
    requires
        0 <= i <= j <= s.len(),
        line_of(s, i) == line_of(s, j),
    ensures
        column_of(s, i) + (j - i) <= column_of(s, j),
        forall|k: int| i <= k < j ==> s[k] != '\n',
    decreases j - i,
{
    if i < j {
        lemma_offset_monotone(s, i, j - 1);
        lemma_offset_monotone(s, j - 1, j);
        lemma_offset_next(s, j - 1);
        lemma_columns_grow(s, i, j - 1);
        lemma_next_column(s, j - 1);
    }
}

/// Where the counts fit in a position, the position of a character leads back
/// to that character's byte offset.
pub proof fn law_position_of_an_offset_leads_back(s: Seq<char>, index: int)
    requires
        0 <= index <= s.len(),
        line_of(s, index) <= u32::MAX,
        column_of(s, index) <= u32::MAX,
    ensures
        index_at_byte(s, offset_of(s, index), 0) == index,
        index_of_position(s, position_of(s, index), 0) == index,
        offset_of_position(s, position_of(s, index)) == offset_of(s, index),
{
    let p = position_of(s, index);
    assert forall|k: int| 0 <= k < index implies offset_of(s, k) < offset_of(s, index) by {
        lemma_offset_monotone(s, k, index);
    }
    assert forall|k: int| 0 <= k < index implies !meets(s, p, k) by {
        lemma_offset_monotone(s, k, index);
        if line_of(s, k) == p.line {
            lemma_columns_grow(s, k, index);
        }
    }
    lemma_is_index_of_position(s, p, 0, index);
    lemma_is_index_at_byte(s, offset_of(s, index), 0, index);
}

/// A position that names a character, or the end of a line, is the position of
/// its own byte offset.
pub proof fn law_offset_of_a_position_leads_back(s: Seq<char>, position: Position)
    requires
        ({
            let index = index_of_position(s, position, 0);
            line_of(s, index) == position.line && column_of(s, index) == position.character
        }),
    ensures
        position_of(s, index_at_byte(s, offset_of_position(s, position), 0)) == position,
{
    lemma_index_of_position(s, position, 0);
    law_position_of_an_offset_leads_back(s, index_of_position(s, position, 0));
}

/// A column past the end of its line is the end of that line.
pub proof fn law_column_past_the_line_is_clamped(s: Seq<char>, end: int, position: Position)
    requires
        0 <= end < s.len(),
        s[end] == '\n',
        position.line == line_of(s, end),
        position.character >= column_of(s, end),
    ensures
        offset_of_position(s, position) == offset_of(s, end),
{
    assert forall|k: int| 0 <= k < end implies !meets(s, position, k) by {
        lemma_offset_monotone(s, k, end);
        if line_of(s, k) == position.line {
            lemma_columns_grow(s, k, end);
        }
    }
    lemma_is_index_of_position(s, position, 0, end);
}

/// A line past the end of the text is the end of the text.
pub proof fn law_line_past_the_text_is_clamped(s: Seq<char>, position: Position)
    requires
        position.line > newlines(s),
    ensures
        offset_of_position(s, position) == byte_len(s),
{
    assert(s.take(s.len() as int) =~= s);
    assert forall|k: int| 0 <= k < s.len() implies !meets(s, position, k) by {
        lemma_offset_monotone(s, k, s.len() as int);
    }
    lemma_is_index_of_position(s, position, 0, s.len() as int);
}

/// A position is the number of line breaks before a place and the number of
/// UTF-16 code units between it and the last of them: one for each character,
/// and one more for each beyond the basic plane.
pub proof fn law_positions_count_lines_and_code_units(
    before: Seq<char>,
    line: Seq<char>,
    behind: Seq<char>,
)
    requires
        before.len() > 0 ==> before.last() == '\n',
        !line.contains('\n'),
        before.filter(|c: char| c == '\n').len() <= u32::MAX,
        line.len() + line.filter(|c: char| c as u32 >= 0x10000).len() <= u32::MAX,
    ensures
        ({
            let s = before + line + behind;
            let at = (before.len() + line.len()) as int;
            &&& position_of(s, at).line == before.filter(|c: char| c == '\n').len()
            &&& position_of(s, at).character == line.len() + line.filter(
                |c: char| c as u32 >= 0x10000,
            ).len()
        }),
{
    let s = before + line + behind;
    let at = (before.len() + line.len()) as int;
    let head = before + line;
    assert(s.take(at) =~= head);
    lemma_newlines(head);
    lemma_newlines(before);
    lemma_newlines(line);
    let is_break = |c: char| c == '\n';
    Seq::filter_distributes_over_add(before, line, is_break);
    lemma_no_breaks(line);
    let start = before.len() - 1;
    assert forall|k: int| start < k < head.len() implies head[k] != '\n' by {
        assert(head[k] == line[k - before.len()]);
        assert(line.contains(line[k - before.len()]));
    }
    if start >= 0 {
        assert(head[start] == before.last());
    }
    crate::text::lemma_is_last_index(head, '\n', start);
    assert(s.subrange(before.len() as int, at) =~= line);
    lemma_code_units(line);
}

proof fn lemma_newlines(s: Seq<char>)
    ensures
        newlines(s) == s.filter(|c: char| c == '\n').len(),
    decreases s.len(),
{
    reveal(Seq::filter);
    if s.len() > 0 {
        lemma_newlines(s.drop_last());
    }
}

proof fn lemma_no_breaks(s: Seq<char>)
    requires
        !s.contains('\n'),
    ensures
        s.filter(|c: char| c == '\n').len() == 0,
    decreases s.len(),
{
    reveal(Seq::filter);
    if s.len() > 0 {
        assert(s.contains(s.last()));
        let fewer = s.drop_last();
        assert(!fewer.contains('\n')) by {
            if fewer.contains('\n') {
                let k = choose|k: int| 0 <= k < fewer.len() && fewer[k] == '\n';
                assert(s[k] == '\n');
            }
        }
        lemma_no_breaks(fewer);
    }
}

proof fn lemma_code_units(s: Seq<char>)
    ensures
        utf16_len(s) == s.len() + s.filter(|c: char| c as u32 >= 0x10000).len(),
    decreases s.len(),
{
    reveal(Seq::filter);
    if s.len() > 0 {
        lemma_code_units(s.drop_last());
    }
}

/// The byte offset of a place is the number of bytes that the text before it
/// takes in UTF-8.
pub proof fn law_offsets_count_bytes(s: Seq<char>, index: int)
    requires
        0 <= index <= s.len(),
    ensures
        offset_of(s, index) == encode_utf8(s.take(index)).len(),
{
    lemma_byte_len(s.take(index));
}

/// A column in the middle of a character beyond the basic plane, which takes two
/// code units, is the end of that character.
pub proof fn law_a_column_inside_a_character_is_its_end(
    s: Seq<char>,
    index: int,
    position: Position,
)
    requires
        0 <= index < s.len(),
        s[index] as u32 >= 0x10000,
        position.line == line_of(s, index),
        position.character == column_of(s, index) + 1,
    ensures
        offset_of_position(s, position) == offset_of(s, index + 1),
{
    lemma_offset_monotone(s, index, index + 1);
    lemma_next_column(s, index);
    assert forall|k: int| 0 <= k < index + 1 implies !meets(s, position, k) by {
        if k < index {
            lemma_offset_monotone(s, k, index);
            if line_of(s, k) == position.line {
                lemma_columns_grow(s, k, index);
            }
        }
    }
    assert(line_of(s, index + 1) == line_of(s, index)) by {
        assert(s.take(index + 1).drop_last() =~= s.take(index));
        assert(s.take(index + 1).last() == s[index]);
    }
    if index + 1 < s.len() {
        assert(meets(s, position, index + 1));
    }
    lemma_is_index_of_position(s, position, 0, index + 1);
}

} // verus!
