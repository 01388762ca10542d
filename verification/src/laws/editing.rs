//! Positions in a text, and edits of it.

use vstd::prelude::*;
use vstd::string::*;

use crate::buffers::{apply_patch, patched};
use crate::position::{
    index_of, lemma_column_index, lemma_line_begins, lemma_line_begins_prefix, line_begins,
    offset_of, place, position_of, range_in, round_trip, units, Encoding,
};
use crate::protocol::{Position, Range};
use crate::model::SourceRange;
use crate::text::{byte_len, byte_offset};

verus! {

/// Number of newlines in a text.
pub open spec fn newlines(s: Seq<char>) -> nat
    decreases s.len(),
{
    if s.len() == 0 {
        0
    } else {
        newlines(s.drop_last()) + (if s.last() == '\n' {
            1nat
        } else {
            0
        })
    }
}

/// Code units of a text in an encoding: bytes in UTF-8, and in UTF-16 one unit for each
/// character, two beyond the first plane.
pub open spec fn code_units(s: Seq<char>, encoding: Encoding) -> nat
    decreases s.len(),
{
    if s.len() == 0 {
        0
    } else {
        code_units(s.drop_last(), encoding) + match encoding {
            Encoding::Utf8 => vstd::utf8::encode_utf8(seq![s.last()]).len(),
            Encoding::Utf16 => if (s.last() as u32) < 0x10000 {
                1nat
            } else {
                2
            },
        }
    }
}

proof fn lemma_code_units(s: Seq<char>, encoding: Encoding)
    ensures
        units(s, encoding) == code_units(s, encoding),
    decreases s.len(),
{
    if s.len() > 0 {
        lemma_code_units(s.drop_last(), encoding);
        let one = seq![s.last()];
        crate::text::lemma_encode_len(one);
        assert(one.drop_last() =~= Seq::<char>::empty());
        reveal_with_fuel(byte_len, 2);
    }
}

proof fn lemma_newlines(s: Seq<char>, n: int)
    requires
        0 <= n <= s.len(),
    ensures
        line_begins(s, n).len() == newlines(s.take(n)) + 1,
    decreases n,
{
    if n > 0 {
        lemma_newlines(s, n - 1);
        assert(s.take(n).drop_last() =~= s.take(n - 1));
        assert(s.take(n).last() == s[n - 1]);
    } else {
        assert(s.take(0) =~= Seq::<char>::empty());
    }
}

/// A line begins at an index: at the front, or behind a newline.
pub open spec fn begins_line(s: Seq<char>, b: int) -> bool {
    b == 0 || 0 < b <= s.len() && s[b - 1] == '\n'
}

proof fn lemma_begin(s: Seq<char>, n: int)
    requires
        0 <= n <= s.len(),
    ensures
        begins_line(s, line_begins(s, n).last()),
    decreases n,
{
    if n > 0 {
        lemma_begin(s, n - 1);
    }
}

/// The position of a character counts the newlines before it and the code units between
/// the begin of its line and it.
pub proof fn a_position_counts_lines_and_code_units(s: Seq<char>, i: int, encoding: Encoding) -> (b: int)
    requires
        0 <= i <= s.len(),
        byte_len(s) <= u32::MAX,
    ensures
        0 <= b <= i,
        begins_line(s, b),
        forall|k: int| b <= k < i ==> #[trigger] s[k] != '\n',
        position_of(s, i, encoding).line == newlines(s.take(i)),
        position_of(s, i, encoding).character == code_units(s.subrange(b, i), encoding),
{
    let b = line_begins(s, i).last();
    lemma_line_begins(s, i);
    lemma_begin(s, i);
    lemma_newlines(s, i);
    lemma_code_units(s.subrange(b, i), encoding);
    crate::position::lemma_units_within(s, b, i, encoding);
    crate::text::lemma_byte_offset_ends(s);
    b
}

/// A position names the last character of its line that its column reaches: that of its
/// column, the one the column lies in, or the end of the line. A line that is not there
/// has none.
pub proof fn a_position_names_the_character_it_reaches(s: Seq<char>, pos: Position, encoding: Encoding)
    requires
        byte_len(s) <= u32::MAX,
    ensures
        index_of(s, pos, encoding) is None <==> pos.line > newlines(s),
        index_of(s, pos, encoding) matches Some(i) ==> {
            &&& 0 <= i <= s.len()
            &&& position_of(s, i, encoding).line == pos.line
            &&& position_of(s, i, encoding).character <= pos.character
            &&& i == s.len() || s[i] == '\n' || position_of(s, i + 1, encoding).character
                > pos.character
        },
{
    let n = s.len() as int;
    let begins = line_begins(s, n);
    lemma_line_begins(s, n);
    lemma_newlines(s, n);
    assert(s.take(n) =~= s);
    if let Some(i) = index_of(s, pos, encoding) {
        let from = begins[pos.line as int];
        lemma_column_index(s, from, pos.character as int, encoding);
        lemma_on_line(s, pos.line as int, i, encoding);
        crate::position::lemma_units_within(s, from, i, encoding);
        crate::text::lemma_byte_offset_ends(s);
        if i < s.len() && s[i] != '\n' {
            lemma_on_line(s, pos.line as int, i + 1, encoding);
            crate::position::lemma_units_within(s, from, i + 1, encoding);
        }
    }
}

proof fn lemma_on_line(s: Seq<char>, line: int, i: int, encoding: Encoding)
    requires
        0 <= line < line_begins(s, s.len() as int).len(),
        line_begins(s, s.len() as int)[line] <= i <= s.len(),
        forall|k: int| line_begins(s, s.len() as int)[line] <= k < i ==> #[trigger] s[k] != '\n',
    ensures
        line_begins(s, i).len() == line + 1,
        line_begins(s, i).last() == line_begins(s, s.len() as int)[line],
        place(s, i, encoding).0 == line,
        place(s, i, encoding).1 == units(
            s.subrange(line_begins(s, s.len() as int)[line], i),
            encoding,
        ),
{
    let n = s.len() as int;
    let begins = line_begins(s, n);
    let own = line_begins(s, i);
    let from = begins[line];
    lemma_line_begins(s, n);
    lemma_line_begins(s, i);
    lemma_line_begins_prefix(s, i, n);
    if own.len() <= line {
        assert(i < begins[line]);
    }
    if own.len() > line + 1 {
        let next = own[line + 1];
        assert(own[line] < own[line + 1]);
        assert(begins[line] == own[line]);
        lemma_begin_at(s, i, line + 1);
        assert(s[next - 1] == '\n');
        assert(from <= next - 1 < i);
    }
}

proof fn lemma_begin_at(s: Seq<char>, n: int, k: int)
    requires
        0 <= n <= s.len(),
        0 < k < line_begins(s, n).len(),
    ensures
        0 < line_begins(s, n)[k] <= n,
        s[line_begins(s, n)[k] - 1] == '\n',
    decreases n,
{
    if n > 0 {
        if k < line_begins(s, n - 1).len() {
            lemma_begin_at(s, n - 1, k);
        }
    }
}

/// A byte range is shown from the position of its first byte to that of its end: both
/// lead back to the bytes, where characters begin there.
pub proof fn a_shown_range_leads_back(s: Seq<char>, range: SourceRange, encoding: Encoding, i: int, j: int)
    requires
        byte_len(s) <= u32::MAX,
        0 <= i <= s.len(),
        0 <= j <= s.len(),
        range.byte_start == byte_offset(s, i),
        range.byte_end == byte_offset(s, j),
    ensures
        range_in(s, range, encoding).start == position_of(s, i, encoding),
        range_in(s, range, encoding).end == position_of(s, j, encoding),
        offset_of(s, range_in(s, range, encoding).start, encoding) == Some(range.byte_start),
        offset_of(s, range_in(s, range, encoding).end, encoding) == Some(range.byte_end),
{
    crate::text::lemma_char_index_of_offset(s, i);
    crate::text::lemma_char_index_of_offset(s, j);
    round_trip(s, i, encoding);
    round_trip(s, j, encoding);
}

/// An edit between two characters, on whatever lines, replaces exactly what stands
/// between them; one that ends before it starts inserts at its start.
pub proof fn an_edit_replaces_what_it_spans(
    text: &str,
    i: int,
    j: int,
    replacement: &str,
    encoding: Encoding,
    r: String,
)
    requires
        0 <= i <= text@.len(),
        0 <= j <= text@.len(),
        byte_len(text@) <= u32::MAX,
        call_ensures(
            apply_patch,
            (
                text,
                Range {
                    start: position_of(text@, i, encoding),
                    end: position_of(text@, j, encoding),
                },
                replacement,
                encoding,
            ),
            r,
        ),
    ensures
        r@ == text@.take(i) + replacement@ + text@.skip(if i <= j {
            j
        } else {
            i
        }),
{
    round_trip(text@, i, encoding);
    round_trip(text@, j, encoding);
}

/// The same, said of the text alone: between any two characters an edit replaces what it
/// spans.
pub proof fn a_patch_replaces_what_it_spans(
    s: Seq<char>,
    i: int,
    j: int,
    replacement: Seq<char>,
    encoding: Encoding,
)
    requires
        0 <= i <= j <= s.len(),
        byte_len(s) <= u32::MAX,
    ensures
        patched(
            s,
            Range { start: position_of(s, i, encoding), end: position_of(s, j, encoding) },
            replacement,
            encoding,
        ) == s.take(i) + replacement + s.skip(j),
{
    round_trip(s, i, encoding);
    round_trip(s, j, encoding);
}

/// An edit at arbitrary positions replaces what lies between the characters that they
/// name; a position on a line that is not there names the end of the text.
pub proof fn a_patch_goes_by_the_named_characters(
    s: Seq<char>,
    range: Range,
    replacement: Seq<char>,
    encoding: Encoding,
    i: int,
    j: int,
)
    requires
        i == (match index_of(s, range.start, encoding) {
            Some(i) => i,
            None => s.len() as int,
        }),
        j == (match index_of(s, range.end, encoding) {
            Some(j) => j,
            None => s.len() as int,
        }),
    ensures
        i <= j ==> patched(s, range, replacement, encoding) == s.take(i) + replacement + s.skip(j),
        j < i ==> patched(s, range, replacement, encoding) == s.take(i) + replacement + s.skip(i),
{
}

/// An edit is undone by putting back what it replaced.
pub proof fn an_edit_can_be_undone(
    s: Seq<char>,
    i: int,
    j: int,
    replacement: Seq<char>,
    encoding: Encoding,
)
    requires
        0 <= i <= j <= s.len(),
        byte_len(s) <= u32::MAX,
        byte_len(s.take(i) + replacement + s.skip(j)) <= u32::MAX,
    ensures
        ({
            let after = patched(
                s,
                Range { start: position_of(s, i, encoding), end: position_of(s, j, encoding) },
                replacement,
                encoding,
            );
            patched(
                after,
                Range {
                    start: position_of(after, i, encoding),
                    end: position_of(after, i + replacement.len(), encoding),
                },
                s.subrange(i, j),
                encoding,
            ) == s
        }),
{
    a_patch_replaces_what_it_spans(s, i, j, replacement, encoding);
    let after = s.take(i) + replacement + s.skip(j);
    a_patch_replaces_what_it_spans(
        after,
        i,
        i + replacement.len(),
        s.subrange(i, j),
        encoding,
    );
    assert(after.take(i) + s.subrange(i, j) + after.skip(i + replacement.len()) =~= s);
}

} // verus!
