//! Position encoding negotiation and byte-canonical coordinates.
//!
//! The engine reports byte offsets; the protocol reports columns in the
//! negotiated encoding. This module converts between the two. Byte offsets stay
//! the internal currency everywhere else.

use vstd::prelude::*;
use vstd::std_specs::iter::IteratorSpec;
use vstd::string::*;

use crate::model::SourceRange;
use crate::protocol::{ClientCapabilities, Position, Range};
use crate::text::{
    byte_len, byte_offset, char_index_at, is_boundary, lemma_boundaries, lemma_byte_len_concat,
    lemma_byte_offset_ends,
    lemma_byte_offset_monotone, lemma_byte_offset_step, lemma_char_index_at,
    lemma_char_index_of_offset, lemma_char_index_unique, split_text, text_len, utf16_width, utf16_width_of, utf8_width,
    utf8_width_of,
};

verus! {

/// Column encoding agreed with the client.
#[derive(Clone, Copy, Debug, PartialEq, Eq, Structural)]
pub enum Encoding {
    Utf8,
    Utf16,
}

impl Encoding {
    /// The protocol's name of the encoding.
    pub open spec fn name(self) -> Seq<char> {
        match self {
            Encoding::Utf8 => "utf-8"@,
            Encoding::Utf16 => "utf-16"@,
        }
    }

    /// The protocol's name of the encoding.
    pub fn as_lsp(self) -> (r: &'static str)
        ensures
            r@ == self.name(),
    {
        match self {
            Encoding::Utf8 => "utf-8",
            Encoding::Utf16 => "utf-16",
        }
    }
}

/// Whether the client offers UTF-8 columns.
pub open spec fn offers_utf8(caps: ClientCapabilities) -> bool {
    caps.position_encodings matches Some(offered) && exists|i: int|
        0 <= i < offered@.len() && (#[trigger] offered@[i])@ == "utf-8"@
}

/// Pick an encoding from the client list: UTF-8 wherever it is offered.
pub fn negotiate(caps: &ClientCapabilities) -> (r: Encoding)
    ensures
        r == (if offers_utf8(*caps) {
            Encoding::Utf8
        } else {
            Encoding::Utf16
        }),
{
    match &caps.position_encodings {
        None => Encoding::Utf16,
        Some(offered) => {
            let utf8: String = Encoding::Utf8.as_lsp().to_owned();
            let mut i: usize = 0;
            while i < offered.len()
                invariant
                    i <= offered.len(),
                    utf8@ == "utf-8"@,
                    caps.position_encodings == Some(*offered),
                    forall|k: int| 0 <= k < i ==> (#[trigger] offered@[k])@ != "utf-8"@,
                decreases offered.len() - i,
            {
                if offered[i] == utf8 {
                    assert(caps.position_encodings->0@[i as int]@ == "utf-8"@);
                    return Encoding::Utf8;
                }
                i += 1;
            }
            Encoding::Utf16
        },
    }
}

// ---------------------------------------------------------------------------
// Model

/// Columns one character takes.
pub open spec fn width(c: char, encoding: Encoding) -> nat {
    match encoding {
        Encoding::Utf8 => utf8_width(c),
        Encoding::Utf16 => utf16_width(c),
    }
}

/// Columns a text takes.
pub open spec fn units(s: Seq<char>, encoding: Encoding) -> nat
    decreases s.len(),
{
    if s.len() == 0 {
        0
    } else {
        units(s.drop_last(), encoding) + width(s.last(), encoding)
    }
}

/// Indices of the characters that begin a line, among the first `n` and the
/// place right behind them: the first, and each one behind a newline.
pub open spec fn line_begins(s: Seq<char>, n: int) -> Seq<int>
    decreases n,
{
    if n <= 0 {
        seq![0]
    } else if s[n - 1] == '\n' {
        line_begins(s, n - 1).push(n)
    } else {
        line_begins(s, n - 1)
    }
}

/// Line and column of the character at index `i`: the lines begun before it,
/// and the columns between the begin of its line and it.
pub open spec fn place(s: Seq<char>, i: int, encoding: Encoding) -> (nat, nat) {
    let begins = line_begins(s, i);
    ((begins.len() - 1) as nat, units(s.subrange(begins.last(), i), encoding))
}

/// A count as the protocol carries it.
pub open spec fn saturated(n: nat) -> u32 {
    if n <= u32::MAX {
        n as u32
    } else {
        u32::MAX
    }
}

/// The position of the character at index `i`.
pub open spec fn position_of(s: Seq<char>, i: int, encoding: Encoding) -> Position {
    let (line, character) = place(s, i, encoding);
    Position { line: saturated(line), character: saturated(character) }
}

/// The furthest character index that can be reached from `from` on its line
/// without passing `columns` columns.
pub open spec fn column_index(s: Seq<char>, from: int, columns: int, encoding: Encoding) -> int
    decreases s.len() - from,
{
    if from < 0 || from >= s.len() || s[from] == '\n' || width(s[from], encoding) > columns {
        from
    } else {
        column_index(s, from + 1, columns - width(s[from], encoding), encoding)
    }
}

/// The character index that a position names, if its line exists. A column past
/// the end of the line names the end; one inside a character names its start.
pub open spec fn index_of(s: Seq<char>, pos: Position, encoding: Encoding) -> Option<int> {
    let begins = line_begins(s, s.len() as int);
    if pos.line < begins.len() {
        Some(column_index(s, begins[pos.line as int], pos.character as int, encoding))
    } else {
        None
    }
}

/// The byte offset that a position names, if its line exists.
pub open spec fn offset_of(s: Seq<char>, pos: Position, encoding: Encoding) -> Option<usize> {
    match index_of(s, pos, encoding) {
        Some(i) => Some(byte_offset(s, i) as usize),
        None => None,
    }
}

/// The position of the character that byte `byte` lies in, or of the end of the
/// text for a byte past it.
pub open spec fn position_at(s: Seq<char>, byte: int, encoding: Encoding) -> Position {
    position_of(s, char_index_at(s, byte), encoding)
}

/// The protocol range of a byte range.
pub open spec fn range_in(s: Seq<char>, range: SourceRange, encoding: Encoding) -> Range {
    Range {
        start: position_at(s, range.byte_start as int, encoding),
        end: position_at(s, range.byte_end as int, encoding),
    }
}

/// The protocol range of a byte range whose text is not at hand.
pub open spec fn byte_column_range(range: SourceRange) -> Range {
    Range {
        start: Position {
            line: saturated(range.start.line as nat),
            character: saturated(range.start.column as nat),
        },
        end: Position {
            line: saturated(range.end.line as nat),
            character: saturated(range.end.column as nat),
        },
    }
}

// ---------------------------------------------------------------------------
// Facts about lines and columns

pub proof fn lemma_line_begins(s: Seq<char>, n: int)
    requires
        0 <= n <= s.len(),
    ensures
        line_begins(s, n).len() >= 1,
        line_begins(s, n).len() <= n + 1,
        line_begins(s, n)[0] == 0,
        0 <= line_begins(s, n).last() <= n,
        forall|k: int| 0 <= k < line_begins(s, n).len() ==> 0 <= #[trigger] line_begins(s, n)[k] <= n,
        forall|j: int, k: int|
            0 <= j < k < line_begins(s, n).len() ==> line_begins(s, n)[j] < line_begins(s, n)[k],
        forall|k: int|
            line_begins(s, n).last() <= k < n ==> #[trigger] s[k] != '\n',
    decreases n,
{
    if n > 0 {
        lemma_line_begins(s, n - 1);
    }
}

/// Lines begun early keep their numbers as the text goes on.
pub proof fn lemma_line_begins_prefix(s: Seq<char>, m: int, n: int)
    requires
        0 <= m <= n <= s.len(),
    ensures
        line_begins(s, m).len() <= line_begins(s, n).len(),
        forall|k: int|
            0 <= k < line_begins(s, m).len() ==> line_begins(s, m)[k] == #[trigger] line_begins(s, n)[k],
        forall|k: int|
            line_begins(s, m).len() <= k < line_begins(s, n).len() ==> m < #[trigger] line_begins(s, n)[k],
    decreases n,
{
    lemma_line_begins(s, m);
    if m < n {
        lemma_line_begins_prefix(s, m, n - 1);
    }
}

pub proof fn lemma_units_concat(a: Seq<char>, b: Seq<char>, encoding: Encoding)
    ensures
        units(a + b, encoding) == units(a, encoding) + units(b, encoding),
    decreases b.len(),
{
    if b.len() == 0 {
        assert(a + b =~= a);
    } else {
        lemma_units_concat(a, b.drop_last(), encoding);
        assert((a + b).drop_last() =~= a + b.drop_last());
        assert((a + b).last() == b.last());
    }
}

pub proof fn lemma_units_step(s: Seq<char>, from: int, i: int, encoding: Encoding)
    requires
        0 <= from <= i < s.len(),
    ensures
        units(s.subrange(from, i + 1), encoding) == units(s.subrange(from, i), encoding) + width(
            s[i],
            encoding,
        ),
{
    assert(s.subrange(from, i + 1).drop_last() =~= s.subrange(from, i));
}

/// Columns never exceed bytes.
pub proof fn lemma_units_bound(s: Seq<char>, encoding: Encoding)
    ensures
        units(s, encoding) <= byte_len(s),
    decreases s.len(),
{
    if s.len() > 0 {
        lemma_units_bound(s.drop_last(), encoding);
    }
}

pub proof fn lemma_units_within(s: Seq<char>, from: int, i: int, encoding: Encoding)
    requires
        0 <= from <= i <= s.len(),
    ensures
        units(s.subrange(from, i), encoding) <= byte_len(s),
{
    lemma_units_bound(s.subrange(from, i), encoding);
    assert(s =~= s.take(from) + s.subrange(from, i) + s.skip(i));
    lemma_byte_len_concat(s.take(from) + s.subrange(from, i), s.skip(i));
    lemma_byte_len_concat(s.take(from), s.subrange(from, i));
}

/// What `column_index` picks: it stays on the line, keeps within the columns,
/// and one character more would leave the line or pass the columns.
pub proof fn lemma_column_index(s: Seq<char>, from: int, columns: int, encoding: Encoding)
    requires
        0 <= from <= s.len(),
        0 <= columns,
    ensures
        from <= column_index(s, from, columns, encoding) <= s.len(),
        forall|k: int| from <= k < column_index(s, from, columns, encoding) ==> #[trigger] s[k] != '\n',
        units(s.subrange(from, column_index(s, from, columns, encoding)), encoding) <= columns,
        ({
            let i = column_index(s, from, columns, encoding);
            i < s.len() && s[i] != '\n' ==> columns < units(s.subrange(from, i + 1), encoding)
        }),
    decreases s.len() - from,
{
    if from >= s.len() || s[from] == '\n' || width(s[from], encoding) > columns {
        assert(s.subrange(from, from).len() == 0);
        if from < s.len() {
            lemma_units_step(s, from, from, encoding);
        }
    } else {
        let rest = columns - width(s[from], encoding);
        lemma_column_index(s, from + 1, rest, encoding);
        let i = column_index(s, from + 1, rest, encoding);
        assert(s.subrange(from, i) =~= seq![s[from]] + s.subrange(from + 1, i));
        lemma_units_concat(seq![s[from]], s.subrange(from + 1, i), encoding);
        assert(seq![s[from]].drop_last() =~= Seq::<char>::empty());
        reveal_with_fuel(units, 2);
        if i < s.len() {
            assert(s.subrange(from, i + 1) =~= seq![s[from]] + s.subrange(from + 1, i + 1));
            lemma_units_concat(seq![s[from]], s.subrange(from + 1, i + 1), encoding);
        }
    }
}

/// Counting the columns up to a character of a line leads back to it.
pub proof fn lemma_column_index_exact(s: Seq<char>, from: int, i: int, encoding: Encoding)
    requires
        0 <= from <= i <= s.len(),
        forall|k: int| from <= k < i ==> #[trigger] s[k] != '\n',
    ensures
        column_index(s, from, units(s.subrange(from, i), encoding) as int, encoding) == i,
    decreases i - from,
{
    if from == i {
        assert(s.subrange(from, i).len() == 0);
    } else {
        assert(s.subrange(from, i) =~= seq![s[from]] + s.subrange(from + 1, i));
        lemma_units_concat(seq![s[from]], s.subrange(from + 1, i), encoding);
        assert(seq![s[from]].drop_last() =~= Seq::<char>::empty());
        reveal_with_fuel(units, 2);
        lemma_column_index_exact(s, from + 1, i, encoding);
    }
}

pub proof fn lemma_index_of_bounds(s: Seq<char>, pos: Position, encoding: Encoding)
    ensures
        index_of(s, pos, encoding) matches Some(i) ==> 0 <= i <= s.len(),
{
    lemma_line_begins(s, s.len() as int);
    let begins = line_begins(s, s.len() as int);
    if pos.line < begins.len() {
        lemma_column_index(s, begins[pos.line as int], pos.character as int, encoding);
    }
}

// ---------------------------------------------------------------------------
// Conversions

/// Columns one character takes.
pub fn units_of(ch: char, encoding: Encoding) -> (r: usize)
    ensures
        r == width(ch, encoding),
        1 <= r <= 4,
{
    match encoding {
        Encoding::Utf8 => utf8_width_of(ch),
        Encoding::Utf16 => utf16_width_of(ch),
    }
}

/// The nearest character boundary at or before `byte`.
pub fn clamp_boundary(text: &str, byte: usize) -> (r: usize)
    ensures
        r == byte_offset(text@, char_index_at(text@, byte as int)),
        is_boundary(text@, r as int),
        r <= byte,
{
    let len: usize = text_len(text);
    let ghost i = char_index_at(text@, byte as int);
    proof {
        lemma_char_index_at(text@, byte as int);
        lemma_byte_offset_ends(text@);
        lemma_byte_offset_monotone(text@, i, text@.len() as int);
        lemma_char_index_of_offset(text@, i);
    }
    let mut at: usize = if byte < len {
        byte
    } else {
        len
    };
    while !text.is_char_boundary(at)
        invariant
            i == char_index_at(text@, byte as int),
            0 <= i <= text@.len(),
            is_boundary(text@, byte_offset(text@, i) as int),
            byte_offset(text@, i) <= at <= byte,
            i < text@.len() ==> byte < byte_offset(text@, i + 1),
        decreases at,
    {
        proof {
            lemma_boundaries(text@, at as int);
        }
        at -= 1;
    }
    proof {
        lemma_boundaries(text@, at as int);
        lemma_char_index_unique(text@, at as int, i);
    }
    at
}

/// A count as the protocol carries it.
pub fn saturate(n: usize) -> (r: u32)
    ensures
        r == saturated(n as nat),
{
    if n <= u32::MAX as usize {
        n as u32
    } else {
        u32::MAX
    }
}

/// Precomputed line starts for one text buffer.
///
/// Building the index costs one scan of the text. Each conversion after that
/// costs a binary search over the lines plus the characters on one line.
#[derive(Debug)]
pub struct LineIndex {
    starts: Vec<usize>,
}

impl LineIndex {
    /// The index holds the byte offset of every line start of the text.
    pub closed spec fn describes(&self, s: Seq<char>) -> bool {
        &&& self.starts@.len() == line_begins(s, s.len() as int).len()
        &&& forall|k: int|
            0 <= k < self.starts@.len() ==> #[trigger] self.starts@[k] == byte_offset(
                s,
                line_begins(s, s.len() as int)[k],
            )
    }

    /// Scan the text once and record the byte offset of every line start.
    pub fn new(text: &str) -> (r: Self)
        ensures
            r.describes(text@),
    {
        let len: usize = text_len(text);
        let mut starts: Vec<usize> = Vec::new();
        starts.push(0);
        let mut at: usize = 0;
        let ghost mut i: int = 0;
        let mut it = text.chars();
        proof {
            lemma_byte_offset_ends(text@);
            assert(text@.skip(0) =~= text@);
        }
        loop
            invariant
                0 <= i <= text@.len(),
                it.remaining() == text@.skip(i),
                it.obeys_prophetic_iter_laws(),
                it.decrease() is Some,
                at == byte_offset(text@, i),
                len == byte_len(text@),
                starts@.len() == line_begins(text@, i).len(),
                forall|k: int|
                    0 <= k < starts@.len() ==> #[trigger] starts@[k] == byte_offset(
                        text@,
                        line_begins(text@, i)[k],
                    ),
            ensures
                i == text@.len(),
            decreases it.decrease()->0,
        {
            match it.next() {
                None => {
                    break;
                },
                Some(ch) => {
                    proof {
                        assert(ch == text@[i]);
                        assert(text@.skip(i).drop_first() =~= text@.skip(i + 1));
                        lemma_byte_offset_step(text@, i);
                        lemma_byte_offset_ends(text@);
                        lemma_byte_offset_monotone(text@, i + 1, text@.len() as int);
                        i = i + 1;
                    }
                    at += utf8_width_of(ch);
                    if ch == '\n' {
                        starts.push(at);
                    }
                },
            }
        }
        LineIndex { starts }
    }

    /// Byte offset at which a line starts, if the text has that line.
    pub fn line_start(&self, line: u32) -> (r: Option<usize>)
        ensures
            forall|s: Seq<char>|
                #[trigger] self.describes(s) ==> {
                    let begins = line_begins(s, s.len() as int);
                    r == (if line < begins.len() {
                        Some(byte_offset(s, begins[line as int]) as usize)
                    } else {
                        None
                    })
                },
    {
        let line: usize = line as usize;
        if line < self.starts.len() {
            Some(self.starts[line])
        } else {
            None
        }
    }

    /// Convert an LSP position to a byte offset.
    pub fn to_byte_offset(&self, text: &str, pos: Position, encoding: Encoding) -> (r: Option<usize>)
        requires
            self.describes(text@),
        ensures
            r == offset_of(text@, pos, encoding),
    {
        let ghost s = text@;
        let ghost begins = line_begins(s, s.len() as int);
        let start: usize = match self.line_start(pos.line) {
            Some(start) => start,
            None => {
                return None;
            },
        };
        let len: usize = text_len(text);
        let ghost from = begins[pos.line as int];
        proof {
            lemma_line_begins(s, s.len() as int);
            lemma_byte_offset_ends(s);
            lemma_byte_offset_monotone(s, from, s.len() as int);
            lemma_char_index_of_offset(s, from);
        }
        let tail: &str = split_text(text, start).1;
        let mut left: usize = pos.character as usize;
        let mut at: usize = start;
        let ghost mut i: int = from;
        let mut it = tail.chars();
        loop
            invariant_except_break
                it.remaining() == s.skip(i),
            invariant
                from <= i <= s.len(),
                0 <= from,
                s == text@,
                it.obeys_prophetic_iter_laws(),
                it.decrease() is Some,
                at == byte_offset(s, i),
                len == byte_len(s),
                column_index(s, from, pos.character as int, encoding) == column_index(
                    s,
                    i,
                    left as int,
                    encoding,
                ),
            ensures
                i == column_index(s, from, pos.character as int, encoding),
            decreases it.decrease()->0,
        {
            match it.next() {
                None => {
                    break;
                },
                Some(ch) => {
                    proof {
                        assert(ch == s[i]);
                        assert(s.skip(i).drop_first() =~= s.skip(i + 1));
                    }
                    let step: usize = units_of(ch, encoding);
                    if ch == '\n' || step > left {
                        break;
                    }
                    proof {
                        lemma_byte_offset_step(s, i);
                        lemma_byte_offset_ends(s);
                        lemma_byte_offset_monotone(s, i + 1, s.len() as int);
                        i = i + 1;
                    }
                    left -= step;
                    at += utf8_width_of(ch);
                },
            }
        }
        Some(at)
    }

    /// Convert a byte offset to an LSP position.
    pub fn to_position(&self, text: &str, byte: usize, encoding: Encoding) -> (r: Position)
        requires
            self.describes(text@),
        ensures
            r == position_at(text@, byte as int, encoding),
    {
        let ghost s = text@;
        let ghost begins = line_begins(s, s.len() as int);
        let ghost target = char_index_at(s, byte as int);
        let at: usize = clamp_boundary(text, byte);
        proof {
            lemma_char_index_at(s, byte as int);
            lemma_line_begins(s, s.len() as int);
            lemma_line_begins(s, target);
            lemma_line_begins_prefix(s, target, s.len() as int);
            lemma_byte_offset_ends(s);
            assert forall|k: int| 0 <= k < begins.len() implies ((#[trigger] self.starts@[k] <= at) == (k
                < line_begins(s, target).len())) by {
                if k < line_begins(s, target).len() {
                    assert(begins[k] == line_begins(s, target)[k]);
                    lemma_byte_offset_monotone(s, begins[k], target);
                } else {
                    lemma_byte_offset_monotone(s, target, begins[k]);
                }
            }
        }
        let mut low: usize = 0;
        let mut high: usize = self.starts.len();
        while high - low > 1
            invariant
                0 <= low < high <= self.starts.len(),
                low < line_begins(s, target).len() <= high,
                self.starts@.len() == begins.len(),
                forall|k: int|
                    0 <= k < begins.len() ==> ((#[trigger] self.starts@[k] <= at) == (k < line_begins(
                        s,
                        target,
                    ).len())),
            decreases high - low,
        {
            let mid: usize = low + (high - low) / 2;
            if self.starts[mid] <= at {
                low = mid;
            } else {
                high = mid;
            }
        }
        let ghost from = line_begins(s, target).last();
        assert(low == line_begins(s, target).len() - 1);
        let start: usize = self.starts[low];
        proof {
            assert(begins[low as int] == from);
            lemma_char_index_of_offset(s, from);
        }
        let tail: &str = split_text(text, start).1;
        let len: usize = text_len(text);
        let mut here: usize = start;
        let mut count: usize = 0;
        let ghost mut i: int = from;
        let mut it = tail.chars();
        proof {
            assert(s.subrange(from, from).len() == 0);
        }
        loop
            invariant
                0 <= from <= i <= target <= s.len(),
                s == text@,
                it.remaining() == s.skip(i),
                it.obeys_prophetic_iter_laws(),
                here == byte_offset(s, i),
                at == byte_offset(s, target),
                len == byte_len(s),
                count == units(s.subrange(from, i), encoding),
            ensures
                i == target,
            decreases target - i,
        {
            if here >= at {
                proof {
                    lemma_byte_offset_monotone(s, i, target);
                }
                break;
            }
            proof {
                lemma_byte_offset_step(s, i);
                lemma_byte_offset_ends(s);
                lemma_byte_offset_monotone(s, i + 1, s.len() as int);
                lemma_units_step(s, from, i, encoding);
                lemma_units_within(s, from, i + 1, encoding);
                assert(s.skip(i).drop_first() =~= s.skip(i + 1));
            }
            match it.next() {
                None => {
                    break;
                },
                Some(ch) => {
                    proof {
                        i = i + 1;
                    }
                    here += utf8_width_of(ch);
                    count += units_of(ch, encoding);
                },
            }
        }
        Position { line: saturate(low), character: saturate(count) }
    }

    /// Convert an engine byte range to an LSP range.
    pub fn range(&self, text: &str, range: &SourceRange, encoding: Encoding) -> (r: Range)
        requires
            self.describes(text@),
        ensures
            r == range_in(text@, *range, encoding),
    {
        Range {
            start: self.to_position(text, range.byte_start, encoding),
            end: self.to_position(text, range.byte_end, encoding),
        }
    }
}

/// Source text plus its line index.
#[derive(Debug)]
pub struct SourceFile {
    text: String,
    lines: LineIndex,
}

impl View for SourceFile {
    type V = Seq<char>;

    closed spec fn view(&self) -> Seq<char> {
        self.text@
    }
}

impl SourceFile {
    /// The index belongs to the text.
    #[verifier::type_invariant]
    spec fn indexed(&self) -> bool {
        self.lines.describes(self.text@)
    }

    /// Index the text once at construction.
    pub fn new(text: String) -> (r: Self)
        ensures
            r@ == text@,
    {
        let lines = LineIndex::new(text.as_str());
        SourceFile { text, lines }
    }

    /// Borrow the source text.
    pub fn text(&self) -> (r: &str)
        ensures
            r@ == self@,
    {
        self.text.as_str()
    }

    /// Convert an LSP position to a byte offset.
    pub fn to_byte_offset(&self, pos: Position, encoding: Encoding) -> (r: Option<usize>)
        ensures
            r == offset_of(self@, pos, encoding),
    {
        proof {
            use_type_invariant(self);
        }
        self.lines.to_byte_offset(self.text.as_str(), pos, encoding)
    }

    /// Convert an engine byte range to an LSP range.
    pub fn range(&self, range: &SourceRange, encoding: Encoding) -> (r: Range)
        ensures
            r == range_in(self@, *range, encoding),
    {
        proof {
            use_type_invariant(self);
        }
        self.lines.range(self.text.as_str(), range, encoding)
    }
}

/// Fallback range when source text is unavailable: byte columns pass through.
pub fn range_without_text(range: &SourceRange) -> (r: Range)
    ensures
        r == byte_column_range(*range),
{
    Range {
        start: Position { line: saturate(range.start.line), character: saturate(range.start.column) },
        end: Position { line: saturate(range.end.line), character: saturate(range.end.column) },
    }
}

// ---------------------------------------------------------------------------
// Laws

/// Round trip: the position of any character, converted back, names that
/// character again, in either encoding. The text is short enough for its lines
/// and columns to fit the protocol's numbers.
pub proof fn round_trip(s: Seq<char>, i: int, encoding: Encoding)
    requires
        0 <= i <= s.len(),
        byte_len(s) <= u32::MAX,
    ensures
        index_of(s, position_of(s, i, encoding), encoding) == Some(i),
        offset_of(s, position_of(s, i, encoding), encoding) == Some(byte_offset(s, i) as usize),
{
    let begins = line_begins(s, i);
    lemma_line_begins(s, i);
    lemma_line_begins_prefix(s, i, s.len() as int);
    lemma_line_begins(s, s.len() as int);
    lemma_byte_offset_ends(s);
    lemma_units_within(s, begins.last(), i, encoding);
    lemma_column_index_exact(s, begins.last(), i, encoding);
}

/// Any byte, converted to a position and back, lands on the start of the
/// character it lies in, or on the end of the text.
pub proof fn conversion_snaps_to_characters(s: Seq<char>, byte: int, encoding: Encoding)
    requires
        0 <= byte,
        byte_len(s) <= u32::MAX,
    ensures
        offset_of(s, position_at(s, byte, encoding), encoding) == Some(
            byte_offset(s, char_index_at(s, byte)) as usize,
        ),
        byte_offset(s, char_index_at(s, byte)) <= byte,
        is_boundary(s, byte) ==> offset_of(s, position_at(s, byte, encoding), encoding) == Some(
            byte as usize,
        ),
{
    lemma_char_index_at(s, byte);
    round_trip(s, char_index_at(s, byte), encoding);
}

/// Every offset a position converts to is a character boundary of the text.
pub proof fn offsets_are_boundaries(s: Seq<char>, pos: Position, encoding: Encoding)
    requires
        byte_len(s) <= usize::MAX,
    ensures
        offset_of(s, pos, encoding) matches Some(byte) ==> is_boundary(s, byte as int) && byte
            <= byte_len(s),
{
    lemma_index_of_bounds(s, pos, encoding);
    if let Some(i) = index_of(s, pos, encoding) {
        lemma_byte_offset_ends(s);
        lemma_byte_offset_monotone(s, i, s.len() as int);
        lemma_char_index_of_offset(s, i);
    }
}

/// Positions follow the order of the characters they name.
pub proof fn positions_are_ordered(s: Seq<char>, i: int, j: int, encoding: Encoding)
    requires
        0 <= i < j <= s.len(),
    ensures
        ({
            let (line_i, column_i) = place(s, i, encoding);
            let (line_j, column_j) = place(s, j, encoding);
            line_i < line_j || line_i == line_j && column_i < column_j
        }),
{
    let a = line_begins(s, i);
    let b = line_begins(s, j);
    lemma_line_begins(s, i);
    lemma_line_begins(s, j);
    lemma_line_begins_prefix(s, i, j);
    if a.len() == b.len() {
        assert(a.last() == b.last());
        let from = a.last();
        assert(s.subrange(from, j) =~= s.subrange(from, i) + s.subrange(i, j));
        lemma_units_concat(s.subrange(from, i), s.subrange(i, j), encoding);
        let tail = s.subrange(i, j);
        assert(tail.len() > 0);
        assert(units(tail, encoding) >= width(tail.last(), encoding));
    }
}

} // verus!
