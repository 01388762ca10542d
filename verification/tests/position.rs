use meta_call_lsp::model::{LineColumn, SourceRange};
use meta_call_lsp::position::{
    clamp_boundary, negotiate, range_without_text, units_of, Encoding, LineIndex, SourceFile,
};
use meta_call_lsp::protocol::{ClientCapabilities, Position, Range};

fn caps(offered: Option<Vec<&str>>) -> ClientCapabilities {
    ClientCapabilities {
        position_encodings: offered
            .map(|list| list.into_iter().map(|kind| kind.to_string()).collect()),
        ..ClientCapabilities::default()
    }
}

fn pos(line: u32, character: u32) -> Position {
    Position { line, character }
}

fn position(text: &str, byte: usize, encoding: Encoding) -> Position {
    LineIndex::new(text).to_position(text, byte, encoding)
}

#[test]
fn negotiate_prefers_utf8_then_falls_back() {
    assert_eq!(negotiate(&ClientCapabilities::default()), Encoding::Utf16);
    assert_eq!(negotiate(&caps(Some(Vec::new()))), Encoding::Utf16);
    assert_eq!(negotiate(&caps(Some(vec!["utf-16"]))), Encoding::Utf16);
    assert_eq!(
        negotiate(&caps(Some(vec!["utf-8", "utf-16"]))),
        Encoding::Utf8
    );
    assert_eq!(
        negotiate(&caps(Some(vec!["utf-16", "utf-8"]))),
        Encoding::Utf8
    );
}

#[test]
fn encodings_have_the_protocol_names() {
    assert_eq!(
        Encoding::Utf8.as_lsp(),
        lsp_types::PositionEncodingKind::UTF8.as_str()
    );
    assert_eq!(
        Encoding::Utf16.as_lsp(),
        lsp_types::PositionEncodingKind::UTF16.as_str()
    );
}

#[test]
fn ascii_offsets_are_stable() {
    let text = "abc\ndef\n";
    let index = LineIndex::new(text);
    assert_eq!(
        index.to_byte_offset(text, pos(0, 2), Encoding::Utf16),
        Some(2)
    );
    assert_eq!(
        index.to_byte_offset(text, pos(1, 1), Encoding::Utf16),
        Some(5)
    );
    assert_eq!(index.to_position(text, 5, Encoding::Utf16), pos(1, 1));
}

#[test]
fn utf16_columns_count_surrogate_pairs() {
    // The snake is 4 UTF-8 bytes and 2 UTF-16 code units.
    let text = "x = \"🐍\"\n";
    let snake = text.find('🐍').unwrap();
    assert_eq!(position(text, snake, Encoding::Utf8), pos(0, 5));
    assert_eq!(position(text, snake, Encoding::Utf16), pos(0, 5));
    let after = snake + '🐍'.len_utf8();
    assert_eq!(position(text, after, Encoding::Utf8), pos(0, 9));
    assert_eq!(position(text, after, Encoding::Utf16), pos(0, 7));
}

#[test]
fn multibyte_round_trip() {
    let text = "é中🐍 = 1\n";
    let source = SourceFile::new(text.to_string());
    for encoding in [Encoding::Utf8, Encoding::Utf16] {
        for (byte, _) in text.char_indices() {
            let position = position(text, byte, encoding);
            assert_eq!(
                source.to_byte_offset(position, encoding),
                Some(byte),
                "encoding {encoding:?} byte {byte}"
            );
        }
    }
}

#[test]
fn column_past_line_end_clamps() {
    let text = "ab\ncd\n";
    let index = LineIndex::new(text);
    assert_eq!(
        index.to_byte_offset(text, pos(0, 99), Encoding::Utf16),
        Some(2)
    );
    assert_eq!(
        index.to_byte_offset(text, pos(1, 99), Encoding::Utf16),
        Some(5)
    );
}

#[test]
fn missing_line_returns_none() {
    let text = "ab\n";
    let index = LineIndex::new(text);
    assert_eq!(index.to_byte_offset(text, pos(5, 0), Encoding::Utf16), None);
}

#[test]
fn the_line_behind_the_last_newline_exists() {
    let text = "ab\n";
    let index = LineIndex::new(text);
    assert_eq!(index.to_byte_offset(text, pos(1, 0), Encoding::Utf8), Some(3));
    assert_eq!(index.to_byte_offset(text, pos(2, 0), Encoding::Utf8), None);
    assert_eq!(index.to_position(text, 3, Encoding::Utf8), pos(1, 0));
}

#[test]
fn position_inside_character_snaps_to_start() {
    let text = "🐍\n";
    let index = LineIndex::new(text);
    // UTF-16 column 1 is inside the surrogate pair.
    assert_eq!(
        index.to_byte_offset(text, pos(0, 1), Encoding::Utf16),
        Some(0)
    );
}

#[test]
fn line_index_locates_bytes_across_many_lines() {
    let mut text = String::new();
    for line in 0..500 {
        text.push_str(&format!("line {line}\n"));
    }
    let index = LineIndex::new(&text);
    let target = text.find("line 321").expect("line 321");
    assert_eq!(
        index.to_position(&text, target, Encoding::Utf16),
        pos(321, 0)
    );
    assert_eq!(
        index.to_byte_offset(&text, pos(321, 5), Encoding::Utf16),
        Some(target + 5)
    );
}

#[test]
fn range_uses_bytes() {
    let text = "x = \"🐍\"\n";
    let source_range = SourceRange {
        byte_start: 5,
        byte_end: 9,
        start: LineColumn { line: 0, column: 5 },
        end: LineColumn { line: 0, column: 9 },
    };
    assert_eq!(
        LineIndex::new(text).range(text, &source_range, Encoding::Utf16),
        Range {
            start: pos(0, 5),
            end: pos(0, 7)
        }
    );
}

#[test]
fn range_without_text_uses_byte_columns() {
    let source_range = SourceRange {
        byte_start: 0,
        byte_end: 3,
        start: LineColumn { line: 2, column: 4 },
        end: LineColumn { line: 2, column: 7 },
    };
    assert_eq!(
        range_without_text(&source_range),
        Range {
            start: pos(2, 4),
            end: pos(2, 7)
        }
    );
}

#[test]
fn a_byte_past_the_end_is_the_end() {
    let text = "ab\ncé";
    assert_eq!(position(text, 1000, Encoding::Utf8), pos(1, 3));
    assert_eq!(position(text, 1000, Encoding::Utf16), pos(1, 2));
    assert_eq!(clamp_boundary(text, 1000), text.len());
}

#[test]
fn a_byte_inside_a_character_snaps_to_its_start() {
    let text = "a中b";
    assert_eq!(clamp_boundary(text, 0), 0);
    assert_eq!(clamp_boundary(text, 2), 1);
    assert_eq!(clamp_boundary(text, 3), 1);
    assert_eq!(clamp_boundary(text, 4), 4);
    assert_eq!(position(text, 3, Encoding::Utf8), pos(0, 1));
}

#[test]
fn every_byte_round_trips_to_a_boundary() {
    let text = "é\n🐍x\n\n中";
    let index = LineIndex::new(text);
    for encoding in [Encoding::Utf8, Encoding::Utf16] {
        for byte in 0..=text.len() {
            let back = index
                .to_byte_offset(text, index.to_position(text, byte, encoding), encoding)
                .expect("an existing line");
            assert!(text.is_char_boundary(back));
            assert!(back <= byte);
            if text.is_char_boundary(byte) {
                assert_eq!(back, byte);
            }
        }
    }
}

#[test]
fn widths_are_those_of_std() {
    for ch in ['a', 'é', '中', '🐍', '\u{7f}', '\u{80}', '\u{7ff}', '\u{800}', '\u{ffff}'] {
        assert_eq!(units_of(ch, Encoding::Utf8), ch.len_utf8());
        assert_eq!(units_of(ch, Encoding::Utf16), ch.len_utf16());
    }
}

#[test]
fn a_source_file_keeps_its_text() {
    let source = SourceFile::new("x\n".to_string());
    assert_eq!(source.text(), "x\n");
}
