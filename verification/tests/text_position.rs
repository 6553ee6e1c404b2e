use java_lsp::protocol::Position;
use java_lsp::text_position::{
    byte_offset_to_position, position_to_byte_offset, position_to_byte_offset_and_column,
};

#[test]
fn position_to_byte_offset_finds_column_on_first_line() {
    let source = "abc";

    let offset = position_to_byte_offset(source, Position::new(0, 2));

    assert_eq!(offset, 2);
}

#[test]
fn position_to_byte_offset_finds_column_on_later_line() {
    let source = "abc\ndef\nghi";

    let offset = position_to_byte_offset(source, Position::new(2, 1));

    assert_eq!(offset, 9);
}

#[test]
fn position_to_byte_offset_handles_multibyte_characters_before_target_column() {
    let source = "€abc";

    let offset = position_to_byte_offset(source, Position::new(0, 2));

    assert_eq!(offset, "€a".len());
}

#[test]
fn position_to_byte_offset_counts_astral_characters_as_two_utf16_units() {
    let source = "𝄞x";

    let offset = position_to_byte_offset(source, Position::new(0, 2));

    assert_eq!(offset, "𝄞".len());
}

#[test]
fn position_to_byte_offset_clamps_character_past_end_of_line() {
    let source = "ab\ncd";

    let offset = position_to_byte_offset(source, Position::new(0, 100));

    assert_eq!(offset, 2);
}

#[test]
fn position_to_byte_offset_clamps_line_past_end_of_source() {
    let source = "abc";

    let offset = position_to_byte_offset(source, Position::new(5, 0));

    assert_eq!(offset, source.len());
}

#[test]
fn byte_offset_to_position_round_trips_with_position_to_byte_offset() {
    let source = "abc\ndef\nghi";
    let position = Position::new(2, 1);

    let offset = position_to_byte_offset(source, position);
    let round_tripped = byte_offset_to_position(source, offset);

    assert_eq!(round_tripped, position);
}

#[test]
fn every_offset_of_a_character_round_trips() {
    let source = "a€\n𝄞b\r\n\nç";
    for (offset, _) in source.char_indices() {
        let position = byte_offset_to_position(source, offset);
        assert_eq!(position_to_byte_offset(source, position), offset);
    }
    let end = byte_offset_to_position(source, source.len());
    assert_eq!(end, Position::new(3, 1));
    assert_eq!(position_to_byte_offset(source, end), source.len());
}

#[test]
fn byte_offset_to_position_handles_multibyte_characters() {
    let source = "€abc";
    let offset = "€".len();

    let position = byte_offset_to_position(source, offset);

    assert_eq!(position, Position::new(0, 1));
}

#[test]
fn position_to_byte_offset_and_column_reports_byte_column_not_utf16_column() {
    let source = "€ab";

    let (offset, column) = position_to_byte_offset_and_column(source, Position::new(0, 2));

    assert_eq!((offset, column), ("€a".len(), "€a".len()));
}

#[test]
fn position_to_byte_offset_and_column_resets_column_after_newline() {
    let source = "abc\ndef";

    let (offset, column) = position_to_byte_offset_and_column(source, Position::new(1, 0));

    assert_eq!((offset, column), (source.find('d').unwrap(), 0));
}
