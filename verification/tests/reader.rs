use serde_zero_alloc_flatten::{Document, FlattenError, ReaderFault, Token};

fn text(s: &str) -> Token {
    Token::BorrowedText(s.to_string())
}

#[test]
fn keys_and_values_come_in_turn() {
    let tokens = vec![
        Token::MapStart,
        text("k"),
        Token::SeqStart,
        Token::Unsigned(1),
        Token::MapStart,
        text("n"),
        Token::Signed(-2),
        Token::End,
        Token::End,
        Token::Unsigned(7),
        Token::Char('c'),
        Token::End,
    ];
    let mut reader = Document::new(&tokens).open_map().unwrap();
    assert_eq!(reader.next_key(), Ok(Some(&text("k"))));
    assert_eq!(reader.next_value(), Ok(&tokens[2..9]));
    assert_eq!(reader.next_key(), Ok(Some(&Token::Unsigned(7))));
    assert_eq!(reader.next_value(), Ok(&[Token::Char('c')][..]));
    assert_eq!(reader.next_key(), Ok(None));
    assert_eq!(reader.next_key(), Ok(None));
}

#[test]
fn a_discarded_value_is_skipped_whole() {
    let tokens = vec![
        Token::MapStart,
        text("k"),
        Token::MapStart,
        text("k"),
        Token::SeqStart,
        Token::SeqStart,
        Token::End,
        Token::End,
        Token::End,
        text("l"),
        Token::Unit,
        Token::End,
    ];
    let mut reader = Document::new(&tokens).open_map().unwrap();
    assert_eq!(reader.next_key(), Ok(Some(&text("k"))));
    assert_eq!(reader.discard_value(), Ok(()));
    assert_eq!(reader.next_key(), Ok(Some(&text("l"))));
    assert_eq!(reader.discard_value(), Ok(()));
    assert_eq!(reader.next_key(), Ok(None));
}

#[test]
fn an_empty_map_ends_at_once() {
    let tokens = vec![Token::MapStart, Token::End];
    let mut reader = Document::new(&tokens).open_map().unwrap();
    assert_eq!(reader.next_key(), Ok(None));
}

#[test]
fn only_a_map_can_be_opened() {
    let tokens = vec![Token::SeqStart, Token::End];
    assert_eq!(Document::new(&tokens).open_map().err(), Some(FlattenError::UnsupportedShape));
    let tokens = vec![Token::End];
    assert_eq!(Document::new(&tokens).open_map().err(), Some(FlattenError::UnsupportedShape));
    let tokens: Vec<Token> = vec![];
    assert_eq!(
        Document::new(&tokens).open_map().err(),
        Some(FlattenError::Reader(ReaderFault::Truncated))
    );
}

#[test]
fn the_reader_reports_where_the_document_breaks_off() {
    let tokens = vec![Token::MapStart, text("k"), Token::Unit];
    let mut reader = Document::new(&tokens).open_map().unwrap();
    assert_eq!(reader.next_key(), Ok(Some(&text("k"))));
    assert_eq!(reader.next_value(), Ok(&[Token::Unit][..]));
    assert_eq!(reader.next_key(), Err(FlattenError::Reader(ReaderFault::Truncated)));

    let tokens = vec![Token::MapStart, text("k")];
    let mut reader = Document::new(&tokens).open_map().unwrap();
    assert_eq!(reader.next_key(), Ok(Some(&text("k"))));
    assert_eq!(reader.next_value(), Err(FlattenError::Reader(ReaderFault::MalformedValue)));

    let tokens = vec![Token::MapStart, text("k"), Token::End];
    let mut reader = Document::new(&tokens).open_map().unwrap();
    assert_eq!(reader.next_key(), Ok(Some(&text("k"))));
    assert_eq!(reader.discard_value(), Err(FlattenError::Reader(ReaderFault::MalformedValue)));

    let tokens = vec![Token::MapStart, text("k"), Token::SeqStart, Token::MapStart, Token::End];
    let mut reader = Document::new(&tokens).open_map().unwrap();
    assert_eq!(reader.next_key(), Ok(Some(&text("k"))));
    assert_eq!(reader.next_value(), Err(FlattenError::Reader(ReaderFault::MalformedValue)));
}
