use serde_zero_alloc_flatten::{
    consume, DeclaredFields, Document, FieldDecl, FlattenDeserializer, FlattenError,
    FlattenMapAccess, ReaderFault, Shape, Token, ValueKind,
};

fn text(s: &str) -> Token {
    Token::BorrowedText(s.to_string())
}

fn field(name: &str, kind: ValueKind) -> FieldDecl {
    FieldDecl { name: name.to_string(), kind }
}

fn outer_ab<'de>() -> DeclaredFields<'de> {
    DeclaredFields::new(vec![field("a", ValueKind::Unsigned), field("b", ValueKind::Unsigned)])
}

fn open<'de>(tokens: &'de [Token]) -> FlattenMapAccess<'de, DeclaredFields<'de>> {
    FlattenDeserializer::new(Document::new(tokens), outer_ab()).deserialize_map().unwrap()
}

fn map(entries: Vec<Token>) -> Vec<Token> {
    let mut tokens = vec![Token::MapStart];
    tokens.extend(entries);
    tokens.push(Token::End);
    tokens
}

#[test]
fn outer_keys_never_reach_the_consumer() {
    let tokens = map(vec![
        text("a"),
        Token::Unsigned(1),
        text("x"),
        Token::Unsigned(2),
        text("b"),
        Token::Unsigned(3),
        text("y"),
        Token::Unsigned(4),
    ]);
    let mut access = open(&tokens);
    assert_eq!(access.next_key(), Ok(Some(&text("x"))));
    assert_eq!(access.next_value(), Ok(&[Token::Unsigned(2)][..]));
    assert_eq!(access.next_key(), Ok(Some(&text("y"))));
    assert_eq!(access.next_value(), Ok(&[Token::Unsigned(4)][..]));
    assert_eq!(access.next_key(), Ok(None));
    assert_eq!(access.finish(), Ok(()));
    let values = access.into_flatten_spec().assemble().unwrap();
    assert_eq!(values, vec![&[Token::Unsigned(1)][..], &[Token::Unsigned(3)][..]]);
}

#[test]
fn a_document_of_outer_keys_only_looks_empty() {
    let tokens = map(vec![text("b"), Token::Unsigned(3), text("a"), Token::Unsigned(1)]);
    let mut access = open(&tokens);
    assert_eq!(access.next_key(), Ok(None));
    assert_eq!(access.next_key(), Ok(None));
    assert_eq!(access.finish(), Ok(()));
    let values = access.into_flatten_spec().assemble().unwrap();
    assert_eq!(values, vec![&[Token::Unsigned(1)][..], &[Token::Unsigned(3)][..]]);
}

#[test]
fn stopping_early_still_reads_the_document_to_its_end() {
    let tokens = map(vec![
        text("x"),
        Token::Unsigned(1),
        text("a"),
        Token::Unsigned(2),
        text("y"),
        Token::SeqStart,
        Token::Unsigned(3),
        Token::End,
        text("b"),
        Token::Unsigned(4),
    ]);
    let mut access = open(&tokens);
    assert_eq!(access.next_key(), Ok(Some(&text("x"))));
    assert_eq!(access.discard_value(), Ok(()));
    assert_eq!(access.finish(), Ok(()));
    assert_eq!(access.next_key(), Ok(None));
    let values = access.into_flatten_spec().assemble().unwrap();
    assert_eq!(values, vec![&[Token::Unsigned(2)][..], &[Token::Unsigned(4)][..]]);
}

#[test]
fn finishing_without_reading_anything_drains_everything() {
    let tokens = map(vec![text("x"), Token::Unit, text("a"), Token::Unsigned(2)]);
    let mut access = open(&tokens);
    assert_eq!(access.finish(), Ok(()));
    let fields = access.into_flatten_spec();
    assert!(fields.is_filled(0));
    assert!(!fields.is_filled(1));
    assert_eq!(fields.assemble(), Err(FlattenError::MissingField("b".to_string())));
}

#[test]
fn draining_still_checks_for_duplicates() {
    let tokens = map(vec![
        text("x"),
        Token::Unsigned(1),
        text("a"),
        Token::Unsigned(2),
        text("y"),
        Token::Unsigned(0),
        text("a"),
        Token::Unsigned(3),
    ]);
    let mut access = open(&tokens);
    assert_eq!(access.next_key(), Ok(Some(&text("x"))));
    assert_eq!(access.next_value(), Ok(&[Token::Unsigned(1)][..]));
    assert_eq!(access.finish(), Err(FlattenError::DuplicateField("a".to_string())));
}

#[test]
fn draining_still_checks_types() {
    let tokens = map(vec![text("x"), Token::Unsigned(1), text("b"), Token::Bool(true)]);
    let mut access = open(&tokens);
    assert_eq!(access.next_key(), Ok(Some(&text("x"))));
    assert_eq!(access.discard_value(), Ok(()));
    assert_eq!(access.finish(), Err(FlattenError::TypeMismatch("b".to_string())));
}

#[test]
fn diverting_checks_duplicates_and_types() {
    let tokens = map(vec![text("a"), Token::Unsigned(1), text("a"), Token::Unsigned(2)]);
    assert_eq!(open(&tokens).next_key(), Err(FlattenError::DuplicateField("a".to_string())));
    let tokens = map(vec![text("a"), text("one")]);
    assert_eq!(open(&tokens).next_key(), Err(FlattenError::TypeMismatch("a".to_string())));
}

#[test]
fn a_duplicate_is_reported_before_its_value_is_looked_at() {
    let tokens = map(vec![text("a"), Token::Unsigned(1), text("a"), Token::Bool(false)]);
    assert_eq!(open(&tokens).next_key(), Err(FlattenError::DuplicateField("a".to_string())));
    let tokens = vec![Token::MapStart, text("a"), Token::Unsigned(1), text("a")];
    assert_eq!(open(&tokens).next_key(), Err(FlattenError::DuplicateField("a".to_string())));
}

#[test]
fn only_maps_and_structs_can_be_asked_for() {
    let tokens = map(vec![]);
    let refused = [
        Shape::Any,
        Shape::Bool,
        Shape::Integer,
        Shape::Real,
        Shape::Char,
        Shape::Text,
        Shape::Bytes,
        Shape::Optional,
        Shape::Unit,
        Shape::UnitStruct,
        Shape::NewtypeStruct,
        Shape::Sequence,
        Shape::Tuple,
        Shape::TupleStruct,
        Shape::Enum,
        Shape::Identifier,
        Shape::Ignored,
    ];
    for shape in refused {
        let r = FlattenDeserializer::new(Document::new(&tokens), outer_ab()).deserialize(shape);
        assert_eq!(r.err(), Some(FlattenError::UnsupportedShape));
    }
    for shape in [Shape::Mapping, Shape::Struct] {
        let r = FlattenDeserializer::new(Document::new(&tokens), outer_ab()).deserialize(shape);
        assert!(r.is_ok());
    }
    let r = FlattenDeserializer::new(Document::new(&tokens), outer_ab()).deserialize_any();
    assert_eq!(r.err(), Some(FlattenError::UnsupportedShape));
    let r = FlattenDeserializer::new(Document::new(&tokens), outer_ab())
        .deserialize_struct("A", &["a", "b"]);
    assert!(r.is_ok());
}

#[test]
fn a_document_that_is_no_map_is_refused_before_any_key() {
    let tokens = vec![Token::SeqStart, Token::End];
    let r = FlattenDeserializer::new(Document::new(&tokens), outer_ab()).deserialize_map();
    assert_eq!(r.err(), Some(FlattenError::UnsupportedShape));
    let tokens = vec![Token::Unsigned(3)];
    let r = FlattenDeserializer::new(Document::new(&tokens), outer_ab()).deserialize(Shape::Struct);
    assert_eq!(r.err(), Some(FlattenError::UnsupportedShape));
    let tokens: Vec<Token> = vec![];
    let r = FlattenDeserializer::new(Document::new(&tokens), outer_ab()).deserialize_map();
    assert_eq!(r.err(), Some(FlattenError::Reader(ReaderFault::Truncated)));
    let r = FlattenDeserializer::new(Document::new(&tokens), outer_ab()).deserialize(Shape::Any);
    assert_eq!(r.err(), Some(FlattenError::UnsupportedShape));
}

#[test]
fn an_owned_byte_key_cannot_be_forwarded_but_can_be_drained() {
    let tokens = map(vec![Token::OwnedBytes(vec![120]), Token::Unsigned(1)]);
    assert_eq!(open(&tokens).next_key(), Err(FlattenError::UnsupportedRepresentation));
    let mut access = open(&tokens);
    assert_eq!(access.finish(), Ok(()));
}

#[test]
fn a_composite_key_is_refused() {
    let tokens = map(vec![Token::SeqStart, Token::End, Token::Unsigned(1)]);
    assert_eq!(open(&tokens).next_key(), Err(FlattenError::UnsupportedRepresentation));
    let tokens = map(vec![Token::MapStart, Token::End, Token::Unsigned(1)]);
    assert_eq!(open(&tokens).next_key(), Err(FlattenError::UnsupportedRepresentation));
}

#[test]
fn keys_of_every_other_representation_are_forwarded() {
    let keys = vec![
        Token::BorrowedText("x".to_string()),
        Token::OwnedText("x".to_string()),
        Token::BorrowedBytes(vec![120]),
        Token::Bool(true),
        Token::Signed(-1),
        Token::Unsigned(0),
        Token::Real(0x3ff0_0000_0000_0000),
        Token::Char('a'),
        Token::Unit,
    ];
    for key in keys {
        let tokens = vec![Token::MapStart, key, Token::Unit, Token::End];
        let mut access = open(&tokens);
        assert_eq!(access.next_key(), Ok(Some(&tokens[1])));
        assert_eq!(access.next_value(), Ok(&[Token::Unit][..]));
        assert_eq!(access.next_key(), Ok(None));
    }
}

#[test]
fn an_owned_text_key_of_the_outer_schema_is_diverted() {
    let tokens = map(vec![Token::OwnedText("b".to_string()), Token::Unsigned(9)]);
    let mut access = open(&tokens);
    assert_eq!(access.next_key(), Ok(None));
    assert!(access.into_flatten_spec().is_filled(1));
}

#[test]
fn a_truncated_document_is_a_reader_error() {
    let tokens = vec![Token::MapStart, text("a"), Token::Unsigned(1)];
    assert_eq!(open(&tokens).next_key(), Err(FlattenError::Reader(ReaderFault::Truncated)));
    assert_eq!(open(&tokens).finish(), Err(FlattenError::Reader(ReaderFault::Truncated)));
    let tokens = vec![Token::MapStart];
    assert_eq!(open(&tokens).next_key(), Err(FlattenError::Reader(ReaderFault::Truncated)));
}

#[test]
fn a_malformed_value_is_a_reader_error() {
    let unclosed = vec![Token::MapStart, text("x"), Token::SeqStart, Token::Unsigned(1)];
    let mut access = open(&unclosed);
    assert_eq!(access.next_key(), Ok(Some(&text("x"))));
    assert_eq!(access.next_value(), Err(FlattenError::Reader(ReaderFault::MalformedValue)));
    let mut access = open(&unclosed);
    assert_eq!(access.next_key(), Ok(Some(&text("x"))));
    assert_eq!(access.discard_value(), Err(FlattenError::Reader(ReaderFault::MalformedValue)));
    assert_eq!(open(&unclosed).finish(), Err(FlattenError::Reader(ReaderFault::MalformedValue)));
    let missing = vec![Token::MapStart, text("a"), Token::End];
    assert_eq!(open(&missing).next_key(), Err(FlattenError::Reader(ReaderFault::MalformedValue)));
    let missing = vec![Token::MapStart, text("a")];
    assert_eq!(open(&missing).next_key(), Err(FlattenError::Reader(ReaderFault::MalformedValue)));
}

#[test]
fn the_consumer_reads_composite_values_whole() {
    let tokens = map(vec![
        text("x"),
        Token::MapStart,
        text("a"),
        Token::SeqStart,
        Token::End,
        Token::End,
        text("a"),
        Token::Unsigned(5),
    ]);
    let mut access = open(&tokens);
    assert_eq!(access.next_key(), Ok(Some(&text("x"))));
    assert_eq!(access.next_value(), Ok(&tokens[2..7]));
    assert_eq!(access.next_key(), Ok(None));
    assert!(access.into_flatten_spec().is_filled(0));
}

#[test]
fn consume_fills_the_fields_of_the_absorbing_schema() {
    let tokens = map(vec![
        text("d"),
        Token::Unsigned(12),
        text("a"),
        Token::Unsigned(3),
        text("unknown"),
        Token::Unit,
    ]);
    let mut access = open(&tokens);
    let mut inner = DeclaredFields::new(vec![field("d", ValueKind::Unsigned)]);
    assert_eq!(consume(&mut access, &mut inner), Ok(()));
    assert_eq!(inner.assemble(), Ok(vec![&[Token::Unsigned(12)][..]]));
    assert_eq!(access.finish(), Ok(()));
    assert!(access.into_flatten_spec().is_filled(0));
}

#[test]
fn consume_reports_what_goes_wrong_in_document_order() {
    let tokens = map(vec![text("d"), Token::Unsigned(1), text("d"), Token::Unsigned(2)]);
    let mut inner = DeclaredFields::new(vec![field("d", ValueKind::Unsigned)]);
    assert_eq!(
        consume(&mut open(&tokens), &mut inner),
        Err(FlattenError::DuplicateField("d".to_string()))
    );
    let tokens = map(vec![text("d"), Token::Bool(true), text("a"), Token::Bool(true)]);
    let mut inner = DeclaredFields::new(vec![field("d", ValueKind::Unsigned)]);
    assert_eq!(
        consume(&mut open(&tokens), &mut inner),
        Err(FlattenError::TypeMismatch("d".to_string()))
    );
    let tokens = map(vec![text("a"), Token::Bool(true), text("d"), Token::Bool(true)]);
    let mut inner = DeclaredFields::new(vec![field("d", ValueKind::Unsigned)]);
    assert_eq!(
        consume(&mut open(&tokens), &mut inner),
        Err(FlattenError::TypeMismatch("a".to_string()))
    );
}

#[test]
fn every_entry_is_read_once_whoever_owns_it() {
    let mut entries = Vec::new();
    for i in 0..6u64 {
        let name = match i {
            1 => "a".to_string(),
            4 => "b".to_string(),
            other => format!("k{}", other),
        };
        entries.push(Token::BorrowedText(name));
        entries.push(Token::Unsigned(i));
    }
    let tokens = map(entries);
    let mut access = open(&tokens);
    let mut seen = Vec::new();
    while let Some(key) = access.next_key().unwrap() {
        let value = access.next_value().unwrap();
        seen.push((key.clone_text(), value.to_vec_numbers()));
    }
    assert_eq!(
        seen,
        vec![
            ("k0".to_string(), vec![0]),
            ("k2".to_string(), vec![2]),
            ("k3".to_string(), vec![3]),
            ("k5".to_string(), vec![5]),
        ]
    );
    assert_eq!(access.finish(), Ok(()));
    let outer = access.into_flatten_spec().assemble().unwrap();
    assert_eq!(outer, vec![&[Token::Unsigned(1)][..], &[Token::Unsigned(4)][..]]);
}

trait KeyText {
    fn clone_text(&self) -> String;
}

impl KeyText for Token {
    fn clone_text(&self) -> String {
        match self {
            Token::BorrowedText(s) | Token::OwnedText(s) => s.clone(),
            other => panic!("not text: {:?}", other),
        }
    }
}

trait Numbers {
    fn to_vec_numbers(&self) -> Vec<u64>;
}

impl Numbers for [Token] {
    fn to_vec_numbers(&self) -> Vec<u64> {
        self.iter()
            .map(|t| match t {
                Token::Unsigned(v) => *v,
                other => panic!("not a number: {:?}", other),
            })
            .collect()
    }
}

#[test]
fn a_byte_key_that_spells_an_outer_name_is_diverted() {
    let tokens = map(vec![
        Token::OwnedBytes(vec![97]),
        Token::Unsigned(1),
        text("x"),
        Token::Unit,
        Token::BorrowedBytes(vec![98]),
        Token::Unsigned(2),
    ]);
    let mut access = open(&tokens);
    assert_eq!(access.next_key(), Ok(Some(&text("x"))));
    assert_eq!(access.discard_value(), Ok(()));
    assert_eq!(access.next_key(), Ok(None));
    let values = access.into_flatten_spec().assemble().unwrap();
    assert_eq!(values, vec![&[Token::Unsigned(1)][..], &[Token::Unsigned(2)][..]]);
}

#[test]
fn a_duplicate_leaves_the_first_value_in_its_slot() {
    let tokens = map(vec![
        text("a"),
        Token::Unsigned(3),
        text("b"),
        Token::Unsigned(4),
        text("a"),
        Token::Unsigned(5),
        text("d"),
        Token::Unsigned(12),
    ]);
    let mut access = open(&tokens);
    assert_eq!(access.next_key(), Err(FlattenError::DuplicateField("a".to_string())));
    let values = access.into_flatten_spec().assemble().unwrap();
    assert_eq!(values, vec![&[Token::Unsigned(3)][..], &[Token::Unsigned(4)][..]]);
}

#[test]
fn a_mistyped_value_leaves_its_slot_empty() {
    let tokens = map(vec![text("b"), Token::Unsigned(4), text("a"), text("not-an-int")]);
    let mut access = open(&tokens);
    assert_eq!(access.next_key(), Err(FlattenError::TypeMismatch("a".to_string())));
    let fields = access.into_flatten_spec();
    assert!(!fields.is_filled(0));
    assert!(fields.is_filled(1));
}

#[test]
fn a_document_that_breaks_off_leaves_the_slots_as_they_were() {
    let tokens = vec![Token::MapStart];
    let mut access = open(&tokens);
    assert_eq!(access.next_key(), Err(FlattenError::Reader(ReaderFault::Truncated)));
    assert_eq!(access.next_key(), Err(FlattenError::Reader(ReaderFault::Truncated)));
    let fields = access.into_flatten_spec();
    assert!(!fields.is_filled(0));
    assert!(!fields.is_filled(1));
}

#[test]
fn a_malformed_value_stays_awaited() {
    let tokens = vec![Token::MapStart, text("a"), Token::Unsigned(1), text("x"), Token::MapStart];
    let mut access = open(&tokens);
    assert_eq!(access.next_key(), Ok(Some(&text("x"))));
    assert_eq!(access.next_value(), Err(FlattenError::Reader(ReaderFault::MalformedValue)));
    assert_eq!(access.discard_value(), Err(FlattenError::Reader(ReaderFault::MalformedValue)));
    assert_eq!(access.next_value(), Err(FlattenError::Reader(ReaderFault::MalformedValue)));
    let fields = access.into_flatten_spec();
    assert!(fields.is_filled(0));
    assert!(!fields.is_filled(1));
}

#[test]
fn draining_stops_at_the_first_failure() {
    let tokens = map(vec![
        text("x"),
        Token::Unit,
        text("a"),
        Token::Unsigned(1),
        text("a"),
        Token::Unsigned(2),
        text("b"),
        Token::Unsigned(3),
    ]);
    let mut access = open(&tokens);
    assert_eq!(access.finish(), Err(FlattenError::DuplicateField("a".to_string())));
    let fields = access.into_flatten_spec();
    assert!(fields.is_filled(0));
    assert!(!fields.is_filled(1));
}

#[test]
fn consume_stops_at_the_first_failure() {
    let tokens = map(vec![
        text("a"),
        Token::Unsigned(1),
        text("d"),
        Token::Unsigned(2),
        text("d"),
        Token::Unsigned(3),
        text("b"),
        Token::Unsigned(4),
    ]);
    let mut access = open(&tokens);
    let mut inner = DeclaredFields::new(vec![field("d", ValueKind::Unsigned)]);
    assert_eq!(
        consume(&mut access, &mut inner),
        Err(FlattenError::DuplicateField("d".to_string()))
    );
    assert_eq!(inner.assemble(), Ok(vec![&[Token::Unsigned(2)][..]]));
    let fields = access.into_flatten_spec();
    assert!(fields.is_filled(0));
    assert!(!fields.is_filled(1));
}
