use serde_zero_alloc_flatten::{
    decode_path, key_route, Classification, DecodePath, FlattenError, KeyRoute, ReaderFault,
    Representation, Token,
};

#[test]
fn every_token_has_its_representation() {
    let expected = vec![
        (Token::BorrowedText("k".to_string()), Representation::BorrowedText),
        (Token::OwnedText("k".to_string()), Representation::OwnedText),
        (Token::BorrowedBytes(vec![1]), Representation::BorrowedBytes),
        (Token::OwnedBytes(vec![1]), Representation::OwnedBytes),
        (Token::Bool(true), Representation::Scalar),
        (Token::Signed(-1), Representation::Scalar),
        (Token::Unsigned(1), Representation::Scalar),
        (Token::Real(1), Representation::Scalar),
        (Token::Char('c'), Representation::Scalar),
        (Token::Unit, Representation::Scalar),
        (Token::SeqStart, Representation::Composite),
        (Token::MapStart, Representation::Composite),
        (Token::End, Representation::End),
    ];
    for (token, representation) in expected {
        assert_eq!(token.representation(), representation);
    }
}

#[test]
fn borrowed_keys_are_reused_and_only_the_others_staged() {
    assert_eq!(decode_path(Representation::BorrowedText), DecodePath::Reuse);
    assert_eq!(decode_path(Representation::BorrowedBytes), DecodePath::Reuse);
    assert_eq!(decode_path(Representation::OwnedText), DecodePath::Stage);
    assert_eq!(decode_path(Representation::Scalar), DecodePath::Stage);
    assert_eq!(decode_path(Representation::OwnedBytes), DecodePath::ClassifyOnly);
    assert_eq!(decode_path(Representation::Composite), DecodePath::Undefined);
    assert_eq!(decode_path(Representation::End), DecodePath::Undefined);
}

#[test]
fn the_route_of_a_key_follows_its_path_and_its_owner() {
    let owned = Classification::OwnedByOuter(2);
    let other = Classification::NotOwnedByOuter;
    assert_eq!(key_route(DecodePath::Reuse, owned), KeyRoute::Fill(2));
    assert_eq!(key_route(DecodePath::Stage, owned), KeyRoute::Fill(2));
    assert_eq!(key_route(DecodePath::ClassifyOnly, owned), KeyRoute::Fill(2));
    assert_eq!(key_route(DecodePath::Undefined, owned), KeyRoute::Reject);
    assert_eq!(key_route(DecodePath::Reuse, other), KeyRoute::Yield);
    assert_eq!(key_route(DecodePath::Stage, other), KeyRoute::Yield);
    assert_eq!(key_route(DecodePath::ClassifyOnly, other), KeyRoute::Reject);
    assert_eq!(key_route(DecodePath::Undefined, other), KeyRoute::Reject);
}

#[test]
fn only_keys_of_the_outer_schema_are_held_back() {
    assert!(Classification::NotOwnedByOuter.should_forward_to_flatten_field());
    assert!(!Classification::OwnedByOuter(0).should_forward_to_flatten_field());
}

#[test]
fn every_error_says_what_went_wrong() {
    let a = || "a".to_string();
    assert_eq!(FlattenError::UnsupportedShape.summary(), "can only flatten structs and maps");
    assert_eq!(
        FlattenError::UnsupportedRepresentation.summary(),
        "key representation not supported for flatten"
    );
    assert_eq!(FlattenError::DuplicateField(a()).summary(), "duplicate field");
    assert_eq!(FlattenError::MissingField(a()).summary(), "missing field");
    assert_eq!(
        FlattenError::TypeMismatch(a()).summary(),
        "value of another type than the field declares"
    );
    assert_eq!(FlattenError::Reader(ReaderFault::Truncated).summary(), "document ends too early");
    assert_eq!(FlattenError::Reader(ReaderFault::MalformedValue).summary(), "malformed value");
    assert_eq!(FlattenError::DuplicateField(a()).field(), Some(&a()));
    assert_eq!(FlattenError::MissingField(a()).field(), Some(&a()));
    assert_eq!(FlattenError::TypeMismatch(a()).field(), Some(&a()));
    assert_eq!(FlattenError::UnsupportedShape.field(), None);
    assert_eq!(FlattenError::Reader(ReaderFault::Truncated).field(), None);
}
