//! A schema given as a list of declared fields, with a slot for each.
//!
//! `DeclaredFields` classifies textual keys by field name and keeps, for each
//! declared field, the tokens of the value that filled it. It serves as the
//! accumulator of an outer schema, and `assemble` is the check that every
//! declared field has been filled.
use crate::classify::{Classification, FlattenSpec, Schema, Slots};
use crate::error::FlattenError;
use crate::reader::MapReader;
use crate::token::Token;
use vstd::prelude::*;
use vstd::utf8::encode_utf8;

verus! {

/// The declared type of a field.
#[derive(Debug, PartialEq, Eq, Clone, Copy)]
pub enum ValueKind {
    Bool,
    /// A signed integer; also admits an unsigned token that fits.
    Signed,
    /// An unsigned integer; also admits a signed token that is not negative.
    Unsigned,
    Real,
    Char,
    /// Text, borrowed or owned.
    Text,
    /// Bytes, borrowed or owned.
    Bytes,
    Unit,
    Sequence,
    Mapping,
    /// Any value at all.
    Any,
}

impl ValueKind {
    /// Whether the tokens of a value can be parsed as this type. The first
    /// token decides.
    pub open spec fn admits(self, value: Seq<Token>) -> bool {
        value.len() > 0 && match self {
            ValueKind::Bool => value[0] is Bool,
            ValueKind::Signed => match value[0] {
                Token::Signed(_) => true,
                Token::Unsigned(u) => u <= i64::MAX,
                _ => false,
            },
            ValueKind::Unsigned => match value[0] {
                Token::Unsigned(_) => true,
                Token::Signed(i) => i >= 0,
                _ => false,
            },
            ValueKind::Real => value[0] is Real,
            ValueKind::Char => value[0] is Char,
            ValueKind::Text => value[0] is BorrowedText || value[0] is OwnedText,
            ValueKind::Bytes => value[0] is BorrowedBytes || value[0] is OwnedBytes,
            ValueKind::Unit => value[0] is Unit,
            ValueKind::Sequence => value[0] is SeqStart,
            ValueKind::Mapping => value[0] is MapStart,
            ValueKind::Any => true,
        }
    }

    /// Checks whether the tokens of a value can be parsed as this type.
    pub fn accepts(&self, value: &[Token]) -> (ok: bool)
        ensures
            ok == self.admits(value@),
    {
        if value.len() == 0 {
            return false;
        }
        let first = &value[0];
        match self {
            ValueKind::Bool => match first {
                Token::Bool(_) => true,
                _ => false,
            },
            ValueKind::Signed => match first {
                Token::Signed(_) => true,
                Token::Unsigned(u) => *u <= 0x7fff_ffff_ffff_ffffu64,
                _ => false,
            },
            ValueKind::Unsigned => match first {
                Token::Unsigned(_) => true,
                Token::Signed(i) => *i >= 0,
                _ => false,
            },
            ValueKind::Real => match first {
                Token::Real(_) => true,
                _ => false,
            },
            ValueKind::Char => match first {
                Token::Char(_) => true,
                _ => false,
            },
            ValueKind::Text => match first {
                Token::BorrowedText(_) => true,
                Token::OwnedText(_) => true,
                _ => false,
            },
            ValueKind::Bytes => match first {
                Token::BorrowedBytes(_) => true,
                Token::OwnedBytes(_) => true,
                _ => false,
            },
            ValueKind::Unit => match first {
                Token::Unit => true,
                _ => false,
            },
            ValueKind::Sequence => match first {
                Token::SeqStart => true,
                _ => false,
            },
            ValueKind::Mapping => match first {
                Token::MapStart => true,
                _ => false,
            },
            ValueKind::Any => true,
        }
    }
}

/// One declared field: its name and its declared type.
#[derive(Debug, PartialEq, Eq)]
pub struct FieldDecl {
    pub name: String,
    pub kind: ValueKind,
}

/// Whether a key spells the given name: as text, or as the bytes of the
/// name's UTF-8 encoding. A key of any other kind spells no name.
pub open spec fn spells(key: Token, name: Seq<char>) -> bool {
    match key {
        Token::BorrowedText(s) => s@ == name,
        Token::OwnedText(s) => s@ == name,
        Token::BorrowedBytes(b) => b@ == encode_utf8(name),
        Token::OwnedBytes(b) => b@ == encode_utf8(name),
        _ => false,
    }
}

/// The index, from `from` on, of the first declared field whose name the key
/// spells; the number of declared fields where there is none.
pub open spec fn first_named(decls: Seq<FieldDecl>, key: Token, from: int) -> int
    decreases decls.len() - from,
{
    if from < 0 || from >= decls.len() {
        decls.len() as int
    } else if spells(key, decls[from].name@) {
        from
    } else {
        first_named(decls, key, from + 1)
    }
}

/// Whom a key belongs to under the declared fields: the first field whose
/// name the key spells, and none of them where it spells no field's name.
pub open spec fn owner_of(decls: Seq<FieldDecl>, key: Token) -> Classification {
    let i = first_named(decls, key, 0);
    if i < decls.len() {
        Classification::OwnedByOuter(i as usize)
    } else {
        Classification::NotOwnedByOuter
    }
}

/// The schema that a list of declared fields stands for. A value is kept as
/// its tokens, unchanged, where the declared type admits it.
pub open spec fn schema_of(decls: Seq<FieldDecl>) -> Schema {
    Schema {
        owner: |key: Token| owner_of(decls, key),
        names: Seq::new(decls.len(), |i: int| decls[i].name),
        parsed: |i: int, value: Seq<Token>|
            if 0 <= i < decls.len() && decls[i].kind.admits(value) {
                Some(value)
            } else {
                None
            },
    }
}

/// `first_named` finds a field whose name the key spells, and the first one
/// at that.
pub proof fn lemma_first_named(decls: Seq<FieldDecl>, key: Token, from: int)
    requires
        0 <= from,
    ensures
        from <= first_named(decls, key, from) <= decls.len() || from > decls.len(),
        first_named(decls, key, from) < decls.len() ==> spells(
            key,
            decls[first_named(decls, key, from)].name@,
        ),
        forall|j: int| from <= j < first_named(decls, key, from) ==> !spells(key, decls[j].name@),
    decreases decls.len() - from,
{
    if from < decls.len() && !spells(key, decls[from].name@) {
        lemma_first_named(decls, key, from + 1);
    }
}

/// Every key that a list of declared fields owns names one of the fields,
/// and the empty slots of its schema are one for each field.
pub proof fn lemma_schema_of_valid(decls: Seq<FieldDecl>)
    ensures
        schema_of(decls).valid(),
        schema_of(decls).fits(schema_of(decls).empty_slots()),
        forall|i: int| 0 <= i < decls.len() ==> #[trigger] schema_of(decls).empty_slots()[i] is None,
{
    let schema = schema_of(decls);
    assert forall|key: Token|
        (match #[trigger] (schema.owner)(key) {
            Classification::OwnedByOuter(id) => id < schema.names.len(),
            Classification::NotOwnedByOuter => true,
        }) by {
        lemma_first_named(decls, key, 0);
    }
}

/// Whether two runs of bytes are the same.
fn same_bytes(a: &[u8], b: &[u8]) -> (same: bool)
    ensures
        same == (a@ == b@),
{
    if a.len() != b.len() {
        return false;
    }
    let mut i: usize = 0;
    while i < a.len()
        invariant
            a@.len() == b@.len(),
            i <= a@.len(),
            forall|j: int| 0 <= j < i ==> a@[j] == b@[j],
        decreases a@.len() - i,
    {
        if a[i] != b[i] {
            return false;
        }
        i = i + 1;
    }
    assert(a@ =~= b@);
    true
}

impl FieldDecl {
    /// Whether a key spells the name of this field.
    pub fn is_named_by(&self, key: &Token) -> (named: bool)
        ensures
            named == spells(*key, self.name@),
    {
        match key {
            Token::BorrowedText(s) => *s == self.name,
            Token::OwnedText(s) => *s == self.name,
            Token::BorrowedBytes(b) => same_bytes(b.as_slice(), self.name.as_str().as_bytes()),
            Token::OwnedBytes(b) => same_bytes(b.as_slice(), self.name.as_str().as_bytes()),
            _ => false,
        }
    }
}

/// The index, from `from` on, of the first empty slot; the number of slots
/// where none is empty.
pub open spec fn first_empty(slots: Slots, from: int) -> int
    decreases slots.len() - from,
{
    if from < 0 || from >= slots.len() {
        slots.len() as int
    } else if slots[from] is None {
        from
    } else {
        first_empty(slots, from + 1)
    }
}

/// What the assembler returns: the values of all declared fields, in
/// declaration order, or the first declared field that was never filled.
pub open spec fn assemble_spec(names: Seq<String>, slots: Slots) -> Result<
    Seq<Seq<Token>>,
    FlattenError,
> {
    let missing = first_empty(slots, 0);
    if missing < slots.len() {
        Err(FlattenError::MissingField(names[missing]))
    } else {
        Ok(Seq::new(slots.len(), |i: int| slots[i]->0))
    }
}

/// `first_empty` finds an empty slot, and the first one at that.
pub proof fn lemma_first_empty(slots: Slots, from: int)
    requires
        0 <= from <= slots.len(),
    ensures
        from <= first_empty(slots, from) <= slots.len(),
        first_empty(slots, from) < slots.len() ==> slots[first_empty(slots, from)] is None,
        forall|j: int| from <= j < first_empty(slots, from) ==> slots[j] is Some,
    decreases slots.len() - from,
{
    if from < slots.len() && slots[from] is Some {
        lemma_first_empty(slots, from + 1);
    }
}

/// The token sequences behind a list of values.
pub open spec fn runs_view(values: Seq<&[Token]>) -> Seq<Seq<Token>> {
    Seq::new(values.len(), |i: int| values[i]@)
}

/// What a slot holds, as contracts see it.
pub open spec fn slot_view(slot: Option<&[Token]>) -> Option<Seq<Token>> {
    match slot {
        Some(run) => Some(run@),
        None => None,
    }
}

/// The declared fields of one schema and a slot for each, empty at first.
/// A slot is filled at most once and never emptied again.
pub struct DeclaredFields<'de> {
    decls: Vec<FieldDecl>,
    slots: Vec<Option<&'de [Token]>>,
    classified: Ghost<Seq<Token>>,
}

impl<'de> DeclaredFields<'de> {
    /// The declared fields, in declaration order.
    pub closed spec fn decls(&self) -> Seq<FieldDecl> {
        self.decls@
    }

    /// There is one slot for each declared field.
    pub closed spec fn valid(&self) -> bool {
        self.decls@.len() == self.slots@.len()
    }

    /// What the slots hold now.
    pub closed spec fn slot_views(&self) -> Slots {
        Seq::new(self.slots@.len(), |i: int| slot_view(self.slots@[i]))
    }

    /// The keys that `classify` has been called on, in the order of the
    /// calls.
    pub closed spec fn classified_keys(&self) -> Seq<Token> {
        self.classified@
    }

    /// All slots empty.
    pub fn new(decls: Vec<FieldDecl>) -> (fields: Self)
        ensures
            fields.valid(),
            fields.decls() == decls@,
            fields.slot_views() == schema_of(decls@).empty_slots(),
            fields.classified_keys() == Seq::<Token>::empty(),
    {
        let mut slots: Vec<Option<&'de [Token]>> = Vec::new();
        let mut i: usize = 0;
        while i < decls.len()
            invariant
                i <= decls@.len(),
                slots@.len() == i,
                forall|j: int| 0 <= j < i ==> slots@[j] is None,
            decreases decls@.len() - i,
        {
            slots.push(None);
            i = i + 1;
        }
        let fields = DeclaredFields { decls, slots, classified: Ghost(Seq::empty()) };
        assert(fields.slot_views() =~= schema_of(decls@).empty_slots());
        fields
    }

    /// How many fields are declared.
    pub fn len(&self) -> (n: usize)
        requires
            self.valid(),
        ensures
            n == self.decls().len(),
    {
        self.decls.len()
    }

    /// Finds the field that owns a key: the first declared field whose name
    /// the key spells.
    pub fn owner(&self, key: &Token) -> (c: Classification)
        requires
            self.valid(),
        ensures
            c == owner_of(self.decls(), *key),
            c matches Classification::OwnedByOuter(id) ==> id < self.decls().len(),
    {
        let mut i: usize = 0;
        while i < self.decls.len()
            invariant
                i <= self.decls@.len(),
                first_named(self.decls@, *key, i as int) == first_named(self.decls@, *key, 0),
            decreases self.decls@.len() - i,
        {
            if self.decls[i].is_named_by(key) {
                return Classification::OwnedByOuter(i);
            }
            i = i + 1;
        }
        Classification::NotOwnedByOuter
    }

    /// Whether the slot of a field has been filled.
    pub fn is_filled(&self, id: usize) -> (filled: bool)
        requires
            self.valid(),
            id < self.decls().len(),
        ensures
            filled == (self.slot_views()[id as int] is Some),
    {
        self.slots[id].is_some()
    }

    /// Fails with a duplicate that names the field where its slot has been
    /// filled already.
    pub fn check_vacant(&self, id: usize) -> (r: Result<(), FlattenError>)
        requires
            self.valid(),
            id < self.decls().len(),
        ensures
            r == if self.slot_views()[id as int] is Some {
                Err::<(), FlattenError>(FlattenError::DuplicateField(self.decls()[id as int].name))
            } else {
                Ok::<(), FlattenError>(())
            },
    {
        if self.slots[id].is_some() {
            Err(FlattenError::DuplicateField(self.decls[id].name.clone()))
        } else {
            Ok(())
        }
    }

    /// Fills the empty slot of a field with a value of the declared type.
    /// Fails with a type mismatch that names the field where the value is of
    /// another type, and then changes nothing.
    pub fn store(&mut self, id: usize, value: &'de [Token]) -> (r: Result<(), FlattenError>)
        requires
            old(self).valid(),
            id < old(self).decls().len(),
            old(self).slot_views()[id as int] is None,
        ensures
            final(self).valid(),
            final(self).decls() == old(self).decls(),
            final(self).classified_keys() == old(self).classified_keys(),
            match (schema_of(old(self).decls()).parsed)(id as int, value@) {
                Some(parsed) => {
                    &&& r == Ok::<(), FlattenError>(())
                    &&& final(self).slot_views() == old(self).slot_views().update(
                        id as int,
                        Some(parsed),
                    )
                },
                None => {
                    &&& r == Err::<(), FlattenError>(
                        FlattenError::TypeMismatch(old(self).decls()[id as int].name),
                    )
                    &&& final(self).slot_views() == old(self).slot_views()
                },
            },
    {
        if !self.decls[id].kind.accepts(value) {
            return Err(FlattenError::TypeMismatch(self.decls[id].name.clone()));
        }
        self.slots.set(id, Some(value));
        assert(self.slot_views() =~= old(self).slot_views().update(id as int, Some(value@)));
        Ok(())
    }

    /// Requires every declared field to be filled and hands out the values,
    /// in declaration order. Fails with the first declared field that is
    /// missing; nothing stands in for a missing value.
    pub fn assemble(self) -> (r: Result<Vec<&'de [Token]>, FlattenError>)
        requires
            self.valid(),
        ensures
            match assemble_spec(schema_of(self.decls()).names, self.slot_views()) {
                Ok(values) => r matches Ok(got) && runs_view(got@) == values,
                Err(e) => r matches Err(got) && got == e,
            },
    {
        let mut values: Vec<&'de [Token]> = Vec::new();
        let mut i: usize = 0;
        while i < self.slots.len()
            invariant
                self.valid(),
                i <= self.slots@.len(),
                values@.len() == i,
                first_empty(self.slot_views(), i as int) == first_empty(self.slot_views(), 0),
                forall|j: int| 0 <= j < i ==> self.slot_views()[j] == Some((#[trigger] values@[j])@),
            decreases self.slots@.len() - i,
        {
            match self.slots[i] {
                Some(run) => {
                    values.push(run);
                },
                None => {
                    assert(self.slot_views()[i as int] is None);
                    return Err(FlattenError::MissingField(self.decls[i].name.clone()));
                },
            }
            i = i + 1;
        }
        proof {
            lemma_first_empty(self.slot_views(), 0);
            assert(runs_view(values@) =~= Seq::new(
                self.slot_views().len(),
                |i: int| self.slot_views()[i]->0,
            ));
        }
        Ok(values)
    }
}

impl<'de> FlattenSpec<'de> for DeclaredFields<'de> {
    open spec fn wf(&self) -> bool {
        self.valid()
    }

    open spec fn schema(&self) -> Schema {
        schema_of(self.decls())
    }

    open spec fn slots(&self) -> Slots {
        self.slot_views()
    }

    open spec fn classified(&self) -> Seq<Token> {
        self.classified_keys()
    }

    proof fn lemma_fits(&self) {
        lemma_schema_of_valid(self.decls());
        assert(self.slot_views().len() == self.decls().len());
    }

    fn classify(&mut self, key: &Token) -> (c: Classification) {
        proof {
            self.classified@ = self.classified@.push(*key);
        }
        self.owner(key)
    }

    fn pull_value(&mut self, reader: &mut MapReader<'de>, c: Classification) -> (r: Result<
        (),
        FlattenError,
    >) {
        proof {
            reader.lemma_index_in_range();
        }
        match c {
            Classification::OwnedByOuter(id) => {
                match self.check_vacant(id) {
                    Ok(()) => {},
                    Err(e) => {
                        return Err(e);
                    },
                }
                match reader.next_value() {
                    Ok(value) => self.store(id, value),
                    Err(e) => Err(e),
                }
            },
            Classification::NotOwnedByOuter => reader.discard_value(),
        }
    }
}

} // verus!
