//! Key classification and the accumulator of the outer schema's own fields.
use crate::error::{FlattenError, ReaderFault};
use crate::reader::{Entry, MapReader};
use crate::token::{path_of, DecodePath, Token};
use vstd::prelude::*;

verus! {

/// Whom a key belongs to.
#[derive(Debug, PartialEq, Eq, Clone, Copy)]
pub enum Classification {
    /// The key names the declared field of the outer schema with this index.
    OwnedByOuter(usize),
    /// The key is not the outer schema's; it belongs to the absorbing field.
    NotOwnedByOuter,
}

impl Classification {
    /// Whether the key goes on to the consumer of the absorbing field.
    pub fn should_forward_to_flatten_field(&self) -> (forward: bool)
        ensures
            forward == (*self is NotOwnedByOuter),
    {
        match self {
            Classification::OwnedByOuter(_) => false,
            Classification::NotOwnedByOuter => true,
        }
    }
}

/// What happens to a key on its way through the router.
#[derive(Debug, PartialEq, Eq, Clone, Copy)]
pub enum KeyRoute {
    /// The key is the outer schema's: its value fills the slot with this index
    /// and the consumer never sees the key.
    Fill(usize),
    /// The key is handed to the consumer unchanged.
    Yield,
    /// The key cannot be decoded a second time where it would have to be.
    Reject,
}

/// The route of a key with the given decode path and classification.
///
/// A key of the outer schema needs one decode only, so any path that lets the
/// classifier read it will do. A key that is not the outer schema's needs the
/// second decode, which only the reusing and the staging path offer.
pub open spec fn route_of(path: DecodePath, c: Classification) -> KeyRoute {
    match (path, c) {
        (DecodePath::Undefined, _) => KeyRoute::Reject,
        (_, Classification::OwnedByOuter(id)) => KeyRoute::Fill(id),
        (DecodePath::ClassifyOnly, Classification::NotOwnedByOuter) => KeyRoute::Reject,
        (_, Classification::NotOwnedByOuter) => KeyRoute::Yield,
    }
}

/// Decides where a key goes, from its decode path and its classification.
pub fn key_route(path: DecodePath, c: Classification) -> (route: KeyRoute)
    ensures
        route == route_of(path, c),
{
    match path {
        DecodePath::Undefined => KeyRoute::Reject,
        DecodePath::ClassifyOnly => match c {
            Classification::OwnedByOuter(id) => KeyRoute::Fill(id),
            Classification::NotOwnedByOuter => KeyRoute::Reject,
        },
        DecodePath::Reuse => match c {
            Classification::OwnedByOuter(id) => KeyRoute::Fill(id),
            Classification::NotOwnedByOuter => KeyRoute::Yield,
        },
        DecodePath::Stage => match c {
            Classification::OwnedByOuter(id) => KeyRoute::Fill(id),
            Classification::NotOwnedByOuter => KeyRoute::Yield,
        },
    }
}

/// What the slots of an accumulator hold: for each declared field, in
/// declaration order, the parsed value in token form, once it is filled.
pub type Slots = Seq<Option<Seq<Token>>>;

/// An outer schema, as contracts see it.
pub struct Schema {
    /// Whom each key belongs to.
    pub owner: spec_fn(Token) -> Classification,
    /// The names of the declared fields, in declaration order.
    pub names: Seq<String>,
    /// The value of a declared field parsed as the field's declared type, in
    /// token form; `None` where the value is not of that type.
    pub parsed: spec_fn(int, Seq<Token>) -> Option<Seq<Token>>,
}

impl Schema {
    /// Every key that the schema owns names one of its declared fields.
    pub open spec fn valid(self) -> bool {
        forall|key: Token| #[trigger]
            (self.owner)(key) matches Classification::OwnedByOuter(id) ==> id < self.names.len()
    }

    /// The route of a key through a router for this schema.
    pub open spec fn route(self, key: Token) -> KeyRoute {
        route_of(path_of(key.repr()), (self.owner)(key))
    }

    /// All slots empty.
    pub open spec fn empty_slots(self) -> Slots {
        Seq::new(self.names.len(), |i: int| None)
    }

    /// What the accumulator does with the value of one classified key.
    ///
    /// For a key of the outer schema: a filled slot is a duplicate; else the
    /// value is parsed as the declared type and fills the slot. For any other
    /// key the value is discarded. A malformed value fails either way.
    pub open spec fn pull(self, slots: Slots, c: Classification, value: Option<Seq<Token>>) -> Result<
        Slots,
        FlattenError,
    > {
        match c {
            Classification::OwnedByOuter(id) => if slots[id as int] is Some {
                Err(FlattenError::DuplicateField(self.names[id as int]))
            } else {
                match value {
                    None => Err(FlattenError::Reader(ReaderFault::MalformedValue)),
                    Some(v) => match (self.parsed)(id as int, v) {
                        None => Err(FlattenError::TypeMismatch(self.names[id as int])),
                        Some(p) => Ok(slots.update(id as int, Some(p))),
                    },
                }
            },
            Classification::NotOwnedByOuter => match value {
                None => Err(FlattenError::Reader(ReaderFault::MalformedValue)),
                Some(_) => Ok(slots),
            },
        }
    }

    /// `pull` on each entry in turn, up to the first failure.
    pub open spec fn pull_all(self, slots: Slots, entries: Seq<Entry>) -> Result<Slots, FlattenError>
        decreases entries.len(),
    {
        if entries.len() == 0 {
            Ok(slots)
        } else {
            match self.pull(slots, (self.owner)(entries[0].key), entries[0].value) {
                Err(e) => Err(e),
                Ok(next) => self.pull_all(next, entries.skip(1)),
            }
        }
    }

    /// The slots after `pull` on each entry in turn, up to the first failure:
    /// a pull that fails changes nothing, so these are the slots as the last
    /// pull that succeeded left them.
    pub open spec fn pulled(self, slots: Slots, entries: Seq<Entry>) -> Slots
        decreases entries.len(),
    {
        if entries.len() == 0 {
            slots
        } else {
            match self.pull(slots, (self.owner)(entries[0].key), entries[0].value) {
                Err(_) => slots,
                Ok(next) => self.pulled(next, entries.skip(1)),
            }
        }
    }

    /// How many pulls succeed before the first one that fails.
    pub open spec fn pull_count(self, slots: Slots, entries: Seq<Entry>) -> nat
        decreases entries.len(),
    {
        if entries.len() == 0 {
            0
        } else {
            match self.pull(slots, (self.owner)(entries[0].key), entries[0].value) {
                Err(_) => 0,
                Ok(next) => 1 + self.pull_count(next, entries.skip(1)),
            }
        }
    }

    /// The slots fit the schema: the schema is valid and there is one slot
    /// for each declared field.
    pub open spec fn fits(self, slots: Slots) -> bool {
        self.valid() && slots.len() == self.names.len()
    }

    /// How many entries at the front have keys that the router diverts into
    /// the accumulator.
    pub open spec fn diverted(self, entries: Seq<Entry>) -> nat
        decreases entries.len(),
    {
        if entries.len() > 0 && self.route(entries[0].key) is Fill {
            1 + self.diverted(entries.skip(1))
        } else {
            0
        }
    }
}

/// Where every pull succeeds, `pulled` gives the slots that `pull_all` gives
/// and `pull_count` counts every entry; where one fails, it counts fewer.
pub proof fn lemma_pulled(schema: Schema, slots: Slots, entries: Seq<Entry>)
    ensures
        schema.pull_count(slots, entries) <= entries.len(),
        match schema.pull_all(slots, entries) {
            Ok(done) => schema.pulled(slots, entries) == done && schema.pull_count(slots, entries)
                == entries.len(),
            Err(_) => schema.pull_count(slots, entries) < entries.len(),
        },
    decreases entries.len(),
{
    if entries.len() > 0 {
        match schema.pull(slots, (schema.owner)(entries[0].key), entries[0].value) {
            Err(_) => {},
            Ok(next) => {
                lemma_pulled(schema, next, entries.skip(1));
            },
        }
    }
}

/// No more entries are diverted than there are, each of the diverted ones is
/// the outer schema's, and the one after them, if any, is not diverted.
pub proof fn lemma_diverted(schema: Schema, entries: Seq<Entry>)
    ensures
        schema.diverted(entries) <= entries.len(),
        forall|i: int|
            0 <= i < schema.diverted(entries) ==> schema.route(#[trigger] entries[i].key) is Fill,
        schema.diverted(entries) < entries.len() ==> !(schema.route(
            entries[schema.diverted(entries) as int].key,
        ) is Fill),
    decreases entries.len(),
{
    if entries.len() > 0 && schema.route(entries[0].key) is Fill {
        let tail = entries.skip(1);
        lemma_diverted(schema, tail);
        assert forall|i: int| 0 <= i < schema.diverted(entries) implies schema.route(
            #[trigger] entries[i].key,
        ) is Fill by {
            if i > 0 {
                assert(entries[i] == tail[i - 1]);
            }
        }
        if schema.diverted(entries) < entries.len() {
            assert(entries[schema.diverted(entries) as int] == tail[schema.diverted(tail) as int]);
        }
    }
}

/// The classifier and the accumulator of one outer schema.
///
/// `classify` says whom a key belongs to. `pull_value` consumes the value
/// that the reader awaits: into the slot of the field that owns the key, or
/// into nothing where the key is not the outer schema's.
///
/// The router is proved against the contracts of these two methods. An
/// implementation says what its schema is, what its slots hold and when it
/// is well-formed, and is verified against the contracts in those terms, as
/// `DeclaredFields` is. One that says none of this is never well-formed: it
/// can be written and run, with an empty `lemma_fits`, and nothing is proved
/// of a build that uses it.
pub trait FlattenSpec<'de>: Sized {
    /// Whether the accumulator is in a state that its methods accept. Both
    /// methods keep it so.
    open spec fn wf(&self) -> bool {
        false
    }

    /// The schema; no operation changes it.
    open spec fn schema(&self) -> Schema {
        arbitrary()
    }

    /// What the slots hold now.
    open spec fn slots(&self) -> Slots {
        arbitrary()
    }

    /// The keys that `classify` has been called on, in the order of the
    /// calls. Only `classify` adds to it, one key for each call.
    open spec fn classified(&self) -> Seq<Token> {
        arbitrary()
    }

    /// The slots of a well-formed accumulator fit its schema.
    proof fn lemma_fits(&self)
        requires
            self.wf(),
        ensures
            self.schema().fits(self.slots()),
    ;

    /// Says whom a key belongs to, as the schema has it, and records the
    /// call. Nothing else changes.
    fn classify(&mut self, key: &Token) -> (c: Classification)
        requires
            old(self).wf(),
        ensures
            final(self).wf(),
            c == (old(self).schema().owner)(*key),
            final(self).schema() == old(self).schema(),
            final(self).slots() == old(self).slots(),
            final(self).classified() == old(self).classified().push(*key),
    ;

    /// Pulls the awaited value from `reader` and stores it where `c` says.
    ///
    /// For a key of the outer schema, a slot that is filled already is a
    /// duplicate, reported before the value is looked at; else the value is
    /// taken, parsed as the declared type and stored. For any other key the
    /// value is taken and dropped. On success exactly one value has left the
    /// reader. On failure the slots are as they were, and of the reader no
    /// more than the awaited value has been taken.
    fn pull_value(&mut self, reader: &mut MapReader<'de>, c: Classification) -> (r: Result<
        (),
        FlattenError,
    >)
        requires
            old(self).wf(),
            old(reader).wf(),
            old(reader).awaiting_value(),
            c matches Classification::OwnedByOuter(id) ==> id < old(self).slots().len(),
        ensures
            final(self).wf(),
            final(reader).wf(),
            final(self).schema() == old(self).schema(),
            final(self).classified() == old(self).classified(),
            final(reader).entries() == old(reader).entries(),
            final(reader).closed() == old(reader).closed(),
            final(reader).taken() == old(reader).taken(),
            match old(self).schema().pull(old(self).slots(), c, old(reader).rest()[0].value) {
                Ok(slots) => {
                    &&& r == Ok::<(), FlattenError>(())
                    &&& final(self).slots() == slots
                    &&& final(reader).index() == old(reader).index() + 1
                    &&& !final(reader).awaiting_value()
                },
                Err(e) => {
                    &&& r == Err::<(), FlattenError>(e)
                    &&& final(self).slots() == old(self).slots()
                },
            },
    ;
}

} // verus!
