//! The flatten router: a map reader that hides the outer schema's own keys.
//!
//! The consumer of the absorbing field drives a `FlattenMapAccess` as it
//! would drive any map reader. Keys that the outer schema owns never reach
//! it: as they pass, their values go into the accumulator. When the consumer
//! is done, `finish` reads whatever it left unread.
use crate::classify::{
    key_route, lemma_diverted, lemma_pulled, Classification, FlattenSpec, KeyRoute, Schema, Slots,
};
use crate::error::{FlattenError, ReaderFault};
use crate::reader::{
    is_map, map_closed, map_entries, trace, Document, Entry, MapReader, ReadOp,
};
use crate::token::{decode_path, Token};
use vstd::prelude::*;

verus! {

/// The shape of value that a consumer asks a document for.
#[derive(Debug, PartialEq, Eq, Clone, Copy)]
pub enum Shape {
    Any,
    Bool,
    Integer,
    Real,
    Char,
    Text,
    Bytes,
    Optional,
    Unit,
    UnitStruct,
    NewtypeStruct,
    Sequence,
    Tuple,
    TupleStruct,
    Mapping,
    Struct,
    Enum,
    Identifier,
    Ignored,
}

impl Shape {
    /// Only maps and structs can be flattened.
    pub open spec fn is_map_like(self) -> bool {
        self is Mapping || self is Struct
    }
}

/// The keys of some entries, in order.
pub open spec fn keys_of(entries: Seq<Entry>) -> Seq<Token> {
    Seq::new(entries.len(), |i: int| entries[i].key)
}

/// Where one call of `next_key` leaves the router.
pub struct KeyStep {
    /// The slots after the diverted values went in.
    pub slots: Slots,
    /// How many entries have been read in full.
    pub index: nat,
    /// The key handed to the consumer; `None` at the end of the document.
    pub key: Option<Token>,
}

/// What one call of `next_key` does, from the slots as they are, on a
/// document of which the first `index` entries have been read.
///
/// The entries up to the first one that is not the outer schema's are pulled
/// into the accumulator, in order. If that fails, so does the call. Else the
/// key of that first entry is handed on, unless it has no path on which it
/// could be decoded again. Where no such entry is left, the document must end.
pub open spec fn next_key_spec(
    schema: Schema,
    slots: Slots,
    entries: Seq<Entry>,
    index: nat,
    closed: bool,
) -> Result<KeyStep, FlattenError> {
    let rest = entries.skip(index as int);
    let n = schema.diverted(rest);
    match schema.pull_all(slots, rest.take(n as int)) {
        Err(e) => Err(e),
        Ok(filled) => if n < rest.len() {
            if schema.route(rest[n as int].key) is Reject {
                Err(FlattenError::UnsupportedRepresentation)
            } else {
                Ok(KeyStep { slots: filled, index: index + n, key: Some(rest[n as int].key) })
            }
        } else if closed {
            Ok(KeyStep { slots: filled, index: index + n, key: None })
        } else {
            Err(FlattenError::Reader(ReaderFault::Truncated))
        },
    }
}

/// What draining does: every entry that is left is pulled, whomever its key
/// belongs to, and then the document must end.
pub open spec fn drain_spec(schema: Schema, slots: Slots, rest: Seq<Entry>, closed: bool) -> Result<
    Slots,
    FlattenError,
> {
    match schema.pull_all(slots, rest) {
        Err(e) => Err(e),
        Ok(filled) => if closed {
            Ok(filled)
        } else {
            Err(FlattenError::Reader(ReaderFault::Truncated))
        },
    }
}

/// How many of the leading entries that the router diverts are pulled
/// before a call of `next_key` ends: all of them, or those before the first
/// pull that fails.
pub open spec fn pulls_of_next_key(schema: Schema, slots: Slots, rest: Seq<Entry>) -> nat {
    schema.pull_count(slots, rest.take(schema.diverted(rest) as int))
}

/// The slots after a call of `next_key`, whether it succeeds or fails: the
/// leading entries that the router diverts have been pulled, up to the first
/// failure.
pub open spec fn slots_after_next_key(schema: Schema, slots: Slots, rest: Seq<Entry>) -> Slots {
    schema.pulled(slots, rest.take(schema.diverted(rest) as int))
}

/// How many keys have been taken from the document once `pulls` entries
/// after the first `index` have been pulled: the key of the next entry has
/// been taken too, if there is one.
pub open spec fn taken_after(entries: Seq<Entry>, index: nat, pulls: nat) -> nat {
    if index + pulls < entries.len() {
        index + pulls + 1
    } else {
        index + pulls
    }
}

/// Diverting the first unread entry, then going on, is all that `next_key`
/// does while the first unread key is the outer schema's.
pub proof fn lemma_divert_first(
    schema: Schema,
    slots: Slots,
    entries: Seq<Entry>,
    index: nat,
    closed: bool,
)
    requires
        index < entries.len(),
        schema.route(entries[index as int].key) is Fill,
    ensures
        match schema.pull(
            slots,
            (schema.owner)(entries[index as int].key),
            entries[index as int].value,
        ) {
            Err(e) => {
                &&& next_key_spec(schema, slots, entries, index, closed) == Err::<
                    KeyStep,
                    FlattenError,
                >(e)
                &&& slots_after_next_key(schema, slots, entries.skip(index as int)) == slots
                &&& pulls_of_next_key(schema, slots, entries.skip(index as int)) == 0
            },
            Ok(next) => {
                &&& next_key_spec(schema, slots, entries, index, closed) == next_key_spec(
                    schema,
                    next,
                    entries,
                    index + 1,
                    closed,
                )
                &&& slots_after_next_key(schema, slots, entries.skip(index as int))
                    == slots_after_next_key(schema, next, entries.skip(index as int + 1))
                &&& pulls_of_next_key(schema, slots, entries.skip(index as int)) == 1
                    + pulls_of_next_key(schema, next, entries.skip(index as int + 1))
            },
        },
{
    let rest = entries.skip(index as int);
    let tail = entries.skip(index as int + 1);
    let n = schema.diverted(rest);
    lemma_diverted(schema, rest);
    assert(rest[0] == entries[index as int]);
    assert(rest.skip(1) == tail);
    assert(n == 1 + schema.diverted(tail));
    assert(rest.take(n as int).skip(1) == tail.take(n - 1));
    assert(rest.take(n as int)[0] == rest[0]);
    if n < rest.len() {
        assert(rest[n as int] == tail[n - 1]);
    }
}

/// Where the first unread key is not one that the router diverts, or none is
/// left, a call of `next_key` pulls nothing.
pub proof fn lemma_divert_none(schema: Schema, slots: Slots, rest: Seq<Entry>)
    requires
        rest.len() == 0 || !(schema.route(rest[0].key) is Fill),
    ensures
        schema.diverted(rest) == 0,
        slots_after_next_key(schema, slots, rest) == slots,
        pulls_of_next_key(schema, slots, rest) == 0,
        schema.pull_all(slots, rest.take(0)) == Ok::<Slots, FlattenError>(slots),
{
    assert(rest.take(0) =~= Seq::<Entry>::empty());
}

/// A document, an accumulator for the outer schema's own fields, and nothing
/// read yet.
pub struct FlattenDeserializer<'de, F> {
    inner: Document<'de>,
    flatten_spec: F,
}

impl<'de, F: FlattenSpec<'de>> FlattenDeserializer<'de, F> {
    /// The tokens of the document.
    pub closed spec fn document(&self) -> Seq<Token> {
        self.inner@
    }

    /// The accumulator.
    pub closed spec fn flatten_spec(&self) -> F {
        self.flatten_spec
    }

    /// Wraps a document. The accumulator is held until `into_flatten_spec`
    /// hands it back.
    pub fn new(from_deserializer: Document<'de>, flatten_spec: F) -> (d: Self)
        ensures
            d.document() == from_deserializer@,
            d.flatten_spec() == flatten_spec,
    {
        FlattenDeserializer { inner: from_deserializer, flatten_spec }
    }

    /// Refuses: without a consumer that asks for a map, nothing says that the
    /// document is one.
    pub fn deserialize_any(self) -> (r: Result<FlattenMapAccess<'de, F>, FlattenError>)
        ensures
            r matches Err(e) && e == FlattenError::UnsupportedShape,
    {
        Err(FlattenError::UnsupportedShape)
    }

    /// Opens the document as a map behind a router.
    ///
    /// Fails, before any key is read, with `Truncated` on a document without
    /// tokens and with `UnsupportedShape` on one that does not start a map.
    pub fn deserialize_map(self) -> (r: Result<FlattenMapAccess<'de, F>, FlattenError>)
        requires
            self.flatten_spec().wf(),
        ensures
            match r {
                Ok(access) => {
                    &&& is_map(self.document())
                    &&& access.wf()
                    &&& access.entries() == map_entries(self.document())
                    &&& access.closed() == map_closed(self.document())
                    &&& access.index() == 0
                    &&& !access.awaiting_value()
                    &&& !access.finished()
                    &&& access.flatten_spec() == self.flatten_spec()
                    &&& access.classified() == Seq::<Token>::empty()
                },
                Err(e) => {
                    &&& !is_map(self.document())
                    &&& e == if self.document().len() == 0 {
                        FlattenError::Reader(ReaderFault::Truncated)
                    } else {
                        FlattenError::UnsupportedShape
                    }
                },
            },
    {
        match self.inner.open_map() {
            Ok(reader) => {
                let ghost base = self.flatten_spec.classified().len();
                let access = FlattenMapAccess {
                    inner: reader,
                    finished: false,
                    flatten_spec: self.flatten_spec,
                    base: Ghost(base),
                };
                assert(keys_of(access.entries().take(0)) == Seq::<Token>::empty());
                assert(access.flatten_spec.classified().skip(base as int) == Seq::<Token>::empty());
                Ok(access)
            },
            Err(e) => Err(e),
        }
    }

    /// Opens the document as a struct: a map, whatever the struct is called
    /// and whichever fields it declares.
    pub fn deserialize_struct(self, name: &str, fields: &[&str]) -> (r: Result<
        FlattenMapAccess<'de, F>,
        FlattenError,
    >)
        requires
            self.flatten_spec().wf(),
        ensures
            match r {
                Ok(access) => {
                    &&& is_map(self.document())
                    &&& access.wf()
                    &&& access.entries() == map_entries(self.document())
                    &&& access.closed() == map_closed(self.document())
                    &&& access.index() == 0
                    &&& !access.awaiting_value()
                    &&& !access.finished()
                    &&& access.flatten_spec() == self.flatten_spec()
                    &&& access.classified() == Seq::<Token>::empty()
                },
                Err(e) => {
                    &&& !is_map(self.document())
                    &&& e == if self.document().len() == 0 {
                        FlattenError::Reader(ReaderFault::Truncated)
                    } else {
                        FlattenError::UnsupportedShape
                    }
                },
            },
    {
        self.deserialize_map()
    }

    /// Opens the document in the shape asked for: as a map for a map or a
    /// struct, and not at all for any other shape.
    pub fn deserialize(self, shape: Shape) -> (r: Result<FlattenMapAccess<'de, F>, FlattenError>)
        requires
            self.flatten_spec().wf(),
        ensures
            match r {
                Ok(access) => {
                    &&& shape.is_map_like()
                    &&& is_map(self.document())
                    &&& access.wf()
                    &&& access.entries() == map_entries(self.document())
                    &&& access.closed() == map_closed(self.document())
                    &&& access.index() == 0
                    &&& !access.awaiting_value()
                    &&& !access.finished()
                    &&& access.flatten_spec() == self.flatten_spec()
                    &&& access.classified() == Seq::<Token>::empty()
                },
                Err(e) => {
                    &&& !(shape.is_map_like() && is_map(self.document()))
                    &&& e == if shape.is_map_like() && self.document().len() == 0 {
                        FlattenError::Reader(ReaderFault::Truncated)
                    } else {
                        FlattenError::UnsupportedShape
                    }
                },
            },
    {
        match shape {
            Shape::Mapping => self.deserialize_map(),
            Shape::Struct => self.deserialize_map(),
            _ => self.deserialize_any(),
        }
    }
}

/// The router at work: the cursor over the document, the accumulator, and
/// whether the end of the document has been seen.
pub struct FlattenMapAccess<'de, F> {
    inner: MapReader<'de>,
    finished: bool,
    flatten_spec: F,
    base: Ghost<nat>,
}

impl<'de, F: FlattenSpec<'de>> FlattenMapAccess<'de, F> {
    /// Reader and accumulator are well-formed, a finished router has read
    /// everything, and the keys that the accumulator has classified for this
    /// router are the keys taken.
    pub closed spec fn wf(&self) -> bool {
        &&& self.inner.wf()
        &&& self.flatten_spec.wf()
        &&& self.finished ==> self.inner.exhausted() && self.inner.closed()
            && !self.inner.awaiting_value()
        &&& self.base@ <= self.flatten_spec.classified().len()
        &&& self.flatten_spec.classified().skip(self.base@ as int) == keys_of(
            self.inner.entries().take(self.taken() as int),
        )
    }

    /// All entries of the document, read or not.
    pub closed spec fn entries(&self) -> Seq<Entry> {
        self.inner.entries()
    }

    /// Whether the document is closed after its entries.
    pub closed spec fn closed(&self) -> bool {
        self.inner.closed()
    }

    /// How many entries have been read, key and value.
    pub closed spec fn index(&self) -> nat {
        self.inner.index()
    }

    /// Whether a key has been handed out whose value has not been taken.
    pub closed spec fn awaiting_value(&self) -> bool {
        self.inner.awaiting_value()
    }

    /// Whether the end of the document has been seen.
    pub closed spec fn finished(&self) -> bool {
        self.finished
    }

    /// The accumulator as it is now.
    pub closed spec fn flatten_spec(&self) -> F {
        self.flatten_spec
    }

    /// Every read made from the document so far, in order.
    pub closed spec fn reads(&self) -> Seq<ReadOp> {
        self.inner.reads()
    }

    /// The keys that the accumulator has been asked to classify since the
    /// router took hold of it, in the order of the calls.
    pub closed spec fn classified(&self) -> Seq<Token> {
        self.flatten_spec.classified().skip(self.base@ as int)
    }

    /// How many keys have been taken from the document.
    pub open spec fn taken(&self) -> nat {
        if self.awaiting_value() {
            self.index() + 1
        } else {
            self.index()
        }
    }

    /// The entries not yet read in full.
    pub open spec fn rest(&self) -> Seq<Entry> {
        self.entries().skip(self.index() as int)
    }

    /// No double consumption, in every state of the router.
    ///
    /// The reads made from the document are the key and the value of each
    /// entry in turn, each exactly once, up to where the cursor stands. The
    /// calls of `classify` made for this router are one for each key taken,
    /// in the order of the keys, and no other.
    pub proof fn law_read_once(&self)
        requires
            self.wf(),
        ensures
            self.index() <= self.entries().len(),
            self.taken() <= self.entries().len(),
            self.reads() == trace(self.index(), self.awaiting_value()),
            self.classified() == keys_of(self.entries().take(self.taken() as int)),
            self.finished() ==> self.index() == self.entries().len() && self.closed()
                && !self.awaiting_value(),
            self.flatten_spec().wf(),
            self.flatten_spec().schema().fits(self.flatten_spec().slots()),
    {
        self.inner.lemma_index_in_range();
        self.flatten_spec.lemma_fits();
    }

    /// Hands out the next key that is not the outer schema's.
    ///
    /// On the way there, each key that is the outer schema's is classified
    /// and its value pulled into the accumulator; the caller sees none of
    /// them. Returns `None` at the end of the document, and from then on the
    /// router is finished.
    ///
    /// A call that fails leaves the router well-formed and not finished. The
    /// slots hold what the pulls before the failure put there, and the cursor
    /// stands at the entry that failed.
    #[verifier::loop_isolation(false)]
    pub fn next_key(&mut self) -> (r: Result<Option<&'de Token>, FlattenError>)
        requires
            old(self).wf(),
            !old(self).awaiting_value(),
        ensures
            final(self).wf(),
            final(self).entries() == old(self).entries(),
            final(self).closed() == old(self).closed(),
            final(self).flatten_spec().schema() == old(self).flatten_spec().schema(),
            final(self).flatten_spec().slots() == slots_after_next_key(
                old(self).flatten_spec().schema(),
                old(self).flatten_spec().slots(),
                old(self).rest(),
            ),
            match next_key_spec(
                old(self).flatten_spec().schema(),
                old(self).flatten_spec().slots(),
                old(self).entries(),
                old(self).index(),
                old(self).closed(),
            ) {
                Err(e) => {
                    let pulls = pulls_of_next_key(
                        old(self).flatten_spec().schema(),
                        old(self).flatten_spec().slots(),
                        old(self).rest(),
                    );
                    &&& r == Err::<Option<&Token>, FlattenError>(e)
                    &&& final(self).finished() == old(self).finished()
                    &&& final(self).index() >= old(self).index() + pulls
                    &&& final(self).taken() == taken_after(
                        old(self).entries(),
                        old(self).index(),
                        pulls,
                    )
                },
                Ok(step) => {
                    &&& r matches Ok(key)
                    &&& match key {
                        Some(k) => step.key == Some(*k),
                        None => step.key is None,
                    }
                    &&& final(self).flatten_spec().slots() == step.slots
                    &&& final(self).index() == step.index
                    &&& final(self).awaiting_value() == (step.key is Some)
                    &&& final(self).finished() == (old(self).finished() || step.key is None)
                },
            },
    {
        let ghost schema = self.flatten_spec.schema();
        let ghost entries = self.inner.entries();
        let ghost closed = self.inner.closed();
        let ghost index0 = self.inner.index();
        let ghost goal = next_key_spec(schema, self.flatten_spec.slots(), entries, index0, closed);
        let ghost goal_slots = slots_after_next_key(schema, self.flatten_spec.slots(), self.rest());
        let ghost goal_pulls = pulls_of_next_key(schema, self.flatten_spec.slots(), self.rest());
        let ghost was_finished = self.finished;
        loop
            invariant
                self.wf(),
                !self.inner.awaiting_value(),
                self.inner.entries() == entries,
                self.inner.closed() == closed,
                self.flatten_spec.schema() == schema,
                self.finished == was_finished,
                index0 <= self.inner.index(),
                next_key_spec(
                    schema,
                    self.flatten_spec.slots(),
                    entries,
                    self.inner.index(),
                    closed,
                ) == goal,
                slots_after_next_key(
                    schema,
                    self.flatten_spec.slots(),
                    entries.skip(self.inner.index() as int),
                ) == goal_slots,
                self.inner.index() + pulls_of_next_key(
                    schema,
                    self.flatten_spec.slots(),
                    entries.skip(self.inner.index() as int),
                ) == index0 + goal_pulls,
            decreases entries.len() - self.inner.index(),
        {
            proof {
                self.inner.lemma_index_in_range();
            }
            let ghost index = self.inner.index();
            let ghost rest = entries.skip(index as int);
            let ghost slots = self.flatten_spec.slots();
            let key = match self.inner.next_key() {
                Err(e) => {
                    proof {
                        lemma_divert_none(schema, slots, rest);
                    }
                    return Err(e);
                },
                Ok(None) => {
                    proof {
                        lemma_divert_none(schema, slots, rest);
                    }
                    self.finished = true;
                    return Ok(None);
                },
                Ok(Some(key)) => key,
            };
            let c = self.flatten_spec.classify(key);
            proof {
                assert(rest[0] == entries[index as int]);
                let log = self.flatten_spec.classified();
                let before = keys_of(entries.take(index as int));
                assert(log.skip(self.base@ as int) =~= before.push(*key));
                assert(before.push(*key) =~= keys_of(entries.take(index as int + 1)));
                self.flatten_spec.lemma_fits();
            }
            match key_route(decode_path(key.representation()), c) {
                KeyRoute::Yield => {
                    proof {
                        lemma_divert_none(schema, slots, rest);
                    }
                    return Ok(Some(key));
                },
                KeyRoute::Reject => {
                    proof {
                        lemma_divert_none(schema, slots, rest);
                    }
                    return Err(FlattenError::UnsupportedRepresentation);
                },
                KeyRoute::Fill(_) => {
                    proof {
                        lemma_divert_first(schema, slots, entries, index, closed);
                    }
                    match self.flatten_spec.pull_value(&mut self.inner, c) {
                        Ok(()) => {},
                        Err(e) => {
                            proof {
                                self.inner.lemma_index_in_range();
                            }
                            return Err(e);
                        },
                    }
                },
            }
        }
    }

    /// Takes the value of the key handed out last: the consumer's own read,
    /// passed through to the document. A malformed value fails and leaves
    /// the router as it was, the value still awaited.
    pub fn next_value(&mut self) -> (r: Result<&'de [Token], FlattenError>)
        requires
            old(self).wf(),
            old(self).awaiting_value(),
        ensures
            old(self).index() < old(self).entries().len(),
            final(self).wf(),
            final(self).entries() == old(self).entries(),
            final(self).closed() == old(self).closed(),
            final(self).flatten_spec() == old(self).flatten_spec(),
            final(self).finished() == old(self).finished(),
            final(self).classified() == old(self).classified(),
            match old(self).rest()[0].value {
                Some(v) => {
                    &&& r matches Ok(run)
                    &&& run@ == v
                    &&& final(self).index() == old(self).index() + 1
                    &&& !final(self).awaiting_value()
                },
                None => {
                    &&& r == Err::<&[Token], FlattenError>(
                        FlattenError::Reader(ReaderFault::MalformedValue),
                    )
                    &&& final(self).index() == old(self).index()
                    &&& final(self).awaiting_value()
                },
            },
    {
        proof {
            self.inner.lemma_index_in_range();
        }
        self.inner.next_value()
    }

    /// Discards the value of the key handed out last. Fails as `next_value`
    /// does.
    pub fn discard_value(&mut self) -> (r: Result<(), FlattenError>)
        requires
            old(self).wf(),
            old(self).awaiting_value(),
        ensures
            old(self).index() < old(self).entries().len(),
            final(self).wf(),
            final(self).entries() == old(self).entries(),
            final(self).closed() == old(self).closed(),
            final(self).flatten_spec() == old(self).flatten_spec(),
            final(self).finished() == old(self).finished(),
            final(self).classified() == old(self).classified(),
            match old(self).rest()[0].value {
                Some(v) => {
                    &&& r == Ok::<(), FlattenError>(())
                    &&& final(self).index() == old(self).index() + 1
                    &&& !final(self).awaiting_value()
                },
                None => {
                    &&& r == Err::<(), FlattenError>(
                        FlattenError::Reader(ReaderFault::MalformedValue),
                    )
                    &&& final(self).index() == old(self).index()
                    &&& final(self).awaiting_value()
                },
            },
    {
        proof {
            self.inner.lemma_index_in_range();
        }
        self.inner.discard_value()
    }

    /// Reads what the consumer left unread, so that the document is always
    /// read to its end.
    ///
    /// Every remaining key is classified. Values of the outer schema's keys
    /// go into the accumulator, under the same checks as before; all other
    /// values are discarded. After a router that has seen the end of the
    /// document, nothing is left to do.
    ///
    /// Draining stops at the first failure: the router stays well-formed and
    /// not finished, the slots hold what the pulls before the failure put
    /// there, and no entry after the one that failed has been read.
    #[verifier::loop_isolation(false)]
    pub fn finish(&mut self) -> (r: Result<(), FlattenError>)
        requires
            old(self).wf(),
            !old(self).awaiting_value(),
        ensures
            final(self).wf(),
            final(self).entries() == old(self).entries(),
            final(self).closed() == old(self).closed(),
            final(self).flatten_spec().schema() == old(self).flatten_spec().schema(),
            final(self).flatten_spec().slots() == old(self).flatten_spec().schema().pulled(
                old(self).flatten_spec().slots(),
                old(self).rest(),
            ),
            match drain_spec(
                old(self).flatten_spec().schema(),
                old(self).flatten_spec().slots(),
                old(self).rest(),
                old(self).closed(),
            ) {
                Err(e) => {
                    let pulls = old(self).flatten_spec().schema().pull_count(
                        old(self).flatten_spec().slots(),
                        old(self).rest(),
                    );
                    &&& r == Err::<(), FlattenError>(e)
                    &&& final(self).finished() == old(self).finished()
                    &&& final(self).index() >= old(self).index() + pulls
                    &&& final(self).taken() == taken_after(
                        old(self).entries(),
                        old(self).index(),
                        pulls,
                    )
                },
                Ok(slots) => {
                    &&& r == Ok::<(), FlattenError>(())
                    &&& final(self).closed()
                    &&& final(self).flatten_spec().slots() == slots
                    &&& final(self).index() == old(self).entries().len()
                    &&& !final(self).awaiting_value()
                    &&& final(self).finished()
                    &&& final(self).classified() == keys_of(old(self).entries())
                },
            },
    {
        let ghost schema = self.flatten_spec.schema();
        let ghost entries = self.inner.entries();
        let ghost closed = self.inner.closed();
        let ghost index0 = self.inner.index();
        let ghost goal = drain_spec(schema, self.flatten_spec.slots(), self.rest(), closed);
        let ghost goal_slots = schema.pulled(self.flatten_spec.slots(), self.rest());
        let ghost goal_pulls = schema.pull_count(self.flatten_spec.slots(), self.rest());
        proof {
            self.inner.lemma_index_in_range();
            lemma_pulled(schema, self.flatten_spec.slots(), self.rest());
        }
        if self.finished {
            assert(entries.take(entries.len() as int) == entries);
            return Ok(());
        }
        loop
            invariant
                self.wf(),
                !self.finished,
                !self.inner.awaiting_value(),
                self.inner.entries() == entries,
                self.inner.closed() == closed,
                self.flatten_spec.schema() == schema,
                index0 <= self.inner.index(),
                drain_spec(
                    schema,
                    self.flatten_spec.slots(),
                    entries.skip(self.inner.index() as int),
                    closed,
                ) == goal,
                schema.pulled(self.flatten_spec.slots(), entries.skip(self.inner.index() as int))
                    == goal_slots,
                self.inner.index() + schema.pull_count(
                    self.flatten_spec.slots(),
                    entries.skip(self.inner.index() as int),
                ) == index0 + goal_pulls,
            decreases entries.len() - self.inner.index(),
        {
            proof {
                self.inner.lemma_index_in_range();
            }
            let ghost index = self.inner.index();
            let ghost rest = entries.skip(index as int);
            let key = match self.inner.next_key() {
                Err(e) => {
                    return Err(e);
                },
                Ok(None) => {
                    self.finished = true;
                    assert(entries.take(entries.len() as int) == entries);
                    return Ok(());
                },
                Ok(Some(key)) => key,
            };
            let c = self.flatten_spec.classify(key);
            proof {
                assert(rest[0] == entries[index as int]);
                assert(rest.skip(1) == entries.skip(index as int + 1));
                let log = self.flatten_spec.classified();
                let before = keys_of(entries.take(index as int));
                assert(log.skip(self.base@ as int) =~= before.push(*key));
                assert(before.push(*key) =~= keys_of(entries.take(index as int + 1)));
                self.flatten_spec.lemma_fits();
            }
            match self.flatten_spec.pull_value(&mut self.inner, c) {
                Ok(()) => {},
                Err(e) => {
                    proof {
                        self.inner.lemma_index_in_range();
                    }
                    return Err(e);
                },
            }
        }
    }

    /// Ends the build's hold on the accumulator and hands it back.
    pub fn into_flatten_spec(self) -> (f: F)
        ensures
            f == self.flatten_spec(),
    {
        self.flatten_spec
    }
}

} // verus!
