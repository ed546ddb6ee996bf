//! Building an outer value from one pass over a document.
//!
//! The consumer of the absorbing field reads the document through the
//! router; the outer schema's own fields are filled on the way. When the
//! consumer is done the rest of the document is drained, and only then are
//! the outer schema's fields required to be there.
use crate::classify::{
    lemma_diverted, lemma_pulled, Classification, FlattenSpec, KeyRoute, Schema, Slots,
};
use crate::error::{FlattenError, ReaderFault};
use crate::fields::{assemble_spec, runs_view, schema_of, DeclaredFields, FieldDecl};
use crate::reader::{is_map, map_closed, map_entries, Document, Entry};
use crate::router::{FlattenDeserializer, FlattenMapAccess};
use crate::token::Token;
use vstd::prelude::*;

verus! {

/// The slots of the outer schema and those of the absorbing field's schema.
pub struct BothSlots {
    pub outer: Slots,
    pub flattened: Slots,
}

/// One pass over some entries, in document order. An entry whose key is the
/// outer schema's goes to the outer slots; any other goes to the schema of
/// the absorbing field, which stores it or, where it does not know the key,
/// discards it. The first failure ends the pass.
pub open spec fn stream(outer: Schema, flattened: Schema, slots: BothSlots, entries: Seq<Entry>) -> Result<
    BothSlots,
    FlattenError,
>
    decreases entries.len(),
{
    if entries.len() == 0 {
        Ok(slots)
    } else {
        let first = entries[0];
        match outer.route(first.key) {
            KeyRoute::Reject => Err(FlattenError::UnsupportedRepresentation),
            KeyRoute::Fill(_) => match outer.pull(
                slots.outer,
                (outer.owner)(first.key),
                first.value,
            ) {
                Err(e) => Err(e),
                Ok(next) => stream(
                    outer,
                    flattened,
                    BothSlots { outer: next, flattened: slots.flattened },
                    entries.skip(1),
                ),
            },
            KeyRoute::Yield => match flattened.pull(
                slots.flattened,
                (flattened.owner)(first.key),
                first.value,
            ) {
                Err(e) => Err(e),
                Ok(next) => stream(
                    outer,
                    flattened,
                    BothSlots { outer: slots.outer, flattened: next },
                    entries.skip(1),
                ),
            },
        }
    }
}

/// The slots after one pass over some entries, up to the first failure. A
/// step that fails changes nothing, so these are the slots as the last step
/// that succeeded left them.
pub open spec fn streamed(outer: Schema, flattened: Schema, slots: BothSlots, entries: Seq<Entry>) -> BothSlots
    decreases entries.len(),
{
    if entries.len() == 0 {
        slots
    } else {
        let first = entries[0];
        match outer.route(first.key) {
            KeyRoute::Reject => slots,
            KeyRoute::Fill(_) => match outer.pull(
                slots.outer,
                (outer.owner)(first.key),
                first.value,
            ) {
                Err(_) => slots,
                Ok(next) => streamed(
                    outer,
                    flattened,
                    BothSlots { outer: next, flattened: slots.flattened },
                    entries.skip(1),
                ),
            },
            KeyRoute::Yield => match flattened.pull(
                slots.flattened,
                (flattened.owner)(first.key),
                first.value,
            ) {
                Err(_) => slots,
                Ok(next) => streamed(
                    outer,
                    flattened,
                    BothSlots { outer: slots.outer, flattened: next },
                    entries.skip(1),
                ),
            },
        }
    }
}

/// One pass over the entries that are left, and then the document must end.
pub open spec fn stream_to_end(
    outer: Schema,
    flattened: Schema,
    slots: BothSlots,
    rest: Seq<Entry>,
    closed: bool,
) -> Result<BothSlots, FlattenError> {
    match stream(outer, flattened, slots, rest) {
        Err(e) => Err(e),
        Ok(done) => if closed {
            Ok(done)
        } else {
            Err(FlattenError::Reader(ReaderFault::Truncated))
        },
    }
}

/// The values of an outer schema's own fields and of the absorbing field's
/// fields, each in declaration order.
pub struct BuiltView {
    pub outer: Seq<Seq<Token>>,
    pub flattened: Seq<Seq<Token>>,
}

/// What `build` returns on a document.
///
/// A document that is not a map fails before any key is read. Then comes the
/// pass over the entries. After it the fields of the absorbing field's schema
/// must all be there, and then, last of all, those of the outer schema.
pub open spec fn build_spec(document: Seq<Token>, outer: Seq<FieldDecl>, flattened: Seq<FieldDecl>) -> Result<
    BuiltView,
    FlattenError,
> {
    if document.len() == 0 {
        Err(FlattenError::Reader(ReaderFault::Truncated))
    } else if !is_map(document) {
        Err(FlattenError::UnsupportedShape)
    } else {
        let start = BothSlots {
            outer: schema_of(outer).empty_slots(),
            flattened: schema_of(flattened).empty_slots(),
        };
        match stream_to_end(
            schema_of(outer),
            schema_of(flattened),
            start,
            map_entries(document),
            map_closed(document),
        ) {
            Err(e) => Err(e),
            Ok(done) => match assemble_spec(schema_of(flattened).names, done.flattened) {
                Err(e) => Err(e),
                Ok(inner) => match assemble_spec(schema_of(outer).names, done.outer) {
                    Err(e) => Err(e),
                    Ok(own) => Ok(BuiltView { outer: own, flattened: inner }),
                },
            },
        }
    }
}

/// A pass over entries whose first `n` keys are all the outer schema's pulls
/// those `n` into the outer slots and goes on from there.
pub proof fn lemma_stream_diverted(
    outer: Schema,
    flattened: Schema,
    slots: BothSlots,
    entries: Seq<Entry>,
)
    ensures
        stream(outer, flattened, slots, entries) == match outer.pull_all(
            slots.outer,
            entries.take(outer.diverted(entries) as int),
        ) {
            Err(e) => Err(e),
            Ok(next) => stream(
                outer,
                flattened,
                BothSlots { outer: next, flattened: slots.flattened },
                entries.skip(outer.diverted(entries) as int),
            ),
        },
    decreases entries.len(),
{
    let n = outer.diverted(entries);
    lemma_diverted(outer, entries);
    if n == 0 {
        assert(entries.take(0) =~= Seq::<Entry>::empty());
        assert(entries.skip(0) =~= entries);
    } else {
        let tail = entries.skip(1);
        assert(entries.take(n as int)[0] == entries[0]);
        assert(entries.take(n as int).skip(1) =~= tail.take(n - 1));
        assert(entries.skip(n as int) =~= tail.skip(n - 1));
        match outer.pull(slots.outer, (outer.owner)(entries[0].key), entries[0].value) {
            Err(_) => {},
            Ok(next) => {
                lemma_stream_diverted(
                    outer,
                    flattened,
                    BothSlots { outer: next, flattened: slots.flattened },
                    tail,
                );
            },
        }
    }
}

/// Where a pass succeeds, `streamed` gives the slots it ends with.
pub proof fn lemma_streamed(outer: Schema, flattened: Schema, slots: BothSlots, entries: Seq<Entry>)
    ensures
        stream(outer, flattened, slots, entries) matches Ok(done) ==> streamed(
            outer,
            flattened,
            slots,
            entries,
        ) == done,
    decreases entries.len(),
{
    if entries.len() > 0 {
        let first = entries[0];
        if outer.route(first.key) is Fill {
            match outer.pull(slots.outer, (outer.owner)(first.key), first.value) {
                Err(_) => {},
                Ok(next) => {
                    lemma_streamed(
                        outer,
                        flattened,
                        BothSlots { outer: next, flattened: slots.flattened },
                        entries.skip(1),
                    );
                },
            }
        } else if outer.route(first.key) is Yield {
            match flattened.pull(slots.flattened, (flattened.owner)(first.key), first.value) {
                Err(_) => {},
                Ok(next) => {
                    lemma_streamed(
                        outer,
                        flattened,
                        BothSlots { outer: slots.outer, flattened: next },
                        entries.skip(1),
                    );
                },
            }
        }
    }
}

/// Up to the first failure, a pass over entries whose first `n` keys are
/// all the outer schema's pulls those `n` into the outer slots and goes on
/// from there, if none of the pulls fails.
pub proof fn lemma_streamed_diverted(
    outer: Schema,
    flattened: Schema,
    slots: BothSlots,
    entries: Seq<Entry>,
)
    ensures
        streamed(outer, flattened, slots, entries) == match outer.pull_all(
            slots.outer,
            entries.take(outer.diverted(entries) as int),
        ) {
            Err(_) => BothSlots {
                outer: outer.pulled(slots.outer, entries.take(outer.diverted(entries) as int)),
                flattened: slots.flattened,
            },
            Ok(next) => streamed(
                outer,
                flattened,
                BothSlots { outer: next, flattened: slots.flattened },
                entries.skip(outer.diverted(entries) as int),
            ),
        },
    decreases entries.len(),
{
    let n = outer.diverted(entries);
    lemma_diverted(outer, entries);
    if n == 0 {
        assert(entries.take(0) =~= Seq::<Entry>::empty());
        assert(entries.skip(0) =~= entries);
    } else {
        let tail = entries.skip(1);
        assert(entries.take(n as int)[0] == entries[0]);
        assert(entries.take(n as int).skip(1) =~= tail.take(n - 1));
        assert(entries.skip(n as int) =~= tail.skip(n - 1));
        match outer.pull(slots.outer, (outer.owner)(entries[0].key), entries[0].value) {
            Err(_) => {},
            Ok(next) => {
                lemma_streamed_diverted(
                    outer,
                    flattened,
                    BothSlots { outer: next, flattened: slots.flattened },
                    tail,
                );
            },
        }
    }
}

/// Reads a document through the router into the fields of the absorbing
/// field's schema, to the end of the document.
///
/// Each key that the router hands out is looked up among the declared
/// fields: the value of a known field fills its slot, under the duplicate and
/// the type check, and the value of an unknown one is discarded.
///
/// Reading stops at the first failure. Router and fields stay well-formed,
/// the router is not finished, and both sets of slots hold what the steps
/// before the failure put there.
#[verifier::loop_isolation(false)]
pub fn consume<'de, F: FlattenSpec<'de>>(
    access: &mut FlattenMapAccess<'de, F>,
    flattened: &mut DeclaredFields<'de>,
) -> (r: Result<(), FlattenError>)
    requires
        old(access).wf(),
        !old(access).awaiting_value(),
        old(flattened).valid(),
    ensures
        final(access).wf(),
        final(access).entries() == old(access).entries(),
        final(access).closed() == old(access).closed(),
        final(access).flatten_spec().schema() == old(access).flatten_spec().schema(),
        final(access).index() >= old(access).index(),
        final(flattened).valid(),
        final(flattened).decls() == old(flattened).decls(),
        streamed(
            old(access).flatten_spec().schema(),
            schema_of(old(flattened).decls()),
            BothSlots {
                outer: old(access).flatten_spec().slots(),
                flattened: old(flattened).slot_views(),
            },
            old(access).rest(),
        ) == (BothSlots {
            outer: final(access).flatten_spec().slots(),
            flattened: final(flattened).slot_views(),
        }),
        match stream_to_end(
            old(access).flatten_spec().schema(),
            schema_of(old(flattened).decls()),
            BothSlots {
                outer: old(access).flatten_spec().slots(),
                flattened: old(flattened).slot_views(),
            },
            old(access).rest(),
            old(access).closed(),
        ) {
            Err(e) => {
                &&& r == Err::<(), FlattenError>(e)
                &&& final(access).finished() == old(access).finished()
            },
            Ok(done) => {
                &&& r == Ok::<(), FlattenError>(())
                &&& final(access).closed()
                &&& final(access).flatten_spec().slots() == done.outer
                &&& final(access).index() == old(access).entries().len()
                &&& !final(access).awaiting_value()
                &&& final(access).finished()
                &&& final(flattened).slot_views() == done.flattened
            },
        },
{
    let ghost outer = access.flatten_spec().schema();
    let ghost inner = schema_of(flattened.decls());
    let ghost entries = access.entries();
    let ghost closed = access.closed();
    let ghost goal = stream_to_end(
        outer,
        inner,
        BothSlots { outer: access.flatten_spec().slots(), flattened: flattened.slot_views() },
        access.rest(),
        closed,
    );
    let ghost goal_slots = streamed(
        outer,
        inner,
        BothSlots { outer: access.flatten_spec().slots(), flattened: flattened.slot_views() },
        access.rest(),
    );
    let ghost was_finished = access.finished();
    proof {
        access.law_read_once();
        lemma_streamed(
            outer,
            inner,
            BothSlots { outer: access.flatten_spec().slots(), flattened: flattened.slot_views() },
            access.rest(),
        );
    }
    loop
        invariant
            access.wf(),
            !access.awaiting_value(),
            old(access).index() <= access.index(),
            access.finished() == was_finished,
            streamed(
                outer,
                inner,
                BothSlots {
                    outer: access.flatten_spec().slots(),
                    flattened: flattened.slot_views(),
                },
                access.rest(),
            ) == goal_slots,
            flattened.valid(),
            flattened.decls() == old(flattened).decls(),
            access.entries() == entries,
            access.closed() == closed,
            access.flatten_spec().schema() == outer,
            stream_to_end(
                outer,
                inner,
                BothSlots {
                    outer: access.flatten_spec().slots(),
                    flattened: flattened.slot_views(),
                },
                access.rest(),
                closed,
            ) == goal,
        decreases entries.len() - access.index(),
    {
        let ghost index = access.index();
        let ghost rest = access.rest();
        let ghost n = outer.diverted(rest);
        let ghost before = BothSlots {
            outer: access.flatten_spec().slots(),
            flattened: flattened.slot_views(),
        };
        proof {
            access.law_read_once();
            lemma_diverted(outer, rest);
            lemma_stream_diverted(outer, inner, before, rest);
            lemma_streamed_diverted(outer, inner, before, rest);
            lemma_pulled(outer, before.outer, rest.take(n as int));
            assert(rest.skip(n as int) == entries.skip((index + n) as int));
            if n < rest.len() {
                assert(rest.skip(n as int)[0] == rest[n as int]);
                assert(rest.skip(n as int).skip(1) == entries.skip((index + n + 1) as int));
            }
        }
        let key = match access.next_key() {
            Err(e) => {
                return Err(e);
            },
            Ok(None) => {
                return Ok(());
            },
            Ok(Some(key)) => key,
        };
        match flattened.owner(key) {
            Classification::OwnedByOuter(id) => {
                match flattened.check_vacant(id) {
                    Ok(()) => {},
                    Err(e) => {
                        return Err(e);
                    },
                }
                let value = match access.next_value() {
                    Ok(value) => value,
                    Err(e) => {
                        return Err(e);
                    },
                };
                match flattened.store(id, value) {
                    Ok(()) => {},
                    Err(e) => {
                        return Err(e);
                    },
                }
            },
            Classification::NotOwnedByOuter => {
                match access.discard_value() {
                    Ok(()) => {},
                    Err(e) => {
                        return Err(e);
                    },
                }
            },
        }
    }
}

/// The values of an outer schema's own fields and of the absorbing field's
/// fields, each in declaration order, as the tokens that the document holds.
#[derive(Debug, PartialEq, Eq)]
pub struct Built<'de> {
    pub outer: Vec<&'de [Token]>,
    pub flattened: Vec<&'de [Token]>,
}

impl<'de> View for Built<'de> {
    type V = BuiltView;

    open spec fn view(&self) -> BuiltView {
        BuiltView { outer: runs_view(self.outer@), flattened: runs_view(self.flattened@) }
    }
}

/// Builds an outer value from a document in one pass.
///
/// `outer` declares the outer schema's own fields and `flattened` those of
/// the field that absorbs every other key. Either everything is there and
/// the whole value is returned, or the first failure is.
pub fn build<'de>(document: Document<'de>, outer: Vec<FieldDecl>, flattened: Vec<FieldDecl>) -> (r:
    Result<Built<'de>, FlattenError>)
    ensures
        match build_spec(document@, outer@, flattened@) {
            Ok(value) => r matches Ok(built) && built@ == value,
            Err(e) => r matches Err(got) && got == e,
        },
{
    let accumulator = DeclaredFields::new(outer);
    let mut inner = DeclaredFields::new(flattened);
    let mut access = match FlattenDeserializer::new(document, accumulator).deserialize_map() {
        Ok(access) => access,
        Err(e) => {
            return Err(e);
        },
    };
    assert(access.rest() == access.entries()) by {
        assert(access.entries().skip(0) =~= access.entries());
    }
    match consume(&mut access, &mut inner) {
        Ok(()) => {},
        Err(e) => {
            return Err(e);
        },
    }
    let nested = match inner.assemble() {
        Ok(values) => values,
        Err(e) => {
            return Err(e);
        },
    };
    proof {
        access.law_read_once();
        assert(access.rest() =~= Seq::<Entry>::empty());
    }
    match access.finish() {
        Ok(()) => {},
        Err(e) => {
            return Err(e);
        },
    }
    proof {
        access.law_read_once();
    }
    let own = match access.into_flatten_spec().assemble() {
        Ok(values) => values,
        Err(e) => {
            return Err(e);
        },
    };
    Ok(Built { outer: own, flattened: nested })
}

} // verus!
