//! What holds of every document: the one-pass build against the build that
//! buffers first, duplicates, missing fields, and stopping early.
use crate::assembler::{build_spec, stream, stream_to_end, BothSlots, BuiltView};
use crate::classify::{lemma_diverted, Classification, Schema, Slots};
use crate::error::{FlattenError, ReaderFault};
use crate::fields::{
    assemble_spec, first_empty, lemma_first_empty, lemma_first_named, lemma_schema_of_valid,
    schema_of, FieldDecl,
};
use crate::reader::{is_map, map_closed, map_entries, Entry};
use crate::router::next_key_spec;
use crate::token::Token;
use vstd::prelude::*;

verus! {

/// The entries whose keys the schema owns, in document order.
pub open spec fn owned_part(schema: Schema, entries: Seq<Entry>) -> Seq<Entry>
    decreases entries.len(),
{
    if entries.len() == 0 {
        Seq::empty()
    } else if (schema.owner)(entries[0].key) is OwnedByOuter {
        seq![entries[0]] + owned_part(schema, entries.skip(1))
    } else {
        owned_part(schema, entries.skip(1))
    }
}

/// The entries whose keys the schema does not own, in document order: what a
/// build that buffers first would set aside for the absorbing field.
pub open spec fn other_part(schema: Schema, entries: Seq<Entry>) -> Seq<Entry>
    decreases entries.len(),
{
    if entries.len() == 0 {
        Seq::empty()
    } else if (schema.owner)(entries[0].key) is OwnedByOuter {
        other_part(schema, entries.skip(1))
    } else {
        seq![entries[0]] + other_part(schema, entries.skip(1))
    }
}

/// The build that buffers first: the entries are parted by owner, the outer
/// schema's own are read into the outer slots, and then the others are read,
/// as a map of their own, into the slots of the absorbing field's schema.
pub open spec fn buffered(outer: Schema, flattened: Schema, slots: BothSlots, entries: Seq<Entry>) -> Result<
    BothSlots,
    FlattenError,
> {
    match outer.pull_all(slots.outer, owned_part(outer, entries)) {
        Err(e) => Err(e),
        Ok(own) => match flattened.pull_all(slots.flattened, other_part(outer, entries)) {
            Err(e) => Err(e),
            Ok(inner) => Ok(BothSlots { outer: own, flattened: inner }),
        },
    }
}

/// What the build that buffers first returns on a document. The whole
/// document is read before anything is built, so whatever is wrong with the
/// document itself comes first. Then the outer schema's fields are assembled,
/// then those of the absorbing field.
pub open spec fn buffered_build(
    document: Seq<Token>,
    outer: Seq<FieldDecl>,
    flattened: Seq<FieldDecl>,
) -> Result<BuiltView, FlattenError> {
    if document.len() == 0 {
        Err(FlattenError::Reader(ReaderFault::Truncated))
    } else if !is_map(document) {
        Err(FlattenError::UnsupportedShape)
    } else if exists|i: int|
        0 <= i < map_entries(document).len() && map_entries(document)[i].value is None {
        Err(FlattenError::Reader(ReaderFault::MalformedValue))
    } else if !map_closed(document) {
        Err(FlattenError::Reader(ReaderFault::Truncated))
    } else {
        let start = BothSlots {
            outer: schema_of(outer).empty_slots(),
            flattened: schema_of(flattened).empty_slots(),
        };
        match buffered(schema_of(outer), schema_of(flattened), start, map_entries(document)) {
            Err(e) => Err(e),
            Ok(done) => match assemble_spec(schema_of(outer).names, done.outer) {
                Err(e) => Err(e),
                Ok(own) => match assemble_spec(schema_of(flattened).names, done.flattened) {
                    Err(e) => Err(e),
                    Ok(inner) => Ok(BuiltView { outer: own, flattened: inner }),
                },
            },
        }
    }
}

/// No key of the entries lacks a path to where it has to go.
pub open spec fn no_key_rejected(schema: Schema, entries: Seq<Entry>) -> bool {
    forall|i: int| 0 <= i < entries.len() ==> !(schema.route(#[trigger] entries[i].key) is Reject)
}

/// The schema owns the key of some entry for its field `id`.
pub open spec fn present(schema: Schema, entries: Seq<Entry>, id: usize) -> bool {
    exists|i: int|
        0 <= i < entries.len() && #[trigger] (schema.owner)(entries[i].key)
            == Classification::OwnedByOuter(id)
}

/// Pulling two runs of entries one after the other is pulling them as one.
pub proof fn lemma_pull_all_concat(schema: Schema, slots: Slots, a: Seq<Entry>, b: Seq<Entry>)
    ensures
        schema.pull_all(slots, a + b) == match schema.pull_all(slots, a) {
            Err(e) => Err(e),
            Ok(mid) => schema.pull_all(mid, b),
        },
    decreases a.len(),
{
    if a.len() == 0 {
        assert(a + b =~= b);
    } else {
        assert((a + b)[0] == a[0]);
        assert((a + b).skip(1) =~= a.skip(1) + b);
        match schema.pull(slots, (schema.owner)(a[0].key), a[0].value) {
            Err(_) => {},
            Ok(next) => {
                lemma_pull_all_concat(schema, next, a.skip(1), b);
            },
        }
    }
}

/// One pass over two runs of entries one after the other is one pass over
/// them as one.
pub proof fn lemma_stream_concat(
    outer: Schema,
    flattened: Schema,
    slots: BothSlots,
    a: Seq<Entry>,
    b: Seq<Entry>,
)
    ensures
        stream(outer, flattened, slots, a + b) == match stream(outer, flattened, slots, a) {
            Err(e) => Err(e),
            Ok(mid) => stream(outer, flattened, mid, b),
        },
    decreases a.len(),
{
    if a.len() == 0 {
        assert(a + b =~= b);
    } else {
        assert((a + b)[0] == a[0]);
        assert((a + b).skip(1) =~= a.skip(1) + b);
        let first = a[0];
        if outer.route(first.key) is Fill {
            match outer.pull(slots.outer, (outer.owner)(first.key), first.value) {
                Err(_) => {},
                Ok(next) => {
                    lemma_stream_concat(
                        outer,
                        flattened,
                        BothSlots { outer: next, flattened: slots.flattened },
                        a.skip(1),
                        b,
                    );
                },
            }
        } else if outer.route(first.key) is Yield {
            match flattened.pull(slots.flattened, (flattened.owner)(first.key), first.value) {
                Err(_) => {},
                Ok(next) => {
                    lemma_stream_concat(
                        outer,
                        flattened,
                        BothSlots { outer: slots.outer, flattened: next },
                        a.skip(1),
                        b,
                    );
                },
            }
        }
    }
}

/// Parting by owner goes through concatenation.
pub proof fn lemma_owned_part_concat(schema: Schema, a: Seq<Entry>, b: Seq<Entry>)
    ensures
        owned_part(schema, a + b) == owned_part(schema, a) + owned_part(schema, b),
    decreases a.len(),
{
    if a.len() == 0 {
        assert(a + b =~= b);
        assert(owned_part(schema, a) + owned_part(schema, b) =~= owned_part(schema, b));
    } else {
        assert((a + b)[0] == a[0]);
        assert((a + b).skip(1) =~= a.skip(1) + b);
        lemma_owned_part_concat(schema, a.skip(1), b);
        let rest = owned_part(schema, a.skip(1));
        assert((seq![a[0]] + rest) + owned_part(schema, b) =~= seq![a[0]] + (rest + owned_part(
            schema,
            b,
        )));
    }
}

/// The one-pass build does what the build that buffers first does.
///
/// Whenever the single pass over a document succeeds, the build that first
/// buffers the document and then reads the outer schema's entries and the
/// others apart succeeds with the same slots. And whenever that build
/// succeeds on a document none of whose keys is rejected, so does the single
/// pass, with the same slots.
pub proof fn law_stream_is_buffered(
    outer: Schema,
    flattened: Schema,
    slots: BothSlots,
    entries: Seq<Entry>,
)
    ensures
        stream(outer, flattened, slots, entries) is Ok ==> buffered(
            outer,
            flattened,
            slots,
            entries,
        ) == stream(outer, flattened, slots, entries),
        buffered(outer, flattened, slots, entries) is Ok && no_key_rejected(outer, entries)
            ==> stream(outer, flattened, slots, entries) == buffered(
            outer,
            flattened,
            slots,
            entries,
        ),
    decreases entries.len(),
{
    if entries.len() > 0 {
        let first = entries[0];
        let tail = entries.skip(1);
        let own = owned_part(outer, tail);
        let others = other_part(outer, tail);
        assert((seq![first] + own)[0] == first);
        assert((seq![first] + own).skip(1) =~= own);
        assert((seq![first] + others)[0] == first);
        assert((seq![first] + others).skip(1) =~= others);
        if no_key_rejected(outer, entries) {
            assert forall|i: int| 0 <= i < tail.len() implies !(outer.route(
                #[trigger] tail[i].key,
            ) is Reject) by {
                assert(tail[i] == entries[i + 1]);
            }
            assert(!(outer.route(entries[0].key) is Reject));
        }
        if (outer.owner)(first.key) is OwnedByOuter {
            match outer.pull(slots.outer, (outer.owner)(first.key), first.value) {
                Err(_) => {},
                Ok(next) => {
                    law_stream_is_buffered(
                        outer,
                        flattened,
                        BothSlots { outer: next, flattened: slots.flattened },
                        tail,
                    );
                },
            }
        } else {
            match flattened.pull(slots.flattened, (flattened.owner)(first.key), first.value) {
                Err(_) => {},
                Ok(next) => {
                    law_stream_is_buffered(
                        outer,
                        flattened,
                        BothSlots { outer: slots.outer, flattened: next },
                        tail,
                    );
                },
            }
        }
    }
}

/// What the absorbing field gets does not depend on the outer slots: two
/// successful passes over the same entries that start from the same slots
/// for the absorbing field end with the same, whatever the outer slots held.
pub proof fn law_flattened_value_is_independent(
    outer: Schema,
    flattened: Schema,
    first: BothSlots,
    second: BothSlots,
    entries: Seq<Entry>,
)
    requires
        first.flattened == second.flattened,
        stream(outer, flattened, first, entries) is Ok,
        stream(outer, flattened, second, entries) is Ok,
    ensures
        stream(outer, flattened, first, entries)->Ok_0.flattened == stream(
            outer,
            flattened,
            second,
            entries,
        )->Ok_0.flattened,
{
    law_stream_is_buffered(outer, flattened, first, entries);
    law_stream_is_buffered(outer, flattened, second, entries);
}

/// Exactness: on every document on which the build that buffers first
/// succeeds, and none of whose keys is rejected for its representation, the
/// one-pass build succeeds with the same value.
pub proof fn law_build_is_exact(
    document: Seq<Token>,
    outer: Seq<FieldDecl>,
    flattened: Seq<FieldDecl>,
)
    requires
        buffered_build(document, outer, flattened) is Ok,
        no_key_rejected(schema_of(outer), map_entries(document)),
    ensures
        build_spec(document, outer, flattened) == buffered_build(document, outer, flattened),
{
    let start = BothSlots {
        outer: schema_of(outer).empty_slots(),
        flattened: schema_of(flattened).empty_slots(),
    };
    law_stream_is_buffered(schema_of(outer), schema_of(flattened), start, map_entries(document));
}

/// A field is present among some entries where the key of the first entry
/// is its own, or where it is present among the others.
pub proof fn lemma_present_unfolds(schema: Schema, entries: Seq<Entry>, id: usize)
    requires
        entries.len() > 0,
    ensures
        present(schema, entries, id) <==> ((schema.owner)(entries[0].key)
            == Classification::OwnedByOuter(id) || present(schema, entries.skip(1), id)),
{
    let tail = entries.skip(1);
    if present(schema, tail, id) {
        let i = choose|i: int|
            0 <= i < tail.len() && #[trigger] (schema.owner)(tail[i].key)
                == Classification::OwnedByOuter(id);
        assert(tail[i] == entries[i + 1]);
        assert((schema.owner)(entries[i + 1].key) == Classification::OwnedByOuter(id));
    }
    if present(schema, entries, id) {
        let i = choose|i: int|
            0 <= i < entries.len() && #[trigger] (schema.owner)(entries[i].key)
                == Classification::OwnedByOuter(id);
        if i > 0 {
            assert(tail[i - 1] == entries[i]);
            assert((schema.owner)(tail[i - 1].key) == Classification::OwnedByOuter(id));
        }
    }
    if (schema.owner)(entries[0].key) == Classification::OwnedByOuter(id) {
        assert(present(schema, entries, id));
    }
}

/// Entries part into those before a later occurrence of a field's key and
/// those from it on; the field is present among the former.
pub proof fn lemma_split_at_second(schema: Schema, entries: Seq<Entry>, i: int, j: int, id: usize)
    requires
        0 <= i < j < entries.len(),
        (schema.owner)(entries[i].key) == Classification::OwnedByOuter(id),
    ensures
        entries == entries.take(j) + entries.skip(j),
        entries.skip(j).len() > 0,
        entries.skip(j)[0] == entries[j],
        present(schema, entries.take(j), id),
{
    let before = entries.take(j);
    assert(entries =~= before + entries.skip(j));
    assert(before[i] == entries[i]);
    assert((schema.owner)(before[i].key) == Classification::OwnedByOuter(id));
}

/// A successful pass leaves as many outer slots as it found, leaves every
/// filled slot as it was, fills the slot of every outer field whose key it
/// met, and fills no other.
pub proof fn lemma_stream_fills(
    outer: Schema,
    flattened: Schema,
    slots: BothSlots,
    entries: Seq<Entry>,
)
    requires
        outer.fits(slots.outer),
        stream(outer, flattened, slots, entries) is Ok,
    ensures
        ({
            let done = stream(outer, flattened, slots, entries)->Ok_0;
            &&& done.outer.len() == slots.outer.len()
            &&& forall|id: usize|
                id < slots.outer.len() ==> (#[trigger] done.outer[id as int] is Some <==> (
                slots.outer[id as int] is Some || present(outer, entries, id)))
            &&& forall|id: usize|
                id < slots.outer.len() && slots.outer[id as int] is Some
                    ==> #[trigger] done.outer[id as int] == slots.outer[id as int]
        }),
    decreases entries.len(),
{
    let done = stream(outer, flattened, slots, entries)->Ok_0;
    if entries.len() == 0 {
    } else {
        let first = entries[0];
        let tail = entries.skip(1);
        let c = (outer.owner)(first.key);
        let next = if outer.route(first.key) is Fill {
            BothSlots {
                outer: outer.pull(slots.outer, c, first.value)->Ok_0,
                flattened: slots.flattened,
            }
        } else {
            BothSlots {
                outer: slots.outer,
                flattened: flattened.pull(
                    slots.flattened,
                    (flattened.owner)(first.key),
                    first.value,
                )->Ok_0,
            }
        };
        assert(outer.valid());
        assert(c matches Classification::OwnedByOuter(k) ==> k < outer.names.len());
        lemma_stream_fills(outer, flattened, next, tail);
        assert forall|id: usize| id < slots.outer.len() implies (#[trigger] done.outer[id as int] is Some
            <==> (slots.outer[id as int] is Some || present(outer, entries, id))) by {
            lemma_present_unfolds(outer, entries, id);
        }
    }
}

/// Duplicate detection: where the key of an outer field comes a second time,
/// and nothing has failed before, the pass fails there with a duplicate that
/// names the field, wherever the first occurrence stood and whatever lies
/// between the two.
pub proof fn law_duplicate_is_named(
    outer: Schema,
    flattened: Schema,
    slots: BothSlots,
    entries: Seq<Entry>,
    i: int,
    j: int,
    id: usize,
)
    requires
        outer.fits(slots.outer),
        0 <= i < j < entries.len(),
        (outer.owner)(entries[i].key) == Classification::OwnedByOuter(id),
        (outer.owner)(entries[j].key) == Classification::OwnedByOuter(id),
        !(outer.route(entries[j].key) is Reject),
        stream(outer, flattened, slots, entries.take(j)) is Ok,
    ensures
        stream(outer, flattened, slots, entries) == Err::<BothSlots, FlattenError>(
            FlattenError::DuplicateField(outer.names[id as int]),
        ),
{
    lemma_split_at_second(outer, entries, i, j, id);
    lemma_stream_concat(outer, flattened, slots, entries.take(j), entries.skip(j));
    lemma_stream_fills(outer, flattened, slots, entries.take(j));
}

/// Duplicate detection on a whole document: where the key of an outer field
/// comes a second time in a map, and the pass has not failed before, the
/// build fails with a duplicate that names the field.
pub proof fn law_build_duplicate_is_named(
    document: Seq<Token>,
    outer: Seq<FieldDecl>,
    flattened: Seq<FieldDecl>,
    i: int,
    j: int,
    id: usize,
)
    requires
        is_map(document),
        0 <= i < j < map_entries(document).len(),
        (schema_of(outer).owner)(map_entries(document)[i].key) == Classification::OwnedByOuter(id),
        (schema_of(outer).owner)(map_entries(document)[j].key) == Classification::OwnedByOuter(id),
        stream(
            schema_of(outer),
            schema_of(flattened),
            BothSlots {
                outer: schema_of(outer).empty_slots(),
                flattened: schema_of(flattened).empty_slots(),
            },
            map_entries(document).take(j),
        ) is Ok,
    ensures
        build_spec(document, outer, flattened) == Err::<BuiltView, FlattenError>(
            FlattenError::DuplicateField(outer[id as int].name),
        ),
{
    let start = BothSlots {
        outer: schema_of(outer).empty_slots(),
        flattened: schema_of(flattened).empty_slots(),
    };
    lemma_schema_of_valid(outer);
    lemma_first_named(outer, map_entries(document)[j].key, 0);
    law_duplicate_is_named(
        schema_of(outer),
        schema_of(flattened),
        start,
        map_entries(document),
        i,
        j,
        id,
    );
}

/// Pulling all of some entries without failure leaves as many slots as it
/// found, leaves every filled slot as it was, fills the slot of every field
/// whose key it met, and fills no other.
pub proof fn lemma_pull_all_fills(schema: Schema, slots: Slots, entries: Seq<Entry>)
    requires
        schema.fits(slots),
        schema.pull_all(slots, entries) is Ok,
    ensures
        ({
            let done = schema.pull_all(slots, entries)->Ok_0;
            &&& done.len() == slots.len()
            &&& forall|id: usize|
                id < slots.len() ==> (#[trigger] done[id as int] is Some <==> (slots[id as int] is Some
                    || present(schema, entries, id)))
            &&& forall|id: usize|
                id < slots.len() && slots[id as int] is Some ==> #[trigger] done[id as int]
                    == slots[id as int]
        }),
    decreases entries.len(),
{
    let done = schema.pull_all(slots, entries)->Ok_0;
    if entries.len() > 0 {
        let first = entries[0];
        let tail = entries.skip(1);
        let c = (schema.owner)(first.key);
        let next = schema.pull(slots, c, first.value)->Ok_0;
        assert(c matches Classification::OwnedByOuter(k) ==> k < schema.names.len());
        lemma_pull_all_fills(schema, next, tail);
        assert forall|id: usize| id < slots.len() implies (#[trigger] done[id as int] is Some <==> (
        slots[id as int] is Some || present(schema, entries, id))) by {
            lemma_present_unfolds(schema, entries, id);
        }
    }
}

/// A slot is filled at most once and never emptied: whatever is pulled, and
/// whether or not a pull fails, there are as many slots afterwards as
/// before and every slot that was filled holds what it held.
pub proof fn law_slot_is_never_emptied(schema: Schema, slots: Slots, entries: Seq<Entry>)
    requires
        schema.fits(slots),
    ensures
        schema.pulled(slots, entries).len() == slots.len(),
        forall|id: int|
            0 <= id < slots.len() && slots[id] is Some ==> #[trigger] schema.pulled(
                slots,
                entries,
            )[id] == slots[id],
    decreases entries.len(),
{
    if entries.len() > 0 {
        let c = (schema.owner)(entries[0].key);
        assert(c matches Classification::OwnedByOuter(k) ==> k < schema.names.len());
        match schema.pull(slots, c, entries[0].value) {
            Err(_) => {},
            Ok(next) => {
                law_slot_is_never_emptied(schema, next, entries.skip(1));
            },
        }
    }
}

/// Duplicate detection while the router diverts or drains: where the key of
/// an outer field comes a second time among the entries that the accumulator
/// pulls, and no pull has failed before, the pull of the second fails with a
/// duplicate that names the field.
pub proof fn law_duplicate_in_drain(
    schema: Schema,
    slots: Slots,
    entries: Seq<Entry>,
    i: int,
    j: int,
    id: usize,
)
    requires
        schema.fits(slots),
        0 <= i < j < entries.len(),
        (schema.owner)(entries[i].key) == Classification::OwnedByOuter(id),
        (schema.owner)(entries[j].key) == Classification::OwnedByOuter(id),
        schema.pull_all(slots, entries.take(j)) is Ok,
    ensures
        schema.pull_all(slots, entries) == Err::<Slots, FlattenError>(
            FlattenError::DuplicateField(schema.names[id as int]),
        ),
{
    lemma_split_at_second(schema, entries, i, j, id);
    lemma_pull_all_concat(schema, slots, entries.take(j), entries.skip(j));
    lemma_pull_all_fills(schema, slots, entries.take(j));
}

/// Missing required field: on a document that the pass reads without
/// failure and that gives the absorbing field all it declares, an outer
/// field whose key never comes is reported missing by name, provided every
/// outer field declared before it is there.
pub proof fn law_missing_field_is_named(
    document: Seq<Token>,
    outer: Seq<FieldDecl>,
    flattened: Seq<FieldDecl>,
    id: usize,
)
    requires
        is_map(document),
        id < outer.len(),
        !present(schema_of(outer), map_entries(document), id),
        forall|k: usize| k < id ==> present(schema_of(outer), map_entries(document), k),
        ({
            let start = BothSlots {
                outer: schema_of(outer).empty_slots(),
                flattened: schema_of(flattened).empty_slots(),
            };
            let pass = stream_to_end(
                schema_of(outer),
                schema_of(flattened),
                start,
                map_entries(document),
                map_closed(document),
            );
            pass is Ok && assemble_spec(schema_of(flattened).names, pass->Ok_0.flattened) is Ok
        }),
    ensures
        build_spec(document, outer, flattened) == Err::<BuiltView, FlattenError>(
            FlattenError::MissingField(outer[id as int].name),
        ),
{
    let schema = schema_of(outer);
    let start = BothSlots {
        outer: schema.empty_slots(),
        flattened: schema_of(flattened).empty_slots(),
    };
    let entries = map_entries(document);
    lemma_schema_of_valid(outer);
    lemma_stream_fills(schema, schema_of(flattened), start, entries);
    let done = stream(schema, schema_of(flattened), start, entries)->Ok_0;
    lemma_first_empty(done.outer, 0);
    assert(done.outer[id as int] is None);
    assert(first_empty(done.outer, 0) == id) by {
        let f = first_empty(done.outer, 0);
        if f < id {
            assert(present(schema, entries, f as usize));
            assert(done.outer[f as usize as int] is Some);
        }
    }
}

/// Entries at the front that the schema owns are no part of what is set
/// aside for the absorbing field.
pub proof fn lemma_other_part_skips_owned(schema: Schema, entries: Seq<Entry>, n: int)
    requires
        0 <= n <= entries.len(),
        forall|i: int| 0 <= i < n ==> (schema.owner)(#[trigger] entries[i].key) is OwnedByOuter,
    ensures
        other_part(schema, entries) == other_part(schema, entries.skip(n)),
    decreases n,
{
    if n == 0 {
        assert(entries.skip(0) =~= entries);
    } else {
        let tail = entries.skip(1);
        assert forall|i: int| 0 <= i < n - 1 implies (schema.owner)(
            #[trigger] tail[i].key,
        ) is OwnedByOuter by {
            assert(tail[i] == entries[i + 1]);
        }
        lemma_other_part_skips_owned(schema, tail, n - 1);
        assert(tail.skip(n - 1) =~= entries.skip(n));
    }
}

/// The consumer of the absorbing field sees a map of its own.
///
/// Whenever `next_key` succeeds, the key it hands out is the first key of the
/// unread entries that the outer schema does not own, and what is left for
/// later calls is the rest of those entries, in document order. At the end it
/// reports, no such entry is left. So the keys handed out one after the other
/// are the keys of the map that a build that buffers first would have set
/// aside for the absorbing field.
pub proof fn law_consumer_sees_its_own_map(
    schema: Schema,
    slots: Slots,
    entries: Seq<Entry>,
    index: nat,
    closed: bool,
)
    requires
        index <= entries.len(),
        next_key_spec(schema, slots, entries, index, closed) is Ok,
    ensures
        ({
            let step = next_key_spec(schema, slots, entries, index, closed)->Ok_0;
            let mine = other_part(schema, entries.skip(index as int));
            &&& index <= step.index <= entries.len()
            &&& match step.key {
                Some(key) => {
                    &&& step.index < entries.len()
                    &&& mine.len() > 0
                    &&& mine[0] == entries[step.index as int]
                    &&& mine[0].key == key
                    &&& other_part(schema, entries.skip(step.index as int + 1)) == mine.skip(1)
                },
                None => mine.len() == 0 && step.index == entries.len(),
            }
        }),
{
    let rest = entries.skip(index as int);
    let n = schema.diverted(rest);
    lemma_diverted(schema, rest);
    assert forall|i: int| 0 <= i < n implies (schema.owner)(
        #[trigger] rest[i].key,
    ) is OwnedByOuter by {
        assert(schema.route(rest[i].key) is Fill);
    }
    lemma_other_part_skips_owned(schema, rest, n as int);
    let after = rest.skip(n as int);
    if n < rest.len() {
        assert(after[0] == rest[n as int]);
        assert(rest[n as int] == entries[(index + n) as int]);
        assert(after.skip(1) =~= entries.skip((index + n) as int + 1));
        let others = other_part(schema, after.skip(1));
        assert((seq![after[0]] + others).skip(1) =~= others);
    } else {
        assert(after =~= Seq::<Entry>::empty());
    }
}

/// Pulling all entries leaves the slots as pulling only the schema's own
/// entries does: a well-formed value under a key that is not the schema's
/// changes nothing.
pub proof fn lemma_pull_all_is_owned_part(schema: Schema, slots: Slots, entries: Seq<Entry>)
    requires
        schema.pull_all(slots, entries) is Ok,
    ensures
        schema.pull_all(slots, owned_part(schema, entries)) == schema.pull_all(slots, entries),
    decreases entries.len(),
{
    if entries.len() > 0 {
        let first = entries[0];
        let tail = entries.skip(1);
        let own = owned_part(schema, tail);
        assert((seq![first] + own)[0] == first);
        assert((seq![first] + own).skip(1) =~= own);
        let next = schema.pull(slots, (schema.owner)(first.key), first.value)->Ok_0;
        lemma_pull_all_is_owned_part(schema, next, tail);
    }
}

/// Early stop and drain: wherever the consumer of the absorbing field stops,
/// draining the rest leaves the outer slots as reading the whole document
/// would have: every outer field is accepted, whether its key came before
/// the consumer stopped or after.
pub proof fn law_drain_completes(
    outer: Schema,
    flattened: Schema,
    slots: BothSlots,
    entries: Seq<Entry>,
    stop: int,
)
    requires
        0 <= stop <= entries.len(),
        stream(outer, flattened, slots, entries.take(stop)) is Ok,
        outer.pull_all(
            stream(outer, flattened, slots, entries.take(stop))->Ok_0.outer,
            entries.skip(stop),
        ) is Ok,
    ensures
        outer.pull_all(slots.outer, owned_part(outer, entries)) == outer.pull_all(
            stream(outer, flattened, slots, entries.take(stop))->Ok_0.outer,
            entries.skip(stop),
        ),
{
    let before = entries.take(stop);
    let after = entries.skip(stop);
    let mid = stream(outer, flattened, slots, before)->Ok_0;
    assert(entries =~= before + after);
    law_stream_is_buffered(outer, flattened, slots, before);
    lemma_pull_all_is_owned_part(outer, mid.outer, after);
    lemma_owned_part_concat(outer, before, after);
    lemma_pull_all_concat(outer, slots.outer, owned_part(outer, before), owned_part(outer, after));
}

} // verus!
