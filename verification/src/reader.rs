//! A forward-only, single-pass reader over the tokens of one map.
//!
//! A map is the token `MapStart`, then keys and values in turn, then `End`.
//! A key is a single token. A value is one scalar token, or an opening
//! bracket with everything up to the `End` that closes it. The reader yields each key and each value once
//! and cannot go back.
use crate::error::{FlattenError, ReaderFault};
use crate::token::Token;
use vstd::prelude::*;

verus! {

/// One key of a map together with the tokens of its value.
pub struct Entry {
    pub key: Token,
    /// The tokens of the value; `None` where the value is missing or a
    /// bracket in it is never closed.
    pub value: Option<Seq<Token>>,
}

/// One read from a document: of the key of the entry with the given index,
/// or of its value.
pub enum ReadOp {
    Key(nat),
    Value(nat),
}

/// The reads that a reader has made once it has read `index` entries in
/// full and, if `awaiting`, the key of the next: key and value of each entry
/// in turn, each exactly once.
pub open spec fn trace(index: nat, awaiting: bool) -> Seq<ReadOp> {
    Seq::new(
        2 * index + if awaiting {
            1nat
        } else {
            0nat
        },
        |i: int|
            if i % 2 == 0 {
                ReadOp::Key((i / 2) as nat)
            } else {
                ReadOp::Value((i / 2) as nat)
            },
    )
}

/// The position just past the `End` that closes `depth` open brackets, when
/// scanning from `i`.
pub open spec fn close_at(s: Seq<Token>, i: int, depth: nat) -> Option<int>
    decreases s.len() - i,
{
    if i < 0 || i >= s.len() {
        None
    } else if s[i] is End {
        if depth <= 1 {
            Some(i + 1)
        } else {
            close_at(s, i + 1, (depth - 1) as nat)
        }
    } else if s[i].opens() {
        close_at(s, i + 1, depth + 1)
    } else {
        close_at(s, i + 1, depth)
    }
}

/// The position just past the value that starts at `i`: one scalar token, or
/// a bracket and its contents. `None` where no complete value starts at `i`.
pub open spec fn value_end(s: Seq<Token>, i: int) -> Option<int> {
    if i < 0 || i >= s.len() || s[i] is End {
        None
    } else if s[i].opens() {
        close_at(s, i + 1, 1)
    } else {
        Some(i + 1)
    }
}

/// The entries that a reader yields from the key position `i` on. They end
/// at the closing marker of the map, at the end of the tokens, or with the
/// first entry whose value is malformed.
pub open spec fn entries_from(s: Seq<Token>, i: int) -> Seq<Entry>
    decreases s.len() - i,
{
    if i < 0 || i >= s.len() || s[i] is End {
        Seq::empty()
    } else {
        match value_end(s, i + 1) {
            Some(j) => if i < j <= s.len() {
                seq![Entry { key: s[i], value: Some(s.subrange(i + 1, j)) }] + entries_from(s, j)
            } else {
                Seq::empty()
            },
            None => seq![Entry { key: s[i], value: None }],
        }
    }
}

/// Whether the entries from the key position `i` on are followed by the
/// closing marker of the map.
pub open spec fn closed_from(s: Seq<Token>, i: int) -> bool
    decreases s.len() - i,
{
    if i < 0 || i >= s.len() {
        false
    } else if s[i] is End {
        true
    } else {
        match value_end(s, i + 1) {
            Some(j) => i < j <= s.len() && closed_from(s, j),
            None => false,
        }
    }
}

/// Whether the tokens start a map.
pub open spec fn is_map(s: Seq<Token>) -> bool {
    s.len() > 0 && s[0] is MapStart
}

/// The entries of the map that the tokens hold.
pub open spec fn map_entries(s: Seq<Token>) -> Seq<Entry> {
    entries_from(s, 1)
}

/// Whether the map that the tokens hold is closed after its entries.
pub open spec fn map_closed(s: Seq<Token>) -> bool {
    closed_from(s, 1)
}

/// A closing marker is found past where the scan starts and within the
/// tokens.
pub proof fn lemma_close_at_bounds(s: Seq<Token>, i: int, depth: nat)
    ensures
        close_at(s, i, depth) matches Some(j) ==> i < j <= s.len(),
    decreases s.len() - i,
{
    if i < 0 || i >= s.len() {
    } else if s[i] is End {
        if depth > 1 {
            lemma_close_at_bounds(s, i + 1, (depth - 1) as nat);
        }
    } else if s[i].opens() {
        lemma_close_at_bounds(s, i + 1, depth + 1);
    } else {
        lemma_close_at_bounds(s, i + 1, depth);
    }
}

/// A value is never empty and never runs past the tokens.
pub proof fn lemma_value_end_bounds(s: Seq<Token>, i: int)
    ensures
        value_end(s, i) matches Some(j) ==> i < j <= s.len(),
{
    if 0 <= i < s.len() && s[i].opens() {
        lemma_close_at_bounds(s, i + 1, 1);
    }
}

/// Finds the end of the value that starts at `start`.
fn scan_value(tokens: &[Token], start: usize) -> (r: Option<usize>)
    requires
        start <= tokens@.len(),
    ensures
        value_end(tokens@, start as int) == match r {
            Some(end) => Some(end as int),
            None => None,
        },
        r matches Some(end) ==> start < end <= tokens@.len(),
{
    proof {
        lemma_value_end_bounds(tokens@, start as int);
    }
    if start >= tokens.len() {
        return None;
    }
    match &tokens[start] {
        Token::End => None,
        Token::SeqStart | Token::MapStart => {
            let mut i: usize = start + 1;
            let mut depth: usize = 1;
            while i < tokens.len()
                invariant
                    start < i <= tokens@.len(),
                    tokens@[start as int].opens(),
                    1 <= depth <= i - start,
                    close_at(tokens@, i as int, depth as nat) == close_at(
                        tokens@,
                        start + 1,
                        1,
                    ),
                decreases tokens@.len() - i,
            {
                match &tokens[i] {
                    Token::End => {
                        if depth == 1 {
                            assert(close_at(tokens@, i as int, 1) == Some(i + 1));
                            return Some(i + 1);
                        }
                        depth = depth - 1;
                    },
                    Token::SeqStart | Token::MapStart => {
                        depth = depth + 1;
                    },
                    _ => {},
                }
                i = i + 1;
            }
            None
        },
        _ => Some(start + 1),
    }
}

/// The tokens of a whole document, before anything is read from it.
pub struct Document<'de> {
    tokens: &'de [Token],
}

impl<'de> View for Document<'de> {
    type V = Seq<Token>;

    closed spec fn view(&self) -> Seq<Token> {
        self.tokens@
    }
}

impl<'de> Document<'de> {
    /// A document over the given tokens, which it borrows.
    pub fn new(tokens: &'de [Token]) -> (doc: Self)
        ensures
            doc@ == tokens@,
    {
        Document { tokens }
    }

    /// Opens the document as a map.
    ///
    /// Fails with `Truncated` on a document without tokens and with
    /// `UnsupportedShape` on one that does not start a map. No key is read.
    pub fn open_map(self) -> (r: Result<MapReader<'de>, FlattenError>)
        ensures
            match r {
                Ok(reader) => {
                    &&& is_map(self@)
                    &&& reader.wf()
                    &&& reader.entries() == map_entries(self@)
                    &&& reader.closed() == map_closed(self@)
                    &&& reader.index() == 0
                    &&& !reader.awaiting_value()
                },
                Err(e) => {
                    &&& !is_map(self@)
                    &&& e == if self@.len() == 0 {
                        FlattenError::Reader(ReaderFault::Truncated)
                    } else {
                        FlattenError::UnsupportedShape
                    }
                },
            },
    {
        if self.tokens.len() == 0 {
            return Err(FlattenError::Reader(ReaderFault::Truncated));
        }
        match &self.tokens[0] {
            Token::MapStart => {
                let reader = MapReader {
                    tokens: self.tokens,
                    pos: 1,
                    pending: false,
                    index: Ghost(0),
                    log: Ghost(Seq::empty()),
                };
                assert(trace(0, false) =~= Seq::<ReadOp>::empty());
                assert(reader.entries().skip(0) == reader.entries());
                Ok(reader)
            },
            _ => Err(FlattenError::UnsupportedShape),
        }
    }
}

/// A cursor over the entries of one map.
///
/// After a key has been taken, its value must be taken or discarded before
/// the next key can be asked for: `next_key` requires that no value is
/// awaited, and the two value operations require that one is.
pub struct MapReader<'de> {
    tokens: &'de [Token],
    pos: usize,
    pending: bool,
    index: Ghost<nat>,
    log: Ghost<Seq<ReadOp>>,
}

impl<'de> MapReader<'de> {
    spec fn key_pos(&self) -> int {
        if self.pending {
            self.pos - 1
        } else {
            self.pos as int
        }
    }

    /// The cursor stands inside the tokens, at a key or at a value, and the
    /// reads made so far are those of the entries behind it.
    pub closed spec fn wf(&self) -> bool {
        &&& 1 <= self.key_pos() <= self.tokens@.len()
        &&& self.index@ <= self.entries().len()
        &&& entries_from(self.tokens@, self.key_pos()) == self.entries().skip(self.index@ as int)
        &&& closed_from(self.tokens@, self.key_pos()) == self.closed()
        &&& self.pending ==> self.key_pos() < self.tokens@.len() && !(self.tokens@[self.key_pos()] is End)
        &&& self.log@ == trace(self.index@, self.pending)
    }

    /// All entries of the map, read or not.
    pub closed spec fn entries(&self) -> Seq<Entry> {
        entries_from(self.tokens@, 1)
    }

    /// Whether the map is closed after its entries.
    pub closed spec fn closed(&self) -> bool {
        closed_from(self.tokens@, 1)
    }

    /// How many entries have been read, key and value.
    pub closed spec fn index(&self) -> nat {
        self.index@
    }

    /// Every read made from the document so far, in order.
    pub closed spec fn reads(&self) -> Seq<ReadOp> {
        self.log@
    }

    /// Whether a key has been taken whose value has not.
    pub closed spec fn awaiting_value(&self) -> bool {
        self.pending
    }

    /// How many keys have been taken: one more than the entries read while a
    /// value is awaited.
    pub open spec fn taken(&self) -> nat {
        if self.awaiting_value() {
            self.index() + 1
        } else {
            self.index()
        }
    }

    /// The entries not yet read. While a value is awaited, the first of them
    /// is the entry whose key was taken.
    pub open spec fn rest(&self) -> Seq<Entry> {
        self.entries().skip(self.index() as int)
    }

    /// Whether every entry has been read, key and value.
    pub open spec fn exhausted(&self) -> bool {
        self.index() == self.entries().len()
    }

    /// The cursor never passes the last entry, and the reads made so far are
    /// the key and the value of each entry behind it, each exactly once.
    pub proof fn lemma_index_in_range(&self)
        requires
            self.wf(),
        ensures
            self.index() <= self.entries().len(),
            self.awaiting_value() ==> self.index() < self.entries().len(),
            self.reads() == trace(self.index(), self.awaiting_value()),
    {
        if self.pending {
            lemma_value_end_bounds(self.tokens@, self.key_pos() + 1);
            assert(entries_from(self.tokens@, self.key_pos()).len() > 0);
        }
    }

    /// Takes the next key.
    ///
    /// Yields the key of the first unread entry; `None` once every entry has
    /// been read and the map is closed; `Truncated` where the tokens end
    /// instead.
    pub fn next_key(&mut self) -> (r: Result<Option<&'de Token>, FlattenError>)
        requires
            old(self).wf(),
            !old(self).awaiting_value(),
        ensures
            final(self).wf(),
            final(self).entries() == old(self).entries(),
            final(self).closed() == old(self).closed(),
            final(self).index() == old(self).index(),
            r == if !old(self).exhausted() {
                Ok(Some(&old(self).rest()[0].key))
            } else if old(self).closed() {
                Ok(None)
            } else {
                Err(FlattenError::Reader(ReaderFault::Truncated))
            },
            final(self).awaiting_value() == !old(self).exhausted(),
    {
        proof {
            lemma_value_end_bounds(self.tokens@, self.pos + 1);
        }
        if self.pos >= self.tokens.len() {
            return Err(FlattenError::Reader(ReaderFault::Truncated));
        }
        let key = &self.tokens[self.pos];
        match key {
            Token::End => Ok(None),
            _ => {
                assert(entries_from(self.tokens@, self.pos as int).len() > 0);
                assert(entries_from(self.tokens@, self.pos as int)[0].key == *key);
                proof {
                    self.log@ = self.log@.push(ReadOp::Key(self.index@));
                    assert(self.log@ =~= trace(self.index@, true));
                }
                self.pos = self.pos + 1;
                self.pending = true;
                Ok(Some(key))
            },
        }
    }

    /// Moves past the awaited value and returns where it ends.
    fn advance(&mut self) -> (r: Option<(usize, usize)>)
        requires
            old(self).wf(),
            old(self).awaiting_value(),
        ensures
            final(self).wf(),
            final(self).entries() == old(self).entries(),
            final(self).closed() == old(self).closed(),
            final(self).tokens == old(self).tokens,
            !old(self).exhausted(),
            match old(self).rest()[0].value {
                Some(v) => {
                    &&& r matches Some((from, to))
                    &&& from <= to <= final(self).tokens@.len()
                    &&& final(self).tokens@.subrange(from as int, to as int) == v
                    &&& final(self).index() == old(self).index() + 1
                    &&& !final(self).awaiting_value()
                },
                None => {
                    &&& r is None
                    &&& final(self).index() == old(self).index()
                    &&& final(self).awaiting_value()
                },
            },
    {
        proof {
            self.lemma_index_in_range();
            lemma_value_end_bounds(self.tokens@, self.pos as int);
        }
        let from = self.pos;
        match scan_value(self.tokens, from) {
            Some(to) => {
                proof {
                    let all = self.entries();
                    let k = self.index@ as int;
                    assert(entries_from(self.tokens@, from - 1) == all.skip(k));
                    assert(all.skip(k).skip(1) == all.skip(k + 1));
                    let s = self.tokens@;
                    assert(value_end(s, from as int) == Some(to as int));
                    assert(0 <= from - 1 < s.len());
                    assert(!(s[from - 1] is End));
                    let first = Entry {
                        key: self.tokens@[from - 1],
                        value: Some(self.tokens@.subrange(from as int, to as int)),
                    };
                    assert(entries_from(self.tokens@, from - 1) == seq![first] + entries_from(
                        self.tokens@,
                        to as int,
                    ));
                    assert((seq![first] + entries_from(self.tokens@, to as int)).skip(1)
                        =~= entries_from(self.tokens@, to as int));
                    self.log@ = self.log@.push(ReadOp::Value(self.index@));
                    assert(self.log@ =~= trace(self.index@ + 1, false));
                    self.index@ = self.index@ + 1;
                }
                self.pos = to;
                self.pending = false;
                Some((from, to))
            },
            None => None,
        }
    }

    /// Takes the awaited value: the tokens of the value that belongs to the
    /// key taken last. Fails with `MalformedValue` where the value is missing
    /// or never closed, and then the cursor stays where it was.
    pub fn next_value(&mut self) -> (r: Result<&'de [Token], FlattenError>)
        requires
            old(self).wf(),
            old(self).awaiting_value(),
        ensures
            final(self).wf(),
            final(self).entries() == old(self).entries(),
            final(self).closed() == old(self).closed(),
            !old(self).exhausted(),
            match old(self).rest()[0].value {
                Some(v) => {
                    &&& r matches Ok(run)
                    &&& run@ == v
                    &&& final(self).index() == old(self).index() + 1
                    &&& !final(self).awaiting_value()
                },
                None => {
                    &&& r == Err::<&[Token], FlattenError>(
                        FlattenError::Reader(ReaderFault::MalformedValue),
                    )
                    &&& final(self).index() == old(self).index()
                    &&& final(self).awaiting_value()
                },
            },
    {
        match self.advance() {
            Some((from, to)) => Ok(vstd::slice::slice_subrange(self.tokens, from, to)),
            None => Err(FlattenError::Reader(ReaderFault::MalformedValue)),
        }
    }

    /// Discards the awaited value. Fails as `next_value` does.
    pub fn discard_value(&mut self) -> (r: Result<(), FlattenError>)
        requires
            old(self).wf(),
            old(self).awaiting_value(),
        ensures
            final(self).wf(),
            final(self).entries() == old(self).entries(),
            final(self).closed() == old(self).closed(),
            !old(self).exhausted(),
            match old(self).rest()[0].value {
                Some(v) => {
                    &&& r == Ok::<(), FlattenError>(())
                    &&& final(self).index() == old(self).index() + 1
                    &&& !final(self).awaiting_value()
                },
                None => {
                    &&& r == Err::<(), FlattenError>(
                        FlattenError::Reader(ReaderFault::MalformedValue),
                    )
                    &&& final(self).index() == old(self).index()
                    &&& final(self).awaiting_value()
                },
            },
    {
        match self.advance() {
            Some(_) => Ok(()),
            None => Err(FlattenError::Reader(ReaderFault::MalformedValue)),
        }
    }
}

} // verus!
