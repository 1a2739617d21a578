use vstd::prelude::*;
use vstd::utf8::{encode_utf8, valid_utf8};
use vstd::string::StringSliceAdditionalSpecFns;
use crate::codec::{dec_index, decode, enc_index, encodable, encode};
use crate::error::IxxError;
use crate::search::{hits_view, search_in, search_results, utf8_str};
use crate::laws::{
    has_segments, lemma_lookup_sound, lemma_push_canonical, lemma_pushed_name, lemma_scan_count,
    lemma_scan_hits, lemma_scan_limit_zero,
};
use crate::model::{
    build_labels, canonical, entries_view, entry_name, in_scope, lookup, lookup_in, pushed_entry,
    resolve, resolve_in, EntryView, OptionEntry, Reference,
};
use crate::roundtrip::lemma_read_is_written;
use crate::text::{bytes_to_vec, parts_view, split, split_bytes, DOT};

verus! {

/// Global metadata of an index: a chunk size hint that the index carries along
/// without reading it, and the scope table.
#[derive(Debug, Clone, PartialEq, Eq)]
pub struct Meta {
    /// How many documents callers put into one metadata chunk.
    pub chunk_size: u32,
    /// The scope names by scope id, as stored bytes.
    pub scopes: Vec<Vec<u8>>,
}

/// The mathematical value of [`Meta`].
pub struct MetaView {
    pub chunk_size: u32,
    pub scopes: Seq<Seq<u8>>,
}

impl View for Meta {
    type V = MetaView;

    open spec fn view(&self) -> MetaView {
        MetaView { chunk_size: self.chunk_size, scopes: parts_view(self.scopes@) }
    }
}

/// The mathematical value of an [`Index`].
pub struct IndexView {
    pub meta: MetaView,
    pub entries: Seq<EntryView>,
}

/// The largest number of scopes an index can hold: one for every scope id.
pub const MAX_SCOPES: usize = 256;

/// An append-only index of dotted names. The position of an entry is its
/// identity: references between labels and the results of queries name it.
#[derive(Debug, Clone, PartialEq, Eq)]
pub struct Index {
    meta: Meta,
    options: Vec<OptionEntry>,
}

impl View for Index {
    type V = IndexView;

    closed spec fn view(&self) -> IndexView {
        IndexView { meta: self.meta@, entries: entries_view(self.options@) }
    }
}

impl Index {
    /// An index without scopes and without entries.
    pub fn new(chunk_size: u32) -> (index: Index)
        ensures
            index@.meta.chunk_size == chunk_size,
            index@.meta.scopes == Seq::<Seq<u8>>::empty(),
            index@.entries == Seq::<EntryView>::empty(),
            canonical(index@.entries),
    {
        let index = Index { meta: Meta { chunk_size, scopes: Vec::new() }, options: Vec::new() };
        assert(index@.meta.scopes =~= Seq::<Seq<u8>>::empty());
        assert(index@.entries =~= Seq::<EntryView>::empty());
        index
    }

    /// Reads an index from the front of a byte stream.
    pub fn read(buf: &[u8]) -> (index: Result<Index, IxxError>)
        ensures
            match dec_index(buf@) {
                Some(value) => index is Ok && index.unwrap()@ == value,
                None => index == Err::<Index, IxxError>(IxxError::Malformed),
            },
            index is Ok ==> encodable(index.unwrap()@),
    {
        proof {
            if dec_index(buf@) is Some {
                lemma_read_is_written(buf@);
            }
        }
        match decode(buf) {
            Some((meta, options)) => Ok(Index { meta, options }),
            None => Err(IxxError::Malformed),
        }
    }

    /// Appends the binary form of the index to `write`. An index whose counts
    /// or strings the binary form cannot carry is refused and nothing is
    /// appended.
    pub fn write_into(&self, write: &mut Vec<u8>) -> (done: Result<(), IxxError>)
        ensures
            encodable(self@) ==> done is Ok && final(write)@ == old(write)@ + enc_index(self@),
            !encodable(self@) ==> done == Err::<(), IxxError>(IxxError::Unencodable)
                && final(write)@ == old(write)@,
    {
        match encode(&self.meta, &self.options) {
            Some(bytes) => {
                let mut i: usize = 0;
                while i < bytes.len()
                    invariant
                        i <= bytes.len(),
                        write@ == old(write)@ + bytes@.take(i as int),
                    decreases bytes.len() - i,
                {
                    write.push(bytes[i]);
                    assert(write@ =~= old(write)@ + bytes@.take(i + 1));
                    i += 1;
                }
                assert(bytes@.take(bytes@.len() as int) =~= bytes@);
                Ok(())
            },
            None => Err(IxxError::Unencodable),
        }
    }

    /// Scans the entries in insertion order and returns position, scope and
    /// name of those, inside the scope if one is given, whose lowercase name
    /// holds the lowercase pieces of `query` between `*` in order and without
    /// overlap. The scan ends as soon as there are `max_results` results and
    /// reads no entry after that; with a limit of zero it reads none.
    pub fn search(&self, scope_id: Option<u8>, query: &str, max_results: usize) -> (found: Result<
        Vec<(usize, u8, String)>,
        IxxError,
    >)
        ensures
            match search_results(
                self@.entries,
                scope_id,
                query.spec_bytes(),
                max_results as nat,
            ) {
                Ok(hits) => found is Ok && hits_view(found.unwrap()@) == hits,
                Err(e) => found == Err::<Vec<(usize, u8, String)>, IxxError>(e),
            },
            found is Ok ==> found.unwrap()@.len() <= max_results,
            max_results == 0 ==> found is Ok,
            found is Ok ==> forall|k: int|
                0 <= k < found.unwrap()@.len() ==> (#[trigger] found.unwrap()@[k]).0
                    < self@.entries.len(),
    {
        proof {
            let segments = crate::search::query_segments(query.spec_bytes());
            let n = self@.entries.len();
            lemma_scan_limit_zero(self@.entries, scope_id, segments, n);
            if search_results(self@.entries, scope_id, query.spec_bytes(), max_results as nat)
                is Ok {
                lemma_scan_count(self@.entries, scope_id, segments, max_results as nat, n);
                lemma_scan_hits(self@.entries, scope_id, segments, max_results as nat, n);
            }
        }
        let found = search_in(&self.options, scope_id, query, max_results);
        proof {
            if found is Ok {
                let hits = search_results(
                    self@.entries,
                    scope_id,
                    query.spec_bytes(),
                    max_results as nat,
                ).unwrap();
                assert forall|k: int| 0 <= k < found.unwrap()@.len() implies (
                #[trigger] found.unwrap()@[k]).0 < self@.entries.len() by {
                    assert(hits_view(found.unwrap()@)[k].0 == found.unwrap()@[k].0);
                    assert(0 <= hits[k].0 < self@.entries.len());
                }
            }
        }
        found
    }

    /// Appends one entry for `option`: the name is split at every dot, and each
    /// segment becomes a reference to its first stored literal, or a literal
    /// of its own if it is stored nowhere yet.
    pub fn push(&mut self, scope_id: u8, option: &str)
        ensures
            final(self)@.meta == old(self)@.meta,
            final(self)@.entries == old(self)@.entries.push(
                pushed_entry(old(self)@.entries, scope_id, option.spec_bytes()),
            ),
            canonical(old(self)@.entries) ==> canonical(final(self)@.entries),
            entry_name(final(self)@.entries, final(self)@.entries.last().labels) == Ok::<
                Seq<u8>,
                IxxError,
            >(option.spec_bytes()),
    {
        let segments = split_bytes(option.as_bytes(), DOT);
        let labels = build_labels(&self.options, segments);
        let entry = OptionEntry { scope_id, labels };
        assert(entry@ == pushed_entry(old(self)@.entries, scope_id, option.spec_bytes()));
        self.options.push(entry);
        assert(self@.entries =~= old(self)@.entries.push(entry@));
        proof {
            if canonical(old(self)@.entries) {
                lemma_push_canonical(old(self)@.entries, scope_id, option.spec_bytes());
            }
            vstd::utf8::encode_utf8_valid_utf8(option@);
            lemma_pushed_name(old(self)@.entries, scope_id, option.spec_bytes());
        }
    }

    /// Dereferences `reference`: the literal stored at its target.
    pub fn resolve_reference(&self, reference: &Reference) -> (found: Result<&Vec<u8>, IxxError>)
        ensures
            match resolve(self@.entries, *reference) {
                Ok(text) => found is Ok && found.unwrap()@ == text,
                Err(e) => found == Err::<&Vec<u8>, IxxError>(e),
            },
    {
        resolve_in(&self.options, reference)
    }

    /// The position of the first entry, inside the scope if one is given, whose
    /// labels are exactly the deduplication targets of the segments of
    /// `option`; nothing if a segment is stored nowhere or no entry fits.
    pub fn get_idx_by_name(&self, scope_id: Option<u8>, option: &str) -> (found: Result<
        Option<usize>,
        IxxError,
    >)
        ensures
            found is Ok,
            match found.unwrap() {
                Some(i) => lookup(self@.entries, scope_id, split(option.spec_bytes(), DOT))
                    == Some(i as int),
                None => lookup(self@.entries, scope_id, split(option.spec_bytes(), DOT)) is None,
            },
            match found.unwrap() {
                Some(i) => i < self@.entries.len() && in_scope(
                    scope_id,
                    self@.entries[i as int].scope_id,
                ) && has_segments(self@.entries, i as int, split(option.spec_bytes(), DOT)),
                None => true,
            },
    {
        proof {
            lemma_lookup_sound(self@.entries, scope_id, split(option.spec_bytes(), DOT));
        }
        let segments = split_bytes(option.as_bytes(), DOT);
        Ok(lookup_in(&self.options, scope_id, &segments))
    }

    /// The metadata: chunk size and scope table.
    pub fn meta(&self) -> (meta: &Meta)
        ensures
            meta@ == self@.meta,
    {
        &self.meta
    }

    /// The chunk size the index was created with.
    pub fn chunk_size(&self) -> (size: u32)
        ensures
            size == self@.meta.chunk_size,
    {
        self.meta.chunk_size
    }

    /// The scope names by scope id, as text.
    pub fn scopes(&self) -> (names: Result<Vec<String>, IxxError>)
        ensures
            names is Ok <==> (forall|k: int|
                0 <= k < self@.meta.scopes.len() ==> valid_utf8(#[trigger] self@.meta.scopes[k])),
            names is Err ==> names == Err::<Vec<String>, IxxError>(IxxError::InvalidUtf8),
            names is Ok ==> names.unwrap()@.len() == self@.meta.scopes.len(),
            names is Ok ==> (forall|k: int|
                0 <= k < self@.meta.scopes.len() ==> encode_utf8(
                    (#[trigger] names.unwrap()@[k])@,
                ) == self@.meta.scopes[k]),
    {
        let ghost sv = parts_view(self.meta.scopes@);
        let mut names: Vec<String> = Vec::new();
        let mut k: usize = 0;
        while k < self.meta.scopes.len()
            invariant
                k <= self.meta.scopes.len(),
                sv == parts_view(self.meta.scopes@),
                sv == self@.meta.scopes,
                names@.len() == k,
                forall|j: int| 0 <= j < k ==> valid_utf8(#[trigger] sv[j]),
                forall|j: int| 0 <= j < k ==> encode_utf8((#[trigger] names@[j])@) == sv[j],
            decreases self.meta.scopes.len() - k,
        {
            match utf8_str(self.meta.scopes[k].as_slice()) {
                Some(text) => {
                    names.push(text.to_owned());
                },
                None => {
                    assert(!valid_utf8(sv[k as int]));
                    return Err(IxxError::InvalidUtf8);
                },
            }
            k += 1;
        }
        Ok(names)
    }

    /// The entries in insertion order.
    pub fn entries(&self) -> (entries: &Vec<OptionEntry>)
        ensures
            entries_view(entries@) == self@.entries,
    {
        &self.options
    }

    /// Appends a scope to the scope table and returns its id.
    pub fn push_scope(&mut self, scope: String) -> (id: u8)
        requires
            old(self)@.meta.scopes.len() < MAX_SCOPES,
        ensures
            id == old(self)@.meta.scopes.len(),
            final(self)@.meta.chunk_size == old(self)@.meta.chunk_size,
            final(self)@.meta.scopes == old(self)@.meta.scopes.push(encode_utf8(scope@)),
            final(self)@.entries == old(self)@.entries,
    {
        let idx = self.meta.scopes.len();
        let name = bytes_to_vec(scope.as_str().as_bytes());
        self.meta.scopes.push(name);
        assert(self@.meta.scopes =~= old(self)@.meta.scopes.push(encode_utf8(scope@)));
        idx as u8
    }
}

} // verus!
