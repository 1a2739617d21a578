use vstd::prelude::*;
use vstd::utf8::{decode_utf8, encode_utf8, valid_utf8};
use vstd::string::StringSliceAdditionalSpecFns;
use crate::error::IxxError;
use crate::model::{
    entries_view, entry_name, in_scope, label_text, labels_texts, labels_view, resolve_in,
    EntryView, Label, OptionEntry,
};
use crate::text::{
    bytes_to_vec, join, matches_from, matches_segments, parts_view, split, split_bytes, DOT, STAR,
};

verus! {

/// The lowercase form of a text, character sequence to character sequence, as
/// the standard library's Unicode tables define it.
pub uninterp spec fn lowercased(text: Seq<char>) -> Seq<char>;

/// Calls `core::str::from_utf8`. Trusted: the call succeeds exactly on valid
/// UTF-8, and the text it returns has exactly the bytes handed in.
#[verifier::external_body]
pub(crate) fn utf8_str(bytes: &[u8]) -> (text: Option<&str>)
    ensures
        text is Some <==> valid_utf8(bytes@),
        text is Some ==> text.unwrap().spec_bytes() == bytes@,
{
    core::str::from_utf8(bytes).ok()
}

/// Calls `str::to_lowercase`. Trusted: the result depends on the characters of
/// the text alone.
#[verifier::external_body]
fn lowercase(text: &str) -> (lower: String)
    ensures
        lower@ == lowercased(text@),
{
    text.to_lowercase()
}

/// The lowercase form of UTF-8 text, bytes to bytes. Bytes that are no text
/// have no case and stay as they are.
pub open spec fn lower_utf8(bytes: Seq<u8>) -> Seq<u8> {
    if valid_utf8(bytes) {
        encode_utf8(lowercased(decode_utf8(bytes)))
    } else {
        bytes
    }
}

/// The segments of a query: its pieces between `*`, each in lowercase.
pub open spec fn query_segments(query: Seq<u8>) -> Seq<Seq<u8>> {
    Seq::new(split(query, STAR).len(), |k: int| lower_utf8(split(query, STAR)[k]))
}

/// Whether a name matches the segments of a query, regardless of case.
pub open spec fn name_matches(name: Seq<u8>, segments: Seq<Seq<u8>>) -> bool {
    matches_from(lower_utf8(name), segments, 0)
}

/// Whether a search with `found` results so far has ended: it has as many
/// results as it may return. With a limit of zero it has ended before the
/// first entry.
pub open spec fn stopped(found: nat, max_results: nat) -> bool {
    found >= max_results
}

/// The results of a search after its first `n` entries: position, scope and
/// name of every match in insertion order, up to the point where the search
/// ended, or the error of the first entry inside the filter that has no name.
/// Once the search has ended no entry is read, so a later entry without a
/// name does not fail it.
pub open spec fn scan(
    entries: Seq<EntryView>,
    filter: Option<u8>,
    segments: Seq<Seq<u8>>,
    max_results: nat,
    n: nat,
) -> Result<Seq<(int, u8, Seq<u8>)>, IxxError>
    decreases n,
{
    if n == 0 {
        Ok(Seq::<(int, u8, Seq<u8>)>::empty())
    } else {
        let i = n - 1;
        match scan(entries, filter, segments, max_results, i as nat) {
            Err(e) => Err(e),
            Ok(hits) => if stopped(hits.len(), max_results) || !in_scope(
                filter,
                entries[i].scope_id,
            ) {
                Ok(hits)
            } else {
                match entry_name(entries, entries[i].labels) {
                    Err(e) => Err(e),
                    Ok(name) => if name_matches(name, segments) {
                        Ok(hits.push((i, entries[i].scope_id, name)))
                    } else {
                        Ok(hits)
                    },
                }
            },
        }
    }
}

/// The results of a whole search.
pub open spec fn search_results(
    entries: Seq<EntryView>,
    filter: Option<u8>,
    query: Seq<u8>,
    max_results: nat,
) -> Result<Seq<(int, u8, Seq<u8>)>, IxxError> {
    scan(entries, filter, query_segments(query), max_results, entries.len())
}

/// The values of a list of results: position, scope, and the name's bytes.
pub open spec fn hits_view(hits: Seq<(usize, u8, String)>) -> Seq<(int, u8, Seq<u8>)> {
    Seq::new(hits.len(), |k: int| (hits[k].0 as int, hits[k].1, encode_utf8(hits[k].2@)))
}

/// Once a search has ended or failed, further entries change nothing.
pub proof fn lemma_scan_settled(
    entries: Seq<EntryView>,
    filter: Option<u8>,
    segments: Seq<Seq<u8>>,
    max_results: nat,
    n: nat,
    m: nat,
)
    requires
        n <= m,
        match scan(entries, filter, segments, max_results, n) {
            Ok(hits) => stopped(hits.len(), max_results),
            Err(_) => true,
        },
    ensures
        scan(entries, filter, segments, max_results, m) == scan(
            entries,
            filter,
            segments,
            max_results,
            n,
        ),
    decreases m,
{
    if n < m {
        lemma_scan_settled(entries, filter, segments, max_results, n, (m - 1) as nat);
    }
}

/// A single ASCII byte is valid UTF-8.
proof fn lemma_ascii_valid(byte: u8)
    requires
        byte <= 0x7f,
    ensures
        valid_utf8(seq![byte]),
{
    reveal_with_fuel(valid_utf8, 2);
    let bytes = seq![byte];
    assert(bytes[0] == byte);
    assert(vstd::utf8::pop_first_scalar(bytes) =~= Seq::<u8>::empty());
}

/// The lowercase form of a byte string.
pub fn lower_bytes(bytes: &[u8]) -> (lower: Vec<u8>)
    ensures
        lower@ == lower_utf8(bytes@),
{
    match utf8_str(bytes) {
        Some(text) => {
            proof {
                vstd::utf8::encode_utf8_decode_utf8(text@);
            }
            let lower = lowercase(text);
            bytes_to_vec(lower.as_str().as_bytes())
        },
        None => bytes_to_vec(bytes),
    }
}

/// The segments of a query, ready for matching.
pub fn query_segments_of(query: &str) -> (segments: Vec<Vec<u8>>)
    ensures
        parts_view(segments@) == query_segments(query.spec_bytes()),
{
    let pieces = split_bytes(query.as_bytes(), STAR);
    let ghost pv = parts_view(pieces@);
    let mut segments: Vec<Vec<u8>> = Vec::new();
    let mut k: usize = 0;
    while k < pieces.len()
        invariant
            k <= pieces.len(),
            segments@.len() == k,
            pv == parts_view(pieces@),
            forall|j: int| 0 <= j < k ==> (#[trigger] segments@[j])@ == lower_utf8(pv[j]),
        decreases pieces.len() - k,
    {
        let lower = lower_bytes(pieces[k].as_slice());
        segments.push(lower);
        k += 1;
    }
    assert(parts_view(segments@) =~= query_segments(query.spec_bytes()));
    segments
}

/// The canonical name of an entry: the texts of its labels joined with dots.
pub fn name_of(entries: &Vec<OptionEntry>, labels: &Vec<Label>) -> (name: Result<Vec<u8>, IxxError>)
    ensures
        match entry_name(entries_view(entries@), labels_view(labels@)) {
            Ok(text) => name is Ok && name.unwrap()@ == text && valid_utf8(text),
            Err(e) => name == Err::<Vec<u8>, IxxError>(e),
        },
{
    let ghost ev = entries_view(entries@);
    let ghost lv = labels_view(labels@);
    let ghost mut texts: Seq<Seq<u8>> = Seq::empty();
    let mut name: Vec<u8> = Vec::new();
    let mut k: usize = 0;
    assert(lv.take(0) =~= Seq::<crate::model::LabelView>::empty());
    while k < labels.len()
        invariant
            k <= labels.len(),
            ev == entries_view(entries@),
            lv == labels_view(labels@),
            texts.len() == k,
            labels_texts(ev, lv.take(k as int)) == Ok::<Seq<Seq<u8>>, IxxError>(texts),
            name@ == join(texts, DOT),
            valid_utf8(name@),
        decreases labels.len() - k,
    {
        proof {
            assert(lv.take(k + 1).drop_last() =~= lv.take(k as int));
            assert(lv.take(k + 1).last() == lv[k as int]);
            assert(lv.take(labels@.len() as int) =~= lv);
        }
        let found = match &labels[k] {
            Label::InPlace(text) => Ok(text),
            Label::Reference(reference) => resolve_in(entries, reference),
        };
        let text = match found {
            Ok(text) => text,
            Err(e) => {
                proof {
                    lemma_texts_settled(ev, lv, k + 1);
                }
                return Err(e);
            },
        };
        if utf8_str(text.as_slice()).is_none() {
            proof {
                lemma_texts_settled(ev, lv, k + 1);
            }
            return Err(IxxError::InvalidUtf8);
        }
        assert(label_text(ev, lv[k as int]) == Ok::<Seq<u8>, IxxError>(text@));
        let ghost before = name@;
        if k > 0 {
            name.push(DOT);
            proof {
                lemma_ascii_valid(DOT);
                vstd::utf8::valid_utf8_concat(before, seq![DOT]);
                assert(before + seq![DOT] =~= before.push(DOT));
            }
        }
        let ghost dotted = name@;
        let mut b: usize = 0;
        while b < text.len()
            invariant
                b <= text.len(),
                name@ == dotted + text@.take(b as int),
            decreases text.len() - b,
        {
            name.push(text[b]);
            assert(text@.take(b + 1) =~= text@.take(b as int).push(text@[b as int]));
            assert(dotted + text@.take(b + 1) =~= (dotted + text@.take(b as int)).push(
                text@[b as int],
            ));
            b += 1;
        }
        proof {
            assert(text@.take(text@.len() as int) =~= text@);
            vstd::utf8::valid_utf8_concat(dotted, text@);
            let grown = texts.push(text@);
            assert(grown.drop_last() =~= texts);
            if k == 0 {
                assert(dotted + text@ =~= text@);
            }
            texts = grown;
        }
        k += 1;
    }
    assert(lv.take(labels@.len() as int) =~= lv);
    Ok(name)
}

/// Once a label has no text, the labels after it do not change the error.
pub proof fn lemma_texts_settled(entries: Seq<EntryView>, labels: Seq<crate::model::LabelView>, n: int)
    requires
        0 <= n <= labels.len(),
        labels_texts(entries, labels.take(n)) is Err,
    ensures
        labels_texts(entries, labels) == labels_texts(entries, labels.take(n)),
    decreases labels.len() - n,
{
    if n == labels.len() {
        assert(labels.take(n) =~= labels);
    } else {
        assert(labels.take(n + 1).drop_last() =~= labels.take(n));
        lemma_texts_settled(entries, labels, n + 1);
    }
}

/// Scans the entries in insertion order and collects position, scope and name
/// of those inside the filter whose name matches the query, until there are
/// `max_results` of them. The limit is looked at before each entry is read.
pub fn search_in(
    entries: &Vec<OptionEntry>,
    scope_id: Option<u8>,
    query: &str,
    max_results: usize,
) -> (found: Result<Vec<(usize, u8, String)>, IxxError>)
    ensures
        match search_results(
            entries_view(entries@),
            scope_id,
            query.spec_bytes(),
            max_results as nat,
        ) {
            Ok(hits) => found is Ok && hits_view(found.unwrap()@) == hits,
            Err(e) => found == Err::<Vec<(usize, u8, String)>, IxxError>(e),
        },
{
    let ghost ev = entries_view(entries@);
    let segments = query_segments_of(query);
    let ghost sv = parts_view(segments@);
    let ghost max = max_results as nat;
    let mut results: Vec<(usize, u8, String)> = Vec::new();
    let mut i: usize = 0;
    assert(hits_view(results@) =~= Seq::<(int, u8, Seq<u8>)>::empty());
    while i < entries.len() && results.len() < max_results
        invariant
            i <= entries.len(),
            ev == entries_view(entries@),
            sv == parts_view(segments@),
            sv == query_segments(query.spec_bytes()),
            max == max_results as nat,
            scan(ev, scope_id, sv, max, i as nat) == Ok::<Seq<(int, u8, Seq<u8>)>, IxxError>(
                hits_view(results@),
            ),
        decreases entries.len() - i,
    {
        let entry = &entries[i];
        assert(ev[i as int] == entry@);
        let inside = match scope_id {
            Some(wanted) => wanted == entry.scope_id,
            None => true,
        };
        if inside {
            let name = match name_of(entries, &entry.labels) {
                Ok(name) => name,
                Err(e) => {
                    proof {
                        lemma_scan_settled(ev, scope_id, sv, max, (i + 1) as nat, ev.len());
                    }
                    return Err(e);
                },
            };
            let lower = lower_bytes(name.as_slice());
            if matches_segments(lower.as_slice(), &segments) {
                let text = match utf8_str(name.as_slice()) {
                    Some(text) => text,
                    None => {
                        assert(false);
                        return Err(IxxError::InvalidUtf8);
                    },
                };
                let ghost before = hits_view(results@);
                results.push((i, entry.scope_id, text.to_owned()));
                assert(hits_view(results@) =~= before.push((i as int, entry.scope_id, name@)));
            }
        }
        i += 1;
    }
    proof {
        if i < entries.len() {
            lemma_scan_settled(ev, scope_id, sv, max, i as nat, ev.len());
        }
    }
    Ok(results)
}

} // verus!

verus! {

/// One search result for callers that want a record instead of a tuple.
#[derive(Debug, Clone, PartialEq, Eq)]
pub struct SearchedOption {
    idx: usize,
    scope_id: u8,
    name: String,
}

impl View for SearchedOption {
    type V = (int, u8, Seq<char>);

    closed spec fn view(&self) -> (int, u8, Seq<char>) {
        (self.idx as int, self.scope_id, self.name@)
    }
}

impl SearchedOption {
    /// A result for the entry at `idx`.
    pub fn new(idx: usize, scope_id: u8, name: String) -> (option: SearchedOption)
        ensures
            option@ == (idx as int, scope_id, name@),
    {
        SearchedOption { idx, scope_id, name }
    }

    /// The position of the entry in the index.
    pub fn idx(&self) -> (idx: usize)
        ensures
            idx as int == self@.0,
    {
        self.idx
    }

    /// The scope the entry belongs to.
    pub fn scope_id(&self) -> (scope_id: u8)
        ensures
            scope_id == self@.1,
    {
        self.scope_id
    }

    /// The canonical name of the entry.
    pub fn name(self) -> (name: String)
        ensures
            name@ == self@.2,
    {
        self.name
    }
}

/// The results of a search as records, in the same order.
pub fn searched_options(hits: &Vec<(usize, u8, String)>) -> (options: Vec<SearchedOption>)
    ensures
        options@.len() == hits@.len(),
        forall|k: int|
            0 <= k < hits@.len() ==> (#[trigger] options@[k])@ == (
                hits@[k].0 as int,
                hits@[k].1,
                hits@[k].2@,
            ),
{
    let mut options: Vec<SearchedOption> = Vec::new();
    let mut k: usize = 0;
    while k < hits.len()
        invariant
            k <= hits.len(),
            options@.len() == k,
            forall|j: int|
                0 <= j < k ==> (#[trigger] options@[j])@ == (
                    hits@[j].0 as int,
                    hits@[j].1,
                    hits@[j].2@,
                ),
        decreases hits.len() - k,
    {
        options.push(SearchedOption::new(hits[k].0, hits[k].1, hits[k].2.clone()));
        k += 1;
    }
    options
}

} // verus!
