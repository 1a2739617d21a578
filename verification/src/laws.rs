use vstd::prelude::*;
use crate::error::IxxError;
use crate::model::{
    all_known, canonical, canonical_at, encode_label, expected_refs, first_in_labels,
    first_in_place, first_in_place_from, first_match_from, in_scope, label_bytes, label_matches,
    labels_match, lookup, pushed_entry, resolve, EntryView, LabelView, Reference,
    MAX_TARGET_ENTRY, MAX_TARGET_LABEL,
};
use vstd::utf8::{
    length_of_first_scalar, pop_first_scalar, take_first_scalar, valid_first_scalar, valid_utf8,
    valid_utf8_concat,
};
use crate::model::{entry_name, label_text, labels_texts};
use crate::search::{lowercased, name_matches, query_segments, scan, stopped};
use crate::text::{
    lemma_join_split, lemma_split_nonempty, lemma_split_prefix, lemma_split_sep_first, split, DOT,
    STAR,
};

verus! {

/// What a scan of one entry's labels finds: the first literal with the text
/// among the positions a reference can name, and nothing before it.
pub proof fn lemma_first_in_labels(labels: Seq<LabelView>, segment: Seq<u8>, from: int)
    requires
        0 <= from,
    ensures
        match first_in_labels(labels, segment, from) {
            Some(l) => from <= l < labels.len() && l <= MAX_TARGET_LABEL && labels[l]
                == LabelView::InPlace(segment) && forall|k: int|
                from <= k < l ==> #[trigger] labels[k] != LabelView::InPlace(segment),
            None => forall|k: int|
                from <= k < labels.len() && k <= MAX_TARGET_LABEL ==> #[trigger] labels[k]
                    != LabelView::InPlace(segment),
        },
    decreases labels.len() - from,
{
    if from >= labels.len() || from > MAX_TARGET_LABEL {
    } else if labels[from] == LabelView::InPlace(segment) {
    } else {
        lemma_first_in_labels(labels, segment, from + 1);
    }
}

/// What a scan of the entries finds: a literal with the text, in the first
/// entry at or after `from` that has one.
pub proof fn lemma_first_in_place_from(entries: Seq<EntryView>, segment: Seq<u8>, from: int)
    requires
        0 <= from,
    ensures
        match first_in_place_from(entries, segment, from) {
            Some(r) => {
                &&& from <= r.option_idx < entries.len()
                &&& r.label_idx < entries[r.option_idx as int].labels.len()
                &&& entries[r.option_idx as int].labels[r.label_idx as int] == LabelView::InPlace(
                    segment,
                )
                &&& first_in_labels(entries[r.option_idx as int].labels, segment, 0) == Some(
                    r.label_idx as int,
                )
                &&& forall|e: int|
                    from <= e < r.option_idx ==> first_in_labels(
                        (#[trigger] entries[e]).labels,
                        segment,
                        0,
                    ) is None
            },
            None => forall|e: int|
                from <= e < entries.len() && e <= MAX_TARGET_ENTRY ==> first_in_labels(
                    (#[trigger] entries[e]).labels,
                    segment,
                    0,
                ) is None,
        },
    decreases entries.len() - from,
{
    if from >= entries.len() || from > MAX_TARGET_ENTRY {
    } else {
        lemma_first_in_labels(entries[from].labels, segment, 0);
        match first_in_labels(entries[from].labels, segment, 0) {
            Some(l) => {},
            None => {
                lemma_first_in_place_from(entries, segment, from + 1);
            },
        }
    }
}

/// The scan finds the literal of entry `e` if no entry between `from` and `e`
/// has one.
pub proof fn lemma_first_in_place_at(
    entries: Seq<EntryView>,
    segment: Seq<u8>,
    from: int,
    e: int,
    l: int,
)
    requires
        0 <= from <= e < entries.len(),
        e <= MAX_TARGET_ENTRY,
        first_in_labels(entries[e].labels, segment, 0) == Some(l),
        l <= MAX_TARGET_LABEL,
        forall|k: int|
            from <= k < e ==> first_in_labels((#[trigger] entries[k]).labels, segment, 0) is None,
    ensures
        first_in_place_from(entries, segment, from) == Some(
            Reference { option_idx: e as u16, label_idx: l as u8 },
        ),
    decreases e - from,
{
    if from < e {
        assert(first_in_labels(entries[from].labels, segment, 0) is None);
        lemma_first_in_place_at(entries, segment, from + 1, e, l);
    }
}

/// A deduplication target is a stored literal with the segment's text, so it
/// resolves to that text.
pub proof fn lemma_target_resolves(entries: Seq<EntryView>, segment: Seq<u8>)
    ensures
        match first_in_place(entries, segment) {
            Some(r) => resolve(entries, r) == Ok::<Seq<u8>, IxxError>(segment),
            None => true,
        },
{
    lemma_first_in_place_from(entries, segment, 0);
}

/// Entries appended later do not change the deduplication target of a segment
/// that has one.
pub proof fn lemma_target_stable(prior: Seq<EntryView>, more: Seq<EntryView>, segment: Seq<u8>)
    requires
        first_in_place(prior, segment) is Some,
    ensures
        first_in_place(prior + more, segment) == first_in_place(prior, segment),
{
    lemma_first_in_place_from(prior, segment, 0);
    let r = first_in_place(prior, segment).unwrap();
    let all = prior + more;
    assert(all[r.option_idx as int] == prior[r.option_idx as int]);
    assert forall|k: int| 0 <= k < r.option_idx implies first_in_labels(
        (#[trigger] all[k]).labels,
        segment,
        0,
    ) is None by {
        assert(all[k] == prior[k]);
    }
    lemma_first_in_place_at(all, segment, 0, r.option_idx as int, r.label_idx as int);
}

/// Entries appended later do not change what a reference resolves to.
pub proof fn lemma_resolve_stable(prior: Seq<EntryView>, more: Seq<EntryView>, reference: Reference)
    requires
        resolve(prior, reference) is Ok,
    ensures
        resolve(prior + more, reference) == resolve(prior, reference),
{
    assert((prior + more)[reference.option_idx as int] == prior[reference.option_idx as int]);
}

/// Every label of a freshly pushed entry stands for the segment it was made
/// from: a literal holds it, a reference resolves to it.
pub proof fn lemma_pushed_labels_resolve(prior: Seq<EntryView>, scope_id: u8, name: Seq<u8>, j: int)
    requires
        0 <= j < split(name, DOT).len(),
    ensures
        label_bytes(
            prior.push(pushed_entry(prior, scope_id, name)),
            pushed_entry(prior, scope_id, name).labels[j],
        ) == Ok::<Seq<u8>, IxxError>(split(name, DOT)[j]),
{
    let segment = split(name, DOT)[j];
    let entry = pushed_entry(prior, scope_id, name);
    lemma_target_resolves(prior, segment);
    match first_in_place(prior, segment) {
        Some(r) => {
            assert(prior.push(entry) =~= prior + seq![entry]);
            lemma_resolve_stable(prior, seq![entry], r);
        },
        None => {},
    }
}

/// Pushing a name keeps the index in the builder's form.
pub proof fn lemma_push_canonical(prior: Seq<EntryView>, scope_id: u8, name: Seq<u8>)
    requires
        canonical(prior),
    ensures
        canonical(prior.push(pushed_entry(prior, scope_id, name))),
{
    let entry = pushed_entry(prior, scope_id, name);
    let entries = prior.push(entry);
    assert forall|i: int, j: int|
        0 <= i < entries.len() && 0 <= j < entries[i].labels.len() implies #[trigger] canonical_at(
        entries,
        i,
        j,
    ) by {
        if i < prior.len() {
            assert(entries.take(i) =~= prior.take(i));
            assert(canonical_at(prior, i, j));
        } else {
            assert(entries.take(i) =~= prior);
            lemma_target_resolves(prior, split(name, DOT)[j]);
        }
    }
}

/// In an index in the builder's form no reference of entry `i` points at
/// entry `i` or at a later one.
pub proof fn lemma_no_forward_reference(entries: Seq<EntryView>, i: int, j: int)
    requires
        canonical(entries),
        0 <= i < entries.len(),
        0 <= j < entries[i].labels.len(),
    ensures
        match entries[i].labels[j] {
            LabelView::Reference(r) => r.option_idx < i,
            LabelView::InPlace(_) => true,
        },
{
    assert(canonical_at(entries, i, j));
}

/// In an index in the builder's form every label has its bytes: resolving
/// never fails, and the target of a reference lies before the entry that
/// holds it.
pub proof fn lemma_canonical_resolves(entries: Seq<EntryView>, i: int, j: int)
    requires
        canonical(entries),
        0 <= i < entries.len(),
        0 <= j < entries[i].labels.len(),
    ensures
        label_bytes(entries, entries[i].labels[j]) is Ok,
        label_bytes(entries, entries[i].labels[j]) == label_bytes(
            entries.take(i),
            entries[i].labels[j],
        ),
{
    assert(canonical_at(entries, i, j));
    match entries[i].labels[j] {
        LabelView::Reference(r) => {
            assert(entries.take(i)[r.option_idx as int] == entries[r.option_idx as int]);
        },
        LabelView::InPlace(_) => {},
    }
}

} // verus!

verus! {

/// Whether the entry at `k` is inside the filter and has exactly the labels `search`.
pub open spec fn entry_fits(
    entries: Seq<EntryView>,
    filter: Option<u8>,
    search: Seq<Reference>,
    k: int,
) -> bool {
    in_scope(filter, entries[k].scope_id) && labels_match(k, entries[k].labels, search)
}

/// What a scan for the first fitting entry finds: a fitting entry, and none
/// that fits before it.
pub proof fn lemma_first_match_from(
    entries: Seq<EntryView>,
    filter: Option<u8>,
    search: Seq<Reference>,
    from: int,
)
    requires
        0 <= from,
    ensures
        match first_match_from(entries, filter, search, from) {
            Some(k) => from <= k < entries.len() && entry_fits(entries, filter, search, k)
                && forall|e: int| from <= e < k ==> !#[trigger] entry_fits(entries, filter, search, e),
            None => forall|e: int|
                from <= e < entries.len() ==> !#[trigger] entry_fits(entries, filter, search, e),
        },
    decreases entries.len() - from,
{
    if from < entries.len() && !entry_fits(entries, filter, search, from) {
        lemma_first_match_from(entries, filter, search, from + 1);
    }
}

/// The scan finds entry `k` if it fits and no entry between `from` and `k` does.
pub proof fn lemma_first_match_at(
    entries: Seq<EntryView>,
    filter: Option<u8>,
    search: Seq<Reference>,
    from: int,
    k: int,
)
    requires
        0 <= from <= k < entries.len(),
        entry_fits(entries, filter, search, k),
        forall|e: int| from <= e < k ==> !#[trigger] entry_fits(entries, filter, search, e),
    ensures
        first_match_from(entries, filter, search, from) == Some(k),
    decreases k - from,
{
    if from < k {
        assert(!entry_fits(entries, filter, search, from));
        lemma_first_match_at(entries, filter, search, from + 1, k);
    }
}

/// An exact lookup never returns a partial match: the entry it finds is inside
/// the filter, has one label per segment of the name, and each label stands
/// for exactly that segment. No earlier entry fits.
pub proof fn lemma_lookup_sound(entries: Seq<EntryView>, filter: Option<u8>, segments: Seq<Seq<u8>>)
    ensures
        match lookup(entries, filter, segments) {
            Some(k) => {
                &&& 0 <= k < entries.len()
                &&& in_scope(filter, entries[k].scope_id)
                &&& entries[k].labels.len() == segments.len()
                &&& forall|j: int|
                    0 <= j < segments.len() ==> label_bytes(entries, #[trigger] entries[k].labels[j])
                        == Ok::<Seq<u8>, IxxError>(segments[j])
                &&& forall|e: int|
                    0 <= e < k ==> !#[trigger] entry_fits(
                        entries,
                        filter,
                        expected_refs(entries, segments),
                        e,
                    )
            },
            None => true,
        },
{
    if all_known(entries, segments) {
        let search = expected_refs(entries, segments);
        lemma_first_match_from(entries, filter, search, 0);
        match first_match_from(entries, filter, search, 0) {
            Some(k) => {
                assert forall|j: int| 0 <= j < segments.len() implies label_bytes(
                    entries,
                    #[trigger] entries[k].labels[j],
                ) == Ok::<Seq<u8>, IxxError>(segments[j]) by {
                    assert(first_in_place(entries, segments[j]) is Some);
                    lemma_target_resolves(entries, segments[j]);
                    assert(label_matches(k, j, entries[k].labels[j], search[j]));
                }
            },
            None => {},
        }
    }
}

/// The segments a pushed name may hold so that the new entry can be found
/// again: a segment that was stored nowhere before must sit where a reference
/// can name it, and must not repeat an earlier segment of the same name.
pub open spec fn findable(prior: Seq<EntryView>, segments: Seq<Seq<u8>>) -> bool {
    forall|j: int|
        0 <= j < segments.len() && first_in_place(prior, #[trigger] segments[j]) is None ==> {
            &&& prior.len() <= MAX_TARGET_ENTRY
            &&& j <= MAX_TARGET_LABEL
            &&& forall|k: int| 0 <= k < j ==> segments[k] != segments[j]
        }
}

/// After a name was pushed into a scope, an exact lookup of the name in that
/// scope finds an entry: the new one, or an earlier one that fits as well.
pub proof fn lemma_lookup_after_push(
    prior: Seq<EntryView>,
    scope_id: u8,
    name: Seq<u8>,
    filter: Option<u8>,
)
    requires
        findable(prior, split(name, DOT)),
        in_scope(filter, scope_id),
    ensures
        match lookup(prior.push(pushed_entry(prior, scope_id, name)), filter, split(name, DOT)) {
            Some(k) => 0 <= k <= prior.len(),
            None => false,
        },
{
    let segments = split(name, DOT);
    let entry = pushed_entry(prior, scope_id, name);
    let entries = prior.push(entry);
    let i = prior.len() as int;
    assert(entries =~= prior + seq![entry]);
    assert forall|j: int| 0 <= j < segments.len() implies first_in_place(
        entries,
        #[trigger] segments[j],
    ) is Some && label_matches(
        i,
        j,
        entry.labels[j],
        first_in_place(entries, segments[j]).unwrap(),
    ) by {
        lemma_pushed_target(prior, scope_id, name, j);
    }
    assert(all_known(entries, segments));
    let search = expected_refs(entries, segments);
    assert(labels_match(i, entries[i].labels, search));
    assert(entry_fits(entries, filter, search, i));
    lemma_first_match_from(entries, filter, search, 0);
}

/// The deduplication target of a segment of a findable name, once the name
/// was pushed: the target it had before, or else its own new literal.
pub proof fn lemma_pushed_target(prior: Seq<EntryView>, scope_id: u8, name: Seq<u8>, j: int)
    requires
        findable(prior, split(name, DOT)),
        0 <= j < split(name, DOT).len(),
    ensures
        first_in_place(prior.push(pushed_entry(prior, scope_id, name)), split(name, DOT)[j])
            is Some,
        label_matches(
            prior.len() as int,
            j,
            pushed_entry(prior, scope_id, name).labels[j],
            first_in_place(
                prior.push(pushed_entry(prior, scope_id, name)),
                split(name, DOT)[j],
            ).unwrap(),
        ),
{
    let segments = split(name, DOT);
    let segment = segments[j];
    let entry = pushed_entry(prior, scope_id, name);
    let entries = prior.push(entry);
    let i = prior.len() as int;
    assert(entries =~= prior + seq![entry]);
    match first_in_place(prior, segment) {
        Some(r) => {
            lemma_target_stable(prior, seq![entry], segment);
        },
        None => {
            lemma_first_in_place_from(prior, segment, 0);
            assert forall|k: int| 0 <= k < i implies first_in_labels(
                (#[trigger] entries[k]).labels,
                segment,
                0,
            ) is None by {
                assert(entries[k] == prior[k]);
            }
            assert(entry.labels[j] == LabelView::InPlace(segment));
            assert forall|k: int| 0 <= k < j implies #[trigger] entry.labels[k]
                != LabelView::InPlace(segment) by {
                assert(segments[k] != segment);
                assert(entry.labels[k] == encode_label(prior, segments[k]));
            }
            lemma_first_in_labels_at(entry.labels, segment, 0, j);
            lemma_first_in_place_at(entries, segment, 0, i, j);
        },
    }
}

/// The scan of one entry finds position `l` if it holds the literal and no
/// position between `from` and `l` does.
pub proof fn lemma_first_in_labels_at(labels: Seq<LabelView>, segment: Seq<u8>, from: int, l: int)
    requires
        0 <= from <= l < labels.len(),
        l <= MAX_TARGET_LABEL,
        labels[l] == LabelView::InPlace(segment),
        forall|k: int| from <= k < l ==> #[trigger] labels[k] != LabelView::InPlace(segment),
    ensures
        first_in_labels(labels, segment, from) == Some(l),
    decreases l - from,
{
    if from < l {
        assert(labels[from] != LabelView::InPlace(segment));
        lemma_first_in_labels_at(labels, segment, from + 1, l);
    }
}

/// Entries appended later do not change the result of an exact lookup that
/// found an entry.
pub proof fn lemma_lookup_stable(
    entries: Seq<EntryView>,
    more: Seq<EntryView>,
    filter: Option<u8>,
    segments: Seq<Seq<u8>>,
)
    requires
        lookup(entries, filter, segments) is Some,
    ensures
        lookup(entries + more, filter, segments) == lookup(entries, filter, segments),
{
    let all = entries + more;
    assert forall|j: int| 0 <= j < segments.len() implies first_in_place(
        all,
        #[trigger] segments[j],
    ) == first_in_place(entries, segments[j]) by {
        assert(first_in_place(entries, segments[j]) is Some);
        lemma_target_stable(entries, more, segments[j]);
    }
    assert(all_known(all, segments));
    let search = expected_refs(entries, segments);
    assert(expected_refs(all, segments) =~= search);
    lemma_first_match_from(entries, filter, search, 0);
    let k = first_match_from(entries, filter, search, 0).unwrap();
    assert(all[k] == entries[k]);
    assert(entry_fits(all, filter, search, k));
    assert forall|e: int| 0 <= e < k implies !#[trigger] entry_fits(all, filter, search, e) by {
        assert(all[e] == entries[e]);
        assert(!entry_fits(entries, filter, search, e));
    }
    lemma_first_match_at(all, filter, search, 0, k);
}

} // verus!

verus! {

/// Whether a search reports the entry at `i`: it is inside the filter, it has
/// a name, and the name matches the segments of the query.
pub open spec fn is_match(
    entries: Seq<EntryView>,
    filter: Option<u8>,
    segments: Seq<Seq<u8>>,
    i: int,
) -> bool {
    in_scope(filter, entries[i].scope_id) && match entry_name(entries, entries[i].labels) {
        Ok(name) => name_matches(name, segments),
        Err(_) => false,
    }
}

/// How many of the first `n` entries a search reports if nothing ends it.
pub open spec fn match_count(
    entries: Seq<EntryView>,
    filter: Option<u8>,
    segments: Seq<Seq<u8>>,
    n: nat,
) -> nat
    decreases n,
{
    if n == 0 {
        0
    } else {
        match_count(entries, filter, segments, (n - 1) as nat) + if is_match(
            entries,
            filter,
            segments,
            n - 1,
        ) {
            1nat
        } else {
            0nat
        }
    }
}

/// A search that does not fail returns as many results as there are matching
/// entries, but never more than its limit: where more entries match than
/// `max_results`, exactly `max_results` come back, and none at a limit of zero.
pub proof fn lemma_scan_count(
    entries: Seq<EntryView>,
    filter: Option<u8>,
    segments: Seq<Seq<u8>>,
    max_results: nat,
    n: nat,
)
    requires
        scan(entries, filter, segments, max_results, n) is Ok,
    ensures
        scan(entries, filter, segments, max_results, n).unwrap().len() == if match_count(
            entries,
            filter,
            segments,
            n,
        ) < max_results {
            match_count(entries, filter, segments, n)
        } else {
            max_results
        },
    decreases n,
{
    if n > 0 {
        lemma_scan_count(entries, filter, segments, max_results, (n - 1) as nat);
    }
}

/// The results of a search that does not fail are matching entries in
/// insertion order, each with its own scope and its canonical name.
pub proof fn lemma_scan_hits(
    entries: Seq<EntryView>,
    filter: Option<u8>,
    segments: Seq<Seq<u8>>,
    max_results: nat,
    n: nat,
)
    requires
        scan(entries, filter, segments, max_results, n) is Ok,
    ensures
        forall|k: int|
            0 <= k < scan(entries, filter, segments, max_results, n).unwrap().len() ==> {
                let hit = #[trigger] scan(entries, filter, segments, max_results, n).unwrap()[k];
                &&& 0 <= hit.0 < n
                &&& is_match(entries, filter, segments, hit.0)
                &&& hit.1 == entries[hit.0].scope_id
                &&& entry_name(entries, entries[hit.0].labels) == Ok::<Seq<u8>, IxxError>(hit.2)
            },
        forall|k: int, l: int|
            0 <= k < l < scan(entries, filter, segments, max_results, n).unwrap().len() ==> (
            #[trigger] scan(entries, filter, segments, max_results, n).unwrap()[k]).0 < (
            #[trigger] scan(entries, filter, segments, max_results, n).unwrap()[l]).0,
    decreases n,
{
    if n > 0 {
        lemma_scan_hits(entries, filter, segments, max_results, (n - 1) as nat);
    }
}

/// A search that does not fail and does not reach its limit reports every
/// matching entry.
pub proof fn lemma_scan_complete(
    entries: Seq<EntryView>,
    filter: Option<u8>,
    segments: Seq<Seq<u8>>,
    max_results: nat,
    n: nat,
    i: int,
)
    requires
        scan(entries, filter, segments, max_results, n) is Ok,
        !stopped(scan(entries, filter, segments, max_results, n).unwrap().len(), max_results),
        0 <= i < n,
        is_match(entries, filter, segments, i),
    ensures
        exists|k: int|
            0 <= k < scan(entries, filter, segments, max_results, n).unwrap().len() && (
            #[trigger] scan(entries, filter, segments, max_results, n).unwrap()[k]).0 == i,
    decreases n,
{
    let hits = scan(entries, filter, segments, max_results, n).unwrap();
    let before = scan(entries, filter, segments, max_results, (n - 1) as nat).unwrap();
    if i == n - 1 {
        assert(hits == before.push((i, entries[i].scope_id, hits.last().2)));
        assert(hits[hits.len() - 1].0 == i);
    } else {
        lemma_scan_complete(entries, filter, segments, max_results, (n - 1) as nat, i);
        let k = choose|k: int| 0 <= k < before.len() && (#[trigger] before[k]).0 == i;
        assert(hits[k] == before[k]);
    }
}

} // verus!

verus! {

/// Splitting text at an ASCII separator yields text: every piece of valid
/// UTF-8 is valid UTF-8.
pub proof fn lemma_split_valid_utf8(s: Seq<u8>, sep: u8)
    requires
        valid_utf8(s),
        sep <= 0x7f,
    ensures
        forall|j: int| 0 <= j < split(s, sep).len() ==> valid_utf8(#[trigger] split(s, sep)[j]),
    decreases s.len(),
{
    if s.len() == 0 {
        assert(split(s, sep)[0] =~= Seq::<u8>::empty());
    } else {
        let width = length_of_first_scalar(s);
        let c = take_first_scalar(s);
        let t = pop_first_scalar(s);
        assert(valid_first_scalar(s));
        assert(valid_utf8(t));
        assert(s =~= c + t);
        lemma_split_valid_utf8(t, sep);
        lemma_split_nonempty(t, sep);
        if s[0] == sep {
            assert(c =~= seq![sep]);
            lemma_split_sep_first(t, sep);
            assert(valid_utf8(Seq::<u8>::empty()));
            assert forall|j: int| 0 <= j < split(s, sep).len() implies valid_utf8(
                #[trigger] split(s, sep)[j],
            ) by {
                if j > 0 {
                    assert(split(s, sep)[j] == split(t, sep)[j - 1]);
                }
            }
        } else {
            assert forall|k: int| 0 <= k < c.len() implies #[trigger] c[k] != sep by {
                assert(c[k] == s[k]);
            }
            lemma_split_prefix(c, t, sep);
            assert(valid_utf8(c)) by {
                reveal_with_fuel(valid_utf8, 2);
                assert(c[0] == s[0]);
                if width >= 2 {
                    assert(c[1] == s[1]);
                }
                if width >= 3 {
                    assert(c[2] == s[2]);
                }
                if width >= 4 {
                    assert(c[3] == s[3]);
                }
                assert(pop_first_scalar(c) =~= Seq::<u8>::empty());
            }
            valid_utf8_concat(c, split(t, sep)[0]);
            assert forall|j: int| 0 <= j < split(s, sep).len() implies valid_utf8(
                #[trigger] split(s, sep)[j],
            ) by {
                if j > 0 {
                    assert(split(s, sep)[j] == split(t, sep)[j]);
                }
            }
        }
    }
}

/// Labels that each have a text have these texts in order.
pub proof fn lemma_labels_texts(
    entries: Seq<EntryView>,
    labels: Seq<LabelView>,
    texts: Seq<Seq<u8>>,
)
    requires
        labels.len() == texts.len(),
        forall|j: int|
            0 <= j < labels.len() ==> label_text(entries, #[trigger] labels[j]) == Ok::<
                Seq<u8>,
                IxxError,
            >(texts[j]),
    ensures
        labels_texts(entries, labels) == Ok::<Seq<Seq<u8>>, IxxError>(texts),
    decreases labels.len(),
{
    if labels.len() == 0 {
        assert(texts =~= Seq::<Seq<u8>>::empty());
    } else {
        assert forall|j: int| 0 <= j < labels.drop_last().len() implies label_text(
            entries,
            #[trigger] labels.drop_last()[j],
        ) == Ok::<Seq<u8>, IxxError>(texts.drop_last()[j]) by {
            assert(labels.drop_last()[j] == labels[j]);
        }
        lemma_labels_texts(entries, labels.drop_last(), texts.drop_last());
        assert(label_text(entries, labels[labels.len() - 1]) == Ok::<Seq<u8>, IxxError>(
            texts[labels.len() - 1],
        ));
        assert(texts.drop_last().push(texts.last()) =~= texts);
    }
}

/// The canonical name of a freshly pushed entry is the name that was pushed.
pub proof fn lemma_pushed_name(prior: Seq<EntryView>, scope_id: u8, name: Seq<u8>)
    requires
        valid_utf8(name),
    ensures
        entry_name(
            prior.push(pushed_entry(prior, scope_id, name)),
            pushed_entry(prior, scope_id, name).labels,
        ) == Ok::<Seq<u8>, IxxError>(name),
{
    let segments = split(name, DOT);
    let entry = pushed_entry(prior, scope_id, name);
    let entries = prior.push(entry);
    lemma_split_valid_utf8(name, DOT);
    assert forall|j: int| 0 <= j < entry.labels.len() implies label_text(
        entries,
        #[trigger] entry.labels[j],
    ) == Ok::<Seq<u8>, IxxError>(segments[j]) by {
        lemma_pushed_labels_resolve(prior, scope_id, name, j);
        assert(valid_utf8(segments[j]));
    }
    lemma_labels_texts(entries, entry.labels, segments);
    lemma_join_split(name, DOT);
}

/// Entries appended later do not change the canonical name of an entry that
/// has one.
pub proof fn lemma_name_stable(prior: Seq<EntryView>, more: Seq<EntryView>, labels: Seq<LabelView>)
    requires
        entry_name(prior, labels) is Ok,
    ensures
        entry_name(prior + more, labels) == entry_name(prior, labels),
    decreases labels.len(),
{
    if labels.len() > 0 {
        lemma_name_stable_texts(prior, more, labels);
    }
}

/// Entries appended later do not change the texts of labels that all have one.
pub proof fn lemma_name_stable_texts(
    prior: Seq<EntryView>,
    more: Seq<EntryView>,
    labels: Seq<LabelView>,
)
    requires
        labels_texts(prior, labels) is Ok,
    ensures
        labels_texts(prior + more, labels) == labels_texts(prior, labels),
    decreases labels.len(),
{
    if labels.len() > 0 {
        lemma_name_stable_texts(prior, more, labels.drop_last());
        match labels.last() {
            LabelView::Reference(r) => {
                lemma_resolve_stable(prior, more, r);
            },
            LabelView::InPlace(_) => {},
        }
    }
}

} // verus!

verus! {

/// Every segment of a query that is text is the lowercase form of its piece:
/// the pieces of text between `*` are text themselves.
pub proof fn lemma_query_segments_lowercase(query: Seq<char>, k: int)
    requires
        0 <= k < split(vstd::utf8::encode_utf8(query), STAR).len(),
    ensures
        valid_utf8(split(vstd::utf8::encode_utf8(query), STAR)[k]),
        query_segments(vstd::utf8::encode_utf8(query))[k] == vstd::utf8::encode_utf8(
            lowercased(vstd::utf8::decode_utf8(split(vstd::utf8::encode_utf8(query), STAR)[k])),
        ),
{
    vstd::utf8::encode_utf8_valid_utf8(query);
    lemma_split_valid_utf8(vstd::utf8::encode_utf8(query), STAR);
}

} // verus!

verus! {

/// A reference that points past the entries, or past the labels of its entry,
/// fails out of bounds; one that points at another reference fails as
/// recursive; any other one yields the literal it points at.
pub proof fn lemma_resolve_outcomes(entries: Seq<EntryView>, reference: Reference)
    ensures
        reference.option_idx >= entries.len() ==> resolve(entries, reference) == Err::<
            Seq<u8>,
            IxxError,
        >(IxxError::ReferenceOutOfBounds),
        reference.option_idx < entries.len() && reference.label_idx
            >= entries[reference.option_idx as int].labels.len() ==> resolve(entries, reference)
            == Err::<Seq<u8>, IxxError>(IxxError::ReferenceOutOfBounds),
        reference.option_idx < entries.len() && reference.label_idx
            < entries[reference.option_idx as int].labels.len() ==> (
        match entries[reference.option_idx as int].labels[reference.label_idx as int] {
            LabelView::Reference(_) => resolve(entries, reference) == Err::<Seq<u8>, IxxError>(
                IxxError::RecursiveReference,
            ),
            LabelView::InPlace(text) => resolve(entries, reference) == Ok::<Seq<u8>, IxxError>(
                text,
            ),
        }),
{
}

} // verus!

verus! {

/// Whether the entry at `e` stands for exactly these segments: one label per
/// segment, each standing for its segment.
pub open spec fn has_segments(entries: Seq<EntryView>, e: int, segments: Seq<Seq<u8>>) -> bool {
    &&& entries[e].labels.len() == segments.len()
    &&& forall|j: int|
        0 <= j < segments.len() ==> label_bytes(entries, #[trigger] entries[e].labels[j]) == Ok::<
            Seq<u8>,
            IxxError,
        >(segments[j])
}

/// Exact lookup agrees with push: after a findable name was pushed into a
/// scope, looking it up in that scope returns the position that the push
/// gave it, unless an earlier entry inside the filter stands for the same
/// name; then the lookup returns an earlier position.
pub proof fn lemma_lookup_returns_pushed(
    prior: Seq<EntryView>,
    scope_id: u8,
    name: Seq<u8>,
    filter: Option<u8>,
)
    requires
        findable(prior, split(name, DOT)),
        in_scope(filter, scope_id),
    ensures
        match lookup(prior.push(pushed_entry(prior, scope_id, name)), filter, split(name, DOT)) {
            Some(k) => {
                &&& 0 <= k <= prior.len()
                &&& has_segments(
                    prior.push(pushed_entry(prior, scope_id, name)),
                    k,
                    split(name, DOT),
                )
                &&& k < prior.len() ==> in_scope(filter, prior[k].scope_id)
            },
            None => false,
        },
        (forall|e: int|
            0 <= e < prior.len() ==> !(in_scope(filter, prior[e].scope_id) && #[trigger] has_segments(
                prior.push(pushed_entry(prior, scope_id, name)),
                e,
                split(name, DOT),
            ))) ==> lookup(
            prior.push(pushed_entry(prior, scope_id, name)),
            filter,
            split(name, DOT),
        ) == Some(prior.len() as int),
{
    let entries = prior.push(pushed_entry(prior, scope_id, name));
    lemma_lookup_after_push(prior, scope_id, name, filter);
    lemma_lookup_sound(entries, filter, split(name, DOT));
    let k = lookup(entries, filter, split(name, DOT)).unwrap();
    if k < prior.len() {
        assert(entries[k] == prior[k]);
    }
}

} // verus!

verus! {

/// A search with a limit of zero reads no entry: it returns nothing and does
/// not fail, whatever the index holds.
pub proof fn lemma_scan_limit_zero(
    entries: Seq<EntryView>,
    filter: Option<u8>,
    segments: Seq<Seq<u8>>,
    n: nat,
)
    ensures
        scan(entries, filter, segments, 0, n) == Ok::<Seq<(int, u8, Seq<u8>)>, IxxError>(
            Seq::<(int, u8, Seq<u8>)>::empty(),
        ),
    decreases n,
{
    if n > 0 {
        lemma_scan_limit_zero(entries, filter, segments, (n - 1) as nat);
    }
}

} // verus!
