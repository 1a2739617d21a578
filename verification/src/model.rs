use vstd::prelude::*;
use vstd::utf8::valid_utf8;
use crate::error::IxxError;
use crate::text::{bytes_eq, bytes_to_vec, join, parts_view, split, DOT};

verus! {

/// A back-pointer to the label that stores a segment's literal text.
#[derive(Debug, Clone, Copy, PartialEq, Eq, Structural)]
pub struct Reference {
    /// Position of the entry that holds the literal.
    pub option_idx: u16,
    /// Position of the literal among that entry's labels.
    pub label_idx: u8,
}

/// One dot-separated segment of a name.
#[derive(Debug, Clone, PartialEq, Eq)]
pub enum Label {
    /// The segment's bytes are stored here.
    InPlace(Vec<u8>),
    /// The segment equals the literal stored at the referenced position.
    Reference(Reference),
}

/// The mathematical value of a [`Label`].
pub enum LabelView {
    InPlace(Seq<u8>),
    Reference(Reference),
}

impl View for Label {
    type V = LabelView;

    open spec fn view(&self) -> LabelView {
        match *self {
            Label::InPlace(text) => LabelView::InPlace(text@),
            Label::Reference(reference) => LabelView::Reference(reference),
        }
    }
}

/// One indexed name: its scope and one label per segment.
#[derive(Debug, Clone, PartialEq, Eq)]
pub struct OptionEntry {
    /// Position of the owning scope in the scope table.
    pub scope_id: u8,
    /// The segments of the name from left to right.
    pub labels: Vec<Label>,
}

/// The mathematical value of an [`OptionEntry`].
pub struct EntryView {
    pub scope_id: u8,
    pub labels: Seq<LabelView>,
}

impl View for OptionEntry {
    type V = EntryView;

    open spec fn view(&self) -> EntryView {
        EntryView { scope_id: self.scope_id, labels: labels_view(self.labels@) }
    }
}

/// The values of a sequence of labels.
pub open spec fn labels_view(labels: Seq<Label>) -> Seq<LabelView> {
    Seq::new(labels.len(), |j: int| labels[j]@)
}

/// The values of a sequence of entries.
pub open spec fn entries_view(entries: Seq<OptionEntry>) -> Seq<EntryView> {
    Seq::new(entries.len(), |i: int| entries[i]@)
}

/// The largest entry position that a reference can name.
pub const MAX_TARGET_ENTRY: usize = 65535;

/// The largest label position that a reference can name.
pub const MAX_TARGET_LABEL: usize = 255;

/// The first position at or after `from`, among those a reference can name,
/// where `labels` stores `segment` in place.
pub open spec fn first_in_labels(labels: Seq<LabelView>, segment: Seq<u8>, from: int) -> Option<
    int,
>
    decreases labels.len() - from,
{
    if from < 0 || from >= labels.len() || from > MAX_TARGET_LABEL {
        None
    } else if labels[from] == LabelView::InPlace(segment) {
        Some(from)
    } else {
        first_in_labels(labels, segment, from + 1)
    }
}

/// The first in-place occurrence of `segment` in the entries at or after
/// `from`, in insertion order and then label order, among the positions a
/// reference can name.
pub open spec fn first_in_place_from(entries: Seq<EntryView>, segment: Seq<u8>, from: int) -> Option<
    Reference,
>
    decreases entries.len() - from,
{
    if from < 0 || from >= entries.len() || from > MAX_TARGET_ENTRY {
        None
    } else {
        match first_in_labels(entries[from].labels, segment, 0) {
            Some(l) => Some(Reference { option_idx: from as u16, label_idx: l as u8 }),
            None => first_in_place_from(entries, segment, from + 1),
        }
    }
}

/// The deduplication target of `segment`: its first in-place occurrence.
pub open spec fn first_in_place(entries: Seq<EntryView>, segment: Seq<u8>) -> Option<Reference> {
    first_in_place_from(entries, segment, 0)
}

/// The label the builder emits for `segment` when `prior` is already stored.
pub open spec fn encode_label(prior: Seq<EntryView>, segment: Seq<u8>) -> LabelView {
    match first_in_place(prior, segment) {
        Some(target) => LabelView::Reference(target),
        None => LabelView::InPlace(segment),
    }
}

/// The labels the builder emits for the segments of one name. Every segment is
/// matched against `prior` only, never against its own siblings.
pub open spec fn encode_labels(prior: Seq<EntryView>, segments: Seq<Seq<u8>>) -> Seq<LabelView> {
    Seq::new(segments.len(), |j: int| encode_label(prior, segments[j]))
}

/// The entry that pushing `name` into `scope_id` appends when `prior` is stored.
pub open spec fn pushed_entry(prior: Seq<EntryView>, scope_id: u8, name: Seq<u8>) -> EntryView {
    EntryView { scope_id, labels: encode_labels(prior, split(name, DOT)) }
}

/// What dereferencing `reference` yields: the literal at its target, or the
/// reason why there is none.
pub open spec fn resolve(entries: Seq<EntryView>, reference: Reference) -> Result<
    Seq<u8>,
    IxxError,
> {
    if reference.option_idx >= entries.len() {
        Err(IxxError::ReferenceOutOfBounds)
    } else if reference.label_idx >= entries[reference.option_idx as int].labels.len() {
        Err(IxxError::ReferenceOutOfBounds)
    } else {
        match entries[reference.option_idx as int].labels[reference.label_idx as int] {
            LabelView::InPlace(text) => Ok(text),
            LabelView::Reference(_) => Err(IxxError::RecursiveReference),
        }
    }
}

/// The bytes a label stands for, following at most one indirection.
pub open spec fn label_bytes(entries: Seq<EntryView>, label: LabelView) -> Result<
    Seq<u8>,
    IxxError,
> {
    match label {
        LabelView::InPlace(text) => Ok(text),
        LabelView::Reference(reference) => resolve(entries, reference),
    }
}

/// The bytes a label stands for, as text: they must be valid UTF-8.
pub open spec fn label_text(entries: Seq<EntryView>, label: LabelView) -> Result<
    Seq<u8>,
    IxxError,
> {
    match label_bytes(entries, label) {
        Ok(text) => if valid_utf8(text) {
            Ok(text)
        } else {
            Err(IxxError::InvalidUtf8)
        },
        Err(e) => Err(e),
    }
}

/// The texts of all labels in order, or the error of the first label that has none.
pub open spec fn labels_texts(entries: Seq<EntryView>, labels: Seq<LabelView>) -> Result<
    Seq<Seq<u8>>,
    IxxError,
>
    decreases labels.len(),
{
    if labels.len() == 0 {
        Ok(Seq::<Seq<u8>>::empty())
    } else {
        match labels_texts(entries, labels.drop_last()) {
            Err(e) => Err(e),
            Ok(texts) => match label_text(entries, labels.last()) {
                Err(e) => Err(e),
                Ok(text) => Ok(texts.push(text)),
            },
        }
    }
}

/// The canonical name of an entry: the texts of its labels joined with dots.
pub open spec fn entry_name(entries: Seq<EntryView>, labels: Seq<LabelView>) -> Result<
    Seq<u8>,
    IxxError,
> {
    match labels_texts(entries, labels) {
        Ok(texts) => Ok(join(texts, DOT)),
        Err(e) => Err(e),
    }
}

/// A label as the builder emits it when `prior` is stored: a literal whose
/// text `prior` does not store, or a reference to the first literal in `prior`
/// with its text.
pub open spec fn label_canonical(prior: Seq<EntryView>, label: LabelView) -> bool {
    match label {
        LabelView::InPlace(text) => first_in_place(prior, text) is None,
        LabelView::Reference(reference) => match resolve(prior, reference) {
            Ok(text) => first_in_place(prior, text) == Some(reference),
            Err(_) => false,
        },
    }
}

/// The label at position `j` of entry `i` is as the builder emits it.
pub open spec fn canonical_at(entries: Seq<EntryView>, i: int, j: int) -> bool {
    label_canonical(entries.take(i), entries[i].labels[j])
}

/// The invariant of an index that was built by pushing names: every label is
/// as the builder emits it, given the entries before its own.
pub open spec fn canonical(entries: Seq<EntryView>) -> bool {
    forall|i: int, j: int|
        0 <= i < entries.len() && 0 <= j < entries[i].labels.len() ==> #[trigger] canonical_at(
            entries,
            i,
            j,
        )
}

/// Whether an entry's labels are, position by position, the expected
/// identities: a literal must itself sit at the expected position, a reference
/// must point at it.
pub open spec fn labels_match(option_idx: int, labels: Seq<LabelView>, search: Seq<Reference>) -> bool {
    &&& labels.len() == search.len()
    &&& forall|j: int|
        0 <= j < labels.len() ==> label_matches(option_idx, j, #[trigger] labels[j], search[j])
}

/// One position of [`labels_match`].
pub open spec fn label_matches(option_idx: int, label_idx: int, label: LabelView, expected: Reference) -> bool {
    match label {
        LabelView::InPlace(_) => option_idx == expected.option_idx && label_idx
            == expected.label_idx,
        LabelView::Reference(reference) => reference == expected,
    }
}

/// Whether every segment has a deduplication target.
pub open spec fn all_known(entries: Seq<EntryView>, segments: Seq<Seq<u8>>) -> bool {
    forall|j: int| 0 <= j < segments.len() ==> first_in_place(entries, #[trigger] segments[j]) is Some
}

/// The deduplication targets of the segments, where each has one.
pub open spec fn expected_refs(entries: Seq<EntryView>, segments: Seq<Seq<u8>>) -> Seq<Reference> {
    Seq::new(segments.len(), |j: int| first_in_place(entries, segments[j]).unwrap())
}

/// Whether `scope_id` passes the optional filter.
pub open spec fn in_scope(filter: Option<u8>, scope_id: u8) -> bool {
    match filter {
        Some(wanted) => wanted == scope_id,
        None => true,
    }
}

/// The first entry at or after `from`, inside the filter, whose labels are
/// exactly `search`.
pub open spec fn first_match_from(
    entries: Seq<EntryView>,
    filter: Option<u8>,
    search: Seq<Reference>,
    from: int,
) -> Option<int>
    decreases entries.len() - from,
{
    if from < 0 || from >= entries.len() {
        None
    } else if in_scope(filter, entries[from].scope_id) && labels_match(
        from,
        entries[from].labels,
        search,
    ) {
        Some(from)
    } else {
        first_match_from(entries, filter, search, from + 1)
    }
}

/// The result of an exact lookup of a name given by its segments: none if a
/// segment is stored nowhere, else the first entry inside the filter whose
/// labels are the segments' deduplication targets.
pub open spec fn lookup(entries: Seq<EntryView>, filter: Option<u8>, segments: Seq<Seq<u8>>) -> Option<
    int,
> {
    if all_known(entries, segments) {
        first_match_from(entries, filter, expected_refs(entries, segments), 0)
    } else {
        None
    }
}

/// Finds the deduplication target of `segment` among the stored entries.
pub fn find_in_place(entries: &Vec<OptionEntry>, segment: &[u8]) -> (target: Option<Reference>)
    ensures
        target == first_in_place(entries_view(entries@), segment@),
{
    let ghost ev = entries_view(entries@);
    let mut e: usize = 0;
    while e < entries.len() && e <= MAX_TARGET_ENTRY
        invariant
            e <= entries.len(),
            ev == entries_view(entries@),
            first_in_place(ev, segment@) == first_in_place_from(ev, segment@, e as int),
        decreases entries.len() - e,
    {
        let labels = &entries[e].labels;
        let ghost lv = labels_view(labels@);
        assert(ev[e as int].labels == lv);
        let mut l: usize = 0;
        while l < labels.len() && l <= MAX_TARGET_LABEL
            invariant
                l <= labels.len(),
                e < entries.len(),
                e <= MAX_TARGET_ENTRY,
                lv == labels_view(labels@),
                ev == entries_view(entries@),
                ev[e as int].labels == lv,
                first_in_place(ev, segment@) == first_in_place_from(ev, segment@, e as int),
                first_in_labels(lv, segment@, 0) == first_in_labels(lv, segment@, l as int),
            decreases labels.len() - l,
        {
            let same = match &labels[l] {
                Label::InPlace(text) => bytes_eq(text.as_slice(), segment),
                Label::Reference(_) => false,
            };
            assert(same == (lv[l as int] == LabelView::InPlace(segment@)));
            if same {
                return Some(Reference { option_idx: e as u16, label_idx: l as u8 });
            }
            l += 1;
        }
        e += 1;
    }
    None
}

/// Whether the labels of the entry at `option_idx` are exactly `search`.
pub fn do_labels_match(option_idx: usize, option: &[Label], search: &[Reference]) -> (same: bool)
    ensures
        same == labels_match(option_idx as int, labels_view(option@), search@),
{
    if option.len() != search.len() {
        return false;
    }
    let ghost lv = labels_view(option@);
    let mut j: usize = 0;
    while j < option.len()
        invariant
            j <= option.len(),
            option.len() == search.len(),
            lv == labels_view(option@),
            forall|k: int|
                0 <= k < j ==> label_matches(option_idx as int, k, #[trigger] lv[k], search@[k]),
        decreases option.len() - j,
    {
        let expected = search[j];
        let ok = match &option[j] {
            Label::InPlace(_) => option_idx == expected.option_idx as usize && j
                == expected.label_idx as usize,
            Label::Reference(reference) => reference.option_idx == expected.option_idx
                && reference.label_idx == expected.label_idx,
        };
        assert(ok == label_matches(option_idx as int, j as int, lv[j as int], search@[j as int]));
        if !ok {
            return false;
        }
        j += 1;
    }
    true
}

} // verus!

verus! {

/// Dereferences `reference`: the literal at its target, borrowed from the store.
pub fn resolve_in<'a>(entries: &'a Vec<OptionEntry>, reference: &Reference) -> (found: Result<
    &'a Vec<u8>,
    IxxError,
>)
    ensures
        match resolve(entries_view(entries@), *reference) {
            Ok(text) => found is Ok && found.unwrap()@ == text,
            Err(e) => found == Err::<&Vec<u8>, IxxError>(e),
        },
{
    let option_idx = reference.option_idx as usize;
    if entries.len() <= option_idx {
        return Err(IxxError::ReferenceOutOfBounds);
    }
    let labels = &entries[option_idx].labels;
    assert(entries_view(entries@)[option_idx as int].labels == labels_view(labels@));
    let label_idx = reference.label_idx as usize;
    if labels.len() <= label_idx {
        return Err(IxxError::ReferenceOutOfBounds);
    }
    match &labels[label_idx] {
        Label::InPlace(text) => Ok(text),
        Label::Reference(_) => Err(IxxError::RecursiveReference),
    }
}

/// The labels for the segments of a new name, each deduplicated against the
/// stored entries.
pub fn build_labels(entries: &Vec<OptionEntry>, segments: Vec<Vec<u8>>) -> (labels: Vec<Label>)
    ensures
        labels_view(labels@) == encode_labels(entries_view(entries@), parts_view(segments@)),
{
    let ghost ev = entries_view(entries@);
    let ghost sv = parts_view(segments@);
    let mut labels: Vec<Label> = Vec::new();
    let mut j: usize = 0;
    while j < segments.len()
        invariant
            j <= segments.len(),
            labels@.len() == j,
            ev == entries_view(entries@),
            sv == parts_view(segments@),
            forall|k: int| 0 <= k < j ==> (#[trigger] labels@[k])@ == encode_label(ev, sv[k]),
        decreases segments.len() - j,
    {
        let label = match find_in_place(entries, segments[j].as_slice()) {
            Some(target) => Label::Reference(target),
            None => Label::InPlace(bytes_to_vec(segments[j].as_slice())),
        };
        assert(label@ == encode_label(ev, sv[j as int]));
        labels.push(label);
        j += 1;
    }
    assert(labels_view(labels@) =~= encode_labels(ev, sv));
    labels
}

/// The deduplication targets of all segments, or nothing if one has none.
pub fn expected_targets(entries: &Vec<OptionEntry>, segments: &Vec<Vec<u8>>) -> (targets: Option<
    Vec<Reference>,
>)
    ensures
        match targets {
            Some(found) => all_known(entries_view(entries@), parts_view(segments@)) && found@
                == expected_refs(entries_view(entries@), parts_view(segments@)),
            None => !all_known(entries_view(entries@), parts_view(segments@)),
        },
{
    let ghost ev = entries_view(entries@);
    let ghost sv = parts_view(segments@);
    let mut found: Vec<Reference> = Vec::new();
    let mut j: usize = 0;
    while j < segments.len()
        invariant
            j <= segments.len(),
            found@.len() == j,
            ev == entries_view(entries@),
            sv == parts_view(segments@),
            forall|k: int|
                0 <= k < j ==> first_in_place(ev, #[trigger] sv[k]) == Some(found@[k]),
        decreases segments.len() - j,
    {
        match find_in_place(entries, segments[j].as_slice()) {
            Some(target) => {
                found.push(target);
            },
            None => {
                assert(first_in_place(ev, sv[j as int]) is None);
                return None;
            },
        }
        j += 1;
    }
    assert(found@ =~= expected_refs(ev, sv));
    Some(found)
}

/// Exact lookup among the stored entries of a name given by its segments.
pub fn lookup_in(entries: &Vec<OptionEntry>, filter: Option<u8>, segments: &Vec<Vec<u8>>) -> (found:
    Option<usize>)
    ensures
        match found {
            Some(i) => lookup(entries_view(entries@), filter, parts_view(segments@)) == Some(
                i as int,
            ),
            None => lookup(entries_view(entries@), filter, parts_view(segments@)) is None,
        },
{
    let ghost ev = entries_view(entries@);
    let search = match expected_targets(entries, segments) {
        Some(search) => search,
        None => {
            return None;
        },
    };
    let mut i: usize = 0;
    while i < entries.len()
        invariant
            i <= entries.len(),
            ev == entries_view(entries@),
            all_known(ev, parts_view(segments@)),
            search@ == expected_refs(ev, parts_view(segments@)),
            first_match_from(ev, filter, search@, 0) == first_match_from(
                ev,
                filter,
                search@,
                i as int,
            ),
        decreases entries.len() - i,
    {
        let entry = &entries[i];
        assert(ev[i as int] == entry@);
        let inside = match filter {
            Some(wanted) => wanted == entry.scope_id,
            None => true,
        };
        if inside && do_labels_match(i, entry.labels.as_slice(), search.as_slice()) {
            return Some(i);
        }
        i += 1;
    }
    None
}

} // verus!
