use vstd::prelude::*;

verus! {

/// The byte `.` that separates the segments of a name.
pub const DOT: u8 = 0x2e;

/// The byte `*` that separates the segments of a query.
pub const STAR: u8 = 0x2a;

/// The views of a vector of byte strings.
pub open spec fn parts_view(parts: Seq<Vec<u8>>) -> Seq<Seq<u8>> {
    Seq::new(parts.len(), |i: int| parts[i]@)
}

/// The pieces of `s` between occurrences of `sep`. There is always at least one
/// piece; an empty piece stands for two adjacent separators or one at an end.
pub open spec fn split(s: Seq<u8>, sep: u8) -> Seq<Seq<u8>>
    decreases s.len(),
{
    if s.len() == 0 {
        seq![Seq::<u8>::empty()]
    } else {
        let init = split(s.drop_last(), sep);
        if s.last() == sep {
            init.push(Seq::<u8>::empty())
        } else {
            init.drop_last().push(init.last().push(s.last()))
        }
    }
}

/// The pieces joined with `sep` between neighbours.
pub open spec fn join(parts: Seq<Seq<u8>>, sep: u8) -> Seq<u8>
    decreases parts.len(),
{
    if parts.len() == 0 {
        Seq::<u8>::empty()
    } else if parts.len() == 1 {
        parts[0]
    } else {
        join(parts.drop_last(), sep).push(sep) + parts.last()
    }
}

/// `needle` stands in `hay` at position `p`.
pub open spec fn occurs_at(hay: Seq<u8>, needle: Seq<u8>, p: int) -> bool {
    &&& 0 <= p
    &&& p + needle.len() <= hay.len()
    &&& hay.subrange(p, p + needle.len()) == needle
}

/// The least position at or after `from` where `needle` stands in `hay`.
pub open spec fn first_occurrence(hay: Seq<u8>, needle: Seq<u8>, from: int) -> Option<int>
    decreases hay.len() + 1 - from,
{
    if from < 0 || from + needle.len() > hay.len() {
        None
    } else if occurs_at(hay, needle, from) {
        Some(from)
    } else {
        first_occurrence(hay, needle, from + 1)
    }
}

/// Ordered, non-overlapping substring match: each segment is found at or after
/// the end of the match of the one before it, starting at `cursor`.
pub open spec fn matches_from(hay: Seq<u8>, segments: Seq<Seq<u8>>, cursor: int) -> bool
    decreases segments.len(),
{
    if segments.len() == 0 {
        true
    } else {
        match first_occurrence(hay, segments[0], cursor) {
            Some(p) => matches_from(hay, segments.drop_first(), p + segments[0].len()),
            None => false,
        }
    }
}

/// `split` never yields an empty list.
pub proof fn lemma_split_nonempty(s: Seq<u8>, sep: u8)
    ensures
        split(s, sep).len() >= 1,
    decreases s.len(),
{
    if s.len() > 0 {
        lemma_split_nonempty(s.drop_last(), sep);
    }
}

/// Joining the pieces of a split gives the sequence back.
pub proof fn lemma_join_split(s: Seq<u8>, sep: u8)
    ensures
        join(split(s, sep), sep) == s,
    decreases s.len(),
{
    if s.len() == 0 {
    } else {
        let init = split(s.drop_last(), sep);
        lemma_split_nonempty(s.drop_last(), sep);
        lemma_join_split(s.drop_last(), sep);
        if s.last() == sep {
            let all = init.push(Seq::<u8>::empty());
            assert(all.drop_last() == init);
            assert(join(all, sep) == join(init, sep).push(sep) + Seq::<u8>::empty());
            assert(join(all, sep) =~= s.drop_last().push(sep));
            assert(s.drop_last().push(sep) =~= s);
        } else {
            let grown = init.last().push(s.last());
            let all = init.drop_last().push(grown);
            assert(all.drop_last() == init.drop_last());
            if init.len() == 1 {
                assert(join(init, sep) == init[0]);
                assert(join(all, sep) == grown);
                assert(grown =~= s);
            } else {
                assert(join(init, sep) == join(init.drop_last(), sep).push(sep) + init.last());
                assert(join(all, sep) == join(init.drop_last(), sep).push(sep) + grown);
                assert(join(all, sep) =~= join(init, sep).push(s.last()));
                assert(s.drop_last().push(s.last()) =~= s);
            }
        }
    }
}

/// Whether two byte strings hold the same bytes.
pub fn bytes_eq(a: &[u8], b: &[u8]) -> (same: bool)
    ensures
        same == (a@ == b@),
{
    if a.len() != b.len() {
        return false;
    }
    let mut i: usize = 0;
    while i < a.len()
        invariant
            i <= a.len(),
            a.len() == b.len(),
            a@.take(i as int) == b@.take(i as int),
        decreases a.len() - i,
    {
        if a[i] != b[i] {
            return false;
        }
        assert(a@.take(i + 1) =~= a@.take(i as int).push(a@[i as int]));
        assert(b@.take(i + 1) =~= b@.take(i as int).push(b@[i as int]));
        i += 1;
    }
    assert(a@.take(a@.len() as int) =~= a@);
    assert(b@.take(b@.len() as int) =~= b@);
    true
}

/// A copy of a byte string.
pub fn bytes_to_vec(s: &[u8]) -> (copy: Vec<u8>)
    ensures
        copy@ == s@,
{
    let mut copy: Vec<u8> = Vec::new();
    let mut i: usize = 0;
    while i < s.len()
        invariant
            i <= s.len(),
            copy@ == s@.take(i as int),
        decreases s.len() - i,
    {
        copy.push(s[i]);
        assert(s@.take(i + 1) =~= s@.take(i as int).push(s@[i as int]));
        i += 1;
    }
    assert(s@.take(s@.len() as int) =~= s@);
    copy
}

/// Splits a byte string at every occurrence of `sep`.
pub fn split_bytes(s: &[u8], sep: u8) -> (parts: Vec<Vec<u8>>)
    ensures
        parts_view(parts@) == split(s@, sep),
        parts@.len() >= 1,
{
    let mut parts: Vec<Vec<u8>> = Vec::new();
    let mut cur: Vec<u8> = Vec::new();
    let mut j: usize = 0;
    while j < s.len()
        invariant
            j <= s.len(),
            parts_view(parts@).push(cur@) == split(s@.take(j as int), sep),
        decreases s.len() - j,
    {
        let ghost before = s@.take(j as int);
        let ghost after = s@.take(j + 1);
        let ghost old_parts = parts_view(parts@);
        let ghost old_cur = cur@;
        assert(after.drop_last() =~= before);
        assert(after.last() == s@[j as int]);
        if s[j] == sep {
            parts.push(cur);
            cur = Vec::new();
            assert(parts_view(parts@) =~= old_parts.push(old_cur));
        } else {
            cur.push(s[j]);
            assert(old_parts.push(old_cur).drop_last() =~= old_parts);
        }
        j += 1;
    }
    assert(s@.take(s@.len() as int) =~= s@);
    let ghost old_parts = parts_view(parts@);
    parts.push(cur);
    assert(parts_view(parts@) =~= old_parts.push(cur@));
    parts
}

/// The least position at or after `from` where `needle` stands in `hay`.
pub fn find_from(hay: &[u8], needle: &[u8], from: usize) -> (found: Option<usize>)
    ensures
        match found {
            Some(p) => first_occurrence(hay@, needle@, from as int) == Some(p as int),
            None => first_occurrence(hay@, needle@, from as int) is None,
        },
{
    if needle.len() > hay.len() || from > hay.len() - needle.len() {
        return None;
    }
    let last: usize = hay.len() - needle.len();
    let mut p: usize = from;
    while p <= last
        invariant
            from <= p <= last + 1,
            last == hay.len() - needle.len(),
            needle.len() <= hay.len(),
            first_occurrence(hay@, needle@, from as int) == first_occurrence(
                hay@,
                needle@,
                p as int,
            ),
        decreases last + 1 - p,
    {
        let mut k: usize = 0;
        while k < needle.len() && hay[p + k] == needle[k]
            invariant
                k <= needle.len(),
                p <= last,
                last == hay.len() - needle.len(),
                needle.len() <= hay.len(),
                hay@.subrange(p as int, p + k) == needle@.take(k as int),
            decreases needle.len() - k,
        {
            assert(hay@.subrange(p as int, p + k + 1) =~= hay@.subrange(p as int, p + k).push(
                hay@[p + k],
            ));
            assert(needle@.take(k + 1) =~= needle@.take(k as int).push(needle@[k as int]));
            k += 1;
        }
        if k == needle.len() {
            assert(needle@.take(k as int) =~= needle@);
            return Some(p);
        }
        proof {
            let window = hay@.subrange(p as int, p + needle@.len());
            assert(window[k as int] == hay@[p + k]);
            assert(window != needle@);
        }
        p += 1;
    }
    None
}

/// Ordered, non-overlapping substring match of every segment in turn, the
/// cursor starting at the front of `hay`.
pub fn matches_segments(hay: &[u8], segments: &Vec<Vec<u8>>) -> (hit: bool)
    ensures
        hit == matches_from(hay@, parts_view(segments@), 0),
{
    let ghost segs = parts_view(segments@);
    let mut cursor: usize = 0;
    let mut k: usize = 0;
    assert(segs.skip(0) =~= segs);
    while k < segments.len()
        invariant
            k <= segments.len(),
            segs == parts_view(segments@),
            cursor <= hay.len(),
            matches_from(hay@, segs, 0) == matches_from(hay@, segs.skip(k as int), cursor as int),
        decreases segments.len() - k,
    {
        assert(segs.skip(k as int)[0] == segments@[k as int]@);
        assert(segs.skip(k as int).drop_first() =~= segs.skip(k + 1));
        match find_from(hay, segments[k].as_slice(), cursor) {
            Some(p) => {
                proof {
                    lemma_first_occurrence_fits(hay@, segments@[k as int]@, cursor as int);
                }
                cursor = p + segments[k].len();
            },
            None => {
                return false;
            },
        }
        k += 1;
    }
    true
}

/// A found occurrence lies at or after the cursor and inside the haystack.
pub proof fn lemma_first_occurrence_fits(hay: Seq<u8>, needle: Seq<u8>, from: int)
    ensures
        match first_occurrence(hay, needle, from) {
            Some(p) => from <= p && occurs_at(hay, needle, p),
            None => true,
        },
    decreases hay.len() + 1 - from,
{
    if from < 0 || from + needle.len() > hay.len() {
    } else if occurs_at(hay, needle, from) {
    } else {
        lemma_first_occurrence_fits(hay, needle, from + 1);
    }
}

} // verus!

verus! {

/// A sequence without the separator is its own single piece.
pub proof fn lemma_split_no_sep(c: Seq<u8>, sep: u8)
    requires
        forall|k: int| 0 <= k < c.len() ==> #[trigger] c[k] != sep,
    ensures
        split(c, sep) == seq![c],
    decreases c.len(),
{
    if c.len() == 0 {
        assert(c =~= Seq::<u8>::empty());
    } else {
        let init = c.drop_last();
        assert forall|k: int| 0 <= k < init.len() implies #[trigger] init[k] != sep by {
            assert(init[k] == c[k]);
        }
        lemma_split_no_sep(init, sep);
        assert(c[c.len() - 1] != sep);
        assert(init.push(c.last()) =~= c);
        assert(seq![init].drop_last().push(seq![init].last().push(c.last())) =~= seq![c]);
    }
}

/// A front without the separator joins the first piece of what follows it.
pub proof fn lemma_split_prefix(c: Seq<u8>, t: Seq<u8>, sep: u8)
    requires
        forall|k: int| 0 <= k < c.len() ==> #[trigger] c[k] != sep,
    ensures
        split(t, sep).len() >= 1,
        split(c + t, sep) == seq![c + split(t, sep)[0]] + split(t, sep).drop_first(),
    decreases t.len(),
{
    lemma_split_nonempty(t, sep);
    if t.len() == 0 {
        assert(c + t =~= c);
        lemma_split_no_sep(c, sep);
        assert(c + Seq::<u8>::empty() =~= c);
        assert(split(t, sep) =~= seq![Seq::<u8>::empty()]);
        assert(seq![c + split(t, sep)[0]] + split(t, sep).drop_first() =~= seq![c]);
    } else {
        let x = t.last();
        let i = split(t.drop_last(), sep);
        let j = split(c + t.drop_last(), sep);
        lemma_split_prefix(c, t.drop_last(), sep);
        assert((c + t).drop_last() =~= c + t.drop_last());
        assert((c + t).last() == x);
        if x == sep {
            assert(j.push(Seq::<u8>::empty()) =~= seq![c + i[0]] + i.push(
                Seq::<u8>::empty(),
            ).drop_first());
        } else {
            let grown = i.drop_last().push(i.last().push(x));
            if i.len() == 1 {
                assert((c + i[0]).push(x) =~= c + i[0].push(x));
                assert(j.drop_last().push(j.last().push(x)) =~= seq![c + grown[0]]
                    + grown.drop_first());
            } else {
                assert(j.last() == i.last());
                assert(j.drop_last().push(j.last().push(x)) =~= seq![c + grown[0]]
                    + grown.drop_first());
            }
        }
    }
}

/// A separator at the front yields an empty first piece.
pub proof fn lemma_split_sep_first(t: Seq<u8>, sep: u8)
    ensures
        split(seq![sep] + t, sep) == seq![Seq::<u8>::empty()] + split(t, sep),
    decreases t.len(),
{
    let c = seq![sep];
    lemma_split_nonempty(t, sep);
    if t.len() == 0 {
        assert(c + t =~= c);
        assert(c.drop_last() =~= Seq::<u8>::empty());
        assert(split(c.drop_last(), sep) =~= seq![Seq::<u8>::empty()]);
        assert(c.last() == sep);
        assert(split(c, sep) =~= seq![Seq::<u8>::empty(), Seq::<u8>::empty()]);
        assert(seq![Seq::<u8>::empty()] + split(t, sep) =~= seq![
            Seq::<u8>::empty(),
            Seq::<u8>::empty(),
        ]);
    } else {
        let x = t.last();
        let i = split(t.drop_last(), sep);
        let j = split(c + t.drop_last(), sep);
        lemma_split_sep_first(t.drop_last(), sep);
        lemma_split_nonempty(t.drop_last(), sep);
        assert((c + t).drop_last() =~= c + t.drop_last());
        assert((c + t).last() == x);
        if x == sep {
            assert(j.push(Seq::<u8>::empty()) =~= seq![Seq::<u8>::empty()] + i.push(
                Seq::<u8>::empty(),
            ));
        } else {
            assert(j.last() == i.last());
            assert(j.drop_last().push(j.last().push(x)) =~= seq![Seq::<u8>::empty()]
                + i.drop_last().push(i.last().push(x)));
        }
    }
}

} // verus!
