use vstd::prelude::*;
use crate::index::{IndexView, Meta, MetaView};
use crate::model::{
    entries_view, labels_view, EntryView, Label, LabelView, OptionEntry, Reference,
};
use crate::text::parts_view;

verus! {

/// The tag byte `0` in front of a literal label.
pub const TAG_IN_PLACE: u8 = 0x30;

/// The tag byte `1` in front of a reference label.
pub const TAG_REFERENCE: u8 = 0x31;

/// The five bytes `ixx01` every index starts with.
pub open spec fn magic() -> Seq<u8> {
    seq![0x69u8, 0x78u8, 0x78u8, 0x30u8, 0x31u8]
}

/// A 16-bit number as two bytes, low byte first.
pub open spec fn le16(x: u16) -> Seq<u8> {
    seq![(x % 256) as u8, (x / 256) as u8]
}

/// A 32-bit number as four bytes, low byte first.
pub open spec fn le32(x: u32) -> Seq<u8> {
    seq![
        (x % 256) as u8,
        ((x / 256) % 256) as u8,
        ((x / 65536) % 256) as u8,
        (x / 16777216) as u8,
    ]
}

/// The number that two bytes hold, low byte first.
pub open spec fn from_le16(b0: u8, b1: u8) -> u16 {
    (b0 + b1 * 256) as u16
}

/// The number that four bytes hold, low byte first.
pub open spec fn from_le32(b0: u8, b1: u8, b2: u8, b3: u8) -> u32 {
    (b0 + b1 * 256 + b2 * 65536 + b3 * 16777216) as u32
}

/// A string followed by its terminating zero byte.
pub open spec fn enc_cstr(s: Seq<u8>) -> Seq<u8> {
    s.push(0u8)
}

/// The binary form of one label.
pub open spec fn enc_label(label: LabelView) -> Seq<u8> {
    match label {
        LabelView::InPlace(text) => seq![TAG_IN_PLACE] + enc_cstr(text),
        LabelView::Reference(r) => seq![TAG_REFERENCE] + le16(r.option_idx) + seq![r.label_idx],
    }
}

/// The binary forms of labels, one after the other.
pub open spec fn enc_labels(labels: Seq<LabelView>) -> Seq<u8>
    decreases labels.len(),
{
    if labels.len() == 0 {
        Seq::<u8>::empty()
    } else {
        enc_labels(labels.drop_last()) + enc_label(labels.last())
    }
}

/// The binary form of one entry: scope, label count, labels.
pub open spec fn enc_entry(entry: EntryView) -> Seq<u8> {
    seq![entry.scope_id] + le16(entry.labels.len() as u16) + enc_labels(entry.labels)
}

/// The binary forms of entries, one after the other.
pub open spec fn enc_entries(entries: Seq<EntryView>) -> Seq<u8>
    decreases entries.len(),
{
    if entries.len() == 0 {
        Seq::<u8>::empty()
    } else {
        enc_entries(entries.drop_last()) + enc_entry(entries.last())
    }
}

/// Zero-terminated strings, one after the other.
pub open spec fn enc_strs(strs: Seq<Seq<u8>>) -> Seq<u8>
    decreases strs.len(),
{
    if strs.len() == 0 {
        Seq::<u8>::empty()
    } else {
        enc_strs(strs.drop_last()) + enc_cstr(strs.last())
    }
}

/// The binary form of an index: magic, chunk size, scope table, entries.
pub open spec fn enc_index(index: IndexView) -> Seq<u8> {
    magic() + le32(index.meta.chunk_size) + seq![index.meta.scopes.len() as u8] + enc_strs(
        index.meta.scopes,
    ) + le32(index.entries.len() as u32) + enc_entries(index.entries)
}

/// A string without a zero byte: only such a string can be zero-terminated.
pub open spec fn no_nul(s: Seq<u8>) -> bool {
    forall|i: int| 0 <= i < s.len() ==> #[trigger] s[i] != 0
}

/// A label the binary form can carry.
pub open spec fn label_encodable(label: LabelView) -> bool {
    match label {
        LabelView::InPlace(text) => no_nul(text),
        LabelView::Reference(_) => true,
    }
}

/// An entry the binary form can carry.
pub open spec fn entry_encodable(entry: EntryView) -> bool {
    &&& entry.labels.len() <= u16::MAX
    &&& forall|j: int| 0 <= j < entry.labels.len() ==> label_encodable(#[trigger] entry.labels[j])
}

/// An index the binary form can carry: every count fits its field and no
/// string holds a zero byte.
pub open spec fn encodable(index: IndexView) -> bool {
    &&& index.meta.scopes.len() <= u8::MAX
    &&& forall|k: int| 0 <= k < index.meta.scopes.len() ==> no_nul(#[trigger] index.meta.scopes[k])
    &&& index.entries.len() <= u32::MAX
    &&& forall|i: int| 0 <= i < index.entries.len() ==> entry_encodable(#[trigger] index.entries[i])
}

/// The position of the first zero byte at or after `from`.
pub open spec fn nul_from(b: Seq<u8>, from: int) -> Option<int>
    decreases b.len() - from,
{
    if from < 0 || from >= b.len() {
        None
    } else if b[from] == 0 {
        Some(from)
    } else {
        nul_from(b, from + 1)
    }
}

/// Reads a zero-terminated string at `pos`: the string and the position after it.
pub open spec fn dec_cstr(b: Seq<u8>, pos: int) -> Option<(Seq<u8>, int)> {
    match nul_from(b, pos) {
        Some(z) => Some((b.subrange(pos, z), z + 1)),
        None => None,
    }
}

/// Reads one label at `pos`.
pub open spec fn dec_label(b: Seq<u8>, pos: int) -> Option<(LabelView, int)> {
    if pos < 0 || pos >= b.len() {
        None
    } else if b[pos] == TAG_IN_PLACE {
        match dec_cstr(b, pos + 1) {
            Some((text, next)) => Some((LabelView::InPlace(text), next)),
            None => None,
        }
    } else if b[pos] == TAG_REFERENCE && pos + 4 <= b.len() {
        Some(
            (
                LabelView::Reference(
                    Reference { option_idx: from_le16(b[pos + 1], b[pos + 2]), label_idx: b[pos + 3] },
                ),
                pos + 4,
            ),
        )
    } else {
        None
    }
}

/// Reads `n` labels at `pos`.
pub open spec fn dec_labels(b: Seq<u8>, pos: int, n: nat) -> Option<(Seq<LabelView>, int)>
    decreases n,
{
    if n == 0 {
        Some((Seq::<LabelView>::empty(), pos))
    } else {
        match dec_labels(b, pos, (n - 1) as nat) {
            None => None,
            Some((labels, mid)) => match dec_label(b, mid) {
                None => None,
                Some((label, next)) => Some((labels.push(label), next)),
            },
        }
    }
}

/// Reads one entry at `pos`.
pub open spec fn dec_entry(b: Seq<u8>, pos: int) -> Option<(EntryView, int)> {
    if pos < 0 || pos + 3 > b.len() {
        None
    } else {
        match dec_labels(b, pos + 3, from_le16(b[pos + 1], b[pos + 2]) as nat) {
            Some((labels, next)) => Some((EntryView { scope_id: b[pos], labels }, next)),
            None => None,
        }
    }
}

/// Reads `n` entries at `pos`.
pub open spec fn dec_entries(b: Seq<u8>, pos: int, n: nat) -> Option<(Seq<EntryView>, int)>
    decreases n,
{
    if n == 0 {
        Some((Seq::<EntryView>::empty(), pos))
    } else {
        match dec_entries(b, pos, (n - 1) as nat) {
            None => None,
            Some((entries, mid)) => match dec_entry(b, mid) {
                None => None,
                Some((entry, next)) => Some((entries.push(entry), next)),
            },
        }
    }
}

/// Reads `n` zero-terminated strings at `pos`.
pub open spec fn dec_strs(b: Seq<u8>, pos: int, n: nat) -> Option<(Seq<Seq<u8>>, int)>
    decreases n,
{
    if n == 0 {
        Some((Seq::<Seq<u8>>::empty(), pos))
    } else {
        match dec_strs(b, pos, (n - 1) as nat) {
            None => None,
            Some((strs, mid)) => match dec_cstr(b, mid) {
                None => None,
                Some((s, next)) => Some((strs.push(s), next)),
            },
        }
    }
}

/// Reads the entry count and the entries at `pos`.
pub open spec fn dec_body(b: Seq<u8>, pos: int) -> Option<Seq<EntryView>> {
    if pos < 0 || pos + 4 > b.len() {
        None
    } else {
        match dec_entries(
            b,
            pos + 4,
            from_le32(b[pos], b[pos + 1], b[pos + 2], b[pos + 3]) as nat,
        ) {
            Some((entries, _)) => Some(entries),
            None => None,
        }
    }
}

/// Reads an index from the front of a byte stream. Bytes after the last entry
/// are not looked at.
pub open spec fn dec_index(b: Seq<u8>) -> Option<IndexView> {
    if b.len() < 10 || b.subrange(0, 5) != magic() {
        None
    } else {
        match dec_strs(b, 10, b[9] as nat) {
            None => None,
            Some((scopes, mid)) => match dec_body(b, mid) {
                None => None,
                Some(entries) => Some(
                    IndexView {
                        meta: MetaView {
                            chunk_size: from_le32(b[5], b[6], b[7], b[8]),
                            scopes,
                        },
                        entries,
                    },
                ),
            },
        }
    }
}

} // verus!

verus! {

/// Once reading labels has failed, asking for more labels fails too.
pub proof fn lemma_dec_labels_none(b: Seq<u8>, pos: int, k: nat, n: nat)
    requires
        k <= n,
        dec_labels(b, pos, k) is None,
    ensures
        dec_labels(b, pos, n) is None,
    decreases n,
{
    if k < n {
        lemma_dec_labels_none(b, pos, k, (n - 1) as nat);
    }
}

/// Once reading entries has failed, asking for more entries fails too.
pub proof fn lemma_dec_entries_none(b: Seq<u8>, pos: int, k: nat, n: nat)
    requires
        k <= n,
        dec_entries(b, pos, k) is None,
    ensures
        dec_entries(b, pos, n) is None,
    decreases n,
{
    if k < n {
        lemma_dec_entries_none(b, pos, k, (n - 1) as nat);
    }
}

/// Once reading strings has failed, asking for more strings fails too.
pub proof fn lemma_dec_strs_none(b: Seq<u8>, pos: int, k: nat, n: nat)
    requires
        k <= n,
        dec_strs(b, pos, k) is None,
    ensures
        dec_strs(b, pos, n) is None,
    decreases n,
{
    if k < n {
        lemma_dec_strs_none(b, pos, k, (n - 1) as nat);
    }
}

/// Reads two bytes at `pos` as a number, low byte first.
fn read_u16(buf: &[u8], pos: usize) -> (x: u16)
    requires
        pos + 2 <= buf.len(),
    ensures
        x == from_le16(buf@[pos as int], buf@[pos + 1]),
{
    let b0: u16 = buf[pos] as u16;
    let b1: u16 = buf[pos + 1] as u16;
    b0 + b1 * 256
}

/// Reads four bytes at `pos` as a number, low byte first.
fn read_u32(buf: &[u8], pos: usize) -> (x: u32)
    requires
        pos + 4 <= buf.len(),
    ensures
        x == from_le32(buf@[pos as int], buf@[pos + 1], buf@[pos + 2], buf@[pos + 3]),
{
    let b0: u32 = buf[pos] as u32;
    let b1: u32 = buf[pos + 1] as u32;
    let b2: u32 = buf[pos + 2] as u32;
    let b3: u32 = buf[pos + 3] as u32;
    b0 + b1 * 256 + b2 * 65536 + b3 * 16777216
}

/// Reads a zero-terminated string at `pos`.
fn read_cstr(buf: &[u8], pos: usize) -> (r: Option<(Vec<u8>, usize)>)
    ensures
        match r {
            Some((s, next)) => dec_cstr(buf@, pos as int) == Some((s@, next as int)) && next
                <= buf.len(),
            None => dec_cstr(buf@, pos as int) is None,
        },
{
    let mut z: usize = pos;
    while z < buf.len() && buf[z] != 0
        invariant
            pos <= z,
            nul_from(buf@, pos as int) == nul_from(buf@, z as int),
        decreases buf.len() - z,
    {
        z += 1;
    }
    if z >= buf.len() {
        return None;
    }
    let mut s: Vec<u8> = Vec::new();
    let mut i: usize = pos;
    while i < z
        invariant
            pos <= i <= z,
            z < buf.len(),
            s@ == buf@.subrange(pos as int, i as int),
        decreases z - i,
    {
        s.push(buf[i]);
        assert(buf@.subrange(pos as int, i + 1) =~= buf@.subrange(pos as int, i as int).push(
            buf@[i as int],
        ));
        i += 1;
    }
    Some((s, z + 1))
}

/// Reads one label at `pos`.
fn read_label(buf: &[u8], pos: usize) -> (r: Option<(Label, usize)>)
    ensures
        match r {
            Some((label, next)) => dec_label(buf@, pos as int) == Some((label@, next as int))
                && next <= buf.len(),
            None => dec_label(buf@, pos as int) is None,
        },
{
    if pos >= buf.len() {
        return None;
    }
    let tag = buf[pos];
    if tag == TAG_IN_PLACE {
        match read_cstr(buf, pos + 1) {
            Some((text, next)) => Some((Label::InPlace(text), next)),
            None => None,
        }
    } else if tag == TAG_REFERENCE && buf.len() - pos >= 4 {
        let option_idx = read_u16(buf, pos + 1);
        let label_idx = buf[pos + 3];
        Some((Label::Reference(Reference { option_idx, label_idx }), pos + 4))
    } else {
        None
    }
}

/// Reads `n` labels at `pos`.
fn read_labels(buf: &[u8], pos: usize, n: usize) -> (r: Option<(Vec<Label>, usize)>)
    ensures
        match r {
            Some((labels, next)) => dec_labels(buf@, pos as int, n as nat) == Some(
                (labels_view(labels@), next as int),
            ),
            None => dec_labels(buf@, pos as int, n as nat) is None,
        },
{
    let mut labels: Vec<Label> = Vec::new();
    let mut at: usize = pos;
    let mut k: usize = 0;
    assert(labels_view(labels@) =~= Seq::<LabelView>::empty());
    while k < n
        invariant
            k <= n,
            dec_labels(buf@, pos as int, k as nat) == Some((labels_view(labels@), at as int)),
        decreases n - k,
    {
        match read_label(buf, at) {
            Some((label, next)) => {
                let ghost before = labels_view(labels@);
                labels.push(label);
                assert(labels_view(labels@) =~= before.push(label@));
                at = next;
            },
            None => {
                proof {
                    lemma_dec_labels_none(buf@, pos as int, (k + 1) as nat, n as nat);
                }
                return None;
            },
        }
        k += 1;
    }
    Some((labels, at))
}

/// Reads one entry at `pos`.
fn read_entry(buf: &[u8], pos: usize) -> (r: Option<(OptionEntry, usize)>)
    ensures
        match r {
            Some((entry, next)) => dec_entry(buf@, pos as int) == Some((entry@, next as int)),
            None => dec_entry(buf@, pos as int) is None,
        },
{
    if pos > buf.len() || buf.len() - pos < 3 {
        return None;
    }
    let scope_id = buf[pos];
    let count = read_u16(buf, pos + 1);
    match read_labels(buf, pos + 3, count as usize) {
        Some((labels, next)) => Some((OptionEntry { scope_id, labels }, next)),
        None => None,
    }
}

/// Reads `n` entries at `pos`.
fn read_entries(buf: &[u8], pos: usize, n: usize) -> (r: Option<(Vec<OptionEntry>, usize)>)
    ensures
        match r {
            Some((entries, next)) => dec_entries(buf@, pos as int, n as nat) == Some(
                (entries_view(entries@), next as int),
            ),
            None => dec_entries(buf@, pos as int, n as nat) is None,
        },
{
    let mut entries: Vec<OptionEntry> = Vec::new();
    let mut at: usize = pos;
    let mut k: usize = 0;
    assert(entries_view(entries@) =~= Seq::<EntryView>::empty());
    while k < n
        invariant
            k <= n,
            dec_entries(buf@, pos as int, k as nat) == Some((entries_view(entries@), at as int)),
        decreases n - k,
    {
        match read_entry(buf, at) {
            Some((entry, next)) => {
                let ghost before = entries_view(entries@);
                entries.push(entry);
                assert(entries_view(entries@) =~= before.push(entry@));
                at = next;
            },
            None => {
                proof {
                    lemma_dec_entries_none(buf@, pos as int, (k + 1) as nat, n as nat);
                }
                return None;
            },
        }
        k += 1;
    }
    Some((entries, at))
}

/// Reads `n` zero-terminated strings at `pos`.
fn read_strs(buf: &[u8], pos: usize, n: usize) -> (r: Option<(Vec<Vec<u8>>, usize)>)
    requires
        pos <= buf.len(),
    ensures
        match r {
            Some((strs, next)) => dec_strs(buf@, pos as int, n as nat) == Some(
                (parts_view(strs@), next as int),
            ) && next <= buf.len(),
            None => dec_strs(buf@, pos as int, n as nat) is None,
        },
{
    let mut strs: Vec<Vec<u8>> = Vec::new();
    let mut at: usize = pos;
    let mut k: usize = 0;
    assert(parts_view(strs@) =~= Seq::<Seq<u8>>::empty());
    while k < n
        invariant
            k <= n,
            at <= buf.len(),
            dec_strs(buf@, pos as int, k as nat) == Some((parts_view(strs@), at as int)),
        decreases n - k,
    {
        match read_cstr(buf, at) {
            Some((s, next)) => {
                let ghost before = parts_view(strs@);
                strs.push(s);
                assert(parts_view(strs@) =~= before.push(s@));
                at = next;
            },
            None => {
                proof {
                    lemma_dec_strs_none(buf@, pos as int, (k + 1) as nat, n as nat);
                }
                return None;
            },
        }
        k += 1;
    }
    Some((strs, at))
}

/// Reads metadata and entries from the front of a byte stream.
pub fn decode(buf: &[u8]) -> (r: Option<(Meta, Vec<OptionEntry>)>)
    ensures
        match r {
            Some((meta, entries)) => dec_index(buf@) == Some(
                IndexView { meta: meta@, entries: entries_view(entries@) },
            ),
            None => dec_index(buf@) is None,
        },
{
    if buf.len() < 10 {
        return None;
    }
    if buf[0] != 0x69 || buf[1] != 0x78 || buf[2] != 0x78 || buf[3] != 0x30 || buf[4] != 0x31 {
        assert(buf@.subrange(0, 5)[0] == buf@[0]);
        assert(buf@.subrange(0, 5)[1] == buf@[1]);
        assert(buf@.subrange(0, 5)[2] == buf@[2]);
        assert(buf@.subrange(0, 5)[3] == buf@[3]);
        assert(buf@.subrange(0, 5)[4] == buf@[4]);
        return None;
    }
    assert(buf@.subrange(0, 5) =~= magic());
    let chunk_size = read_u32(buf, 5);
    let scope_count = buf[9];
    let (scopes, mid) = match read_strs(buf, 10, scope_count as usize) {
        Some(found) => found,
        None => {
            return None;
        },
    };
    if buf.len() - mid < 4 {
        return None;
    }
    let count = read_u32(buf, mid);
    match read_entries(buf, mid + 4, count as usize) {
        Some((entries, _)) => Some((Meta { chunk_size, scopes }, entries)),
        None => None,
    }
}

} // verus!

verus! {

/// Appends a 16-bit number, low byte first.
fn write_u16(out: &mut Vec<u8>, x: u16)
    ensures
        final(out)@ == old(out)@ + le16(x),
{
    out.push((x % 256) as u8);
    out.push((x / 256) as u8);
    assert(out@ =~= old(out)@ + le16(x));
}

/// Appends a 32-bit number, low byte first.
fn write_u32(out: &mut Vec<u8>, x: u32)
    ensures
        final(out)@ == old(out)@ + le32(x),
{
    out.push((x % 256) as u8);
    out.push(((x / 256) % 256) as u8);
    out.push(((x / 65536) % 256) as u8);
    out.push((x / 16777216) as u8);
    assert(out@ =~= old(out)@ + le32(x));
}

/// Appends a string and its terminating zero, unless the string holds a zero.
fn write_cstr(out: &mut Vec<u8>, s: &Vec<u8>) -> (ok: bool)
    ensures
        ok == no_nul(s@),
        ok ==> final(out)@ == old(out)@ + enc_cstr(s@),
{
    let mut i: usize = 0;
    while i < s.len()
        invariant
            i <= s.len(),
            out@ == old(out)@ + s@.take(i as int),
            forall|k: int| 0 <= k < i ==> #[trigger] s@[k] != 0,
        decreases s.len() - i,
    {
        if s[i] == 0 {
            return false;
        }
        out.push(s[i]);
        assert(out@ =~= old(out)@ + s@.take(i + 1));
        i += 1;
    }
    out.push(0);
    assert(s@.take(s@.len() as int) =~= s@);
    assert(out@ =~= old(out)@ + enc_cstr(s@));
    true
}

/// Appends one label, unless the binary form cannot carry it.
fn write_label(out: &mut Vec<u8>, label: &Label) -> (ok: bool)
    ensures
        ok == label_encodable(label@),
        ok ==> final(out)@ == old(out)@ + enc_label(label@),
{
    match label {
        Label::InPlace(text) => {
            out.push(TAG_IN_PLACE);
            let ok = write_cstr(out, text);
            assert(ok ==> out@ =~= old(out)@ + enc_label(label@));
            ok
        },
        Label::Reference(r) => {
            out.push(TAG_REFERENCE);
            write_u16(out, r.option_idx);
            out.push(r.label_idx);
            assert(out@ =~= old(out)@ + enc_label(label@));
            true
        },
    }
}

/// Appends all labels, unless the binary form cannot carry one of them.
fn write_labels(out: &mut Vec<u8>, labels: &Vec<Label>) -> (ok: bool)
    ensures
        ok == (forall|j: int|
            0 <= j < labels@.len() ==> label_encodable(#[trigger] labels_view(labels@)[j])),
        ok ==> final(out)@ == old(out)@ + enc_labels(labels_view(labels@)),
{
    let ghost lv = labels_view(labels@);
    let mut k: usize = 0;
    assert(lv.take(0) =~= Seq::<LabelView>::empty());
    assert(out@ =~= old(out)@ + enc_labels(lv.take(0)));
    while k < labels.len()
        invariant
            k <= labels.len(),
            lv == labels_view(labels@),
            out@ == old(out)@ + enc_labels(lv.take(k as int)),
            forall|j: int| 0 <= j < k ==> label_encodable(#[trigger] lv[j]),
        decreases labels.len() - k,
    {
        let ghost before = out@;
        if !write_label(out, &labels[k]) {
            assert(!label_encodable(lv[k as int]));
            return false;
        }
        proof {
            assert(lv.take(k + 1).drop_last() =~= lv.take(k as int));
            assert(lv.take(k + 1).last() == lv[k as int]);
            assert(out@ =~= old(out)@ + enc_labels(lv.take(k + 1)));
        }
        k += 1;
    }
    assert(lv.take(labels@.len() as int) =~= lv);
    true
}

/// Appends one entry, unless the binary form cannot carry it.
fn write_entry(out: &mut Vec<u8>, entry: &OptionEntry) -> (ok: bool)
    ensures
        ok == entry_encodable(entry@),
        ok ==> final(out)@ == old(out)@ + enc_entry(entry@),
{
    if entry.labels.len() > 65535 {
        return false;
    }
    out.push(entry.scope_id);
    write_u16(out, entry.labels.len() as u16);
    let ghost head = out@;
    let ok = write_labels(out, &entry.labels);
    assert(ok ==> out@ =~= old(out)@ + enc_entry(entry@));
    ok
}

/// Appends all entries, unless the binary form cannot carry one of them.
fn write_entries(out: &mut Vec<u8>, entries: &Vec<OptionEntry>) -> (ok: bool)
    ensures
        ok == (forall|i: int|
            0 <= i < entries@.len() ==> entry_encodable(#[trigger] entries_view(entries@)[i])),
        ok ==> final(out)@ == old(out)@ + enc_entries(entries_view(entries@)),
{
    let ghost ev = entries_view(entries@);
    let mut k: usize = 0;
    assert(ev.take(0) =~= Seq::<EntryView>::empty());
    assert(out@ =~= old(out)@ + enc_entries(ev.take(0)));
    while k < entries.len()
        invariant
            k <= entries.len(),
            ev == entries_view(entries@),
            out@ == old(out)@ + enc_entries(ev.take(k as int)),
            forall|i: int| 0 <= i < k ==> entry_encodable(#[trigger] ev[i]),
        decreases entries.len() - k,
    {
        if !write_entry(out, &entries[k]) {
            assert(!entry_encodable(ev[k as int]));
            return false;
        }
        proof {
            assert(ev.take(k + 1).drop_last() =~= ev.take(k as int));
            assert(ev.take(k + 1).last() == ev[k as int]);
            assert(out@ =~= old(out)@ + enc_entries(ev.take(k + 1)));
        }
        k += 1;
    }
    assert(ev.take(entries@.len() as int) =~= ev);
    true
}

/// Appends all strings, unless one of them holds a zero byte.
fn write_strs(out: &mut Vec<u8>, strs: &Vec<Vec<u8>>) -> (ok: bool)
    ensures
        ok == (forall|k: int| 0 <= k < strs@.len() ==> no_nul(#[trigger] parts_view(strs@)[k])),
        ok ==> final(out)@ == old(out)@ + enc_strs(parts_view(strs@)),
{
    let ghost sv = parts_view(strs@);
    let mut k: usize = 0;
    assert(sv.take(0) =~= Seq::<Seq<u8>>::empty());
    assert(out@ =~= old(out)@ + enc_strs(sv.take(0)));
    while k < strs.len()
        invariant
            k <= strs.len(),
            sv == parts_view(strs@),
            out@ == old(out)@ + enc_strs(sv.take(k as int)),
            forall|i: int| 0 <= i < k ==> no_nul(#[trigger] sv[i]),
        decreases strs.len() - k,
    {
        if !write_cstr(out, &strs[k]) {
            assert(!no_nul(sv[k as int]));
            return false;
        }
        proof {
            assert(sv.take(k + 1).drop_last() =~= sv.take(k as int));
            assert(sv.take(k + 1).last() == sv[k as int]);
            assert(out@ =~= old(out)@ + enc_strs(sv.take(k + 1)));
        }
        k += 1;
    }
    assert(sv.take(strs@.len() as int) =~= sv);
    true
}

/// The binary form of metadata and entries, if it can carry them.
pub fn encode(meta: &Meta, entries: &Vec<OptionEntry>) -> (r: Option<Vec<u8>>)
    ensures
        match r {
            Some(bytes) => encodable(IndexView { meta: meta@, entries: entries_view(entries@) })
                && bytes@ == enc_index(IndexView { meta: meta@, entries: entries_view(entries@) }),
            None => !encodable(IndexView { meta: meta@, entries: entries_view(entries@) }),
        },
{
    let ghost index = IndexView { meta: meta@, entries: entries_view(entries@) };
    if meta.scopes.len() > 255 || entries.len() > 0xffff_ffff {
        return None;
    }
    let mut out: Vec<u8> = Vec::new();
    out.push(0x69);
    out.push(0x78);
    out.push(0x78);
    out.push(0x30);
    out.push(0x31);
    assert(out@ =~= magic());
    write_u32(&mut out, meta.chunk_size);
    out.push(meta.scopes.len() as u8);
    if !write_strs(&mut out, &meta.scopes) {
        return None;
    }
    write_u32(&mut out, entries.len() as u32);
    if !write_entries(&mut out, entries) {
        return None;
    }
    assert(out@ =~= enc_index(index));
    Some(out)
}

} // verus!
