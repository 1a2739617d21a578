use vstd::prelude::*;
use crate::codec::{
    dec_body, dec_cstr, dec_entries, dec_entry, dec_index, dec_label, dec_labels, dec_strs,
    enc_cstr, enc_entries, enc_entry, enc_index, enc_label, enc_labels, enc_strs, encodable,
    entry_encodable, from_le16, from_le32, label_encodable, le16, le32, magic, no_nul, nul_from,
    TAG_IN_PLACE,
};
use crate::index::{IndexView, MetaView};
use crate::model::{EntryView, LabelView, Reference};

verus! {

/// The bytes `enc` stand in `b` at position `pos`.
pub open spec fn stands_at(b: Seq<u8>, pos: int, enc: Seq<u8>) -> bool {
    &&& 0 <= pos
    &&& pos + enc.len() <= b.len()
    &&& b.subrange(pos, pos + enc.len()) == enc
}

/// Where a concatenation stands, its two parts stand one after the other.
pub proof fn lemma_stands_split(b: Seq<u8>, pos: int, x: Seq<u8>, y: Seq<u8>)
    requires
        stands_at(b, pos, x + y),
    ensures
        stands_at(b, pos, x),
        stands_at(b, pos + x.len(), y),
{
    let whole = b.subrange(pos, pos + (x + y).len());
    assert forall|k: int| 0 <= k < x.len() implies b.subrange(pos, pos + x.len())[k] == x[k] by {
        assert(whole[k] == (x + y)[k]);
    }
    assert(b.subrange(pos, pos + x.len()) =~= x);
    assert forall|k: int| 0 <= k < y.len() implies b.subrange(
        pos + x.len(),
        pos + x.len() + y.len(),
    )[k] == y[k] by {
        assert(whole[x.len() + k] == (x + y)[x.len() + k]);
    }
    assert(b.subrange(pos + x.len(), pos + x.len() + y.len()) =~= y);
}

/// Where bytes stand, each of them is found at its place.
pub proof fn lemma_stands_byte(b: Seq<u8>, pos: int, enc: Seq<u8>, k: int)
    requires
        stands_at(b, pos, enc),
        0 <= k < enc.len(),
    ensures
        b[pos + k] == enc[k],
{
    assert(b.subrange(pos, pos + enc.len())[k] == enc[k]);
}

/// Two bytes, low byte first, give the 16-bit number back.
pub proof fn lemma_le16_round_trip(x: u16)
    ensures
        le16(x).len() == 2,
        from_le16(le16(x)[0], le16(x)[1]) == x,
{
}

/// Four bytes, low byte first, give the 32-bit number back.
pub proof fn lemma_le32_round_trip(x: u32)
    ensures
        le32(x).len() == 4,
        from_le32(le32(x)[0], le32(x)[1], le32(x)[2], le32(x)[3]) == x,
{
}

/// The first zero byte at or after `from` is at `z` if none stands before it.
pub proof fn lemma_nul_from(b: Seq<u8>, from: int, z: int)
    requires
        0 <= from <= z < b.len(),
        b[z] == 0,
        forall|k: int| from <= k < z ==> #[trigger] b[k] != 0,
    ensures
        nul_from(b, from) == Some(z),
    decreases z - from,
{
    if from < z {
        assert(b[from] != 0);
        lemma_nul_from(b, from + 1, z);
    }
}

/// Reading a written string gives it back.
pub proof fn lemma_dec_cstr(b: Seq<u8>, pos: int, s: Seq<u8>)
    requires
        stands_at(b, pos, enc_cstr(s)),
        no_nul(s),
    ensures
        dec_cstr(b, pos) == Some((s, pos + enc_cstr(s).len())),
{
    let enc = enc_cstr(s);
    assert forall|k: int| pos <= k < pos + s.len() implies #[trigger] b[k] != 0 by {
        lemma_stands_byte(b, pos, enc, k - pos);
        assert(enc[k - pos] == s[k - pos]);
    }
    lemma_stands_byte(b, pos, enc, s.len() as int);
    lemma_nul_from(b, pos, pos + s.len());
    assert(enc =~= s + seq![0u8]);
    lemma_stands_split(b, pos, s, seq![0u8]);
}

/// Reading a written label gives it back.
pub proof fn lemma_dec_label(b: Seq<u8>, pos: int, label: LabelView)
    requires
        stands_at(b, pos, enc_label(label)),
        label_encodable(label),
    ensures
        dec_label(b, pos) == Some((label, pos + enc_label(label).len())),
{
    let enc = enc_label(label);
    lemma_stands_byte(b, pos, enc, 0);
    match label {
        LabelView::InPlace(text) => {
            lemma_stands_split(b, pos, seq![TAG_IN_PLACE], enc_cstr(text));
            lemma_dec_cstr(b, pos + 1, text);
        },
        LabelView::Reference(r) => {
            lemma_le16_round_trip(r.option_idx);
            lemma_stands_byte(b, pos, enc, 1);
            lemma_stands_byte(b, pos, enc, 2);
            lemma_stands_byte(b, pos, enc, 3);
            assert(enc[1] == le16(r.option_idx)[0]);
            assert(enc[2] == le16(r.option_idx)[1]);
            assert(enc[3] == r.label_idx);
        },
    }
}

/// Reading written labels gives them back.
pub proof fn lemma_dec_labels(b: Seq<u8>, pos: int, labels: Seq<LabelView>)
    requires
        stands_at(b, pos, enc_labels(labels)),
        forall|j: int| 0 <= j < labels.len() ==> label_encodable(#[trigger] labels[j]),
    ensures
        dec_labels(b, pos, labels.len()) == Some((labels, pos + enc_labels(labels).len())),
    decreases labels.len(),
{
    if labels.len() == 0 {
        assert(labels =~= Seq::<LabelView>::empty());
    } else {
        let init = labels.drop_last();
        lemma_stands_split(b, pos, enc_labels(init), enc_label(labels.last()));
        assert forall|j: int| 0 <= j < init.len() implies label_encodable(#[trigger] init[j]) by {
            assert(init[j] == labels[j]);
        }
        lemma_dec_labels(b, pos, init);
        assert(label_encodable(labels[labels.len() - 1]));
        lemma_dec_label(b, pos + enc_labels(init).len(), labels.last());
        assert(init.push(labels.last()) =~= labels);
    }
}

/// Reading a written entry gives it back.
pub proof fn lemma_dec_entry(b: Seq<u8>, pos: int, entry: EntryView)
    requires
        stands_at(b, pos, enc_entry(entry)),
        entry_encodable(entry),
    ensures
        dec_entry(b, pos) == Some((entry, pos + enc_entry(entry).len())),
{
    let count = entry.labels.len() as u16;
    let head = seq![entry.scope_id] + le16(count);
    lemma_le16_round_trip(count);
    lemma_stands_split(b, pos, head, enc_labels(entry.labels));
    lemma_stands_byte(b, pos, head, 0);
    lemma_stands_byte(b, pos, head, 1);
    lemma_stands_byte(b, pos, head, 2);
    assert(head[1] == le16(count)[0]);
    assert(head[2] == le16(count)[1]);
    lemma_dec_labels(b, pos + 3, entry.labels);
}

/// Reading written entries gives them back.
pub proof fn lemma_dec_entries(b: Seq<u8>, pos: int, entries: Seq<EntryView>)
    requires
        stands_at(b, pos, enc_entries(entries)),
        forall|i: int| 0 <= i < entries.len() ==> entry_encodable(#[trigger] entries[i]),
    ensures
        dec_entries(b, pos, entries.len()) == Some((entries, pos + enc_entries(entries).len())),
    decreases entries.len(),
{
    if entries.len() == 0 {
        assert(entries =~= Seq::<EntryView>::empty());
    } else {
        let init = entries.drop_last();
        lemma_stands_split(b, pos, enc_entries(init), enc_entry(entries.last()));
        assert forall|i: int| 0 <= i < init.len() implies entry_encodable(#[trigger] init[i]) by {
            assert(init[i] == entries[i]);
        }
        lemma_dec_entries(b, pos, init);
        assert(entry_encodable(entries[entries.len() - 1]));
        lemma_dec_entry(b, pos + enc_entries(init).len(), entries.last());
        assert(init.push(entries.last()) =~= entries);
    }
}

/// Reading written strings gives them back.
pub proof fn lemma_dec_strs(b: Seq<u8>, pos: int, strs: Seq<Seq<u8>>)
    requires
        stands_at(b, pos, enc_strs(strs)),
        forall|k: int| 0 <= k < strs.len() ==> no_nul(#[trigger] strs[k]),
    ensures
        dec_strs(b, pos, strs.len()) == Some((strs, pos + enc_strs(strs).len())),
    decreases strs.len(),
{
    if strs.len() == 0 {
        assert(strs =~= Seq::<Seq<u8>>::empty());
    } else {
        let init = strs.drop_last();
        lemma_stands_split(b, pos, enc_strs(init), enc_cstr(strs.last()));
        assert forall|k: int| 0 <= k < init.len() implies no_nul(#[trigger] init[k]) by {
            assert(init[k] == strs[k]);
        }
        lemma_dec_strs(b, pos, init);
        assert(no_nul(strs[strs.len() - 1]));
        lemma_dec_cstr(b, pos + enc_strs(init).len(), strs.last());
        assert(init.push(strs.last()) =~= strs);
    }
}

/// Round trip: reading the binary form of an index gives the index back,
/// scope table, entries and labels, whatever follows the binary form in the
/// stream. It holds of every index the binary form can carry.
pub proof fn lemma_round_trip(index: IndexView, rest: Seq<u8>)
    requires
        encodable(index),
    ensures
        dec_index(enc_index(index) + rest) == Some(index),
{
    let b = enc_index(index) + rest;
    let scopes = index.meta.scopes;
    let entries = index.entries;
    let a2 = magic() + le32(index.meta.chunk_size);
    let a3 = a2 + seq![scopes.len() as u8];
    let a4 = a3 + enc_strs(scopes);
    let a5 = a4 + le32(entries.len() as u32);
    assert(b.subrange(0, enc_index(index).len() as int) =~= enc_index(index));
    assert(stands_at(b, 0, a5 + enc_entries(entries)));
    lemma_stands_split(b, 0, a5, enc_entries(entries));
    lemma_stands_split(b, 0, a4, le32(entries.len() as u32));
    lemma_stands_split(b, 0, a3, enc_strs(scopes));
    lemma_stands_split(b, 0, a2, seq![scopes.len() as u8]);
    lemma_stands_split(b, 0, magic(), le32(index.meta.chunk_size));
    lemma_le32_round_trip(index.meta.chunk_size);
    lemma_le32_round_trip(entries.len() as u32);
    let chunk = le32(index.meta.chunk_size);
    lemma_stands_byte(b, 5, chunk, 0);
    lemma_stands_byte(b, 5, chunk, 1);
    lemma_stands_byte(b, 5, chunk, 2);
    lemma_stands_byte(b, 5, chunk, 3);
    lemma_stands_byte(b, 9, seq![scopes.len() as u8], 0);
    lemma_dec_strs(b, 10, scopes);
    let mid: int = 10int + enc_strs(scopes).len();
    let count = le32(entries.len() as u32);
    lemma_stands_byte(b, mid, count, 0);
    lemma_stands_byte(b, mid, count, 1);
    lemma_stands_byte(b, mid, count, 2);
    lemma_stands_byte(b, mid, count, 3);
    lemma_dec_entries(b, mid + 4, entries);
    assert(dec_body(b, mid) == Some(entries));
    assert(index.meta == MetaView { chunk_size: index.meta.chunk_size, scopes });
    assert(index == IndexView { meta: index.meta, entries });
}

} // verus!

verus! {

/// Where two byte strings stand one after the other, their concatenation stands.
pub proof fn lemma_stands_concat(b: Seq<u8>, pos: int, x: Seq<u8>, y: Seq<u8>)
    requires
        stands_at(b, pos, x),
        stands_at(b, pos + x.len(), y),
    ensures
        stands_at(b, pos, x + y),
{
    assert forall|k: int| 0 <= k < (x + y).len() implies b.subrange(pos, pos + (x + y).len())[k]
        == (x + y)[k] by {
        if k < x.len() {
            lemma_stands_byte(b, pos, x, k);
        } else {
            lemma_stands_byte(b, pos + x.len(), y, k - x.len());
        }
    }
    assert(b.subrange(pos, pos + (x + y).len()) =~= x + y);
}

/// The first zero byte that is found is one, and none stands before it.
pub proof fn lemma_nul_from_found(b: Seq<u8>, from: int)
    requires
        0 <= from,
    ensures
        match nul_from(b, from) {
            Some(z) => from <= z < b.len() && b[z] == 0 && forall|k: int|
                from <= k < z ==> #[trigger] b[k] != 0,
            None => true,
        },
    decreases b.len() - from,
{
    if from < b.len() && b[from] != 0 {
        lemma_nul_from_found(b, from + 1);
    }
}

/// A string that was read holds no zero byte and stands, with its
/// terminating zero, where it was read.
pub proof fn lemma_cstr_read(b: Seq<u8>, pos: int)
    requires
        0 <= pos,
        dec_cstr(b, pos) is Some,
    ensures
        no_nul(dec_cstr(b, pos).unwrap().0),
        stands_at(b, pos, enc_cstr(dec_cstr(b, pos).unwrap().0)),
        dec_cstr(b, pos).unwrap().1 == pos + enc_cstr(dec_cstr(b, pos).unwrap().0).len(),
{
    lemma_nul_from_found(b, pos);
    let z = nul_from(b, pos).unwrap();
    let s = b.subrange(pos, z);
    assert forall|i: int| 0 <= i < s.len() implies #[trigger] s[i] != 0 by {
        assert(s[i] == b[pos + i]);
    }
    assert(b.subrange(pos, pos + enc_cstr(s).len()) =~= enc_cstr(s));
}

/// A label that was read can be written, and stands where it was read.
pub proof fn lemma_label_read(b: Seq<u8>, pos: int)
    requires
        dec_label(b, pos) is Some,
    ensures
        label_encodable(dec_label(b, pos).unwrap().0),
        stands_at(b, pos, enc_label(dec_label(b, pos).unwrap().0)),
        dec_label(b, pos).unwrap().1 == pos + enc_label(dec_label(b, pos).unwrap().0).len(),
{
    let label = dec_label(b, pos).unwrap().0;
    if b[pos] == TAG_IN_PLACE {
        lemma_cstr_read(b, pos + 1);
        let text = dec_cstr(b, pos + 1).unwrap().0;
        assert(b.subrange(pos, pos + 1) =~= seq![TAG_IN_PLACE]);
        lemma_stands_concat(b, pos, seq![TAG_IN_PLACE], enc_cstr(text));
    } else {
        assert(b.subrange(pos, pos + 4) =~= enc_label(label));
    }
}

/// Labels that were read are as many as were asked for, can be written, and
/// stand where they were read.
pub proof fn lemma_labels_read(b: Seq<u8>, pos: int, n: nat)
    requires
        0 <= pos <= b.len(),
        dec_labels(b, pos, n) is Some,
    ensures
        dec_labels(b, pos, n).unwrap().0.len() == n,
        forall|j: int|
            0 <= j < n ==> label_encodable(#[trigger] dec_labels(b, pos, n).unwrap().0[j]),
        stands_at(b, pos, enc_labels(dec_labels(b, pos, n).unwrap().0)),
        dec_labels(b, pos, n).unwrap().1 == pos + enc_labels(
            dec_labels(b, pos, n).unwrap().0,
        ).len(),
    decreases n,
{
    if n == 0 {
        assert(b.subrange(pos, pos) =~= Seq::<u8>::empty());
    } else {
        lemma_labels_read(b, pos, (n - 1) as nat);
        let (init, mid) = dec_labels(b, pos, (n - 1) as nat).unwrap();
        lemma_label_read(b, mid);
        let label = dec_label(b, mid).unwrap().0;
        lemma_stands_concat(b, pos, enc_labels(init), enc_label(label));
        assert(init.push(label).drop_last() =~= init);
    }
}

/// An entry that was read can be written, and stands where it was read.
pub proof fn lemma_entry_read(b: Seq<u8>, pos: int)
    requires
        dec_entry(b, pos) is Some,
    ensures
        entry_encodable(dec_entry(b, pos).unwrap().0),
        stands_at(b, pos, enc_entry(dec_entry(b, pos).unwrap().0)),
        dec_entry(b, pos).unwrap().1 == pos + enc_entry(dec_entry(b, pos).unwrap().0).len(),
{
    let count = from_le16(b[pos + 1], b[pos + 2]);
    lemma_labels_read(b, pos + 3, count as nat);
    let entry = dec_entry(b, pos).unwrap().0;
    let head = seq![entry.scope_id] + le16(count);
    assert(b.subrange(pos, pos + 3) =~= head);
    lemma_stands_concat(b, pos, head, enc_labels(entry.labels));
}

/// Entries that were read are as many as were asked for, can be written, and
/// stand where they were read.
pub proof fn lemma_entries_read(b: Seq<u8>, pos: int, n: nat)
    requires
        0 <= pos <= b.len(),
        dec_entries(b, pos, n) is Some,
    ensures
        dec_entries(b, pos, n).unwrap().0.len() == n,
        forall|i: int|
            0 <= i < n ==> entry_encodable(#[trigger] dec_entries(b, pos, n).unwrap().0[i]),
        stands_at(b, pos, enc_entries(dec_entries(b, pos, n).unwrap().0)),
        dec_entries(b, pos, n).unwrap().1 == pos + enc_entries(
            dec_entries(b, pos, n).unwrap().0,
        ).len(),
    decreases n,
{
    if n == 0 {
        assert(b.subrange(pos, pos) =~= Seq::<u8>::empty());
    } else {
        lemma_entries_read(b, pos, (n - 1) as nat);
        let (init, mid) = dec_entries(b, pos, (n - 1) as nat).unwrap();
        lemma_entry_read(b, mid);
        let entry = dec_entry(b, mid).unwrap().0;
        lemma_stands_concat(b, pos, enc_entries(init), enc_entry(entry));
        assert(init.push(entry).drop_last() =~= init);
    }
}

/// Strings that were read are as many as were asked for, hold no zero byte,
/// and stand where they were read.
pub proof fn lemma_strs_read(b: Seq<u8>, pos: int, n: nat)
    requires
        0 <= pos <= b.len(),
        dec_strs(b, pos, n) is Some,
    ensures
        dec_strs(b, pos, n).unwrap().0.len() == n,
        forall|k: int| 0 <= k < n ==> no_nul(#[trigger] dec_strs(b, pos, n).unwrap().0[k]),
        stands_at(b, pos, enc_strs(dec_strs(b, pos, n).unwrap().0)),
        dec_strs(b, pos, n).unwrap().1 == pos + enc_strs(dec_strs(b, pos, n).unwrap().0).len(),
    decreases n,
{
    if n == 0 {
        assert(b.subrange(pos, pos) =~= Seq::<u8>::empty());
    } else {
        lemma_strs_read(b, pos, (n - 1) as nat);
        let (init, mid) = dec_strs(b, pos, (n - 1) as nat).unwrap();
        lemma_cstr_read(b, mid);
        let s = dec_cstr(b, mid).unwrap().0;
        lemma_stands_concat(b, pos, enc_strs(init), enc_cstr(s));
        assert(init.push(s).drop_last() =~= init);
    }
}

/// Four bytes are the four bytes of the number they hold.
pub proof fn lemma_le32_of_bytes(b0: u8, b1: u8, b2: u8, b3: u8)
    ensures
        le32(from_le32(b0, b1, b2, b3)) == seq![b0, b1, b2, b3],
{
    let x = from_le32(b0, b1, b2, b3);
    assert(x == b0 + b1 * 256 + b2 * 65536 + b3 * 16777216);
    assert(x % 256 == b0);
    assert((x / 256) % 256 == b1);
    assert((x / 65536) % 256 == b2);
    assert(x / 16777216 == b3);
    assert(le32(x) =~= seq![b0, b1, b2, b3]);
}

/// The head of a stream that starts with the magic bytes: magic, chunk size
/// and scope count stand at its front.
pub proof fn lemma_head_read(b: Seq<u8>)
    requires
        b.len() >= 10,
        b.subrange(0, 5) == magic(),
    ensures
        stands_at(
            b,
            0,
            magic() + le32(from_le32(b[5], b[6], b[7], b[8])) + seq![b[9]],
        ),
{
    lemma_le32_of_bytes(b[5], b[6], b[7], b[8]);
    let head = magic() + le32(from_le32(b[5], b[6], b[7], b[8])) + seq![b[9]];
    assert forall|k: int| 0 <= k < 10 implies b.subrange(0, 10)[k] == head[k] by {
        if k < 5 {
            assert(b.subrange(0, 5)[k] == magic()[k]);
        }
    }
    assert(b.subrange(0, 10) =~= head);
}

/// The entry count and the entries that were read stand where they were read.
pub proof fn lemma_body_read(b: Seq<u8>, pos: int)
    requires
        0 <= pos,
        dec_body(b, pos) is Some,
    ensures
        dec_body(b, pos).unwrap().len() <= u32::MAX,
        forall|i: int|
            0 <= i < dec_body(b, pos).unwrap().len() ==> entry_encodable(
                #[trigger] dec_body(b, pos).unwrap()[i],
            ),
        stands_at(
            b,
            pos,
            le32(dec_body(b, pos).unwrap().len() as u32) + enc_entries(dec_body(b, pos).unwrap()),
        ),
{
    let count = from_le32(b[pos], b[pos + 1], b[pos + 2], b[pos + 3]);
    lemma_entries_read(b, pos + 4, count as nat);
    lemma_le32_of_bytes(b[pos], b[pos + 1], b[pos + 2], b[pos + 3]);
    let entries = dec_body(b, pos).unwrap();
    assert(b.subrange(pos, pos + 4) =~= le32(count));
    lemma_stands_concat(b, pos, le32(count), enc_entries(entries));
}

/// The other way round: an index that was read can be written, and its
/// binary form is the front of the stream it was read from.
pub proof fn lemma_read_is_written(b: Seq<u8>)
    requires
        dec_index(b) is Some,
    ensures
        encodable(dec_index(b).unwrap()),
        stands_at(b, 0, enc_index(dec_index(b).unwrap())),
{
    let index = dec_index(b).unwrap();
    let scopes = index.meta.scopes;
    let entries = index.entries;
    lemma_head_read(b);
    lemma_strs_read(b, 10, b[9] as nat);
    let mid = dec_strs(b, 10, b[9] as nat).unwrap().1;
    lemma_body_read(b, mid);
    let head = magic() + le32(index.meta.chunk_size) + seq![scopes.len() as u8];
    let body = le32(entries.len() as u32) + enc_entries(entries);
    lemma_stands_concat(b, 0, head, enc_strs(scopes));
    lemma_stands_concat(b, 0, head + enc_strs(scopes), body);
    assert(enc_index(index) =~= head + enc_strs(scopes) + body);
}

} // verus!
