use vstd::prelude::*;
use vstd::string::StringSliceAdditionalSpecFns;

verus! {

/// Byte-wise lexicographic order: `a` comes before `b` or equals it.
pub open spec fn lex_le(a: Seq<u8>, b: Seq<u8>) -> bool
    decreases a.len(),
{
    if a.len() == 0 {
        true
    } else if b.len() == 0 {
        false
    } else if a[0] != b[0] {
        a[0] < b[0]
    } else {
        lex_le(a.drop_first(), b.drop_first())
    }
}

/// The bytes of the names.
pub open spec fn names_bytes(names: Seq<String>) -> Seq<Seq<u8>> {
    Seq::new(names.len(), |i: int| vstd::utf8::encode_utf8(names[i]@))
}

/// Whether the name at position `i` goes before the name at position `j`
/// when names are put in order and equal names keep their turn.
pub open spec fn goes_before(names: Seq<Seq<u8>>, i: int, j: int) -> bool {
    if lex_le(names[j], names[i]) {
        lex_le(names[i], names[j]) && i < j
    } else {
        true
    }
}

/// Whether `order` lists positions of `names`, none twice, so that the names
/// are in byte-wise lexicographic order and equal names keep their turn.
pub open spec fn is_sorted_order(names: Seq<Seq<u8>>, order: Seq<usize>) -> bool {
    &&& forall|k: int| 0 <= k < order.len() ==> (#[trigger] order[k]) < names.len()
    &&& forall|k: int, l: int| 0 <= k < l < order.len() ==> #[trigger] goes_before(
        names,
        order[k] as int,
        order[l] as int,
    )
}

/// Of two byte strings one comes before the other or they are equal.
pub proof fn lemma_lex_total(a: Seq<u8>, b: Seq<u8>)
    ensures
        lex_le(a, b) || lex_le(b, a),
        lex_le(a, b) && lex_le(b, a) ==> a == b,
    decreases a.len(),
{
    if a.len() == 0 || b.len() == 0 {
        if a.len() == 0 && b.len() == 0 {
            assert(a =~= b);
        }
    } else if a[0] == b[0] {
        lemma_lex_total(a.drop_first(), b.drop_first());
        if lex_le(a, b) && lex_le(b, a) {
            assert(a =~= seq![a[0]] + a.drop_first());
            assert(b =~= seq![b[0]] + b.drop_first());
        }
    }
}

/// The order is transitive.
pub proof fn lemma_lex_transitive(a: Seq<u8>, b: Seq<u8>, c: Seq<u8>)
    requires
        lex_le(a, b),
        lex_le(b, c),
    ensures
        lex_le(a, c),
    decreases a.len(),
{
    if a.len() == 0 || b.len() == 0 || c.len() == 0 {
    } else if a[0] == b[0] && b[0] == c[0] {
        lemma_lex_transitive(a.drop_first(), b.drop_first(), c.drop_first());
    }
}

/// Whether `a` comes before `b` or equals it.
pub fn bytes_le(a: &[u8], b: &[u8]) -> (le: bool)
    ensures
        le == lex_le(a@, b@),
{
    let mut i: usize = 0;
    assert(a@.skip(0) =~= a@);
    assert(b@.skip(0) =~= b@);
    while i < a.len() && i < b.len()
        invariant
            i <= a.len(),
            i <= b.len(),
            lex_le(a@, b@) == lex_le(a@.skip(i as int), b@.skip(i as int)),
        decreases a.len() - i,
    {
        assert(a@.skip(i as int)[0] == a@[i as int]);
        assert(b@.skip(i as int)[0] == b@[i as int]);
        if a[i] != b[i] {
            return a[i] < b[i];
        }
        assert(a@.skip(i as int).drop_first() =~= a@.skip(i + 1));
        assert(b@.skip(i as int).drop_first() =~= b@.skip(i + 1));
        i += 1;
    }
    i >= a.len()
}

/// The positions of the names in the order in which they are indexed: by
/// name, byte by byte, equal names in the order in which they came.
pub fn sorted_order(names: &Vec<String>) -> (order: Vec<usize>)
    ensures
        order@.len() == names@.len(),
        is_sorted_order(names_bytes(names@), order@),
        forall|k: int, l: int| 0 <= k < l < order@.len() ==> order@[k] != order@[l],
{
    let ghost nb = names_bytes(names@);
    let mut order: Vec<usize> = Vec::new();
    let mut n: usize = 0;
    while n < names.len()
        invariant
            n <= names.len(),
            nb == names_bytes(names@),
            order@.len() == n,
            is_sorted_order(nb, order@),
            forall|k: int| 0 <= k < order@.len() ==> (#[trigger] order@[k]) < n,
            forall|k: int, l: int| 0 <= k < l < order@.len() ==> order@[k] != order@[l],
        decreases names.len() - n,
    {
        let name = names[n].as_str().as_bytes();
        assert(name@ == nb[n as int]);
        let mut p: usize = 0;
        while p < order.len() && bytes_le(names[order[p]].as_str().as_bytes(), name)
            invariant
                p <= order@.len(),
                n < names.len(),
                nb == names_bytes(names@),
                name@ == nb[n as int],
                forall|k: int| 0 <= k < order@.len() ==> (#[trigger] order@[k]) < n,
                forall|k: int| 0 <= k < p ==> lex_le(nb[(#[trigger] order@[k]) as int], name@),
            decreases order@.len() - p,
        {
            p += 1;
        }
        let ghost before = order@;
        proof {
            assert forall|l: int| p <= l < before.len() implies !lex_le(
                nb[(#[trigger] before[l]) as int],
                name@,
            ) by {
                let first = nb[before[p as int] as int];
                let later = nb[before[l] as int];
                if l > p && lex_le(later, name@) {
                    assert(goes_before(nb, before[p as int] as int, before[l] as int));
                    lemma_lex_total(first, later);
                    if lex_le(first, later) {
                        lemma_lex_transitive(first, later, name@);
                    } else {
                        lemma_lex_transitive(later, first, later);
                    }
                }
            }
        }
        order.insert(p, n);
        proof {
            assert forall|k: int, l: int| 0 <= k < l < order@.len() implies #[trigger] goes_before(
                nb,
                order@[k] as int,
                order@[l] as int,
            ) by {
                if l == p {
                    assert(order@[k] == before[k]);
                    lemma_lex_total(nb[before[k] as int], name@);
                } else if k == p {
                    assert(order@[l] == before[l - 1]);
                    lemma_lex_total(nb[before[l - 1] as int], name@);
                } else {
                    let kk = if k < p { k } else { k - 1 };
                    let ll = if l < p { l } else { l - 1 };
                    assert(order@[k] == before[kk]);
                    assert(order@[l] == before[ll]);
                    assert(goes_before(nb, before[kk] as int, before[ll] as int));
                }
            }
        }
        n += 1;
    }
    order
}

} // verus!
