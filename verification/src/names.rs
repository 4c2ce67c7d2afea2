//! The listing of key names.
//!
//! The names of the keys come from the device library; this module puts
//! them in the order in which they are shown: by their bytes, as strings
//! compare.

use vstd::prelude::*;
use vstd::utf8::encode_utf8;

verus! {

/// `a` and `b` agree before position `k`, and there `a` ends or has the smaller byte.
pub open spec fn lex_witness(a: Seq<u8>, b: Seq<u8>, k: int) -> bool {
    &&& 0 <= k <= a.len()
    &&& k <= b.len()
    &&& forall|j: int| 0 <= j < k ==> a[j] == b[j]
    &&& (k == a.len() || (k < b.len() && a[k] < b[k]))
}

/// `a` comes before `b`, or is `b`, in the order of the dictionary.
pub open spec fn lex_le(a: Seq<u8>, b: Seq<u8>) -> bool {
    exists|k: int| lex_witness(a, b, k)
}

/// The order of the dictionary is transitive.
pub proof fn lemma_lex_transitive(a: Seq<u8>, b: Seq<u8>, c: Seq<u8>)
    requires
        lex_le(a, b),
        lex_le(b, c),
    ensures
        lex_le(a, c),
{
    let k1 = choose|k: int| lex_witness(a, b, k);
    let k2 = choose|k: int| lex_witness(b, c, k);
    if k1 <= k2 {
        assert(lex_witness(a, c, k1));
    } else {
        assert(lex_witness(a, c, k2));
    }
}

/// Of two sequences that agree before `i`, one comes before the other or is the other.
proof fn lemma_lex_total_from(a: Seq<u8>, b: Seq<u8>, i: int)
    requires
        0 <= i <= a.len(),
        i <= b.len(),
        forall|j: int| 0 <= j < i ==> a[j] == b[j],
    ensures
        lex_le(a, b) || lex_le(b, a),
    decreases a.len() - i,
{
    if i == a.len() {
        assert(lex_witness(a, b, i));
    } else if i == b.len() {
        assert(lex_witness(b, a, i));
    } else if a[i] < b[i] {
        assert(lex_witness(a, b, i));
    } else if a[i] > b[i] {
        assert(lex_witness(b, a, i));
    } else {
        lemma_lex_total_from(a, b, i + 1);
    }
}

/// The order of the dictionary is total.
pub proof fn lemma_lex_total(a: Seq<u8>, b: Seq<u8>)
    ensures
        lex_le(a, b) || lex_le(b, a),
{
    lemma_lex_total_from(a, b, 0);
}

/// Whether `a` comes before `b`, or is `b`, in the order of the dictionary.
pub fn bytes_le(a: &[u8], b: &[u8]) -> (r: bool)
    ensures
        r == lex_le(a@, b@),
{
    let mut i: usize = 0;
    while i < a.len() && i < b.len() && a[i] == b[i]
        invariant
            i <= a.len(),
            i <= b.len(),
            forall|j: int| 0 <= j < i ==> a@[j] == b@[j],
        decreases a.len() - i,
    {
        i += 1;
    }
    if i == a.len() {
        assert(lex_witness(a@, b@, i as int));
        true
    } else if i == b.len() {
        assert forall|k: int| !lex_witness(a@, b@, k) by {
            if lex_witness(a@, b@, k) {
                assert(k <= i);
            }
        }
        false
    } else {
        if a[i] < b[i] {
            assert(lex_witness(a@, b@, i as int));
        } else {
            assert forall|k: int| !lex_witness(a@, b@, k) by {
                if lex_witness(a@, b@, k) {
                    if k > i {
                        assert(a@[i as int] == b@[i as int]);
                    }
                }
            }
        }
        a[i] < b[i]
    }
}

/// The bytes of a name.
pub open spec fn name_bytes(name: String) -> Seq<u8> {
    encode_utf8(name@)
}

/// Each name comes before every later one, or is the same.
pub open spec fn names_sorted(names: Seq<String>) -> bool {
    forall|i: int, j: int|
        0 <= i <= j < names.len() ==> lex_le(name_bytes(names[i]), name_bytes(names[j]))
}

/// Whether `a` is shown before `b`, or is `b`.
fn name_le(a: &String, b: &String) -> (r: bool)
    ensures
        r == lex_le(name_bytes(*a), name_bytes(*b)),
{
    bytes_le(a.as_str().as_bytes(), b.as_str().as_bytes())
}

/// The names of the keys as they are listed: the names given, each as often
/// as it was given, in the order of the dictionary of their bytes.
pub fn list_keys(names: Vec<String>) -> (sorted: Vec<String>)
    ensures
        names_sorted(sorted@),
        sorted@.to_multiset() == names@.to_multiset(),
{
    let mut sorted: Vec<String> = Vec::new();
    let mut i: usize = 0;
    assert(names@.take(0) =~= Seq::<String>::empty());
    while i < names.len()
        invariant
            i <= names.len(),
            names_sorted(sorted@),
            sorted@.to_multiset() == names@.take(i as int).to_multiset(),
        decreases names.len() - i,
    {
        let name = names[i].clone();
        let mut p: usize = 0;
        while p < sorted.len() && name_le(&sorted[p], &name)
            invariant
                p <= sorted.len(),
                forall|q: int| 0 <= q < p ==> lex_le(name_bytes(sorted@[q]), name_bytes(name)),
            decreases sorted.len() - p,
        {
            p += 1;
        }
        let ghost before = sorted@;
        sorted.insert(p, name);
        proof {
            let after = sorted@;
            assert(after =~= before.insert(p as int, name));
            assert forall|a: int, b: int| 0 <= a <= b < after.len() implies lex_le(
                name_bytes(after[a]),
                name_bytes(after[b]),
            ) by {
                let x = name_bytes(name);
                if a == b {
                    lemma_lex_total(name_bytes(after[a]), name_bytes(after[a]));
                } else if b < p {
                    assert(after[a] == before[a] && after[b] == before[b]);
                } else if b == p {
                    assert(after[a] == before[a]);
                } else if a < p {
                    assert(after[a] == before[a] && after[b] == before[b - 1]);
                    assert(p <= b - 1);
                } else if a == p {
                    assert(after[b] == before[b - 1]);
                    lemma_lex_total(name_bytes(before[p as int]), x);
                    lemma_lex_transitive(x, name_bytes(before[p as int]), name_bytes(before[b - 1]));
                } else {
                    assert(after[a] == before[a - 1] && after[b] == before[b - 1]);
                }
            }
            assert(after.remove(p as int) =~= before);
            vstd::seq_lib::to_multiset_remove(after, p as int);
            after.to_multiset_ensures();
            assert(after.contains(name)) by {
                assert(after[p as int] == name);
            }
            assert(after.to_multiset() =~= before.to_multiset().insert(name));
            let upto = names@.take(i as int);
            assert(names@.take(i + 1) =~= upto.push(names@[i as int]));
            vstd::seq_lib::to_multiset_build(upto, names@[i as int]);
        }
        i += 1;
    }
    assert(names@.take(names.len() as int) =~= names@);
    sorted
}

} // verus!
