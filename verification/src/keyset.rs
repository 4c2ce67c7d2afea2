//! Small sets of key codes, kept as a strictly increasing vector.
//!
//! The view of a [`KeySet`] is the mathematical set of its codes. Wherever an
//! order is needed (the order in which keys are written to a device) it is
//! [`ascending`], the codes of the set from the smallest to the largest.

use vstd::prelude::*;

verus! {

/// A key code of the evdev key namespace (`KEY_A`, `BTN_LEFT`, ...).
pub type KeyCode = u16;

/// Each element is smaller than every later one.
pub open spec fn strictly_increasing(s: Seq<KeyCode>) -> bool {
    forall|i: int, j: int| 0 <= i < j < s.len() ==> s[i] < s[j]
}

/// The codes of `s` that are below `n`, from the smallest to the largest.
pub open spec fn ascending_below(s: Set<KeyCode>, n: nat) -> Seq<KeyCode>
    decreases n,
{
    if n == 0 {
        Seq::empty()
    } else {
        let rest = ascending_below(s, (n - 1) as nat);
        let c = (n - 1) as KeyCode;
        if s.contains(c) {
            rest.push(c)
        } else {
            rest
        }
    }
}

/// The codes of `s` from the smallest to the largest.
pub open spec fn ascending(s: Set<KeyCode>) -> Seq<KeyCode> {
    ascending_below(s, 0x1_0000)
}

proof fn lemma_ascending_below(s: Set<KeyCode>, n: nat)
    requires
        n <= 0x1_0000,
    ensures
        strictly_increasing(ascending_below(s, n)),
        forall|c: KeyCode| #[trigger]
            ascending_below(s, n).contains(c) <==> (s.contains(c) && c < n),
    decreases n,
{
    if n > 0 {
        let rest = ascending_below(s, (n - 1) as nat);
        let last = (n - 1) as KeyCode;
        lemma_ascending_below(s, (n - 1) as nat);
        let r = ascending_below(s, n);
        assert forall|c: KeyCode| #[trigger] r.contains(c) <==> (s.contains(c) && c < n) by {
            if r.contains(c) {
                let i = choose|i: int| 0 <= i < r.len() && r[i] == c;
                if i < rest.len() {
                    assert(rest[i] == c);
                    assert(rest.contains(c));
                }
            }
            if s.contains(c) && c < n {
                if c == last {
                    assert(r[r.len() - 1] == c);
                } else {
                    assert(rest.contains(c));
                    let i = choose|i: int| 0 <= i < rest.len() && rest[i] == c;
                    assert(r[i] == c);
                }
            }
        }
        assert forall|i: int, j: int| 0 <= i < j < r.len() implies r[i] < r[j] by {
            if j == rest.len() {
                assert(rest[i] == r[i]);
                assert(rest.contains(r[i]));
            } else {
                assert(rest[i] == r[i] && rest[j] == r[j]);
            }
        }
    }
}

/// Two strictly increasing sequences with the same elements are the same sequence.
pub proof fn lemma_increasing_unique(a: Seq<KeyCode>, b: Seq<KeyCode>)
    requires
        strictly_increasing(a),
        strictly_increasing(b),
        forall|c: KeyCode| a.contains(c) <==> b.contains(c),
    ensures
        a == b,
    decreases a.len(),
{
    if a.len() == 0 {
        if b.len() > 0 {
            assert(b.contains(b[0]));
            assert(a.contains(b[0]));
        }
        assert(a =~= b);
    } else {
        let x = a.last();
        assert(a.contains(x));
        assert(b.contains(x));
        let k = choose|k: int| 0 <= k < b.len() && b[k] == x;
        let y = b.last();
        assert(b.contains(y));
        assert(a.contains(y));
        let m = choose|m: int| 0 <= m < a.len() && a[m] == y;
        assert(x == y);
        let a0 = a.drop_last();
        let b0 = b.drop_last();
        assert forall|c: KeyCode| a0.contains(c) <==> b0.contains(c) by {
            if a0.contains(c) {
                let i = choose|i: int| 0 <= i < a0.len() && a0[i] == c;
                assert(a[i] == c);
                assert(a.contains(c));
                let j = choose|j: int| 0 <= j < b.len() && b[j] == c;
                assert(b0[j] == c);
            }
            if b0.contains(c) {
                let i = choose|i: int| 0 <= i < b0.len() && b0[i] == c;
                assert(b[i] == c);
                assert(b.contains(c));
                let j = choose|j: int| 0 <= j < a.len() && a[j] == c;
                assert(a0[j] == c);
            }
        }
        lemma_increasing_unique(a0, b0);
        assert(a =~= a0.push(x));
        assert(b =~= b0.push(y));
    }
}

/// `ascending(s)` lists exactly the codes of `s`, each once, in increasing order.
pub proof fn lemma_ascending(s: Set<KeyCode>)
    ensures
        strictly_increasing(ascending(s)),
        ascending(s).no_duplicates(),
        ascending(s).to_set() == s,
        forall|c: KeyCode| #[trigger] ascending(s).contains(c) <==> s.contains(c),
        s.finite(),
        ascending(s).len() == s.len(),
{
    lemma_ascending_below(s, 0x1_0000);
    let a = ascending(s);
    assert(a.to_set() =~= s);
    vstd::seq_lib::seq_to_set_is_finite(a);
    a.unique_seq_to_set();
}

/// A strictly increasing sequence is the ascending listing of its own elements.
pub proof fn lemma_ascending_of_increasing(v: Seq<KeyCode>)
    requires
        strictly_increasing(v),
    ensures
        ascending(v.to_set()) == v,
{
    lemma_ascending(v.to_set());
    lemma_increasing_unique(ascending(v.to_set()), v);
}

/// An unordered set of key codes.
#[derive(Debug, PartialEq, Eq)]
pub struct KeySet {
    codes: Vec<KeyCode>,
}

impl View for KeySet {
    type V = Set<KeyCode>;

    closed spec fn view(&self) -> Set<KeyCode> {
        self.codes@.to_set()
    }
}

impl Clone for KeySet {
    fn clone(&self) -> (r: Self)
        ensures
            r@ == self@,
    {
        proof {
            use_type_invariant(self);
        }
        KeySet { codes: self.codes.clone() }
    }
}

impl KeySet {
    #[verifier::type_invariant]
    spec fn increasing(&self) -> bool {
        strictly_increasing(self.codes@)
    }

    /// The empty set.
    pub fn new() -> (r: KeySet)
        ensures
            r@ == Set::<KeyCode>::empty(),
    {
        let r = KeySet { codes: Vec::new() };
        assert(r@ =~= Set::<KeyCode>::empty());
        r
    }

    /// The set of the codes in `codes`, whatever their order and however often each occurs.
    pub fn from_codes(codes: &Vec<KeyCode>) -> (r: KeySet)
        ensures
            r@ == codes@.to_set(),
    {
        let mut r = KeySet::new();
        let mut i: usize = 0;
        while i < codes.len()
            invariant
                i <= codes.len(),
                r@ == codes@.take(i as int).to_set(),
            decreases codes.len() - i,
        {
            r.insert(codes[i]);
            proof {
                lemma_take_next(codes@, i as int);
                let before = codes@.take(i as int);
                let after = codes@.take(i + 1);
                assert forall|c: KeyCode| after.to_set().contains(c) <==> before.to_set().insert(
                    codes@[i as int],
                ).contains(c) by {
                    assert(after.contains(c) <==> (before.contains(c) || c == codes@[i as int]));
                }
                assert(r@ =~= after.to_set());
            }
            i += 1;
        }
        assert(codes@.take(codes.len() as int) =~= codes@);
        r
    }

    /// How many codes the set holds.
    pub fn len(&self) -> (n: usize)
        ensures
            n == self@.len(),
            self@.finite(),
    {
        proof {
            use_type_invariant(self);
            lemma_ascending_of_increasing(self.codes@);
            lemma_ascending(self@);
        }
        self.codes.len()
    }

    pub fn is_empty(&self) -> (b: bool)
        ensures
            b == (self@ == Set::<KeyCode>::empty()),
    {
        proof {
            if self.codes@.len() == 0 {
                assert(self@ =~= Set::<KeyCode>::empty());
            } else {
                assert(self.codes@.contains(self.codes@[0]));
                assert(self@.contains(self.codes@[0]));
            }
        }
        self.codes.len() == 0
    }

    /// The index of the first code that is not below `code`.
    fn position(&self, code: KeyCode) -> (p: usize)
        ensures
            p <= self.codes@.len(),
            forall|i: int| 0 <= i < p ==> self.codes@[i] < code,
            forall|i: int| p <= i < self.codes@.len() ==> self.codes@[i] >= code,
    {
        proof {
            use_type_invariant(self);
        }
        let mut p: usize = 0;
        while p < self.codes.len() && self.codes[p] < code
            invariant
                p <= self.codes@.len(),
                forall|i: int| 0 <= i < p ==> self.codes@[i] < code,
            decreases self.codes@.len() - p,
        {
            p += 1;
        }
        p
    }

    pub fn contains(&self, code: KeyCode) -> (b: bool)
        ensures
            b == self@.contains(code),
    {
        let p = self.position(code);
        let b = p < self.codes.len() && self.codes[p] == code;
        proof {
            use_type_invariant(self);
            if b {
                assert(self.codes@[p as int] == code);
                assert(self.codes@.contains(code));
            } else if self.codes@.contains(code) {
                let k = choose|k: int| 0 <= k < self.codes@.len() && self.codes@[k] == code;
                assert(false);
            }
        }
        b
    }

    /// Adds `code` to the set.
    pub fn insert(&mut self, code: KeyCode)
        ensures
            final(self)@ == old(self)@.insert(code),
    {
        let p = self.position(code);
        if p < self.codes.len() && self.codes[p] == code {
            proof {
                assert(self.codes@.contains(code));
                assert(self@ =~= self@.insert(code));
            }
        } else {
            proof {
                use_type_invariant(&*self);
            }
            let ghost before = self.codes@;
            let mut codes: Vec<KeyCode> = Vec::new();
            core::mem::swap(&mut self.codes, &mut codes);
            codes.insert(p, code);
            proof {
                let after = codes@;
                assert(after =~= before.insert(p as int, code));
                assert forall|i: int, j: int| 0 <= i < j < after.len() implies after[i]
                    < after[j] by {
                    if i < p && j > p {
                        assert(after[i] == before[i] && after[j] == before[j - 1]);
                    } else if i > p {
                        assert(after[i] == before[i - 1] && after[j] == before[j - 1]);
                    }
                }
                assert forall|c: KeyCode| after.contains(c) <==> (before.contains(c) || c
                    == code) by {
                    if after.contains(c) {
                        let k = choose|k: int| 0 <= k < after.len() && after[k] == c;
                        if k < p {
                            assert(before[k] == c);
                        } else if k > p {
                            assert(before[k - 1] == c);
                        }
                    }
                    if before.contains(c) {
                        let k = choose|k: int| 0 <= k < before.len() && before[k] == c;
                        if k < p {
                            assert(after[k] == c);
                        } else {
                            assert(after[k + 1] == c);
                        }
                    }
                    if c == code {
                        assert(after[p as int] == c);
                    }
                }
                assert(after.to_set() =~= before.to_set().insert(code));
            }
            self.codes = codes;
        }
    }

    /// Takes `code` out of the set.
    pub fn remove(&mut self, code: KeyCode)
        ensures
            final(self)@ == old(self)@.remove(code),
    {
        let p = self.position(code);
        proof {
            use_type_invariant(&*self);
        }
        if p < self.codes.len() && self.codes[p] == code {
            let ghost before = self.codes@;
            let mut codes: Vec<KeyCode> = Vec::new();
            core::mem::swap(&mut self.codes, &mut codes);
            codes.remove(p);
            proof {
                let after = codes@;
                assert(after =~= before.remove(p as int));
                assert forall|i: int, j: int| 0 <= i < j < after.len() implies after[i]
                    < after[j] by {
                    let bi = if i < p { i } else { i + 1 };
                    let bj = if j < p { j } else { j + 1 };
                    assert(after[i] == before[bi] && after[j] == before[bj]);
                }
                assert forall|c: KeyCode| after.contains(c) <==> (before.contains(c) && c
                    != code) by {
                    if after.contains(c) {
                        let k = choose|k: int| 0 <= k < after.len() && after[k] == c;
                        let bk = if k < p { k } else { k + 1 };
                        assert(before[bk] == c);
                    }
                    if before.contains(c) && c != code {
                        let k = choose|k: int| 0 <= k < before.len() && before[k] == c;
                        if k < p {
                            assert(after[k] == c);
                        } else {
                            assert(after[k - 1] == c);
                        }
                    }
                }
                assert(after.to_set() =~= before.to_set().remove(code));
            }
            self.codes = codes;
        } else {
            proof {
                if self.codes@.contains(code) {
                    let k = choose|k: int| 0 <= k < self.codes@.len() && self.codes@[k] == code;
                    assert(false);
                }
                assert(self@ =~= self@.remove(code));
            }
        }
    }

    /// The codes of the set, from the smallest to the largest.
    pub fn to_vec(&self) -> (v: Vec<KeyCode>)
        ensures
            v@ == ascending(self@),
    {
        proof {
            use_type_invariant(self);
            lemma_ascending_of_increasing(self.codes@);
        }
        self.codes.clone()
    }

    pub fn is_subset(&self, other: &KeySet) -> (b: bool)
        ensures
            b == self@.subset_of(other@),
    {
        let mut i: usize = 0;
        while i < self.codes.len()
            invariant
                i <= self.codes@.len(),
                forall|k: int| 0 <= k < i ==> other@.contains(self.codes@[k]),
            decreases self.codes@.len() - i,
        {
            if !other.contains(self.codes[i]) {
                proof {
                    assert(self.codes@.contains(self.codes@[i as int]));
                    assert(self@.contains(self.codes@[i as int]));
                }
                return false;
            }
            i += 1;
        }
        proof {
            assert forall|c: KeyCode| self@.contains(c) implies other@.contains(c) by {
                let k = choose|k: int| 0 <= k < self.codes@.len() && self.codes@[k] == c;
                assert(other@.contains(self.codes@[k]));
            }
        }
        true
    }

    /// The codes of `self` that `other` does not hold.
    pub fn difference(&self, other: &KeySet) -> (r: KeySet)
        ensures
            r@ == self@.difference(other@),
    {
        let mut r = KeySet::new();
        let mut i: usize = 0;
        while i < self.codes.len()
            invariant
                i <= self.codes@.len(),
                forall|c: KeyCode|
                    r@.contains(c) <==> (self.codes@.take(i as int).contains(c)
                        && !other@.contains(c)),
            decreases self.codes@.len() - i,
        {
            let c0 = self.codes[i];
            proof {
                lemma_take_next(self.codes@, i as int);
            }
            if !other.contains(c0) {
                r.insert(c0);
            }
            i += 1;
        }
        proof {
            assert(self.codes@.take(self.codes@.len() as int) =~= self.codes@);
            assert(r@ =~= self@.difference(other@));
        }
        r
    }

    /// The codes that both sets hold.
    pub fn intersect(&self, other: &KeySet) -> (r: KeySet)
        ensures
            r@ == self@.intersect(other@),
    {
        let mut r = KeySet::new();
        let mut i: usize = 0;
        while i < self.codes.len()
            invariant
                i <= self.codes@.len(),
                forall|c: KeyCode|
                    r@.contains(c) <==> (self.codes@.take(i as int).contains(c)
                        && other@.contains(c)),
            decreases self.codes@.len() - i,
        {
            let c0 = self.codes[i];
            proof {
                lemma_take_next(self.codes@, i as int);
            }
            if other.contains(c0) {
                r.insert(c0);
            }
            i += 1;
        }
        proof {
            assert(self.codes@.take(self.codes@.len() as int) =~= self.codes@);
            assert(r@ =~= self@.intersect(other@));
        }
        r
    }

    /// Adds every code of `other` to the set.
    pub fn extend(&mut self, other: &KeySet)
        ensures
            final(self)@ == old(self)@.union(other@),
    {
        let mut i: usize = 0;
        while i < other.codes.len()
            invariant
                i <= other.codes@.len(),
                forall|c: KeyCode|
                    self@.contains(c) <==> (old(self)@.contains(c) || other.codes@.take(
                        i as int,
                    ).contains(c)),
            decreases other.codes@.len() - i,
        {
            proof {
                lemma_take_next(other.codes@, i as int);
            }
            self.insert(other.codes[i]);
            i += 1;
        }
        proof {
            assert(other.codes@.take(other.codes@.len() as int) =~= other.codes@);
            assert(self@ =~= old(self)@.union(other@));
        }
    }
}

/// What one more element adds to a prefix.
proof fn lemma_take_next(s: Seq<KeyCode>, i: int)
    requires
        0 <= i < s.len(),
    ensures
        forall|c: KeyCode|
            s.take(i + 1).contains(c) <==> (s.take(i).contains(c) || c == s[i]),
{
    let before = s.take(i);
    let after = s.take(i + 1);
    assert forall|c: KeyCode| after.contains(c) <==> (before.contains(c) || c == s[i]) by {
        if after.contains(c) {
            let k = choose|k: int| 0 <= k < after.len() && after[k] == c;
            if k < i {
                assert(before[k] == c);
            }
        }
        if before.contains(c) {
            let k = choose|k: int| 0 <= k < before.len() && before[k] == c;
            assert(after[k] == c);
        }
        if c == s[i] {
            assert(after[i] == c);
        }
    }
}

} // verus!
