//! An insertion-ordered set of strings, abstracted as a duplicate-free
//! sequence of character sequences. Enumeration order is the order in which
//! elements were inserted; removal keeps the relative order of the rest.

use vstd::prelude::*;

use crate::smap::WellFormed;

verus! {

/// Removes the first occurrence of `x` from `s`, or leaves `s` unchanged
/// when `x` does not occur.
pub open spec fn remove_seq_value(s: Seq<Seq<char>>, x: Seq<char>) -> Seq<Seq<char>> {
    if s.contains(x) {
        s.remove(s.index_of(x))
    } else {
        s
    }
}

/// No element occurs twice in `s`.
pub open spec fn seq_distinct(s: Seq<Seq<char>>) -> bool {
    forall|i: int, j: int| 0 <= i < j < s.len() ==> s[i] != s[j]
}

/// What removing one value does to a duplicate-free sequence: membership of
/// everything else is kept, distinctness is kept, and the length shrinks by
/// one exactly when the value was present.
pub proof fn lemma_remove_seq_value_props(s: Seq<Seq<char>>, x: Seq<char>)
    requires
        seq_distinct(s),
    ensures
        seq_distinct(remove_seq_value(s, x)),
        forall|y: Seq<char>|
            #[trigger] remove_seq_value(s, x).contains(y) <==> (s.contains(y) && y != x),
        remove_seq_value(s, x).len() == (if s.contains(x) {
            s.len() - 1
        } else {
            s.len() as int
        }),
{
    if s.contains(x) {
        let i = s.index_of(x);
        assert(0 <= i < s.len() && s[i] == x);
        lemma_remove_preserves(s, i);
        assert forall|y: Seq<char>|
            #[trigger] remove_seq_value(s, x).contains(y) <==> (s.contains(y) && y != x) by {
            lemma_membership_after_remove(s, i, y);
        }
    }
}

/// A set of account or token identifiers.
#[derive(Debug)]
pub struct StringSet {
    items: Vec<String>,
}

impl View for StringSet {
    type V = Seq<Seq<char>>;

    closed spec fn view(&self) -> Seq<Seq<char>> {
        self.items.deep_view()
    }
}

impl DeepView for StringSet {
    type V = Seq<Seq<char>>;

    open spec fn deep_view(&self) -> Seq<Seq<char>> {
        self.view()
    }
}

impl WellFormed for StringSet {
    open spec fn wf(&self) -> bool {
        self.set_wf()
    }
}

impl StringSet {
    /// No element occurs twice.
    pub open spec fn set_wf(&self) -> bool {
        seq_distinct(self@)
    }

    pub fn new() -> (s: Self)
        ensures
            s@ == Seq::<Seq<char>>::empty(),
            s.wf(),
    {
        StringSet { items: Vec::new() }
    }

    pub fn len(&self) -> (n: usize)
        ensures
            n == self@.len(),
    {
        self.items.len()
    }

    pub fn is_empty(&self) -> (b: bool)
        ensures
            b == (self@.len() == 0),
    {
        self.items.len() == 0
    }

    /// Index of the first occurrence of `x`, if any.
    fn position_of(&self, x: &String) -> (r: Option<usize>)
        ensures
            match r {
                Some(i) => i < self@.len() && self@[i as int] == x@ && forall|j: int|
                    0 <= j < i ==> self@[j] != x@,
                None => !self@.contains(x@),
            },
    {
        let n = self.items.len();
        let mut i: usize = 0;
        while i < n
            invariant
                i <= n,
                n == self@.len(),
                forall|j: int| 0 <= j < i ==> self@[j] != x@,
            decreases n - i,
        {
            assert(self@[i as int] == self.items@[i as int]@);
            if self.items[i] == *x {
                return Some(i);
            }
            i = i + 1;
        }
        None
    }

    pub fn contains(&self, x: &String) -> (b: bool)
        ensures
            b == self@.contains(x@),
    {
        match self.position_of(x) {
            Some(i) => {
                assert(self@.contains(x@)) by {
                    assert(self@[i as int] == x@);
                }
                true
            },
            None => false,
        }
    }

    /// Adds `x` unless it is already present.
    pub fn insert(&mut self, x: String)
        requires
            old(self).wf(),
        ensures
            final(self).wf(),
            final(self)@ == (if old(self)@.contains(x@) {
                old(self)@
            } else {
                old(self)@.push(x@)
            }),
            forall|y: Seq<char>|
                #[trigger] final(self)@.contains(y) <==> (old(self)@.contains(y) || y == x@),
    {
        match self.position_of(&x) {
            Some(_) => {
                assert forall|y: Seq<char>| #[trigger]
                    self@.contains(y) <==> (self@.contains(y) || y == x@) by {
                    if y == x@ {
                        assert(self@.contains(x@));
                    }
                }
            },
            None => {
                let ghost prev = self@;
                self.items.push(x);
                assert(self@ =~= prev.push(x@));
                assert forall|y: Seq<char>| #[trigger]
                    self@.contains(y) <==> (prev.contains(y) || y == x@) by {
                    if self@.contains(y) {
                        let i = choose|i: int| 0 <= i < self@.len() && self@[i] == y;
                        if i < prev.len() {
                            assert(prev[i] == y);
                        }
                    }
                    if prev.contains(y) {
                        let i = choose|i: int| 0 <= i < prev.len() && prev[i] == y;
                        assert(self@[i] == y);
                    }
                    if y == x@ {
                        assert(self@[prev.len() as int] == y);
                    }
                }
            },
        }
    }

    /// Removes `x`; reports whether it was present.
    pub fn remove(&mut self, x: &String) -> (was: bool)
        requires
            old(self).wf(),
        ensures
            final(self).wf(),
            was == old(self)@.contains(x@),
            final(self)@ == remove_seq_value(old(self)@, x@),
            !final(self)@.contains(x@),
            forall|y: Seq<char>|
                #[trigger] final(self)@.contains(y) <==> (old(self)@.contains(y) && y != x@),
    {
        let ghost prev = self@;
        match self.position_of(x) {
            Some(i) => {
                assert(prev.contains(x@)) by {
                    assert(prev[i as int] == x@);
                }
                assert(i as int == prev.index_of(x@)) by {
                    let k = prev.index_of(x@);
                    assert(prev[k] == x@);
                    assert(0 <= k < prev.len());
                }
                let _ = self.items.remove(i);
                assert(self@ =~= prev.remove(i as int));
                proof {
                    lemma_remove_preserves(prev, i as int);
                }
                assert forall|y: Seq<char>| #[trigger]
                    self@.contains(y) <==> (prev.contains(y) && y != x@) by {
                    lemma_membership_after_remove(prev, i as int, y);
                }
                true
            },
            None => {
                false
            },
        }
    }

    /// The `i`th element in enumeration order.
    pub fn get(&self, i: usize) -> (r: &String)
        requires
            i < self@.len(),
        ensures
            r@ == self@[i as int],
    {
        assert(self@[i as int] == self.items@[i as int]@);
        &self.items[i]
    }

    /// A fresh vector holding the elements in enumeration order.
    pub fn to_vec(&self) -> (r: Vec<String>)
        ensures
            r.deep_view() == self@,
    {
        let n = self.items.len();
        let mut r: Vec<String> = Vec::new();
        let mut i: usize = 0;
        while i < n
            invariant
                i <= n,
                n == self@.len(),
                r.deep_view().len() == i,
                forall|j: int| 0 <= j < i ==> r.deep_view()[j] == self@[j],
            decreases n - i,
        {
            assert(self@[i as int] == self.items@[i as int]@);
            r.push(self.items[i].clone());
            i = i + 1;
        }
        assert(r.deep_view() =~= self@);
        r
    }
}

/// Removing an index from a duplicate-free sequence keeps it duplicate-free.
proof fn lemma_remove_preserves(s: Seq<Seq<char>>, i: int)
    requires
        0 <= i < s.len(),
        forall|p: int, q: int| 0 <= p < q < s.len() ==> s[p] != s[q],
    ensures
        forall|p: int, q: int| 0 <= p < q < s.remove(i).len() ==> s.remove(i)[p] != s.remove(i)[q],
{
    let t = s.remove(i);
    assert forall|p: int, q: int| 0 <= p < q < t.len() implies t[p] != t[q] by {
        let sp = if p < i { p } else { p + 1 };
        let sq = if q < i { q } else { q + 1 };
        assert(t[p] == s[sp]);
        assert(t[q] == s[sq]);
    }
}

/// Membership in a duplicate-free sequence after removing index `i`.
proof fn lemma_membership_after_remove(s: Seq<Seq<char>>, i: int, y: Seq<char>)
    requires
        0 <= i < s.len(),
        forall|p: int, q: int| 0 <= p < q < s.len() ==> s[p] != s[q],
    ensures
        s.remove(i).contains(y) <==> (s.contains(y) && y != s[i]),
{
    let t = s.remove(i);
    if t.contains(y) {
        let p = choose|p: int| 0 <= p < t.len() && t[p] == y;
        let sp = if p < i { p } else { p + 1 };
        assert(s[sp] == y);
        assert(sp != i);
    }
    if s.contains(y) && y != s[i] {
        let p = choose|p: int| 0 <= p < s.len() && s[p] == y;
        assert(p != i);
        if p < i {
            assert(t[p] == y);
        } else {
            assert(t[p - 1] == y);
        }
    }
}

} // verus!
