//! A single scope frame: a flat mapping from state-element names to simulated
//! values.
//!
//! Frames are kept as association vectors with pairwise-distinct keys and are
//! viewed, in specifications, as finite maps from character sequences to
//! values.

use vstd::prelude::*;

verus! {

/// The result of looking a key up in a map model: `Some(value)` when the key
/// is bound, `None` otherwise.
pub open spec fn map_get(m: Map<Seq<char>, u64>, k: Seq<char>) -> Option<u64> {
    if m.dom().contains(k) {
        Some(m[k])
    } else {
        None
    }
}

/// The map described by an association vector, later entries taking
/// precedence (irrelevant once keys are distinct).
pub open spec fn entries_map(s: Seq<(String, u64)>) -> Map<Seq<char>, u64>
    decreases s.len(),
{
    if s.len() == 0 {
        Map::empty()
    } else {
        entries_map(s.drop_last()).insert(s.last().0@, s.last().1)
    }
}

/// The keys of `entries_map` are exactly the key views occurring in the
/// vector.
pub proof fn lemma_entries_map_dom(s: Seq<(String, u64)>)
    ensures
        forall|k: Seq<char>|
            entries_map(s).dom().contains(k) <==> (exists|i: int|
                0 <= i < s.len() && (#[trigger] s[i]).0@ == k),
    decreases s.len(),
{
    if s.len() > 0 {
        lemma_entries_map_dom(s.drop_last());
        assert forall|k: Seq<char>| entries_map(s).dom().contains(k) implies (exists|i: int|
            0 <= i < s.len() && (#[trigger] s[i]).0@ == k) by {
            if s.last().0@ == k {
                assert((s[s.len() - 1]).0@ == k);
            } else {
                assert(entries_map(s.drop_last()).dom().contains(k));
                let i = choose|i: int|
                    0 <= i < s.drop_last().len() && (#[trigger] s.drop_last()[i]).0@ == k;
                assert(s.drop_last()[i] == s[i]);
                assert((s[i]).0@ == k);
            }
        }
        assert forall|k: Seq<char>|
            (exists|i: int| 0 <= i < s.len() && (#[trigger] s[i]).0@ == k) implies entries_map(
            s,
        ).dom().contains(k) by {
            let i = choose|i: int| 0 <= i < s.len() && (#[trigger] s[i]).0@ == k;
            if i < s.len() - 1 {
                assert((s.drop_last()[i]).0@ == k);
                assert(entries_map(s.drop_last()).dom().contains(k));
            } else {
                assert(k == s.last().0@);
            }
        }
    }
}

/// Under distinct keys, the map returns the value stored beside each key.
pub proof fn lemma_entries_map_index(s: Seq<(String, u64)>, i: int)
    requires
        forall|p: int, q: int| 0 <= p < q < s.len() ==> (#[trigger] s[p]).0@ != (#[trigger] s[q]).0@,
        0 <= i < s.len(),
    ensures
        entries_map(s).dom().contains(s[i].0@),
        entries_map(s)[s[i].0@] == s[i].1,
    decreases s.len(),
{
    lemma_entries_map_dom(s);
    if i < s.len() - 1 {
        lemma_entries_map_index(s.drop_last(), i);
        assert(s.drop_last()[i] == s[i]);
        assert(s.last().0@ != s[i].0@);
    }
}

/// Under distinct keys, the number of bound keys equals the vector's length.
pub proof fn lemma_entries_map_len(s: Seq<(String, u64)>)
    requires
        forall|p: int, q: int| 0 <= p < q < s.len() ==> (#[trigger] s[p]).0@ != (#[trigger] s[q]).0@,
    ensures
        entries_map(s).dom().finite(),
        entries_map(s).dom().len() == s.len(),
    decreases s.len(),
{
    if s.len() > 0 {
        lemma_entries_map_len(s.drop_last());
        lemma_entries_map_dom(s.drop_last());
        assert(!entries_map(s.drop_last()).dom().contains(s.last().0@));
    }
}

/// Replacing the value stored beside a key is, on the map side, an insert of
/// that key.
pub proof fn lemma_entries_map_update(s: Seq<(String, u64)>, i: int, e: (String, u64))
    requires
        forall|p: int, q: int| 0 <= p < q < s.len() ==> (#[trigger] s[p]).0@ != (#[trigger] s[q]).0@,
        0 <= i < s.len(),
        e.0@ == s[i].0@,
    ensures
        entries_map(s.update(i, e)) == entries_map(s).insert(e.0@, e.1),
    decreases s.len(),
{
    let t = s.update(i, e);
    if i == s.len() - 1 {
        assert(t.drop_last() =~= s.drop_last());
        assert(entries_map(t) =~= entries_map(s).insert(e.0@, e.1));
    } else {
        lemma_entries_map_update(s.drop_last(), i, e);
        assert(t.drop_last() =~= s.drop_last().update(i, e));
        assert(t.last() == s.last());
        assert(s.last().0@ != e.0@);
        assert(entries_map(t) =~= entries_map(s).insert(e.0@, e.1));
    }
}

/// One scope frame: the bindings of one nesting level of control-flow state.
pub struct Frame {
    /// The bindings, each key occurring at most once.
    pub entries: Vec<(String, u64)>,
}

impl View for Frame {
    type V = Map<Seq<char>, u64>;

    open spec fn view(&self) -> Map<Seq<char>, u64> {
        entries_map(self.entries@)
    }
}

impl Frame {
    /// Well-formed frames bind each key at most once.
    pub open spec fn wf(&self) -> bool {
        forall|p: int, q: int|
            0 <= p < q < self.entries@.len() ==> (#[trigger] self.entries@[p]).0@ != (
            #[trigger] self.entries@[q]).0@
    }

    /// An empty frame.
    pub fn new() -> (r: Frame)
        ensures
            r@ == Map::<Seq<char>, u64>::empty(),
            r.wf(),
    {
        Frame { entries: Vec::new() }
    }

    /// The position of `k` in the association vector, if `k` is bound.
    fn position(&self, k: &str) -> (r: Option<usize>)
        ensures
            match r {
                Some(i) => i < self.entries@.len() && self.entries@[i as int].0@ == k@,
                None => forall|j: int|
                    0 <= j < self.entries@.len() ==> (#[trigger] self.entries@[j]).0@ != k@,
            },
    {
        let ks: String = k.to_owned();
        let n = self.entries.len();
        let mut i: usize = 0;
        while i < n
            invariant
                n == self.entries@.len(),
                i <= n,
                ks@ == k@,
                forall|j: int| 0 <= j < i ==> (#[trigger] self.entries@[j]).0@ != k@,
            decreases n - i,
        {
            let e = &self.entries[i];
            if e.0 == ks {
                return Some(i);
            }
            i = i + 1;
        }
        None
    }

    /// Looks `k` up in this frame alone.
    pub fn get(&self, k: &str) -> (r: Option<u64>)
        requires
            self.wf(),
        ensures
            r == map_get(self@, k@),
    {
        proof {
            lemma_entries_map_dom(self.entries@);
        }
        match self.position(k) {
            Some(i) => {
                proof {
                    lemma_entries_map_index(self.entries@, i as int);
                }
                Some(self.entries[i].1)
            },
            None => None,
        }
    }

    /// Binds `k` to `v`, replacing any existing binding for `k`.
    pub fn set(&mut self, k: &str, v: u64)
        requires
            old(self).wf(),
        ensures
            final(self).wf(),
            final(self)@ == old(self)@.insert(k@, v),
    {
        let ghost s0 = self.entries@;
        match self.position(k) {
            Some(i) => {
                let e = (k.to_owned(), v);
                proof {
                    lemma_entries_map_update(s0, i as int, e);
                }
                self.entries[i] = e;
            },
            None => {
                self.entries.push((k.to_owned(), v));
                proof {
                    assert(self.entries@.drop_last() =~= s0);
                }
            },
        }
    }

    /// The bound keys, each exactly once.
    pub fn keys(&self) -> (r: Vec<String>)
        requires
            self.wf(),
        ensures
            forall|p: int, q: int| 0 <= p < q < r@.len() ==> (#[trigger] r@[p])@ != (#[trigger] r@[q])@,
            forall|p: int| 0 <= p < r@.len() ==> self@.dom().contains((#[trigger] r@[p])@),
            forall|k: Seq<char>|
                self@.dom().contains(k) ==> (exists|p: int|
                    0 <= p < r@.len() && (#[trigger] r@[p])@ == k),
    {
        let n = self.entries.len();
        let mut r: Vec<String> = Vec::new();
        let mut i: usize = 0;
        while i < n
            invariant
                n == self.entries@.len(),
                i <= n,
                r@.len() == i,
                forall|p: int| 0 <= p < i ==> (#[trigger] r@[p])@ == self.entries@[p].0@,
            decreases n - i,
        {
            r.push(self.entries[i].0.clone());
            i = i + 1;
        }
        proof {
            lemma_entries_map_dom(self.entries@);
            assert forall|k: Seq<char>| self@.dom().contains(k) implies (exists|p: int|
                0 <= p < r@.len() && (#[trigger] r@[p])@ == k) by {
                let i = choose|i: int|
                    0 <= i < self.entries@.len() && (#[trigger] self.entries@[i]).0@ == k;
                assert((r@[i])@ == k);
            }
        }
        r
    }

    /// How many keys are bound.
    pub fn len(&self) -> (r: usize)
        requires
            self.wf(),
        ensures
            r == self@.dom().len(),
            self@.dom().finite(),
    {
        proof {
            lemma_entries_map_len(self.entries@);
        }
        self.entries.len()
    }

    /// A deep copy, used to obtain a privately owned frame before writing
    /// into a scope that is shared with another stack.
    pub fn duplicate(&self) -> (r: Frame)
        requires
            self.wf(),
        ensures
            r@ == self@,
            r.wf(),
            r.entries@ == self.entries@,
    {
        let n = self.entries.len();
        let mut entries: Vec<(String, u64)> = Vec::new();
        let mut i: usize = 0;
        while i < n
            invariant
                n == self.entries@.len(),
                i <= n,
                entries@ =~= self.entries@.subrange(0, i as int),
            decreases n - i,
        {
            let e = &self.entries[i];
            entries.push((e.0.clone(), e.1));
            i = i + 1;
        }
        proof {
            assert(entries@ =~= self.entries@);
        }
        Frame { entries }
    }

    /// Writes every binding of `other` into this frame, overwriting on
    /// common keys.
    pub fn overlay(&mut self, other: &Frame)
        requires
            old(self).wf(),
            other.wf(),
        ensures
            final(self).wf(),
            final(self)@ == old(self)@.union_prefer_right(other@),
    {
        let m = other.entries.len();
        let mut j: usize = 0;
        while j < m
            invariant
                self.wf(),
                other.wf(),
                m == other.entries@.len(),
                j <= m,
                self@ == old(self)@.union_prefer_right(
                    entries_map(other.entries@.subrange(0, j as int)),
                ),
            decreases m - j,
        {
            let e = &other.entries[j];
            self.set(e.0.as_str(), e.1);
            proof {
                assert(other.entries@.subrange(0, j + 1).drop_last() =~= other.entries@.subrange(
                    0,
                    j as int,
                ));
                assert(self@ =~= old(self)@.union_prefer_right(
                    entries_map(other.entries@.subrange(0, j + 1)),
                ));
            }
            j = j + 1;
        }
        proof {
            assert(other.entries@.subrange(0, m as int) =~= other.entries@);
        }
    }

    /// Whether two frames hold exactly the same bindings.
    pub fn same_bindings(&self, other: &Frame) -> (r: bool)
        requires
            self.wf(),
            other.wf(),
        ensures
            r == (self@ == other@),
    {
        let n = self.entries.len();
        let mut i: usize = 0;
        while i < n
            invariant
                self.wf(),
                other.wf(),
                n == self.entries@.len(),
                i <= n,
                forall|j: int|
                    0 <= j < i ==> map_get(other@, (#[trigger] self.entries@[j]).0@) == Some(
                        self.entries@[j].1,
                    ),
            decreases n - i,
        {
            let e = &self.entries[i];
            proof {
                lemma_entries_map_index(self.entries@, i as int);
            }
            match other.get(e.0.as_str()) {
                Some(w) => {
                    if w != e.1 {
                        return false;
                    }
                },
                None => {
                    return false;
                },
            }
            i = i + 1;
        }
        let m = other.entries.len();
        let mut j: usize = 0;
        while j < m
            invariant
                self.wf(),
                other.wf(),
                m == other.entries@.len(),
                j <= m,
                forall|p: int|
                    0 <= p < self.entries@.len() ==> map_get(
                        other@,
                        (#[trigger] self.entries@[p]).0@,
                    ) == Some(self.entries@[p].1),
                forall|q: int| 0 <= q < j ==> self@.dom().contains((#[trigger] other.entries@[q]).0@),
            decreases m - j,
        {
            let e = &other.entries[j];
            match self.get(e.0.as_str()) {
                Some(_) => {},
                None => {
                    proof {
                        lemma_entries_map_index(other.entries@, j as int);
                    }
                    return false;
                },
            }
            j = j + 1;
        }
        proof {
            lemma_entries_map_dom(self.entries@);
            lemma_entries_map_dom(other.entries@);
            assert forall|k: Seq<char>| self@.dom().contains(k) implies other@.dom().contains(k)
                && other@[k] == self@[k] by {
                let p = choose|p: int|
                    0 <= p < self.entries@.len() && (#[trigger] self.entries@[p]).0@ == k;
                lemma_entries_map_index(self.entries@, p);
            }
            assert forall|k: Seq<char>| other@.dom().contains(k) implies self@.dom().contains(k) by {
                let q = choose|q: int|
                    0 <= q < other.entries@.len() && (#[trigger] other.entries@[q]).0@ == k;
                assert(self@.dom().contains(other.entries@[q].0@));
            }
            assert(self@ =~= other@);
        }
        true
    }
}

} // verus!
