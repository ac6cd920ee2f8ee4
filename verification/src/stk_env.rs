//! The scope stack ("Smoosher"): an ordered stack of scope frames used like a
//! version tree while the interpreter walks a control program.
//!
//! Index 0 is the topmost (innermost) scope.  Writes go to the top frame
//! only; lookups resolve to the shallowest frame binding the key.  Parallel
//! branches `fork` the stack, sharing the existing frames and writing through
//! copy-on-write; `smoosh` folds a range of frames into one; `merge`
//! reconciles two forked stacks, failing on a racing write.

use std::rc::Rc;

use vstd::prelude::*;

use crate::errors::StackError;
use crate::frame::entries_map;
use crate::frame::lemma_entries_map_dom;
use crate::frame::lemma_entries_map_index;
use crate::frame::map_get;
use crate::frame::Frame;

verus! {

/// The value the stack resolves for `k`: the binding of the shallowest scope
/// that holds `k`, absence otherwise.
pub open spec fn lookup(s: Seq<Map<Seq<char>, u64>>, k: Seq<char>) -> Option<u64>
    decreases s.len(),
{
    if s.len() == 0 {
        None
    } else if s.first().dom().contains(k) {
        Some(s.first()[k])
    } else {
        lookup(s.drop_first(), k)
    }
}

/// All scopes folded into one mapping, shallower scopes taking precedence.
pub open spec fn flatten(s: Seq<Map<Seq<char>, u64>>) -> Map<Seq<char>, u64>
    decreases s.len(),
{
    if s.len() == 0 {
        Map::empty()
    } else {
        flatten(s.drop_first()).union_prefer_right(s.first())
    }
}

/// The stack after folding scopes `top_i ..= bottom_i` into one scope at
/// depth `bottom_i`.
pub open spec fn smoosh_model(s: Seq<Map<Seq<char>, u64>>, top_i: int, bottom_i: int) -> Seq<
    Map<Seq<char>, u64>,
> {
    s.subrange(0, top_i) + seq![flatten(s.subrange(top_i, bottom_i + 1))] + s.subrange(
        bottom_i + 1,
        s.len() as int,
    )
}

/// An index confined to the valid scope-index interval `[0, len]`.
pub open spec fn clamp_index(len: int, i: int) -> int {
    if i > len {
        len
    } else {
        i
    }
}

/// The keys bound in any scope of `[top_i, bottom_i)`, both indices clamped
/// to the number of scopes.
pub open spec fn bound_vars_model(s: Seq<Map<Seq<char>, u64>>, top_i: int, bottom_i: int) -> Set<
    Seq<char>,
> {
    flatten(
        s.subrange(clamp_index(s.len() as int, top_i), clamp_index(s.len() as int, bottom_i)),
    ).dom()
}

/// The bindings of `up` that are absent from `low` or bound there to a
/// different value.
pub open spec fn diff_map(up: Map<Seq<char>, u64>, low: Map<Seq<char>, u64>) -> Map<Seq<char>, u64> {
    Map::new(
        |k: Seq<char>| up.dom().contains(k) && map_get(low, k) != Some(up[k]),
        |k: Seq<char>| up[k],
    )
}

/// The bindings visible in scopes `[top_i, bottom_i)` that differ from (or
/// are absent from) the view resolved by the scopes at depth `bottom_i` and
/// below.
pub open spec fn diff_model(s: Seq<Map<Seq<char>, u64>>, top_i: int, bottom_i: int) -> Map<
    Seq<char>,
    u64,
> {
    diff_map(
        flatten(s.subrange(top_i, bottom_i)),
        flatten(s.subrange(bottom_i, s.len() as int)),
    )
}

/// How many trailing scopes two stacks genuinely share: the length of the
/// longest common suffix of their scope identities.  An identity (`Some` of a
/// mark) names one shared frame allocation; an owned scope has none and is
/// never shared, so any scope a stack wrote since forking drops out here.
pub open spec fn common_depth(a: Seq<Option<int>>, b: Seq<Option<int>>) -> int
    decreases a.len(),
{
    if a.len() == 0 || b.len() == 0 {
        0
    } else if a.last() is Some && a.last() == b.last() {
        1 + common_depth(a.drop_last(), b.drop_last())
    } else {
        0
    }
}

/// Everything a stack wrote above the shared suffix of depth `d`, folded.
pub open spec fn upper_writes(s: Seq<Map<Seq<char>, u64>>, d: int) -> Map<Seq<char>, u64> {
    flatten(s.subrange(0, s.len() - d))
}

/// Whether the two branches raced above the shared suffix of depth `d`: both
/// wrote some key, with different values.
pub open spec fn merge_conflict_at(
    a: Seq<Map<Seq<char>, u64>>,
    b: Seq<Map<Seq<char>, u64>>,
    d: int,
) -> bool {
    exists|k: Seq<char>|
        upper_writes(a, d).dom().contains(k) && upper_writes(b, d).dom().contains(k)
            && upper_writes(a, d)[k] != upper_writes(b, d)[k]
}

/// The reconciled stack for a shared suffix of depth `d`: the union of both
/// branches' writes in one new scope on top of the shared ancestor scopes.
pub open spec fn merge_model_at(
    a: Seq<Map<Seq<char>, u64>>,
    b: Seq<Map<Seq<char>, u64>>,
    d: int,
) -> Seq<Map<Seq<char>, u64>> {
    seq![upper_writes(a, d).union_prefer_right(upper_writes(b, d))] + a.subrange(
        a.len() - d,
        a.len() as int,
    )
}

/// A handle to a scope frame shared between stacks, together with the ghost
/// identity of its allocation.  `mint` marks each new allocation with a fresh
/// identity and `share` copies handle and mark together, so mark equality is
/// exactly allocation identity, and `same_frame` decides it at run time.
pub struct SharedFrame {
    rc: Rc<Frame>,
    id: Ghost<int>,
}

/// Relies on `Rc::new`: allocates a new shared frame holding exactly the
/// given bindings.  The identity mark names the fresh allocation; nothing is
/// promised of its value, so no two marks are known equal until `share`
/// copies one.
#[verifier::external_body]
fn mint(f: Frame) -> (r: SharedFrame)
    ensures
        r.rc == f,
{
    SharedFrame { rc: Rc::new(f), id: Ghost(0) }
}

/// Relies on `Rc::clone`: the new handle names the same allocation, so it
/// carries the same frame value and the same identity mark.
#[verifier::external_body]
fn share(s: &SharedFrame) -> (r: SharedFrame)
    ensures
        r == *s,
{
    SharedFrame { rc: Rc::clone(&s.rc), id: s.id }
}

/// Relies on `Rc::ptr_eq`: true exactly when the two handles name one
/// allocation.  Marks are minted fresh per allocation and copied only
/// together with the handle, so pointer equality decides mark equality; and
/// one allocation holds one frame value.
#[verifier::external_body]
fn same_frame(a: &SharedFrame, b: &SharedFrame) -> (r: bool)
    ensures
        r == (a.id@ == b.id@),
        r ==> a.rc == b.rc,
{
    Rc::ptr_eq(&a.rc, &b.rc)
}

/// One slot of the stack: a scope frame that is either exclusively owned (and
/// so free to mutate) or shared with other stacks by an earlier fork (and so
/// copied before any write).
pub enum Slot {
    /// A frame this stack alone refers to.
    Owned(Frame),
    /// A frame possibly referred to by other stacks as well.
    Shared(SharedFrame),
}

impl View for Slot {
    type V = Map<Seq<char>, u64>;

    closed spec fn view(&self) -> Map<Seq<char>, u64> {
        match self {
            Slot::Owned(f) => f@,
            Slot::Shared(sf) => sf.rc@,
        }
    }
}

impl Slot {
    /// Well-formed slots hold well-formed frames.
    pub closed spec fn wf(&self) -> bool {
        match self {
            Slot::Owned(f) => f.wf(),
            Slot::Shared(sf) => (*sf.rc).wf(),
        }
    }

    /// The identity of the slot's frame: the shared allocation's mark, or
    /// none for an owned frame, which no other stack can hold.
    pub closed spec fn slot_id(&self) -> Option<int> {
        match self {
            Slot::Owned(_) => None,
            Slot::Shared(sf) => Some(sf.id@),
        }
    }

    /// Read access to the slot's frame, owned or shared.
    pub fn frame(&self) -> (r: &Frame)
        ensures
            r@ == self@,
            r.wf() == self.wf(),
    {
        match self {
            Slot::Owned(f) => f,
            Slot::Shared(sf) => &*sf.rc,
        }
    }

    /// A frame this caller owns exclusively: the frame itself when owned, a
    /// private copy when shared (copy-on-write).
    pub fn take(self) -> (r: Frame)
        requires
            self.wf(),
        ensures
            r@ == self@,
            r.wf(),
    {
        match self {
            Slot::Owned(f) => f,
            Slot::Shared(sf) => (*sf.rc).duplicate(),
        }
    }
}

/// Whether two slots hold one and the same shared frame.  Owned frames have
/// a single holder and are never shared.
fn slots_shared(a: &Slot, b: &Slot) -> (r: bool)
    ensures
        r == (a.slot_id() is Some && a.slot_id() == b.slot_id()),
{
    match (a, b) {
        (Slot::Shared(x), Slot::Shared(y)) => same_frame(x, y),
        _ => false,
    }
}

/// The scope stack.  Scope 0 is the top (innermost, most recently pushed);
/// the last scope is the root holding the initial bindings.
pub struct Smoosher {
    /// The scopes, topmost first.  Never empty.
    pub scopes: Vec<Slot>,
}

impl View for Smoosher {
    type V = Seq<Map<Seq<char>, u64>>;

    open spec fn view(&self) -> Seq<Map<Seq<char>, u64>> {
        self.scopes@.map_values(|slot: Slot| slot@)
    }
}

impl Smoosher {
    /// Well-formed stacks have at least the root scope, and every scope binds
    /// each key at most once.
    pub open spec fn wf(&self) -> bool {
        &&& self.scopes@.len() >= 1
        &&& forall|i: int| 0 <= i < self.scopes@.len() ==> (#[trigger] self.scopes@[i]).wf()
    }

    /// The identities of the scopes, topmost first: the allocation mark of
    /// each shared scope, none for an exclusively owned one.
    pub open spec fn ids(&self) -> Seq<Option<int>> {
        self.scopes@.map_values(|slot: Slot| slot.slot_id())
    }

    /// A one-scope stack holding the given root bindings.
    pub fn new(initial: Frame) -> (r: Smoosher)
        requires
            initial.wf(),
        ensures
            r.wf(),
            r@ =~= seq![initial@],
            r.ids() =~= seq![None::<int>],
    {
        let mut scopes: Vec<Slot> = Vec::new();
        scopes.push(Slot::Owned(initial));
        Smoosher { scopes }
    }

    /// How many scopes the stack holds.
    pub fn num_scopes(&self) -> (r: usize)
        ensures
            r == self@.len(),
    {
        self.scopes.len()
    }

    /// The most recent binding of `k`: the value bound in the shallowest
    /// scope that binds `k`, or absence if no scope binds it.
    pub fn get(&self, k: &str) -> (r: Option<u64>)
        requires
            self.wf(),
        ensures
            r == lookup(self@, k@),
    {
        let n = self.scopes.len();
        proof {
            assert(self@.skip(0) =~= self@);
        }
        let mut i: usize = 0;
        while i < n
            invariant
                self.wf(),
                n == self.scopes@.len(),
                i <= n,
                lookup(self@, k@) == lookup(self@.skip(i as int), k@),
            decreases n - i,
        {
            let slot = &self.scopes[i];
            let r = slot.frame().get(k);
            proof {
                assert(self@.skip(i as int).first() == self@[i as int]);
                assert(self@.skip(i as int).drop_first() =~= self@.skip(i as int + 1));
            }
            match r {
                Some(v) => {
                    return Some(v);
                },
                None => {},
            }
            i = i + 1;
        }
        proof {
            assert(self@.skip(n as int).len() == 0);
        }
        None
    }

    /// Binds `k` to `v` in the topmost scope only, shadowing (but not
    /// altering) any binding of `k` in a deeper scope.
    pub fn set(&mut self, k: &str, v: u64)
        requires
            old(self).wf(),
        ensures
            final(self).wf(),
            final(self)@ == old(self)@.update(0, old(self)@[0].insert(k@, v)),
            final(self).ids() == old(self).ids().update(0, None::<int>),
    {
        let slot = self.scopes.remove(0);
        let mut f = slot.take();
        f.set(k, v);
        self.scopes.insert(0, Slot::Owned(f));
        proof {
            assert(self.scopes@ =~= old(self).scopes@.update(0, Slot::Owned(f)));
            assert(final(self)@ =~= old(self)@.update(0, old(self)@[0].insert(k@, v)));
            assert(final(self).ids() =~= old(self).ids().update(0, None::<int>));
        }
    }

    /// Pushes a fresh, empty scope on top of the stack.
    pub fn new_scope(&mut self)
        requires
            old(self).wf(),
        ensures
            final(self).wf(),
            final(self)@ == seq![Map::<Seq<char>, u64>::empty()] + old(self)@,
            final(self).ids() == seq![None::<int>] + old(self).ids(),
    {
        self.scopes.insert(0, Slot::Owned(Frame::new()));
        proof {
            assert(final(self)@ =~= seq![Map::<Seq<char>, u64>::empty()] + old(self)@);
            assert(final(self).ids() =~= seq![None::<int>] + old(self).ids());
        }
    }

    /// Read access to the topmost scope.
    pub fn top(&self) -> (r: &Frame)
        requires
            self.wf(),
        ensures
            r@ == self@[0],
            r.wf(),
    {
        let slot = &self.scopes[0];
        slot.frame()
    }

    /// A new stack that shares every scope of `self` and starts with one
    /// fresh, empty scope of its own on top.  The parent keeps its bindings
    /// and the identities of its already-shared scopes, its owned scopes
    /// become shared, and the fork holds the very same scopes: once forked,
    /// either stack copies a shared scope before writing into it, so neither
    /// ever observes the other's writes.
    pub fn fork(&mut self) -> (r: Smoosher)
        requires
            old(self).wf(),
        ensures
            final(self).wf(),
            final(self)@ == old(self)@,
            forall|j: int|
                0 <= j < old(self)@.len() && (#[trigger] old(self).ids()[j]) is Some
                    ==> final(self).ids()[j] == old(self).ids()[j],
            forall|j: int| 0 <= j < old(self)@.len() ==> (#[trigger] final(self).ids()[j]) is Some,
            r.wf(),
            r@ == seq![Map::<Seq<char>, u64>::empty()] + old(self)@,
            r.ids() == seq![None::<int>] + final(self).ids(),
    {
        let mut forked: Vec<Slot> = Vec::new();
        forked.push(Slot::Owned(Frame::new()));
        let n = self.scopes.len();
        let mut i: usize = 0;
        while i < n
            invariant
                n == self.scopes@.len(),
                n == old(self).scopes@.len(),
                i <= n,
                forall|j: int| i <= j < n ==> self.scopes@[j] == old(self).scopes@[j],
                forall|j: int|
                    0 <= j < i ==> (#[trigger] self.scopes@[j]).wf() && self.scopes@[j]@ == old(
                        self,
                    ).scopes@[j]@ && self.scopes@[j].slot_id() is Some && (old(
                        self,
                    ).scopes@[j].slot_id() is Some ==> self.scopes@[j].slot_id() == old(
                        self,
                    ).scopes@[j].slot_id()),
                old(self).wf(),
                forked@.len() == i + 1,
                forked@[0]@ == Map::<Seq<char>, u64>::empty(),
                forked@[0].wf(),
                forked@[0].slot_id() is None,
                forall|j: int|
                    1 <= j <= i ==> (#[trigger] forked@[j]).wf() && forked@[j]@ == old(
                        self,
                    ).scopes@[j - 1]@ && forked@[j].slot_id() == self.scopes@[j - 1].slot_id(),
            decreases n - i,
        {
            let ghost prev = self.scopes@;
            let slot = self.scopes.remove(i);
            let sf = match slot {
                Slot::Owned(f) => mint(f),
                Slot::Shared(s) => s,
            };
            proof {
                assert(prev[i as int] == old(self).scopes@[i as int]);
                assert(Slot::Shared(sf)@ == prev[i as int]@);
                assert(Slot::Shared(sf).wf() == prev[i as int].wf());
                assert(prev[i as int].slot_id() is Some ==> Slot::Shared(sf).slot_id()
                    == prev[i as int].slot_id());
            }
            let ghost forked0 = forked@;
            forked.push(Slot::Shared(share(&sf)));
            self.scopes.insert(i, Slot::Shared(sf));
            proof {
                assert(self.scopes@ =~= prev.update(i as int, Slot::Shared(sf)));
                assert forall|j: int| 0 <= j < i + 1 implies (#[trigger] self.scopes@[j]).wf()
                    && self.scopes@[j]@ == old(self).scopes@[j]@ && self.scopes@[j].slot_id()
                    is Some && (old(self).scopes@[j].slot_id() is Some ==> self.scopes@[j].slot_id()
                    == old(self).scopes@[j].slot_id()) by {
                    if j < i {
                        assert(self.scopes@[j] == prev[j]);
                        assert(prev[j].wf() && prev[j]@ == old(self).scopes@[j]@
                            && prev[j].slot_id() is Some);
                    } else {
                        assert(self.scopes@[j] == Slot::Shared(sf));
                        assert(old(self).wf());
                        assert((old(self).scopes@[i as int]).wf());
                        assert(prev[i as int].wf());
                        assert(Slot::Shared(sf).wf());
                        assert(Slot::Shared(sf)@ == old(self).scopes@[j]@);
                        assert(Slot::Shared(sf).slot_id() is Some);
                    }
                }
                assert forall|j: int| 1 <= j <= i + 1 implies (#[trigger] forked@[j]).wf()
                    && forked@[j]@ == old(self).scopes@[j - 1]@ && forked@[j].slot_id()
                    == self.scopes@[j - 1].slot_id() by {
                    if j <= i {
                        assert(forked@[j] == forked0[j]);
                        assert(self.scopes@[j - 1] == prev[j - 1]);
                    } else {
                        assert(forked@[j] == Slot::Shared(sf));
                        assert(self.scopes@[j - 1] == Slot::Shared(sf));
                    }
                }
            }
            i = i + 1;
        }
        proof {
            assert(final(self)@ =~= old(self)@);
            assert(forked@.map_values(|slot: Slot| slot@) =~= seq![Map::<Seq<char>, u64>::empty()]
                + old(self)@);
            assert(forked@.map_values(|slot: Slot| slot.slot_id()) =~= seq![None::<int>]
                + final(self).ids());
        }
        Smoosher { scopes: forked }
    }

    /// The scopes `[lo, hi)` folded into one owned frame, shallower scopes
    /// taking precedence.
    fn collapse(&self, lo: usize, hi: usize) -> (r: Frame)
        requires
            self.wf(),
            lo <= hi <= self@.len(),
        ensures
            r.wf(),
            r@ == flatten(self@.subrange(lo as int, hi as int)),
    {
        let mut merged = Frame::new();
        proof {
            assert(self@.subrange(hi as int, hi as int).len() == 0);
        }
        let mut i: usize = hi;
        while i > lo
            invariant
                self.wf(),
                lo <= i <= hi,
                hi <= self@.len(),
                merged.wf(),
                merged@ == flatten(self@.subrange(i as int, hi as int)),
            decreases i,
        {
            i = i - 1;
            let slot = &self.scopes[i];
            let f = slot.frame();
            proof {
                assert(f@ == self@[i as int]);
                assert(self@.subrange(i as int, hi as int).first() == self@[i as int]);
                assert(self@.subrange(i as int, hi as int).drop_first() =~= self@.subrange(
                    i as int + 1,
                    hi as int,
                ));
            }
            merged.overlay(f);
        }
        merged
    }

    /// Folds the scopes at depths `top_i ..= bottom_i` into a single scope
    /// at depth `bottom_i`, bindings of shallower scopes winning, and drops
    /// the emptied scopes; with `top_i == bottom_i` nothing changes.  This
    /// commits a nested region's writes into its enclosing scope.
    pub fn smoosh(&mut self, top_i: usize, bottom_i: usize)
        requires
            old(self).wf(),
            top_i <= bottom_i < old(self)@.len(),
        ensures
            final(self).wf(),
            final(self)@ == smoosh_model(old(self)@, top_i as int, bottom_i as int),
            final(self)@.len() == old(self)@.len() - (bottom_i - top_i),
            final(self).ids() == old(self).ids().subrange(0, top_i as int) + seq![None::<int>]
                + old(self).ids().subrange(bottom_i + 1, old(self)@.len() as int),
    {
        let n = self.scopes.len();
        assert(bottom_i < n);
        let merged = self.collapse(top_i, bottom_i + 1);
        let k = bottom_i - top_i;
        let mut c: usize = 0;
        proof {
            assert(self.scopes@ =~= old(self).scopes@.subrange(0, top_i as int) + old(
                self,
            ).scopes@.subrange(top_i as int, old(self).scopes@.len() as int));
        }
        while c < k
            invariant
                c <= k,
                k == bottom_i - top_i,
                top_i <= bottom_i < old(self)@.len(),
                old(self)@.len() == old(self).scopes@.len(),
                self.scopes@ == old(self).scopes@.subrange(0, top_i as int) + old(
                    self,
                ).scopes@.subrange(top_i as int + c, old(self).scopes@.len() as int),
            decreases k - c,
        {
            let _removed = self.scopes.remove(top_i);
            proof {
                assert(self.scopes@ =~= old(self).scopes@.subrange(0, top_i as int) + old(
                    self,
                ).scopes@.subrange(top_i as int + c + 1, old(self).scopes@.len() as int));
            }
            c = c + 1;
        }
        let _folded = self.scopes.remove(top_i);
        self.scopes.insert(top_i, Slot::Owned(merged));
        proof {
            assert(final(self)@ =~= smoosh_model(old(self)@, top_i as int, bottom_i as int));
            assert(final(self).ids() =~= old(self).ids().subrange(0, top_i as int) + seq![
                None::<int>,
            ] + old(self).ids().subrange(bottom_i + 1, old(self)@.len() as int));
        }
    }

    /// How many distinct keys are bound anywhere in the stack.
    pub fn num_bindings(&self) -> (r: usize)
        requires
            self.wf(),
        ensures
            r == flatten(self@).dom().len(),
    {
        let n = self.scopes.len();
        let all = self.collapse(0, n);
        proof {
            assert(self@.subrange(0, n as int) =~= self@);
        }
        all.len()
    }

    /// The keys bound in any scope of `[top_i, bottom_i)`, each exactly
    /// once; an index beyond the stack is read as the number of scopes, so an
    /// out-of-range index never fails, only a range still inverted after that
    /// clamping is refused.
    pub fn list_bound_vars(&self, top_i: usize, bottom_i: usize) -> (r: Vec<String>)
        requires
            self.wf(),
            clamp_index(self@.len() as int, top_i as int) <= clamp_index(
                self@.len() as int,
                bottom_i as int,
            ),
        ensures
            forall|p: int, q: int| 0 <= p < q < r@.len() ==> (#[trigger] r@[p])@ != (#[trigger] r@[q])@,
            forall|p: int|
                0 <= p < r@.len() ==> bound_vars_model(
                    self@,
                    top_i as int,
                    bottom_i as int,
                ).contains((#[trigger] r@[p])@),
            forall|k: Seq<char>|
                bound_vars_model(self@, top_i as int, bottom_i as int).contains(k) ==> (exists|
                    p: int,
                |
                    0 <= p < r@.len() && (#[trigger] r@[p])@ == k),
    {
        let len = self.scopes.len();
        let lo = if top_i > len {
            len
        } else {
            top_i
        };
        let hi = if bottom_i > len {
            len
        } else {
            bottom_i
        };
        let f = self.collapse(lo, hi);
        f.keys()
    }

    /// The bindings visible in scopes `[top_i, bottom_i)` that differ from,
    /// or are absent from, the view resolved by the scopes at depth
    /// `bottom_i` and below: exactly the state a nested region touched.
    pub fn diff(&self, top_i: usize, bottom_i: usize) -> (r: Frame)
        requires
            self.wf(),
            top_i <= bottom_i <= self@.len(),
        ensures
            r.wf(),
            r@ == diff_model(self@, top_i as int, bottom_i as int),
    {
        let n = self.scopes.len();
        let up = self.collapse(top_i, bottom_i);
        let low = self.collapse(bottom_i, n);
        let mut out = Frame::new();
        let m = up.entries.len();
        proof {
            assert(diff_map(entries_map(up.entries@.subrange(0, 0)), low@)
                =~= Map::<Seq<char>, u64>::empty());
        }
        let mut i: usize = 0;
        while i < m
            invariant
                up.wf(),
                low.wf(),
                out.wf(),
                m == up.entries@.len(),
                i <= m,
                out@ == diff_map(entries_map(up.entries@.subrange(0, i as int)), low@),
            decreases m - i,
        {
            let e = &up.entries[i];
            let keep = match low.get(e.0.as_str()) {
                Some(w) => w != e.1,
                None => true,
            };
            proof {
                lemma_entries_map_dom(up.entries@.subrange(0, i as int));
                assert(up.entries@.subrange(0, i + 1).drop_last() =~= up.entries@.subrange(
                    0,
                    i as int,
                ));
            }
            if keep {
                out.set(e.0.as_str(), e.1);
            }
            proof {
                assert(out@ =~= diff_map(entries_map(up.entries@.subrange(0, i + 1)), low@));
            }
            i = i + 1;
        }
        proof {
            assert(up.entries@.subrange(0, m as int) =~= up.entries@);
        }
        out
    }

    /// Reconciles two stacks that were forked from a common ancestor.  The
    /// shared suffix — the scopes both stacks still hold as one allocation —
    /// is the ancestor; the scopes above it on each side are folded into that
    /// branch's write set, and the union of the two write sets becomes one
    /// new scope on top of the shared ancestor scopes.  Fails with
    /// `MergeConflict` when the branches bound the same key to different
    /// values, and with `IncompatibleFork` when the stacks share no scope at
    /// all — in particular when they were never forked from one stack.
    pub fn merge(self, other: Smoosher) -> (r: Result<Smoosher, StackError>)
        requires
            self.wf(),
            other.wf(),
        ensures
            ({
                let d = common_depth(self.ids(), other.ids());
                match r {
                    Ok(m) => d > 0 && !merge_conflict_at(self@, other@, d) && m.wf() && m@
                        == merge_model_at(self@, other@, d) && m.ids() == seq![None::<int>]
                        + self.ids().subrange(self@.len() - d, self@.len() as int),
                    Err(StackError::IncompatibleFork) => d == 0,
                    Err(StackError::MergeConflict(key)) => d > 0 && merge_conflict_at(
                        self@,
                        other@,
                        d,
                    ) && upper_writes(self@, d).dom().contains(key@) && upper_writes(
                        other@,
                        d,
                    ).dom().contains(key@) && upper_writes(self@, d)[key@] != upper_writes(
                        other@,
                        d,
                    )[key@],
                }
            }),
    {
        let la = self.scopes.len();
        let lb = other.scopes.len();
        let max = if la < lb {
            la
        } else {
            lb
        };
        let mut d: usize = 0;
        let mut diverged = false;
        while d < max && !diverged
            invariant
                self.wf(),
                other.wf(),
                la == self@.len(),
                lb == other@.len(),
                la == self.ids().len(),
                lb == other.ids().len(),
                max == if la < lb {
                    la
                } else {
                    lb
                },
                d <= max,
                forall|j: int|
                    0 <= j < d ==> (#[trigger] self.ids()[la - 1 - j]) == other.ids()[lb - 1 - j]
                        && self.ids()[la - 1 - j] is Some,
                diverged ==> d < max && !(self.ids()[la - 1 - d] is Some && self.ids()[la - 1 - d]
                    == other.ids()[lb - 1 - d]),
            decreases max - d, (if diverged {
                0int
            } else {
                1int
            }),
        {
            let sa = &self.scopes[la - 1 - d];
            let sb = &other.scopes[lb - 1 - d];
            if slots_shared(sa, sb) {
                d = d + 1;
            } else {
                diverged = true;
            }
        }
        proof {
            lemma_common_depth_from_ids(self.ids(), other.ids(), d as int);
        }
        if d == 0 {
            return Err(StackError::IncompatibleFork);
        }
        let wa = self.collapse(0, la - d);
        let wb = other.collapse(0, lb - d);
        let m = wa.entries.len();
        let mut i: usize = 0;
        while i < m
            invariant
                wa.wf(),
                wb.wf(),
                wa@ == upper_writes(self@, d as int),
                wb@ == upper_writes(other@, d as int),
                d as int == common_depth(self.ids(), other.ids()),
                d >= 1,
                m == wa.entries@.len(),
                i <= m,
                forall|j: int|
                    0 <= j < i ==> !(wb@.dom().contains((#[trigger] wa.entries@[j]).0@)
                        && wb@[wa.entries@[j].0@] != wa.entries@[j].1),
            decreases m - i,
        {
            let e = &wa.entries[i];
            match wb.get(e.0.as_str()) {
                Some(w) => {
                    if w != e.1 {
                        proof {
                            lemma_entries_map_index(wa.entries@, i as int);
                            assert(wa@.dom().contains(e.0@) && wa@[e.0@] == e.1);
                            assert(wb@.dom().contains(e.0@) && wb@[e.0@] == w);
                            assert(merge_conflict_at(self@, other@, d as int)) by {
                                assert(upper_writes(self@, d as int).dom().contains(e.0@)
                                    && upper_writes(other@, d as int).dom().contains(e.0@)
                                    && upper_writes(self@, d as int)[e.0@] != upper_writes(
                                    other@,
                                    d as int,
                                )[e.0@]);
                            }
                        }
                        return Err(StackError::MergeConflict(e.0.clone()));
                    }
                },
                None => {},
            }
            i = i + 1;
        }
        proof {
            lemma_entries_map_dom(wa.entries@);
            assert(!merge_conflict_at(self@, other@, d as int)) by {
                if merge_conflict_at(self@, other@, d as int) {
                    let k = choose|k: Seq<char>|
                        upper_writes(self@, d as int).dom().contains(k) && upper_writes(
                            other@,
                            d as int,
                        ).dom().contains(k) && upper_writes(self@, d as int)[k] != upper_writes(
                            other@,
                            d as int,
                        )[k];
                    let j = choose|j: int|
                        0 <= j < wa.entries@.len() && (#[trigger] wa.entries@[j]).0@ == k;
                    lemma_entries_map_index(wa.entries@, j);
                }
            }
        }
        let mut union = wa;
        union.overlay(&wb);
        let Smoosher { scopes: mut sc } = self;
        let tail = sc.split_off(la - d);
        let mut scopes = tail;
        scopes.insert(0, Slot::Owned(union));
        let merged = Smoosher { scopes };
        proof {
            assert(merged@ =~= merge_model_at(self@, other@, d as int));
            assert(merged.ids() =~= seq![None::<int>] + self.ids().subrange(
                self@.len() - d,
                self@.len() as int,
            ));
        }
        Ok(merged)
    }
}

/// Law: after binding `k` to `v` in the topmost scope, resolving `k` yields
/// exactly `Some(v)`.
pub proof fn lemma_set_then_get(s: Seq<Map<Seq<char>, u64>>, k: Seq<char>, v: u64)
    requires
        s.len() >= 1,
    ensures
        lookup(s.update(0, s[0].insert(k, v)), k) == Some(v),
{
    let t = s.update(0, s[0].insert(k, v));
    assert(t.first() == s[0].insert(k, v));
}

/// Law: resolving a key scope by scope agrees with resolving it in the fully
/// folded view of the stack.
pub proof fn lemma_lookup_flatten(s: Seq<Map<Seq<char>, u64>>, k: Seq<char>)
    ensures
        lookup(s, k) == map_get(flatten(s), k),
    decreases s.len(),
{
    if s.len() > 0 {
        lemma_lookup_flatten(s.drop_first(), k);
    }
}

/// Resolution across concatenated stacks: the left part wins when it binds
/// the key at all.
proof fn lemma_lookup_append(x: Seq<Map<Seq<char>, u64>>, y: Seq<Map<Seq<char>, u64>>, k: Seq<char>)
    ensures
        lookup(x + y, k) == (match lookup(x, k) {
            Some(v) => Some(v),
            None => lookup(y, k),
        }),
    decreases x.len(),
{
    if x.len() == 0 {
        assert(x + y =~= y);
    } else {
        lemma_lookup_append(x.drop_first(), y, k);
        assert((x + y).drop_first() =~= x.drop_first() + y);
        assert((x + y).first() == x.first());
    }
}

/// Law: folding a range of scopes never changes the result of any lookup,
/// and it removes exactly `bottom_i - top_i` scopes.
pub proof fn lemma_smoosh_preserves_lookup(
    s: Seq<Map<Seq<char>, u64>>,
    top_i: int,
    bottom_i: int,
    k: Seq<char>,
)
    requires
        0 <= top_i <= bottom_i < s.len(),
    ensures
        lookup(smoosh_model(s, top_i, bottom_i), k) == lookup(s, k),
        smoosh_model(s, top_i, bottom_i).len() == s.len() - (bottom_i - top_i),
{
    let pre = s.subrange(0, top_i);
    let mid = s.subrange(top_i, bottom_i + 1);
    let post = s.subrange(bottom_i + 1, s.len() as int);
    let folded = seq![flatten(mid)];
    assert(s =~= pre + (mid + post));
    assert(smoosh_model(s, top_i, bottom_i) =~= pre + (folded + post));
    lemma_lookup_append(pre, mid + post, k);
    lemma_lookup_append(mid, post, k);
    lemma_lookup_append(pre, folded + post, k);
    lemma_lookup_append(folded, post, k);
    lemma_lookup_flatten(mid, k);
    assert(folded.first() == flatten(mid));
    assert(folded.drop_first().len() == 0);
    assert(lookup(folded.drop_first(), k) == None::<u64>);
    assert(lookup(folded, k) == map_get(flatten(mid), k));
}

/// Law: folding a single scope into itself is a no-op: the stack keeps its
/// scope count, its bindings, and every lookup result.
pub proof fn lemma_smoosh_identity(s: Seq<Map<Seq<char>, u64>>, i: int)
    requires
        0 <= i < s.len(),
    ensures
        smoosh_model(s, i, i) == s,
{
    let mid = s.subrange(i, i + 1);
    assert(mid.first() == s[i]);
    assert(mid.drop_first().len() == 0);
    assert(flatten(mid.drop_first()) == Map::<Seq<char>, u64>::empty());
    assert(flatten(mid) =~= s[i]);
    assert(smoosh_model(s, i, i) =~= s);
}

/// Law: a freshly forked stack resolves every key exactly as its parent
/// does: the fresh top scope is empty and the rest is the parent's view.
pub proof fn lemma_fork_reads_parent(s: Seq<Map<Seq<char>, u64>>, k: Seq<char>)
    ensures
        lookup(seq![Map::<Seq<char>, u64>::empty()] + s, k) == lookup(s, k),
{
    let f = seq![Map::<Seq<char>, u64>::empty()] + s;
    assert(f.first() == Map::<Seq<char>, u64>::empty());
    assert(!f.first().dom().contains(k));
    assert(f.drop_first() =~= s);
}

/// Law: writing on a freshly forked stack is isolated.  The write lands in
/// the fork's own fresh scope: the fork then resolves the written key to the
/// written value and every other key as the parent does — and the parent's
/// view, which the write never touched, resolves everything as before.
pub proof fn lemma_fork_write_isolation(s: Seq<Map<Seq<char>, u64>>, k: Seq<char>, v: u64, q: Seq<char>)
    ensures
        ({
            let f = seq![Map::<Seq<char>, u64>::empty()] + s;
            let written = f.update(0, f[0].insert(k, v));
            &&& lookup(written, k) == Some(v)
            &&& q != k ==> lookup(written, q) == lookup(s, q)
        }),
{
    let f = seq![Map::<Seq<char>, u64>::empty()] + s;
    let written = f.update(0, f[0].insert(k, v));
    assert(f[0] == Map::<Seq<char>, u64>::empty());
    assert(written.first() == Map::<Seq<char>, u64>::empty().insert(k, v));
    assert(written.drop_first() =~= s);
}

/// Law: a range of scopes holding no bindings diffs to the empty mapping.
pub proof fn lemma_diff_no_writes(s: Seq<Map<Seq<char>, u64>>, top_i: int, bottom_i: int)
    requires
        0 <= top_i <= bottom_i <= s.len(),
        forall|i: int| top_i <= i < bottom_i ==> s[i] == Map::<Seq<char>, u64>::empty(),
    ensures
        diff_model(s, top_i, bottom_i) == Map::<Seq<char>, u64>::empty(),
{
    lemma_flatten_all_empty(s.subrange(top_i, bottom_i));
    assert(diff_model(s, top_i, bottom_i) =~= Map::<Seq<char>, u64>::empty());
}

/// Folding scopes that are all empty yields the empty mapping.
proof fn lemma_flatten_all_empty(u: Seq<Map<Seq<char>, u64>>)
    requires
        forall|i: int| 0 <= i < u.len() ==> u[i] == Map::<Seq<char>, u64>::empty(),
    ensures
        flatten(u) == Map::<Seq<char>, u64>::empty(),
    decreases u.len(),
{
    if u.len() > 0 {
        lemma_flatten_all_empty(u.drop_first());
        assert(flatten(u) =~= Map::<Seq<char>, u64>::empty());
    }
}

/// Law: listing the bound variables with an out-of-range bottom index reads
/// the index as the number of scopes.
pub proof fn lemma_bound_vars_clamped(s: Seq<Map<Seq<char>, u64>>, top_i: int, bottom_i: int)
    requires
        bottom_i >= s.len(),
    ensures
        bound_vars_model(s, top_i, bottom_i) == bound_vars_model(s, top_i, s.len() as int),
{
}

/// The shared suffix is symmetric in its two stacks.
proof fn lemma_common_depth_symm(a: Seq<Option<int>>, b: Seq<Option<int>>)
    ensures
        common_depth(a, b) == common_depth(b, a),
    decreases a.len(),
{
    if a.len() > 0 && b.len() > 0 && a.last() is Some && a.last() == b.last() {
        lemma_common_depth_symm(a.drop_last(), b.drop_last());
    }
}

/// The identities inside the shared suffix agree pairwise and are all
/// present, and the suffix is no longer than either stack.
proof fn lemma_common_depth_props(a: Seq<Option<int>>, b: Seq<Option<int>>)
    ensures
        0 <= common_depth(a, b) <= a.len(),
        common_depth(a, b) <= b.len(),
        forall|j: int|
            0 <= j < common_depth(a, b) ==> (#[trigger] a[a.len() - 1 - j]) == b[b.len() - 1 - j]
                && a[a.len() - 1 - j] is Some,
    decreases a.len(),
{
    if a.len() > 0 && b.len() > 0 && a.last() is Some && a.last() == b.last() {
        let a1 = a.drop_last();
        let b1 = b.drop_last();
        lemma_common_depth_props(a1, b1);
        assert forall|j: int| 0 <= j < common_depth(a, b) implies (#[trigger] a[a.len() - 1 - j])
            == b[b.len() - 1 - j] && a[a.len() - 1 - j] is Some by {
            if j > 0 {
                assert(a1[a1.len() - 1 - (j - 1)] == b1[b1.len() - 1 - (j - 1)]);
                assert(a1[a1.len() - 1 - (j - 1)] is Some);
            }
        }
    }
}

/// Law: two sibling forks of one stack share exactly that stack's scopes:
/// each fork holds its own fresh top scope above the parent's shared scopes,
/// so their shared suffix is the whole parent stack.
pub proof fn lemma_sibling_fork_depth(base: Seq<Option<int>>)
    requires
        forall|j: int| 0 <= j < base.len() ==> (#[trigger] base[j]) is Some,
    ensures
        common_depth(seq![None::<int>] + base, seq![None::<int>] + base) == base.len(),
    decreases base.len(),
{
    let x = seq![None::<int>] + base;
    if base.len() == 0 {
        assert(x.last() is None);
    } else {
        assert(x.last() == base.last());
        assert(base[base.len() - 1] is Some);
        assert(x.drop_last() =~= seq![None::<int>] + base.drop_last());
        assert(forall|j: int|
            0 <= j < base.drop_last().len() ==> (#[trigger] base.drop_last()[j]) is Some);
        lemma_sibling_fork_depth(base.drop_last());
    }
}

/// Law: merging is symmetric.  For two stacks that agree on their shared
/// scopes — as stacks forked from one ancestor do — both orders find the
/// same shared suffix, agree on whether the branches conflict, and, when no
/// pair of writes conflicts, produce the same reconciled stack; so the final
/// state of a parallel region does not depend on the order its branches are
/// merged in.
pub proof fn lemma_merge_commutes(
    aids: Seq<Option<int>>,
    a: Seq<Map<Seq<char>, u64>>,
    bids: Seq<Option<int>>,
    b: Seq<Map<Seq<char>, u64>>,
)
    requires
        a.len() == aids.len(),
        b.len() == bids.len(),
        forall|j: int|
            0 <= j < common_depth(aids, bids) ==> (#[trigger] a[a.len() - 1 - j]) == b[b.len() - 1
                - j],
    ensures
        common_depth(aids, bids) == common_depth(bids, aids),
        merge_conflict_at(a, b, common_depth(aids, bids)) == merge_conflict_at(
            b,
            a,
            common_depth(bids, aids),
        ),
        common_depth(aids, bids) > 0 && !merge_conflict_at(a, b, common_depth(aids, bids))
            ==> merge_model_at(a, b, common_depth(aids, bids)) == merge_model_at(
            b,
            a,
            common_depth(bids, aids),
        ),
{
    lemma_common_depth_symm(aids, bids);
    lemma_common_depth_props(aids, bids);
    let d = common_depth(aids, bids);
    let wa = upper_writes(a, d);
    let wb = upper_writes(b, d);
    assert(merge_conflict_at(a, b, d) ==> merge_conflict_at(b, a, d)) by {
        if merge_conflict_at(a, b, d) {
            let k = choose|k: Seq<char>|
                wa.dom().contains(k) && wb.dom().contains(k) && wa[k] != wb[k];
            assert(wb.dom().contains(k) && wa.dom().contains(k) && wb[k] != wa[k]);
        }
    }
    assert(merge_conflict_at(b, a, d) ==> merge_conflict_at(a, b, d)) by {
        if merge_conflict_at(b, a, d) {
            let k = choose|k: Seq<char>|
                wb.dom().contains(k) && wa.dom().contains(k) && wb[k] != wa[k];
            assert(wa.dom().contains(k) && wb.dom().contains(k) && wa[k] != wb[k]);
        }
    }
    if d > 0 && !merge_conflict_at(a, b, d) {
        assert(wa.union_prefer_right(wb) =~= wb.union_prefer_right(wa)) by {
            assert forall|k: Seq<char>|
                wa.dom().contains(k) && wb.dom().contains(k) implies wa[k] == wb[k] by {
                if wa[k] != wb[k] {
                    assert(merge_conflict_at(a, b, d));
                }
            }
        }
        assert(a.subrange(a.len() - d, a.len() as int) =~= b.subrange(b.len() - d, b.len() as int))
            by {
            assert forall|i: int| 0 <= i < d implies #[trigger] a.subrange(
                a.len() - d,
                a.len() as int,
            )[i] == b.subrange(b.len() - d, b.len() as int)[i] by {
                assert(a[a.len() - 1 - (d - 1 - i)] == b[b.len() - 1 - (d - 1 - i)]);
            }
        }
        assert(merge_model_at(a, b, d) =~= merge_model_at(b, a, d));
    }
}

/// Two stacks' shared suffix length is exactly the number of trailing scope
/// identities that a back-to-front comparison finds present and equal before
/// the first mismatch or missing identity.
proof fn lemma_common_depth_from_ids(a: Seq<Option<int>>, b: Seq<Option<int>>, d: int)
    requires
        0 <= d <= a.len(),
        d <= b.len(),
        forall|j: int|
            0 <= j < d ==> (#[trigger] a[a.len() - 1 - j]) == b[b.len() - 1 - j] && a[a.len() - 1
                - j] is Some,
        d == a.len() || d == b.len() || !(a[a.len() - 1 - d] is Some && a[a.len() - 1 - d]
            == b[b.len() - 1 - d]),
    ensures
        common_depth(a, b) == d,
    decreases a.len(),
{
    if a.len() == 0 || b.len() == 0 {
        assert(d == 0);
    } else if !(a.last() is Some && a.last() == b.last()) {
        assert(d == 0) by {
            if d > 0 {
                assert(a[a.len() - 1 - 0] == b[b.len() - 1 - 0] && a[a.len() - 1 - 0] is Some);
            }
        }
    } else {
        assert(d >= 1) by {
            if d == 0 {
                assert(!(a[a.len() - 1 - 0] is Some && a[a.len() - 1 - 0] == b[b.len() - 1 - 0]));
            }
        }
        let a1 = a.drop_last();
        let b1 = b.drop_last();
        assert forall|j: int| 0 <= j < d - 1 implies (#[trigger] a1[a1.len() - 1 - j]) == b1[b1.len()
            - 1 - j] && a1[a1.len() - 1 - j] is Some by {
            assert(a[a.len() - 1 - (j + 1)] == b[b.len() - 1 - (j + 1)] && a[a.len() - 1 - (j + 1)]
                is Some);
        }
        if d - 1 < a1.len() && d - 1 < b1.len() {
            assert(a1[a1.len() - 1 - (d - 1)] == a[a.len() - 1 - d]);
            assert(b1[b1.len() - 1 - (d - 1)] == b[b.len() - 1 - d]);
        }
        lemma_common_depth_from_ids(a1, b1, d - 1);
    }
}

} // verus!


