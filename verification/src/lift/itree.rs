//! An index of entries by interval.
//!
//! The index is a segment tree over a fixed span. Every node owns a sub-span
//! found by bisection and keeps the entries that lie inside its sub-span but
//! inside neither half of it. A node without children that holds a single
//! entry is an inline singleton: its entry may lie higher in the tree than
//! bisection alone would put it, which keeps the depth of the tree bounded by
//! the number of entries rather than by the width of the span.

use crate::range::{range_contains, range_overlaps, range_valid, RangeOps};
use std::ops::Range;
use vstd::prelude::*;

verus! {

/// A value that is indexed by an interval.
///
/// Entries are compared as whole values: two entries with the same interval
/// are still two entries unless they are equal.
pub trait IntervalTreeEntry: Sized {
    /// The interval of the entry, as contracts see it.
    spec fn interval_spec(&self) -> Range<u64>;

    /// The interval of the entry.
    fn interval(&self) -> (r: Range<u64>)
        ensures
            r == self.interval_spec(),
    ;

    /// Whether `other` is the same entry: equal in every part, not only in
    /// its interval.
    fn same_entry(&self, other: &Self) -> (same: bool)
        ensures
            same == (*self == *other),
    ;
}

/// The point at which a span is bisected.
pub open spec fn span_mid(span: Range<u64>) -> u64 {
    ((span.start + span.end) / 2) as u64
}

/// The lower half of a span.
pub open spec fn left_half(span: Range<u64>) -> Range<u64> {
    Range { start: span.start, end: span_mid(span) }
}

/// The upper half of a span.
pub open spec fn right_half(span: Range<u64>) -> Range<u64> {
    Range { start: span_mid(span), end: span.end }
}

/// Whether a span is wide enough to be bisected.
pub open spec fn can_bisect(span: Range<u64>) -> bool {
    span.end - span.start >= 2
}

/// The entry has a non-empty interval that lies inside `span`.
pub open spec fn entry_fits<T: IntervalTreeEntry>(entry: T, span: Range<u64>) -> bool {
    range_valid(entry.interval_spec()) && range_contains(span, entry.interval_spec())
}

/// An interval tree.
///
/// Entries are values that have an associated interval. Several entries may
/// have the very same interval, but each entry is held once.
pub struct IntervalTree<T: IntervalTreeEntry> {
    span: Range<u64>,
    root_node: NodeType<T>,
}

impl<T: IntervalTreeEntry> View for IntervalTree<T> {
    type V = Set<T>;

    /// The entries that the tree holds.
    closed spec fn view(&self) -> Set<T> {
        self.root_node.content()
    }
}

impl<T: IntervalTreeEntry> IntervalTree<T> {
    /// The span that the tree was made for.
    pub closed spec fn span(&self) -> Range<u64> {
        self.span
    }

    /// The invariant of the tree: every entry lies at the node that the
    /// placement rules give it, and no populated node is without entries.
    pub closed spec fn wf(&self) -> bool {
        range_valid(self.span) && self.root_node.wf(self.span)
    }

    /// Every entry of a well-formed tree has a non-empty interval inside the
    /// span of the tree, and the entries are finitely many.
    pub proof fn lemma_entries_fit(&self)
        requires
            self.wf(),
        ensures
            self@.finite(),
            forall|e: T| #[trigger] self@.contains(e) ==> entry_fits(e, self.span()),
    {
        self.root_node.lemma_content_fits(self.span);
        self.root_node.lemma_content_finite();
    }

    /// An empty tree over `span`.
    pub fn new(span: Range<u64>) -> (tree: Self)
        requires
            range_valid(span),
        ensures
            tree.wf(),
            tree.span() == span,
            tree@ == Set::<T>::empty(),
    {
        Self { span, root_node: NodeType::Empty }
    }

    /// Inserts entry, returns true if entry was added (did not already exist in the tree).
    pub fn insert(&mut self, entry: T) -> (added: bool)
        requires
            old(self).wf(),
            entry_fits(entry, old(self).span()),
        ensures
            final(self).wf(),
            final(self).span() == old(self).span(),
            added == !old(self)@.contains(entry),
            final(self)@ == old(self)@.insert(entry),
    {
        let span = self.span.start..self.span.end;
        let added = self.root_node.insert(&span, entry, false);
        proof {
            assert(final(self)@ =~= old(self)@.insert(entry));
        }
        added
    }

    /// Every entry whose interval overlaps `query_span`, each once.
    pub fn find<'a>(&'a self, query_span: &Range<u64>) -> (found: Vec<&'a T>)
        requires
            self.wf(),
            range_valid(*query_span),
        ensures
            lists(found@, 0, hits(self@, *query_span)),
    {
        let mut result: Vec<&T> = Vec::new();
        if self.span.overlaps_range(query_span) {
            self.root_node.find(&self.span, query_span, &mut result);
        } else {
            proof {
                self.lemma_entries_fit();
                assert(hits(self@, *query_span) =~= Set::<T>::empty());
            }
        }
        result
    }

    /// Takes `entry` out of the tree, and says whether it was there.
    pub fn remove(&mut self, entry: &T) -> (removed: bool)
        requires
            old(self).wf(),
            entry_fits(*entry, old(self).span()),
        ensures
            final(self).wf(),
            final(self).span() == old(self).span(),
            removed == old(self)@.contains(*entry),
            final(self)@ == old(self)@.remove(*entry),
    {
        let span = self.span.start..self.span.end;
        let removed = self.root_node.remove(&span, entry);
        proof {
            assert(final(self)@ =~= old(self)@.remove(*entry));
        }
        removed
    }

    /// Whether the tree holds no entry.
    pub fn is_empty(&self) -> (empty: bool)
        requires
            self.wf(),
        ensures
            empty == (self@ == Set::<T>::empty()),
    {
        proof {
            if self.root_node is Populated {
                self.root_node.lemma_populated_inhabited(self.span);
            } else {
                assert(self@ =~= Set::<T>::empty());
            }
        }
        self.root_node.is_empty()
    }

    /// Some entry of the tree; `None` exactly when the tree is empty. The
    /// choice depends on the shape of the tree alone.
    pub fn first(&self) -> (entry: Option<&T>)
        requires
            self.wf(),
        ensures
            match entry {
                Some(e) => self@.contains(*e),
                None => self@ == Set::<T>::empty(),
            },
    {
        let entry = self.root_node.first(Ghost(self.span));
        proof {
            if entry is None {
                assert(self@ =~= Set::<T>::empty());
            }
        }
        entry
    }
}

/// An entry put into an empty index and taken out again leaves the index
/// empty.
pub proof fn lemma_insert_remove_collapses<T: IntervalTreeEntry>(
    empty: IntervalTree<T>,
    filled: IntervalTree<T>,
    drained: IntervalTree<T>,
    entry: T,
)
    requires
        empty@ == Set::<T>::empty(),
        filled@ == empty@.insert(entry),
        drained@ == filled@.remove(entry),
    ensures
        drained@ == Set::<T>::empty(),
{
    assert(drained@ =~= Set::<T>::empty());
}

enum NodeType<T: IntervalTreeEntry> {
    Empty,
    Populated(Box<BinaryNode<T>>),
}

struct BinaryNode<T: IntervalTreeEntry> {
    here: Vec<T>,
    left_node: NodeType<T>,
    right_node: NodeType<T>,
}

impl<T: IntervalTreeEntry> BinaryNode<T> {
    /// Intervals in the local bag lie inside the span, nothing is held twice,
    /// and the children are well formed over the halves of the span.
    spec fn bounded(self, span: Range<u64>) -> bool {
        &&& range_valid(span)
        &&& self.here@.no_duplicates()
        &&& forall|i: int| 0 <= i < self.here@.len() ==> entry_fits(#[trigger] self.here@[i], span)
        &&& if can_bisect(span) {
            self.left_node.wf(left_half(span)) && self.right_node.wf(right_half(span))
        } else {
            self.left_node is Empty && self.right_node is Empty
        }
    }

    /// No entry of the local bag would fit into a child.
    spec fn settled(self, span: Range<u64>) -> bool {
        can_bisect(span) ==> forall|i: int|
            0 <= i < self.here@.len() ==> {
                &&& !range_contains(left_half(span), (#[trigger] self.here@[i]).interval_spec())
                &&& !range_contains(right_half(span), self.here@[i].interval_spec())
            }
    }

    /// A node whose local bag is empty has two children, or one child that
    /// is not an inline singleton.
    spec fn branching(self) -> bool {
        self.here@.len() == 0 ==> {
            &&& self.left_node is Empty ==> self.right_node is Populated
                && !self.right_node.is_single()
            &&& self.right_node is Empty ==> self.left_node is Populated
                && !self.left_node.is_single()
        }
    }

    spec fn single(self) -> bool {
        self.here@.len() == 1 && self.left_node is Empty && self.right_node is Empty
    }

    spec fn content(self) -> Set<T> {
        self.here@.to_set().union(self.left_node.content()).union(self.right_node.content())
    }

    fn is_inline_singleton(&self) -> (single: bool)
        requires
            !(self.here@.len() == 0 && self.left_node is Empty && self.right_node is Empty),
        ensures
            single == self.single(),
    {
        self.left_node.is_empty() && self.right_node.is_empty() && self.here.len() == 1
    }
}

impl<T: IntervalTreeEntry> NodeType<T> {
    spec fn content(self) -> Set<T>
        decreases self,
    {
        match self {
            NodeType::Empty => Set::empty(),
            NodeType::Populated(p) => p.here@.to_set().union(p.left_node.content()).union(
                p.right_node.content(),
            ),
        }
    }

    spec fn is_single(self) -> bool {
        match self {
            NodeType::Empty => false,
            NodeType::Populated(p) => p.single(),
        }
    }

    spec fn wf(self, span: Range<u64>) -> bool
        decreases self,
    {
        match self {
            NodeType::Empty => true,
            NodeType::Populated(p) => {
                &&& range_valid(span)
                &&& p.here@.no_duplicates()
                &&& forall|i: int| 0 <= i < p.here@.len() ==> entry_fits(#[trigger] p.here@[i], span)
                &&& if can_bisect(span) {
                    p.left_node.wf(left_half(span)) && p.right_node.wf(right_half(span))
                } else {
                    p.left_node is Empty && p.right_node is Empty
                }
                &&& (p.single() || p.settled(span))
                &&& p.branching()
            },
        }
    }

    /// A populated node is well formed when its parts are.
    proof fn lemma_wf_unfold(self, span: Range<u64>)
        ensures
            self.wf(span) <==> match self {
                NodeType::Empty => true,
                NodeType::Populated(p) => p.bounded(span) && (p.single() || p.settled(span))
                    && p.branching(),
            },
            self.content() == match self {
                NodeType::Empty => Set::empty(),
                NodeType::Populated(p) => p.content(),
            },
    {
    }

    /// The state of a node between taking its inline singleton out and
    /// putting it back: every entry is settled, but a lone child may be an
    /// inline singleton.
    spec fn relaxed(self, span: Range<u64>) -> bool {
        match self {
            NodeType::Empty => false,
            NodeType::Populated(p) => {
                &&& p.bounded(span)
                &&& p.settled(span)
                &&& !(p.here@.len() == 0 && p.left_node is Empty && p.right_node is Empty)
            },
        }
    }

    fn is_empty(&self) -> (empty: bool)
        ensures
            empty == (self is Empty),
    {
        match self {
            NodeType::Empty => true,
            NodeType::Populated(_) => false,
        }
    }

    proof fn lemma_content_fits(self, span: Range<u64>)
        requires
            self.wf(span) || self.relaxed(span),
        ensures
            forall|e: T| #[trigger] self.content().contains(e) ==> entry_fits(e, span),
        decreases self,
    {
        match self {
            NodeType::Empty => {},
            NodeType::Populated(p) => {
                if can_bisect(span) {
                    p.left_node.lemma_content_fits(left_half(span));
                    p.right_node.lemma_content_fits(right_half(span));
                }
                assert forall|e: T| self.content().contains(e) implies entry_fits(e, span) by {
                    if p.here@.contains(e) {
                        let i = choose|i: int| 0 <= i < p.here@.len() && p.here@[i] == e;
                        assert(entry_fits(p.here@[i], span));
                    } else if p.left_node.content().contains(e) {
                        assert(can_bisect(span));
                        assert(entry_fits(e, left_half(span)));
                    } else {
                        assert(p.right_node.content().contains(e));
                        assert(can_bisect(span));
                        assert(entry_fits(e, right_half(span)));
                    }
                }
            },
        }
    }

    fn insert(&mut self, self_span: &Range<u64>, entry: T, suppress_inline_singleton_flag: bool) -> (added: bool)
        requires
            range_valid(*self_span),
            entry_fits(entry, *self_span),
            if suppress_inline_singleton_flag {
                old(self).relaxed(*self_span) && !old(self).content().contains(entry)
            } else {
                old(self).wf(*self_span)
            },
        ensures
            final(self).wf(*self_span),
            *final(self) is Populated,
            added == !old(self).content().contains(entry),
            added ==> final(self).content() =~= old(self).content().insert(entry),
            !added ==> *final(self) == *old(self),
            added && *old(self) is Populated ==> !final(self).is_single(),
        decreases self_span.end - self_span.start, (if suppress_inline_singleton_flag { 0nat } else { 1nat }),
    {
        proof {
            old(self).lemma_content_fits(*self_span);
            old(self).lemma_wf_unfold(*self_span);
        }
        match self {
            NodeType::Empty => {
                let mut here: Vec<T> = Vec::new();
                here.push(entry);
                let node = BinaryNode { here, left_node: NodeType::Empty, right_node: NodeType::Empty };
                proof {
                    lemma_push_to_set(Seq::<T>::empty(), entry);
                    assert(Seq::<T>::empty().to_set() =~= Set::<T>::empty());
                    assert(node.here@ =~= Seq::<T>::empty().push(entry));
                    assert(node.left_node.wf(left_half(*self_span)));
                    assert(node.right_node.wf(right_half(*self_span)));
                    assert(node.left_node.content() =~= Set::<T>::empty());
                    assert(node.right_node.content() =~= Set::<T>::empty());
                    assert(node.bounded(*self_span));
                    assert(node.single());
                    assert(node.branching());
                }
                *self = NodeType::Populated(Box::new(node));
                proof {
                    self.lemma_wf_unfold(*self_span);
                }
                true
            },
            NodeType::Populated(p) => {
                let was_inline_single = !suppress_inline_singleton_flag && p.is_inline_singleton();
                if was_inline_single && p.here[0].same_entry(&entry) {
                    proof {
                        assert(p.here@.contains(entry));
                    }
                    return false;
                }
                let mid = self_span.start + (self_span.end - self_span.start) / 2;
                let left_span = self_span.start..mid;
                let right_span = mid..self_span.end;
                let can_have_children = (self_span.end - self_span.start) >= 2;
                let interval = entry.interval();
                let ghost before = **p;
                proof {
                    assert(left_span == left_half(*self_span));
                    assert(right_span == right_half(*self_span));
                    assert(before.bounded(*self_span));
                    assert(was_inline_single || before.settled(*self_span));
                    assert(before.left_node is Empty ==> before.left_node.content() =~= Set::<T>::empty());
                    assert(before.right_node is Empty ==> before.right_node.content() =~= Set::<T>::empty());
                    if was_inline_single {
                        assert(before.here@[0] != entry);
                        assert(!before.here@.contains(entry));
                    }
                }

                let result = if can_have_children && left_span.contains_range(&interval) {
                    proof {
                        before.right_node.lemma_content_fits(right_span);
                        assert(!before.right_node.content().contains(entry));
                        if before.here@.contains(entry) {
                            let i = choose|i: int| 0 <= i < before.here@.len() && before.here@[i] == entry;
                            assert(!range_contains(left_half(*self_span), before.here@[i].interval_spec()));
                        }
                    }
                    p.left_node.insert(&left_span, entry, false)
                } else if can_have_children && right_span.contains_range(&interval) {
                    proof {
                        before.left_node.lemma_content_fits(left_span);
                        assert(!before.left_node.content().contains(entry));
                        if before.here@.contains(entry) {
                            let i = choose|i: int| 0 <= i < before.here@.len() && before.here@[i] == entry;
                            assert(!range_contains(right_half(*self_span), before.here@[i].interval_spec()));
                        }
                    }
                    p.right_node.insert(&right_span, entry, false)
                } else {
                    proof {
                        if can_have_children {
                            before.left_node.lemma_content_fits(left_span);
                            before.right_node.lemma_content_fits(right_span);
                        }
                        assert(!before.left_node.content().contains(entry));
                        assert(!before.right_node.content().contains(entry));
                    }
                    match index_of(&p.here, &entry) {
                        Some(_) => false,
                        None => {
                            p.here.push(entry);
                            proof {
                                lemma_push_to_set(before.here@, entry);
                            }
                            true
                        },
                    }
                };
                let ghost placed = **p;
                proof {
                    assert(result == !before.content().contains(entry));
                    assert(!result ==> placed == before);
                    assert(result ==> placed.content() =~= before.content().insert(entry));
                    assert(result ==> placed.bounded(*self_span));
                    assert(result && !was_inline_single ==> placed.settled(*self_span));
                    assert(result ==> !placed.single());
                    assert(result && !was_inline_single ==> placed.branching());
                }

                if was_inline_single && result {
                    let ghost mixed = p.here@;
                    let singleton_entry = p.here.swap_remove(0);
                    proof {
                        lemma_swap_remove_to_set(mixed, 0);
                        let taken = **p;
                        assert(taken.here@.len() == 0 || taken.here@ =~= seq![entry]);
                        assert(taken.bounded(*self_span));
                        assert(taken.settled(*self_span));
                        assert(taken.content() =~= Set::<T>::empty().insert(entry));
                    }
                    let replaced = self.insert(self_span, singleton_entry, true);
                    proof {
                        assert(before.content() =~= Set::<T>::empty().insert(singleton_entry));
                    }
                } else {
                    proof {
                        self.lemma_wf_unfold(*self_span);
                    }
                }
                result
            },
        }
    }

    fn remove(&mut self, self_span: &Range<u64>, entry: &T) -> (removed: bool)
        requires
            range_valid(*self_span),
            entry_fits(*entry, *self_span),
            old(self).wf(*self_span),
        ensures
            final(self).wf(*self_span),
            removed == old(self).content().contains(*entry),
            removed ==> final(self).content() =~= old(self).content().remove(*entry),
            !removed ==> *final(self) == *old(self),
            *old(self) is Populated && !old(self).is_single() ==> *final(self) is Populated,
        decreases self_span.end - self_span.start,
    {
        proof {
            old(self).lemma_wf_unfold(*self_span);
        }
        match self {
            NodeType::Empty => {
                return false;
            },
            NodeType::Populated(p) => {
                let ghost before = **p;
                proof {
                    assert(before.left_node is Empty ==> before.left_node.content() =~= Set::<T>::empty());
                    assert(before.right_node is Empty ==> before.right_node.content() =~= Set::<T>::empty());
                }
                if p.is_inline_singleton() {
                    // Special case for inline singletons
                    if p.here[0].same_entry(entry) {
                        proof {
                            assert(before.here@ =~= seq![*entry]);
                            assert(before.content() =~= Set::<T>::empty().insert(*entry));
                        }
                        *self = NodeType::Empty;
                        return true;
                    } else {
                        proof {
                            assert(!before.here@.contains(*entry));
                        }
                        return false;
                    }
                }
                let mid = self_span.start + (self_span.end - self_span.start) / 2;
                let left_span = self_span.start..mid;
                let right_span = mid..self_span.end;
                let can_have_children = (self_span.end - self_span.start) >= 2;
                let interval = entry.interval();
                proof {
                    assert(left_span == left_half(*self_span));
                    assert(right_span == right_half(*self_span));
                    if can_have_children {
                        before.left_node.lemma_content_fits(left_span);
                        before.right_node.lemma_content_fits(right_span);
                    }
                }

                let result: bool = if can_have_children && left_span.contains_range(&interval) {
                    proof {
                        assert(!before.right_node.content().contains(*entry));
                        if before.here@.contains(*entry) {
                            let i = choose|i: int| 0 <= i < before.here@.len() && before.here@[i] == *entry;
                            assert(!range_contains(left_half(*self_span), before.here@[i].interval_spec()));
                        }
                    }
                    p.left_node.remove(&left_span, entry)
                } else if can_have_children && right_span.contains_range(&interval) {
                    proof {
                        assert(!before.left_node.content().contains(*entry));
                        if before.here@.contains(*entry) {
                            let i = choose|i: int| 0 <= i < before.here@.len() && before.here@[i] == *entry;
                            assert(!range_contains(right_half(*self_span), before.here@[i].interval_spec()));
                        }
                    }
                    p.right_node.remove(&right_span, entry)
                } else {
                    proof {
                        assert(!before.left_node.content().contains(*entry));
                        assert(!before.right_node.content().contains(*entry));
                    }
                    match index_of(&p.here, entry) {
                        Some(idx) => {
                            p.here.swap_remove(idx);
                            proof {
                                lemma_swap_remove_to_set(before.here@, idx as int);
                            }
                            true
                        },
                        None => false,
                    }
                };
                let ghost taken = **p;
                proof {
                    assert(result == before.content().contains(*entry));
                    assert(!result ==> taken == before);
                    assert(result ==> taken.content() =~= before.content().remove(*entry));
                    assert(taken.bounded(*self_span));
                    assert(taken.settled(*self_span));
                    assert(!(taken.here@.len() == 0 && taken.left_node is Empty && taken.right_node is Empty));
                }

                if result {
                    // something was removed so, consider demotion
                    if p.here.is_empty() {
                        let left_empty = p.left_node.is_empty();
                        let right_empty = p.right_node.is_empty();
                        if !left_empty && right_empty {
                            proof {
                                taken.left_node.lemma_wf_unfold(left_span);
                            }
                            match &mut p.left_node {
                                NodeType::Populated(lp) => {
                                    if lp.is_inline_singleton() {
                                        let lifted = lp.here.swap_remove(0);
                                        p.here.push(lifted);
                                        p.left_node = NodeType::Empty;
                                        proof {
                                            lemma_push_to_set(Seq::<T>::empty(), lifted);
                                            assert(taken.here@ =~= Seq::<T>::empty());
                                            assert(p.here@ =~= seq![lifted]);
                                            assert(p.left_node.content() =~= Set::<T>::empty());
                                            assert(p.left_node.wf(left_span));
                                        }
                                    }
                                },
                                NodeType::Empty => {},
                            }
                        } else if left_empty && !right_empty {
                            proof {
                                taken.right_node.lemma_wf_unfold(right_span);
                            }
                            match &mut p.right_node {
                                NodeType::Populated(rp) => {
                                    if rp.is_inline_singleton() {
                                        let lifted = rp.here.swap_remove(0);
                                        p.here.push(lifted);
                                        p.right_node = NodeType::Empty;
                                        proof {
                                            lemma_push_to_set(Seq::<T>::empty(), lifted);
                                            assert(taken.here@ =~= Seq::<T>::empty());
                                            assert(p.here@ =~= seq![lifted]);
                                            assert(p.right_node.content() =~= Set::<T>::empty());
                                            assert(p.right_node.wf(right_span));
                                        }
                                    }
                                },
                                NodeType::Empty => {},
                            }
                        }
                    }
                }
                proof {
                    let last = **p;
                    assert(last.content() =~= taken.content());
                    assert(last.bounded(*self_span));
                    assert(last.single() || last.settled(*self_span));
                    assert(last.branching());
                    self.lemma_wf_unfold(*self_span);
                }
                result
            },
        }
    }

    fn find<'a>(&'a self, self_span: &Range<u64>, query_span: &Range<u64>, result: &mut Vec<&'a T>)
        requires
            range_valid(*self_span),
            range_valid(*query_span),
            range_overlaps(*self_span, *query_span),
            self.wf(*self_span),
        ensures
            final(result)@.len() >= old(result)@.len(),
            final(result)@.subrange(0, old(result)@.len() as int) == old(result)@,
            lists(final(result)@, old(result)@.len() as int, hits(self.content(), *query_span)),
        decreases self_span.end - self_span.start,
    {
        let ghost base = result@;
        proof {
            self.lemma_wf_unfold(*self_span);
            assert(result@.subrange(0, base.len() as int) =~= base);
        }
        match self {
            NodeType::Empty => {
                return;
            },
            NodeType::Populated(p) => {
                let mut i: usize = 0;
                while i < p.here.len()
                    invariant
                        i <= p.here@.len(),
                        p.here@.no_duplicates(),
                        result@.len() >= base.len(),
                        result@.subrange(0, base.len() as int) == base,
                        lists(result@, base.len() as int, hits(p.here@.take(i as int).to_set(), *query_span)),
                    decreases p.here@.len() - i,
                {
                    let h = &p.here[i];
                    let ghost seen = result@;
                    if query_span.overlaps_range(&h.interval()) {
                        result.push(h);
                    }
                    proof {
                        let scanned = p.here@.take(i as int);
                        assert(p.here@.take(i + 1) =~= scanned.push(*h));
                        lemma_push_to_set(scanned, *h);
                        assert(!scanned.contains(*h));
                        assert(result@.subrange(0, base.len() as int) =~= base);
                        if range_overlaps(*query_span, h.interval_spec()) {
                            lemma_lists_push(seen, base.len() as int, hits(scanned.to_set(), *query_span), h);
                            assert(hits(scanned.to_set(), *query_span).insert(*h) =~= hits(
                                p.here@.take(i + 1).to_set(),
                                *query_span,
                            ));
                        } else {
                            assert(hits(scanned.to_set(), *query_span) =~= hits(
                                p.here@.take(i + 1).to_set(),
                                *query_span,
                            ));
                        }
                    }
                    i += 1;
                }
                let ghost local = hits(p.here@.to_set(), *query_span);
                proof {
                    assert(p.here@.take(p.here@.len() as int) =~= p.here@);
                    assert(p.left_node is Empty ==> p.left_node.content() =~= Set::<T>::empty());
                    assert(p.right_node is Empty ==> p.right_node.content() =~= Set::<T>::empty());
                }

                if (self_span.end - self_span.start) >= 2 {
                    let mid = self_span.start + (self_span.end - self_span.start) / 2;
                    let left_span = self_span.start..mid;
                    let right_span = mid..self_span.end;
                    proof {
                        assert(left_span == left_half(*self_span));
                        assert(right_span == right_half(*self_span));
                        p.left_node.lemma_content_fits(left_span);
                        p.right_node.lemma_content_fits(right_span);
                    }
                    let ghost lower = hits(p.left_node.content(), *query_span);
                    let ghost upper = hits(p.right_node.content(), *query_span);
                    let ghost after_here = result@;

                    if left_span.overlaps_range(query_span) {
                        p.left_node.find(&left_span, query_span, result);
                    } else {
                        proof {
                            assert(lower =~= Set::<T>::empty());
                        }
                    }
                    let ghost after_left = result@;
                    proof {
                        assert(local.disjoint(lower)) by {
                            assert forall|e: T| local.contains(e) implies !lower.contains(e) by {
                                if !p.single() {
                                    let k = choose|k: int| 0 <= k < p.here@.len() && p.here@[k] == e;
                                    assert(!range_contains(left_half(*self_span), p.here@[k].interval_spec()));
                                }
                            }
                        }
                        assert(after_left.subrange(0, after_here.len() as int) =~= after_here);
                        lemma_lists_join(after_here, after_left, base.len() as int, local, lower);
                        assert(after_left.subrange(0, base.len() as int) =~= base);
                    }

                    if right_span.overlaps_range(query_span) {
                        p.right_node.find(&right_span, query_span, result);
                    } else {
                        proof {
                            assert(upper =~= Set::<T>::empty());
                        }
                    }
                    proof {
                        assert(local.union(lower).disjoint(upper)) by {
                            assert forall|e: T| local.union(lower).contains(e) implies !upper.contains(e) by {
                                if local.contains(e) && !p.single() {
                                    let k = choose|k: int| 0 <= k < p.here@.len() && p.here@[k] == e;
                                    assert(!range_contains(right_half(*self_span), p.here@[k].interval_spec()));
                                }
                            }
                        }
                        assert(result@.subrange(0, after_left.len() as int) =~= after_left);
                        lemma_lists_join(after_left, result@, base.len() as int, local.union(lower), upper);
                        assert(result@.subrange(0, base.len() as int) =~= base);
                        assert(local.union(lower).union(upper) =~= hits(self.content(), *query_span));
                    }
                } else {
                    proof {
                        assert(local =~= hits(self.content(), *query_span));
                    }
                }
            },
        }
    }

    /// Some entry of the subtree, if it has one.
    fn first(&self, Ghost(span): Ghost<Range<u64>>) -> (entry: Option<&T>)
        requires
            self.wf(span),
        ensures
            match entry {
                Some(e) => self.content().contains(*e),
                None => self is Empty,
            },
        decreases self,
    {
        match self {
            NodeType::Empty => None,
            NodeType::Populated(p) => {
                if p.here.len() > 0 {
                    proof {
                        assert(p.here@.contains(p.here@[0]));
                    }
                    Some(&p.here[0])
                } else if !p.left_node.is_empty() {
                    p.left_node.first(Ghost(left_half(span)))
                } else {
                    p.right_node.first(Ghost(right_half(span)))
                }
            },
        }
    }

    /// A populated node holds at least one entry.
    proof fn lemma_populated_inhabited(self, span: Range<u64>)
        requires
            self.wf(span),
            self is Populated,
        ensures
            exists|e: T| self.content().contains(e),
        decreases self,
    {
        match self {
            NodeType::Empty => {},
            NodeType::Populated(p) => {
                if p.here@.len() > 0 {
                    assert(p.here@.contains(p.here@[0]));
                    assert(self.content().contains(p.here@[0]));
                } else if p.left_node is Populated {
                    p.left_node.lemma_populated_inhabited(left_half(span));
                    let e = choose|e: T| p.left_node.content().contains(e);
                    assert(self.content().contains(e));
                } else {
                    p.right_node.lemma_populated_inhabited(right_half(span));
                    let e = choose|e: T| p.right_node.content().contains(e);
                    assert(self.content().contains(e));
                }
            },
        }
    }

    proof fn lemma_content_finite(self)
        ensures
            self.content().finite(),
        decreases self,
    {
        match self {
            NodeType::Empty => {},
            NodeType::Populated(p) => {
                p.left_node.lemma_content_finite();
                p.right_node.lemma_content_finite();
                vstd::seq_lib::seq_to_set_is_finite(p.here@);
            },
        }
    }
}

/// The entries of `items` whose interval overlaps `query`.
pub open spec fn hits<T: IntervalTreeEntry>(items: Set<T>, query: Range<u64>) -> Set<T> {
    items.filter(|e: T| range_overlaps(query, e.interval_spec()))
}

/// From position `from` on, `list` names every value of `items` once and
/// nothing else.
pub open spec fn lists<T>(list: Seq<&T>, from: int, items: Set<T>) -> bool {
    &&& 0 <= from <= list.len()
    &&& forall|i: int, j: int| from <= i < j < list.len() ==> *list[i] != *list[j]
    &&& forall|i: int| from <= i < list.len() ==> items.contains(*#[trigger] list[i])
    &&& forall|e: T| #[trigger] items.contains(e) ==> exists|i: int| from <= i < list.len() && *list[i] == e
}

proof fn lemma_lists_push<T>(list: Seq<&T>, from: int, items: Set<T>, item: &T)
    requires
        lists(list, from, items),
        !items.contains(*item),
    ensures
        lists(list.push(item), from, items.insert(*item)),
{
    let longer = list.push(item);
    assert forall|e: T| #[trigger] items.insert(*item).contains(e) implies exists|i: int|
        from <= i < longer.len() && *longer[i] == e by {
        if e == *item {
            assert(*longer[list.len() as int] == e);
        } else {
            let i = choose|i: int| from <= i < list.len() && *list[i] == e;
            assert(*longer[i] == e);
        }
    }
}

proof fn lemma_lists_join<T>(shorter: Seq<&T>, longer: Seq<&T>, from: int, a: Set<T>, b: Set<T>)
    requires
        lists(shorter, from, a),
        shorter.len() <= longer.len(),
        longer.subrange(0, shorter.len() as int) == shorter,
        lists(longer, shorter.len() as int, b),
        a.disjoint(b),
    ensures
        lists(longer, from, a.union(b)),
{
    assert forall|i: int| 0 <= i < shorter.len() implies shorter[i] == longer[i] by {
        assert(longer.subrange(0, shorter.len() as int)[i] == longer[i]);
    }
    assert forall|e: T| #[trigger] a.union(b).contains(e) implies exists|i: int|
        from <= i < longer.len() && *longer[i] == e by {
        if a.contains(e) {
            let i = choose|i: int| from <= i < shorter.len() && *shorter[i] == e;
            assert(*longer[i] == e);
        } else {
            let i = choose|i: int| shorter.len() <= i < longer.len() && *longer[i] == e;
            assert(*longer[i] == e);
        }
    }
    assert forall|i: int, j: int| from <= i < j < longer.len() implies *longer[i] != *longer[j] by {
        if j < shorter.len() {
            assert(shorter[i] == longer[i] && shorter[j] == longer[j]);
        } else if i < shorter.len() {
            assert(a.contains(*shorter[i]));
            assert(b.contains(*longer[j]));
        }
    }
    assert forall|i: int| from <= i < longer.len() implies a.union(b).contains(*#[trigger] longer[i]) by {
        if i < shorter.len() {
            assert(a.contains(*shorter[i]));
        }
    }
}

/// The set of a sequence with one more element is the set with that element.
proof fn lemma_push_to_set<A>(s: Seq<A>, a: A)
    ensures
        s.push(a).to_set() =~= s.to_set().insert(a),
        s.no_duplicates() && !s.contains(a) ==> s.push(a).no_duplicates(),
{
    assert forall|x: A| s.push(a).to_set().contains(x) <==> s.to_set().insert(a).contains(x) by {
        if s.push(a).contains(x) {
            let i = choose|i: int| 0 <= i < s.push(a).len() && s.push(a)[i] == x;
            if i < s.len() {
                assert(s[i] == x);
            }
        }
        if s.contains(x) {
            let i = choose|i: int| 0 <= i < s.len() && s[i] == x;
            assert(s.push(a)[i] == x);
        }
        if x == a {
            assert(s.push(a)[s.len() as int] == x);
        }
    }
}

/// Moving the last element of a duplicate-free sequence into position `i`
/// takes exactly the element at `i` out of its set.
proof fn lemma_swap_remove_to_set<A>(s: Seq<A>, i: int)
    requires
        0 <= i < s.len(),
        s.no_duplicates(),
    ensures
        s.update(i, s.last()).drop_last().no_duplicates(),
        s.update(i, s.last()).drop_last().to_set() =~= s.to_set().remove(s[i]),
{
    let t = s.update(i, s.last()).drop_last();
    assert forall|x: A| t.to_set().contains(x) <==> s.to_set().remove(s[i]).contains(x) by {
        if t.contains(x) {
            let j = choose|j: int| 0 <= j < t.len() && t[j] == x;
            if j == i {
                assert(s[s.len() - 1] == x);
            } else {
                assert(s[j] == x);
            }
        }
        if s.contains(x) && x != s[i] {
            let j = choose|j: int| 0 <= j < s.len() && s[j] == x;
            if j == s.len() - 1 {
                assert(t[i] == x);
            } else {
                assert(t[j] == x);
            }
        }
    }
}

/// Where `entry` lies in `bag`, if it does.
fn index_of<T: IntervalTreeEntry>(bag: &Vec<T>, entry: &T) -> (at: Option<usize>)
    ensures
        match at {
            Some(i) => i < bag@.len() && bag@[i as int] == *entry,
            None => !bag@.contains(*entry),
        },
{
    let mut i: usize = 0;
    while i < bag.len()
        invariant
            i <= bag@.len(),
            forall|j: int| 0 <= j < i ==> bag@[j] != *entry,
        decreases bag@.len() - i,
    {
        if bag[i].same_entry(entry) {
            return Some(i);
        }
        i += 1;
    }
    None
}

} // verus!
