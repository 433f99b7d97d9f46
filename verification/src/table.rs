//! The storage arena: an address-stable, append-only chain of entries with
//! sequential identifiers, compacted only on explicit request.

use std::collections::HashMap;
use std::hash::Hash;
use vstd::prelude::*;
use vstd::std_specs::hash::obeys_key_model;

verus! {

broadcast use vstd::std_specs::hash::group_hash_axioms;

/// An atomic identifier: a non-negative whole number with a zero value, a
/// successor operation, and a lossless conversion to a plain array index.
pub trait SymbolId: Copy + Sized {
    /// The numeric value of this identifier.
    spec fn as_int(self) -> int;

    /// The largest numeric value an identifier of this type can hold.
    spec fn id_bound() -> int;

    /// Numeric values of identifiers are non-negative and never exceed the
    /// type's bound.
    proof fn bound_properties(self)
        ensures
            0 <= self.as_int() <= Self::id_bound(),
    ;

    /// Identifiers with equal numeric values are the same identifier.
    proof fn as_int_injective(self, other: Self)
        requires
            self.as_int() == other.as_int(),
        ensures
            self == other,
    ;

    /// Returns the zero identifier, the first one an arena assigns.
    fn zero() -> (r: Self)
        ensures
            r.as_int() == 0,
    ;

    /// Returns the identifier immediately subsequent to this one.
    fn next(&self) -> (r: Self)
        requires
            self.as_int() < Self::id_bound(),
        ensures
            r.as_int() == self.as_int() + 1,
    ;

    /// Casts the identifier to a `usize`.
    fn as_usize(&self) -> (r: usize)
        requires
            self.as_int() <= usize::MAX as int,
        ensures
            r == self.as_int(),
    ;
}

impl SymbolId for usize {
    open spec fn as_int(self) -> int {
        self as int
    }

    open spec fn id_bound() -> int {
        usize::MAX as int
    }

    proof fn bound_properties(self) {
    }

    proof fn as_int_injective(self, other: Self) {
    }

    fn zero() -> (r: Self) {
        0
    }

    fn next(&self) -> (r: Self) {
        *self + 1
    }

    fn as_usize(&self) -> (r: usize) {
        *self
    }
}

impl SymbolId for u8 {
    open spec fn as_int(self) -> int {
        self as int
    }

    open spec fn id_bound() -> int {
        u8::MAX as int
    }

    proof fn bound_properties(self) {
    }

    proof fn as_int_injective(self, other: Self) {
    }

    fn zero() -> (r: Self) {
        0
    }

    fn next(&self) -> (r: Self) {
        *self + 1
    }

    fn as_usize(&self) -> (r: usize) {
        *self as usize
    }
}

impl SymbolId for u16 {
    open spec fn as_int(self) -> int {
        self as int
    }

    open spec fn id_bound() -> int {
        u16::MAX as int
    }

    proof fn bound_properties(self) {
    }

    proof fn as_int_injective(self, other: Self) {
    }

    fn zero() -> (r: Self) {
        0
    }

    fn next(&self) -> (r: Self) {
        *self + 1
    }

    fn as_usize(&self) -> (r: usize) {
        *self as usize
    }
}

impl SymbolId for u32 {
    open spec fn as_int(self) -> int {
        self as int
    }

    open spec fn id_bound() -> int {
        u32::MAX as int
    }

    proof fn bound_properties(self) {
    }

    proof fn as_int_injective(self, other: Self) {
    }

    fn zero() -> (r: Self) {
        0
    }

    fn next(&self) -> (r: Self) {
        *self + 1
    }

    fn as_usize(&self) -> (r: usize) {
        *self as usize
    }
}

impl SymbolId for u64 {
    open spec fn as_int(self) -> int {
        self as int
    }

    open spec fn id_bound() -> int {
        u64::MAX as int
    }

    proof fn bound_properties(self) {
    }

    proof fn as_int_injective(self, other: Self) {
    }

    fn zero() -> (r: Self) {
        0
    }

    fn next(&self) -> (r: Self) {
        *self + 1
    }

    fn as_usize(&self) -> (r: usize) {
        *self as usize
    }
}

/// A table entry that associates an instance of `T` with an atomic symbol.
///
/// Values should not be mutated by any means once they are associated with a
/// `SymbolId` and stored in a `Table`: doing so invalidates any indexing done
/// on top of the table.
pub struct Symbol<T, D: SymbolId> {
    pub id: D,
    pub data: T,
}

impl<T, D: SymbolId> Symbol<T, D> {
    /// Returns the symbol's identifier.
    pub fn id(&self) -> (r: &D)
        ensures
            *r == self.id,
    {
        &self.id
    }

    /// Returns a reference to the symbol's data.
    pub fn data(&self) -> (r: &T)
        ensures
            *r == self.data,
    {
        &self.data
    }
}

/// The arena associating `T`s with `SymbolId`s. Identifier values start at 0
/// and increase by 1 for each `T` added to the table.
///
/// The table owns every entry. Entries are handed out by stable position:
/// neither inserting other entries nor compacting the table re-seats a
/// surviving entry's value, and lookups over the table address entries by
/// handle rather than by raw pointer.
pub struct Table<T, D: SymbolId> {
    entries: Vec<Symbol<T, D>>,
    next_id: D,
}

impl<T, D: SymbolId> View for Table<T, D> {
    type V = Seq<Symbol<T, D>>;

    /// The live entries in insertion order: the entry at index 0 is the
    /// oldest, the last entry is the chain's head (the newest).
    closed spec fn view(&self) -> Seq<Symbol<T, D>> {
        self.entries@
    }
}

impl<T, D: SymbolId> Table<T, D> {
    /// The table's structural invariant: the next identifier to assign equals
    /// the number of live entries.
    pub closed spec fn wf(&self) -> bool {
        self.next_id.as_int() == self.entries@.len()
    }

    /// Creates a new, empty table.
    pub fn new() -> (r: Self)
        ensures
            r.wf(),
            r@ == Seq::<Symbol<T, D>>::empty(),
    {
        Table { entries: Vec::new(), next_id: D::zero() }
    }

    /// Returns the number of symbols in the table.
    pub fn len(&self) -> (r: usize)
        requires
            self.wf(),
        ensures
            r == self@.len(),
    {
        self.entries.len()
    }

    /// Hands out the entry at position `i` of the chain (position 0 is the
    /// oldest entry): the stable handle through which an index addresses
    /// entries without copying their values.
    pub(crate) fn entry_at(&self, i: usize) -> (r: &Symbol<T, D>)
        requires
            i < self@.len(),
        ensures
            *r == self@[i as int],
    {
        &self.entries[i]
    }

    /// Inserts `value` into the table and assigns it the next sequential
    /// identifier. The same value may be inserted more than once; to prevent
    /// such operations, use the `get_or_insert()` method of `Indexing`.
    ///
    /// Returns a reference to the newly created symbol.
    pub fn insert(&mut self, value: T) -> (r: &Symbol<T, D>)
        requires
            old(self).wf(),
            old(self)@.len() < D::id_bound(),
        ensures
            final(self).wf(),
            final(self)@.len() == old(self)@.len() + 1,
            final(self)@ == old(self)@.push(final(self)@.last()),
            final(self)@.last().id.as_int() == old(self)@.len(),
            final(self)@.last().data == value,
            *r == final(self)@.last(),
    {
        let next_id = self.next_id;
        self.next_id = self.next_id.next();
        self.entries.push(Symbol { id: next_id, data: value });
        let n = self.entries.len();
        &self.entries[n - 1]
    }

    /// Remaps associations between values and identifiers, selectively
    /// dropping some associations entirely. Surviving entries keep their
    /// values and their places relative to one another.
    ///
    /// Associations for which `f` returns `Some(d)` are remapped to use `d`;
    /// associations for which `f` returns `None` are dropped. `f` is invoked
    /// once per live entry, newest to oldest.
    ///
    /// It is the responsibility of the caller to maintain the following: the
    /// final mapping should be a dense range of whole numbers starting at 0,
    /// and no two entries should share an identifier. The table does not
    /// verify this; an index later built over a table that breaks it returns
    /// unspecified results.
    ///
    /// Returns, as a ghost witness, the decisions `f` made, oldest first.
    pub fn remap<F: Fn(&Symbol<T, D>) -> Option<D>>(&mut self, f: F) -> (r: Ghost<
        Seq<Option<D>>,
    >)
        requires
            old(self).wf(),
            forall|i: int|
                0 <= i < old(self)@.len() ==> call_requires(f, (&old(self)@[i],)),
        ensures
            final(self).wf(),
            r@.len() == old(self)@.len(),
            forall|i: int|
                0 <= i < old(self)@.len() ==> call_ensures(
                    f,
                    (&old(self)@[i],),
                    #[trigger] r@[i],
                ),
            final(self)@ == compacted(old(self)@, r@),
    {
        proof {
            self.next_id.bound_properties();
        }
        let ghost mut ds: Seq<Option<D>> = Seq::empty();
        let mut rev: Vec<Symbol<T, D>> = Vec::new();
        while self.entries.len() > 0
            invariant
                ds.len() + self.entries@.len() == old(self)@.len(),
                self.entries@ == old(self)@.take(self.entries@.len() as int),
                forall|i: int| 0 <= i < old(self)@.len() ==> call_requires(f, (&old(self)@[i],)),
                forall|j: int|
                    0 <= j < ds.len() ==> call_ensures(
                        f,
                        (&old(self)@[self.entries@.len() + j],),
                        #[trigger] ds[j],
                    ),
                rev@.len() == compacted(old(self)@.skip(self.entries@.len() as int), ds).len(),
                forall|j: int|
                    0 <= j < rev@.len() ==> #[trigger] rev@[j] == compacted(
                        old(self)@.skip(self.entries@.len() as int),
                        ds,
                    )[rev@.len() - 1 - j],
            decreases self.entries@.len(),
        {
            let ghost n: int = self.entries@.len() - 1;
            let ghost ds_pre = ds;
            let ghost c_pre = compacted(old(self)@.skip(n + 1), ds);
            let mut sym = self.entries.pop().unwrap();
            proof {
                assert(self.entries@ =~= old(self)@.take(n));
                assert(sym == old(self)@[n]);
            }
            let dec = f(&sym);
            match dec {
                Some(d) => {
                    sym.id = d;
                    rev.push(sym);
                },
                None => {},
            }
            proof {
                ds = seq![dec].add(ds_pre);
                assert(old(self)@.skip(n).skip(1) =~= old(self)@.skip(n + 1));
                assert(ds.skip(1) =~= ds_pre);
                let c = compacted(old(self)@.skip(n), ds);
                match dec {
                    Some(d) => {
                        assert(c == seq![Symbol { id: d, data: old(self)@[n].data }].add(c_pre));
                    },
                    None => {
                        assert(c == c_pre);
                    },
                }
            }
        }
        proof {
            assert(self.entries@ =~= Seq::<Symbol<T, D>>::empty());
            assert(old(self)@.skip(0) =~= old(self)@);
            lemma_compacted_len(old(self)@, ds);
        }
        let ghost c = compacted(old(self)@, ds);
        let mut nid = D::zero();
        while rev.len() > 0
            invariant
                c == compacted(old(self)@, ds),
                c.len() <= old(self)@.len() <= D::id_bound(),
                self.entries@.len() + rev@.len() == c.len(),
                self.entries@ == c.take(self.entries@.len() as int),
                forall|j: int|
                    0 <= j < rev@.len() ==> #[trigger] rev@[j] == c[c.len() - 1 - j],
                nid.as_int() == self.entries@.len(),
            decreases rev@.len(),
        {
            let ghost k = self.entries@.len();
            let sym = rev.pop().unwrap();
            proof {
                assert(sym == c[k as int]);
            }
            self.entries.push(sym);
            nid = nid.next();
            proof {
                assert(self.entries@ =~= c.take(k as int + 1));
            }
        }
        self.next_id = nid;
        proof {
            assert(self.entries@ =~= c);
        }
        Ghost(ds)
    }

    /// Drops every entry for which `predicate` is false, in a single walk of
    /// the chain, newest to oldest. Survivors keep their values and their
    /// places relative to one another, and are reassigned sequential
    /// identifiers starting at zero in walk order: the newest survivor gets
    /// identifier 0, the oldest survivor the highest one.
    ///
    /// Returns, as a ghost witness, the decisions `predicate` made, oldest
    /// first.
    pub fn retain<P: Fn(&Symbol<T, D>) -> bool>(&mut self, predicate: P) -> (r: Ghost<Seq<bool>>)
        requires
            old(self).wf(),
            forall|i: int|
                0 <= i < old(self)@.len() ==> call_requires(predicate, (&old(self)@[i],)),
        ensures
            final(self).wf(),
            r@.len() == old(self)@.len(),
            forall|i: int|
                0 <= i < old(self)@.len() ==> call_ensures(
                    predicate,
                    (&old(self)@[i],),
                    #[trigger] r@[i],
                ),
            final(self)@.len() == filtered(old(self)@, r@).len(),
            forall|p: int|
                0 <= p < final(self)@.len() ==> #[trigger] final(self)@[p].data == filtered(
                    old(self)@,
                    r@,
                )[p].data,
            forall|p: int|
                0 <= p < final(self)@.len() ==> #[trigger] final(self)@[p].id.as_int()
                    == final(self)@.len() - 1 - p,
    {
        proof {
            self.next_id.bound_properties();
        }
        let ghost mut keep: Seq<bool> = Seq::empty();
        let mut rev: Vec<Symbol<T, D>> = Vec::new();
        while self.entries.len() > 0
            invariant
                keep.len() + self.entries@.len() == old(self)@.len(),
                self.entries@ == old(self)@.take(self.entries@.len() as int),
                forall|i: int|
                    0 <= i < old(self)@.len() ==> call_requires(predicate, (&old(self)@[i],)),
                forall|j: int|
                    0 <= j < keep.len() ==> call_ensures(
                        predicate,
                        (&old(self)@[self.entries@.len() + j],),
                        #[trigger] keep[j],
                    ),
                rev@.len() == filtered(old(self)@.skip(self.entries@.len() as int), keep).len(),
                forall|j: int|
                    0 <= j < rev@.len() ==> #[trigger] rev@[j] == filtered(
                        old(self)@.skip(self.entries@.len() as int),
                        keep,
                    )[rev@.len() - 1 - j],
            decreases self.entries@.len(),
        {
            let ghost n: int = self.entries@.len() - 1;
            let ghost keep_pre = keep;
            let ghost f_pre = filtered(old(self)@.skip(n + 1), keep);
            let sym = self.entries.pop().unwrap();
            proof {
                assert(self.entries@ =~= old(self)@.take(n));
                assert(sym == old(self)@[n]);
            }
            let dec = predicate(&sym);
            if dec {
                rev.push(sym);
            }
            proof {
                keep = seq![dec].add(keep_pre);
                assert(old(self)@.skip(n).skip(1) =~= old(self)@.skip(n + 1));
                assert(keep.skip(1) =~= keep_pre);
                let fl = filtered(old(self)@.skip(n), keep);
                if dec {
                    assert(fl == seq![old(self)@[n]].add(f_pre));
                } else {
                    assert(fl == f_pre);
                }
            }
        }
        proof {
            assert(self.entries@ =~= Seq::<Symbol<T, D>>::empty());
            assert(old(self)@.skip(0) =~= old(self)@);
            lemma_filtered_len(old(self)@, keep);
        }
        let ghost fl = filtered(old(self)@, keep);
        let m = rev.len();
        let mut ids: Vec<D> = Vec::new();
        let mut cur = D::zero();
        while ids.len() < m
            invariant
                m == fl.len(),
                fl.len() <= old(self)@.len() <= D::id_bound(),
                ids@.len() <= m,
                forall|k: int| 0 <= k < ids@.len() ==> #[trigger] ids@[k].as_int() == k,
                cur.as_int() == ids@.len(),
            decreases m - ids@.len(),
        {
            ids.push(cur);
            cur = cur.next();
        }
        while rev.len() > 0
            invariant
                fl == filtered(old(self)@, keep),
                m == fl.len() == ids@.len(),
                fl.len() <= old(self)@.len() <= D::id_bound(),
                forall|k: int| 0 <= k < m ==> #[trigger] ids@[k].as_int() == k,
                self.entries@.len() + rev@.len() == m,
                forall|j: int| 0 <= j < rev@.len() ==> #[trigger] rev@[j] == fl[m - 1 - j],
                forall|p: int|
                    0 <= p < self.entries@.len() ==> #[trigger] self.entries@[p].data
                        == fl[p].data,
                forall|p: int|
                    0 <= p < self.entries@.len() ==> #[trigger] self.entries@[p].id == ids@[m - 1
                        - p],
            decreases rev@.len(),
        {
            let ghost k = self.entries@.len();
            let mut sym = rev.pop().unwrap();
            proof {
                assert(sym == fl[k as int]);
            }
            sym.id = ids[m - 1 - self.entries.len()];
            self.entries.push(sym);
        }
        self.next_id = cur;
        Ghost(keep)
    }

    /// Returns an iterator that consumes the table, yielding owned entries
    /// newest to oldest.
    pub fn into_iter(self) -> (r: TableIntoIter<T, D>)
        requires
            self.wf(),
        ensures
            r.wf(),
            r.contents() == self@,
    {
        let n = self.entries.len();
        TableIntoIter { remaining: n, entries: self.entries }
    }

    /// Returns an iterator over table entries, newest to oldest.
    pub fn iter<'s>(&'s self) -> (r: TableIter<'s, T, D>)
        requires
            self.wf(),
        ensures
            r.wf(),
            r.contents() == self@,
            r.remaining_spec() == self@.len(),
    {
        TableIter { remaining: self.entries.len(), table: self }
    }
}

/// The value-to-identifier associations of the entries `s`. For a value
/// stored more than once, the oldest entry's association wins.
pub open spec fn associations<T, D: SymbolId>(s: Seq<Symbol<T, D>>) -> Map<T, D>
    decreases s.len(),
{
    if s.len() == 0 {
        Map::empty()
    } else {
        associations(s.skip(1)).insert(s[0].data, s[0].id)
    }
}

impl<T: Eq + Hash, D: SymbolId> Table<T, D> {
    /// Converts `self` to a `HashMap` holding the same associations as
    /// `self`. If the same key occurs in `self` more than once, exactly one
    /// of the duplicate occurrences survives.
    pub fn to_hash_map(self) -> (r: HashMap<T, D>)
        requires
            self.wf(),
            obeys_key_model::<T>(),
        ensures
            r@ == associations(self@),
    {
        let mut this = self;
        let ghost orig = this.entries@;
        let capacity = this.entries.len();
        let mut map = HashMap::with_capacity(capacity);
        proof {
            assert(orig.take(orig.len() as int) =~= orig);
            assert(orig.skip(orig.len() as int) =~= Seq::<Symbol<T, D>>::empty());
        }
        while this.entries.len() > 0
            invariant
                obeys_key_model::<T>(),
                this.entries@.len() <= orig.len(),
                this.entries@ == orig.take(this.entries@.len() as int),
                map@ == associations(orig.skip(this.entries@.len() as int)),
            decreases this.entries@.len(),
        {
            let ghost n: int = this.entries@.len() - 1;
            let sym = this.entries.pop().unwrap();
            proof {
                assert(this.entries@ =~= orig.take(n));
                assert(sym == orig[n]);
                assert(orig.skip(n).skip(1) =~= orig.skip(n + 1));
            }
            map.insert(sym.data, sym.id);
        }
        proof {
            assert(orig.skip(0) =~= orig);
        }
        map
    }
}

/// The entry at position `i` carries the numeric identifier `i`: the shape a
/// table has when every entry was added by `insert` and none was ever
/// compacted away.
pub open spec fn ids_sequential<T, D: SymbolId>(s: Seq<Symbol<T, D>>) -> bool {
    forall|i: int| 0 <= i < s.len() ==> #[trigger] s[i].id.as_int() == i
}

/// No two entries carry the same numeric identifier.
pub open spec fn ids_distinct<T, D: SymbolId>(s: Seq<Symbol<T, D>>) -> bool {
    forall|i: int, j: int|
        0 <= i < j < s.len() ==> #[trigger] s[i].id.as_int() != #[trigger] s[j].id.as_int()
}

/// Every entry's numeric identifier lies in the dense range `[0, len)`.
pub open spec fn ids_in_range<T, D: SymbolId>(s: Seq<Symbol<T, D>>) -> bool {
    forall|i: int| 0 <= i < s.len() ==> 0 <= #[trigger] s[i].id.as_int() < s.len()
}

/// Law: insertions into an empty table assign identifiers exactly
/// `{0, ..., N-1}`, each appearing once, in insertion order.
///
/// The empty table trivially satisfies `ids_sequential`, and a step whose
/// effect is the one `insert` promises in its `ensures` — the old entries
/// unchanged, one entry appended whose numeric identifier is the old length —
/// keeps `ids_sequential`. By induction the table after any sequence of `N`
/// insertions carries identifiers `0, ..., N-1` in insertion order.
pub proof fn lemma_insert_preserves_sequential_ids<T, D: SymbolId>(
    pre: Seq<Symbol<T, D>>,
    post: Seq<Symbol<T, D>>,
)
    requires
        ids_sequential(pre),
        post == pre.push(post.last()),
        post.last().id.as_int() == pre.len(),
    ensures
        ids_sequential(post),
        ids_distinct(post),
        ids_in_range(post),
{
    assert forall|i: int| 0 <= i < post.len() implies #[trigger] post[i].id.as_int() == i by {
        if i < pre.len() {
            assert(post[i] == pre[i]);
        } else {
            assert(post[i] == post.last());
        }
    }
}

/// Sequentially numbered entries have pairwise distinct identifiers lying in
/// the dense range `[0, len)`.
pub proof fn lemma_sequential_ids_dense<T, D: SymbolId>(s: Seq<Symbol<T, D>>)
    requires
        ids_sequential(s),
    ensures
        ids_distinct(s),
        ids_in_range(s),
{
}

/// The entries surviving a compaction pass, oldest first. Entry `i` of `s`
/// survives exactly when `ds[i]` supplies its new identifier; a survivor
/// keeps its value and its place relative to the other survivors.
pub open spec fn compacted<T, D: SymbolId>(
    s: Seq<Symbol<T, D>>,
    ds: Seq<Option<D>>,
) -> Seq<Symbol<T, D>>
    decreases s.len(),
{
    if s.len() == 0 {
        Seq::empty()
    } else {
        match ds[0] {
            Some(d) => seq![Symbol { id: d, data: s[0].data }].add(
                compacted(s.skip(1), ds.skip(1)),
            ),
            None => compacted(s.skip(1), ds.skip(1)),
        }
    }
}

/// A compaction pass never grows the table.
pub proof fn lemma_compacted_len<T, D: SymbolId>(s: Seq<Symbol<T, D>>, ds: Seq<Option<D>>)
    ensures
        compacted(s, ds).len() <= s.len(),
    decreases s.len(),
{
    if s.len() > 0 {
        lemma_compacted_len(s.skip(1), ds.skip(1));
    }
}

/// The entries of `s` whose flag in `keep` is true, oldest first, with their
/// original identifiers and values.
pub open spec fn filtered<T, D: SymbolId>(
    s: Seq<Symbol<T, D>>,
    keep: Seq<bool>,
) -> Seq<Symbol<T, D>>
    decreases s.len(),
{
    if s.len() == 0 {
        Seq::empty()
    } else if keep[0] {
        seq![s[0]].add(filtered(s.skip(1), keep.skip(1)))
    } else {
        filtered(s.skip(1), keep.skip(1))
    }
}

/// Keeping some entries never grows the table.
pub proof fn lemma_filtered_len<T, D: SymbolId>(s: Seq<Symbol<T, D>>, keep: Seq<bool>)
    ensures
        filtered(s, keep).len() <= s.len(),
    decreases s.len(),
{
    if s.len() > 0 {
        lemma_filtered_len(s.skip(1), keep.skip(1));
    }
}

/// The positions of the `true` flags in `keep`, ascending.
pub open spec fn kept_indices(keep: Seq<bool>) -> Seq<int>
    decreases keep.len(),
{
    if keep.len() == 0 {
        Seq::empty()
    } else {
        let rest = kept_indices(keep.skip(1)).map_values(|x: int| x + 1);
        if keep[0] {
            seq![0int].add(rest)
        } else {
            rest
        }
    }
}

/// How many flags in `keep` are `true`.
pub open spec fn kept_count(keep: Seq<bool>) -> int
    decreases keep.len(),
{
    if keep.len() == 0 {
        0
    } else {
        (if keep[0] {
            1int
        } else {
            0int
        }) + kept_count(keep.skip(1))
    }
}

/// Law: compaction by a predicate keeps exactly the entries whose flag is
/// true, preserving their relative order. The surviving sequence is the
/// original sequence read through `kept_indices(keep)`: ascending positions,
/// each of them flagged, and every flagged position among them.
pub proof fn lemma_filtered_exact<T, D: SymbolId>(s: Seq<Symbol<T, D>>, keep: Seq<bool>)
    requires
        keep.len() == s.len(),
    ensures
        filtered(s, keep).len() == kept_indices(keep).len(),
        kept_indices(keep).len() == kept_count(keep),
        forall|p: int|
            0 <= p < filtered(s, keep).len() ==> #[trigger] filtered(s, keep)[p] == s[kept_indices(
                keep,
            )[p]],
        forall|p: int|
            0 <= p < kept_indices(keep).len() ==> 0 <= #[trigger] kept_indices(keep)[p]
                < keep.len() && keep[kept_indices(keep)[p]],
        forall|p: int, q: int|
            0 <= p < q < kept_indices(keep).len() ==> #[trigger] kept_indices(keep)[p]
                < #[trigger] kept_indices(keep)[q],
        forall|i: int|
            0 <= i < keep.len() && keep[i] ==> exists|p: int|
                0 <= p < kept_indices(keep).len() && #[trigger] kept_indices(keep)[p] == i,
    decreases s.len(),
{
    if s.len() > 0 {
        lemma_filtered_exact(s.skip(1), keep.skip(1));
        let rest_k = kept_indices(keep.skip(1));
        let shifted = rest_k.map_values(|x: int| x + 1);
        let ks = kept_indices(keep);
        assert forall|i: int| 0 <= i < keep.len() && keep[i] implies exists|p: int|
            0 <= p < ks.len() && #[trigger] ks[p] == i by {
            if keep[0] {
                if i == 0 {
                    assert(ks[0] == 0);
                } else {
                    assert(keep.skip(1)[i - 1]);
                    let p = choose|p: int| 0 <= p < rest_k.len() && #[trigger] rest_k[p] == i - 1;
                    assert(ks[p + 1] == shifted[p] == i);
                }
            } else {
                assert(keep.skip(1)[i - 1]);
                let p = choose|p: int| 0 <= p < rest_k.len() && #[trigger] rest_k[p] == i - 1;
                assert(ks[p] == shifted[p] == i);
            }
        }
    }
}

/// Law: `remap` with a function that keeps an entry exactly when a predicate
/// holds, and hands each survivor the next fresh identifier in walk order
/// (newest to oldest), is observably equivalent to `retain` with that
/// predicate: same surviving values in the same order, renumbered to the
/// same dense zero-based range.
pub proof fn lemma_remap_generalizes_retain<T, D: SymbolId>(
    s: Seq<Symbol<T, D>>,
    keep: Seq<bool>,
    ds: Seq<Option<D>>,
)
    requires
        keep.len() == s.len(),
        ds.len() == s.len(),
        forall|i: int| 0 <= i < s.len() ==> (keep[i] <==> #[trigger] ds[i] is Some),
        forall|i: int|
            0 <= i < s.len() && #[trigger] ds[i] is Some ==> ds[i].unwrap().as_int() == kept_count(
                keep.skip(i + 1),
            ),
    ensures
        compacted(s, ds).len() == filtered(s, keep).len(),
        compacted(s, ds).len() == kept_count(keep),
        forall|p: int|
            0 <= p < compacted(s, ds).len() ==> #[trigger] compacted(s, ds)[p].data == filtered(
                s,
                keep,
            )[p].data,
        forall|p: int|
            0 <= p < compacted(s, ds).len() ==> #[trigger] compacted(s, ds)[p].id.as_int()
                == compacted(s, ds).len() - 1 - p,
    decreases s.len(),
{
    if s.len() > 0 {
        assert forall|i: int| 0 <= i < s.len() - 1 implies (keep.skip(1)[i] <==> #[trigger] ds.skip(
            1,
        )[i] is Some) by {
            assert(ds.skip(1)[i] == ds[i + 1]);
        }
        assert forall|i: int| 0 <= i < s.len() - 1 && #[trigger] ds.skip(1)[i] is Some implies ds
            .skip(1)[i].unwrap().as_int() == kept_count(keep.skip(1).skip(i + 1)) by {
            assert(ds.skip(1)[i] == ds[i + 1]);
            assert(keep.skip(1).skip(i + 1) =~= keep.skip(i + 2));
        }
        lemma_remap_generalizes_retain(s.skip(1), keep.skip(1), ds.skip(1));
    }
}

/// Iterator over table contents, newest entry first.
pub struct TableIter<'a, T, D: SymbolId> {
    remaining: usize,
    table: &'a Table<T, D>,
}

impl<'a, T, D: SymbolId> TableIter<'a, T, D> {
    /// The entries being walked, in insertion order (oldest first).
    pub closed spec fn contents(&self) -> Seq<Symbol<T, D>> {
        self.table@
    }

    /// How many entries have not been yielded yet.
    pub closed spec fn remaining_spec(&self) -> int {
        self.remaining as int
    }

    pub closed spec fn wf(&self) -> bool {
        self.remaining <= self.table@.len()
    }

    /// Yields the newest entry not yet yielded, or `None` once the walk is
    /// done.
    pub fn next(&mut self) -> (r: Option<&'a Symbol<T, D>>)
        requires
            old(self).wf(),
        ensures
            final(self).wf(),
            final(self).contents() == old(self).contents(),
            old(self).remaining_spec() == 0 ==> r is None && final(self).remaining_spec() == 0,
            old(self).remaining_spec() > 0 ==> {
                &&& final(self).remaining_spec() == old(self).remaining_spec() - 1
                &&& r matches Some(s) && *s == old(self).contents()[old(self).remaining_spec() - 1]
            },
    {
        if self.remaining == 0 {
            None
        } else {
            self.remaining = self.remaining - 1;
            Some(&self.table.entries[self.remaining])
        }
    }

    /// Returns the exact remaining count, in the shape `Iterator::size_hint`
    /// uses: the count is both the lower and the upper bound.
    pub fn size_hint(&self) -> (r: (usize, Option<usize>))
        ensures
            r.0 == self.remaining_spec(),
            r.1 == Some(r.0),
    {
        (self.remaining, Some(self.remaining))
    }
}

/// Iterator that consumes a table, yielding owned entries newest first.
pub struct TableIntoIter<T, D: SymbolId> {
    remaining: usize,
    entries: Vec<Symbol<T, D>>,
}

impl<T, D: SymbolId> TableIntoIter<T, D> {
    /// The entries not yet yielded, in insertion order (oldest first).
    pub closed spec fn contents(&self) -> Seq<Symbol<T, D>> {
        self.entries@
    }

    pub closed spec fn wf(&self) -> bool {
        self.remaining == self.entries@.len()
    }

    /// Yields the newest entry not yet yielded, or `None` once the table is
    /// drained.
    pub fn next(&mut self) -> (r: Option<Symbol<T, D>>)
        requires
            old(self).wf(),
        ensures
            final(self).wf(),
            old(self).contents().len() == 0 ==> r is None && final(self).contents()
                == old(self).contents(),
            old(self).contents().len() > 0 ==> {
                &&& r matches Some(s) && s == old(self).contents().last()
                &&& final(self).contents() == old(self).contents().drop_last()
            },
    {
        let item = self.entries.pop();
        if item.is_some() {
            self.remaining = self.remaining - 1;
        }
        item
    }

    /// Returns the exact remaining count, in the shape `Iterator::size_hint`
    /// uses: the count is both the lower and the upper bound.
    pub fn size_hint(&self) -> (r: (usize, Option<usize>))
        requires
            self.wf(),
        ensures
            r.0 == self.contents().len(),
            r.1 == Some(r.0),
    {
        (self.remaining, Some(self.remaining))
    }
}

} // verus!
