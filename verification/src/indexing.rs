//! Indexing on top of a `Table`.
//!
//! Most use cases are covered by [`HashIndexing`], which owns a
//! [`Table`] and provides bidirectional mappings between data values and
//! their symbols. The [`Indexing`] trait is provided in case another lookup
//! method is needed; implementations are swappable without touching call
//! sites.

use std::hash::Hash;
use vstd::prelude::*;
use vstd::std_specs::cmp::PartialEqSpec;

use crate::table::{ids_distinct, ids_in_range, Symbol, SymbolId, Table};

verus! {

/// Indicates whether the result of a symbol lookup had to create a new
/// table entry.
#[derive(Clone, Eq, Ord, Hash, PartialEq, PartialOrd)]
pub enum Insertion<T> {
    /// Result came from an item that was already present in the table.
    Present(T),
    /// Result came from an item that was not present in the table, and a
    /// new entry was created.
    New(T),
}

impl<T> Insertion<T> {
    /// The value the lookup resolved to, whichever way it went.
    pub open spec fn value(self) -> T {
        match self {
            Insertion::Present(s) => s,
            Insertion::New(s) => s,
        }
    }

    /// Maps over the value returned by an `Insertion` to produce a new
    /// value that may be of a different type, keeping the present/new tag.
    pub fn map<F, X>(&self, f: F) -> (r: Insertion<X>) where F: FnOnce(&T) -> X
        requires
            call_requires(f, (&self.value(),)),
        ensures
            r is Present <==> self is Present,
            call_ensures(f, (&self.value(),), r.value()),
    {
        match self {
            Insertion::Present(s) => Insertion::Present(f(s)),
            Insertion::New(s) => Insertion::New(f(s)),
        }
    }

    /// Unwraps an `Insertion` to produce the value it wraps.
    pub fn unwrap(self) -> (r: T)
        ensures
            r == self.value(),
    {
        match self {
            Insertion::Present(s) => s,
            Insertion::New(s) => s,
        }
    }
}

/// The position a value lookup resolves `v` to: the position of the oldest
/// entry whose value equals `v` under `T`'s equality, if there is one.
pub open spec fn find_value<T: PartialEq, D: SymbolId>(
    s: Seq<Symbol<T, D>>,
    v: T,
) -> Option<int>
    decreases s.len(),
{
    if s.len() == 0 {
        None
    } else if s[0].data.eq_spec(&v) {
        Some(0)
    } else {
        match find_value(s.skip(1), v) {
            Some(p) => Some(p + 1),
            None => None,
        }
    }
}

/// The position an identifier lookup resolves `n` to: the position of the
/// oldest entry whose identifier has numeric value `n`, if there is one.
/// Over a table whose identifiers are distinct — the shape every index
/// maintains — that entry is unique.
pub open spec fn find_id<T, D: SymbolId>(s: Seq<Symbol<T, D>>, n: int) -> Option<int>
    decreases s.len(),
{
    if s.len() == 0 {
        None
    } else if s[0].id.as_int() == n {
        Some(0)
    } else {
        match find_id(s.skip(1), n) {
            Some(p) => Some(p + 1),
            None => None,
        }
    }
}

/// What `find_value` resolves to: the oldest entry with an equal value, or
/// nothing exactly when no entry's value is equal to `v`.
pub proof fn lemma_find_value_properties<T: PartialEq, D: SymbolId>(s: Seq<Symbol<T, D>>, v: T)
    ensures
        match find_value(s, v) {
            Some(p) => 0 <= p < s.len() && s[p].data.eq_spec(&v) && forall|k: int|
                0 <= k < p ==> !(#[trigger] s[k].data.eq_spec(&v)),
            None => forall|k: int| 0 <= k < s.len() ==> !(#[trigger] s[k].data.eq_spec(&v)),
        },
    decreases s.len(),
{
    if s.len() > 0 && !s[0].data.eq_spec(&v) {
        lemma_find_value_properties(s.skip(1), v);
        assert forall|k: int| 0 <= k < s.len() && k >= 1 implies s[k] == s.skip(1)[k - 1] by {}
    }
}

/// What `find_id` resolves to: the oldest entry with that identifier, or
/// nothing exactly when no entry carries it.
pub proof fn lemma_find_id_properties<T, D: SymbolId>(s: Seq<Symbol<T, D>>, n: int)
    ensures
        match find_id(s, n) {
            Some(p) => 0 <= p < s.len() && s[p].id.as_int() == n,
            None => forall|p: int| 0 <= p < s.len() ==> #[trigger] s[p].id.as_int() != n,
        },
    decreases s.len(),
{
    if s.len() > 0 && s[0].id.as_int() != n {
        lemma_find_id_properties(s.skip(1), n);
        assert forall|p: int| 0 <= p < s.len() && p >= 1 implies s[p] == s.skip(1)[p - 1] by {}
    }
}

/// Over entries with pairwise distinct identifiers, an identifier lookup
/// resolves to the one entry that carries the identifier.
pub proof fn lemma_find_id_unique<T, D: SymbolId>(s: Seq<Symbol<T, D>>, q: int)
    requires
        ids_distinct(s),
        0 <= q < s.len(),
    ensures
        find_id(s, s[q].id.as_int()) == Some(q),
    decreases s.len(),
{
    let n = s[q].id.as_int();
    if q == 0 {
    } else {
        assert(s[0].id.as_int() != n);
        assert forall|i: int, j: int| 0 <= i < j < s.skip(1).len() implies #[trigger] s.skip(
            1,
        )[i].id.as_int() != #[trigger] s.skip(1)[j].id.as_int() by {
            assert(s.skip(1)[i] == s[i + 1]);
            assert(s.skip(1)[j] == s[j + 1]);
        }
        assert(s.skip(1)[q - 1] == s[q]);
        lemma_find_id_unique(s.skip(1), q - 1);
    }
}

/// Provides indexing for a `Table`, so that its entries may be retrieved
/// efficiently. Most table lookups should go through an implementation of
/// this trait instead of a `Table` directly.
///
/// An `Indexing` owns an underlying `Table` and keeps both lookup
/// directions — value to entry and identifier to entry — exactly matching
/// the table's live entries on return from every operation. When the table
/// is compacted outside the index (through `to_table`, `retain` or `remap`),
/// the index must be rebuilt over the result with `rebuild` or `from_table`.
pub trait Indexing: Default + Sized {
    /// The type of values stored in the underlying table.
    type Data: Eq + Hash;

    /// The identifier type of the underlying table.
    type Id: SymbolId;

    /// The live entries of the underlying table, oldest first.
    spec fn contents(self) -> Seq<Symbol<Self::Data, Self::Id>>;

    /// The index's structural invariant: the underlying table carries
    /// dense, pairwise distinct identifiers, and both lookup directions
    /// exactly match its live entries — no stale, missing, or duplicate
    /// mapping.
    spec fn inv(self) -> bool;

    /// An index satisfying the invariant indexes a table with dense,
    /// pairwise distinct identifiers.
    proof fn inv_properties(self)
        requires
            self.inv(),
        ensures
            ids_in_range(self.contents()),
            ids_distinct(self.contents()),
    ;

    /// Returns a new indexing method that has already indexed the contents
    /// of `table`. This is also the rebuild path after the table was
    /// compacted outside the index.
    fn from_table(table: Table<Self::Data, Self::Id>) -> (r: Self)
        requires
            table.wf(),
            ids_in_range(table@),
            ids_distinct(table@),
        ensures
            r.inv(),
            r.contents() == table@,
    ;

    /// Returns a read-only view of the underlying table.
    fn table<'s>(&'s self) -> (r: &'s Table<Self::Data, Self::Id>)
        requires
            self.inv(),
        ensures
            r.wf(),
            r@ == self.contents(),
    ;

    /// Extracts the underlying table from the index, discarding all
    /// handles into the table.
    fn to_table(self) -> (r: Table<Self::Data, Self::Id>)
        requires
            self.inv(),
        ensures
            r.wf(),
            r@ == self.contents(),
    ;

    /// Looks up `data` in the index. Returns `Some(&symbol)` if an entry
    /// with an equal value is present, else `None`; no mutation is
    /// performed.
    fn get<'s>(&'s self, data: &Self::Data) -> (r: Option<
        &'s Symbol<Self::Data, Self::Id>,
    >)
        requires
            self.inv(),
            Self::Data::obeys_eq_spec(),
        ensures
            match r {
                Some(sym) => find_value(self.contents(), *data) matches Some(p) && *sym
                    == self.contents()[p],
                None => find_value(self.contents(), *data) is None,
            },
    ;

    /// Looks up `data` in the index, inserting it into the index and the
    /// underlying table if it isn't present. Returns the resulting symbol
    /// wrapped in an `Insertion` that tells whether a new table entry had
    /// to be created: exactly one table insertion occurs per miss, none per
    /// hit, and on a hit the existing entry is returned untouched.
    fn get_or_insert<'s>(&'s mut self, data: Self::Data) -> (r: Insertion<
        &'s Symbol<Self::Data, Self::Id>,
    >)
        requires
            old(self).inv(),
            Self::Data::obeys_eq_spec(),
            find_value(old(self).contents(), data) is Some || old(self).contents().len()
                < Self::Id::id_bound(),
        ensures
            final(self).inv(),
            match find_value(old(self).contents(), data) {
                Some(p) => {
                    &&& r is Present
                    &&& final(self).contents() == old(self).contents()
                    &&& *r.value() == old(self).contents()[p]
                },
                None => {
                    &&& r is New
                    &&& final(self).contents() == old(self).contents().push(
                        final(self).contents().last(),
                    )
                    &&& final(self).contents().len() == old(self).contents().len() + 1
                    &&& final(self).contents().last().data == data
                    &&& final(self).contents().last().id.as_int() == old(
                        self,
                    ).contents().len()
                    &&& *r.value() == final(self).contents().last()
                },
            },
    ;

    /// Looks up the symbol with identifier `id` in the index. Returns
    /// `Some(&symbol)` if a live entry carries it, else `None`.
    fn get_symbol<'s>(&'s self, id: &Self::Id) -> (r: Option<
        &'s Symbol<Self::Data, Self::Id>,
    >)
        requires
            self.inv(),
            id.as_int() <= usize::MAX as int,
        ensures
            match r {
                Some(sym) => find_id(self.contents(), id.as_int()) matches Some(p) && *sym
                    == self.contents()[p],
                None => find_id(self.contents(), id.as_int()) is None,
            },
    ;

    /// Discards the current lookup structures and rebuilds the index over
    /// `table`'s present contents, dropping the previously owned table.
    /// Mandatory after any compaction performed outside the index.
    fn rebuild(&mut self, table: Table<Self::Data, Self::Id>)
        requires
            table.wf(),
            ids_in_range(table@),
            ids_distinct(table@),
        ensures
            final(self).inv(),
            final(self).contents() == table@,
    ;
}

/// Table indexing backed by a dense identifier-to-position lookup, with
/// value lookups resolved against the entries in place: no second copy of
/// any stored value is kept, every lookup dereferences a stable handle into
/// the owned table. Identifier lookups are constant-time through the
/// position table; value lookups walk the live entries.
pub struct HashIndexing<T: Eq + Hash, D: SymbolId> {
    table: Table<T, D>,
    by_id: Vec<usize>,
}

impl<T: Eq + Hash, D: SymbolId> HashIndexing<T, D> {
    /// The position of the oldest entry holding a value equal to `data`,
    /// by a single walk over the live entries.
    fn find_pos(&self, data: &T) -> (r: Option<usize>)
        requires
            self.inv(),
            T::obeys_eq_spec(),
        ensures
            match r {
                Some(j) => j < self.contents().len() && find_value(self.contents(), *data)
                    == Some(j as int),
                None => find_value(self.contents(), *data) is None,
            },
    {
        let n = self.table.len();
        let mut j: usize = 0;
        while j < n
            invariant
                self.inv(),
                T::obeys_eq_spec(),
                n == self.contents().len(),
                j <= n,
                forall|k: int|
                    0 <= k < j ==> !(#[trigger] self.contents()[k].data.eq_spec(data)),
            decreases n - j,
        {
            let sym = self.table.entry_at(j);
            if sym.data().eq(data) {
                proof {
                    lemma_find_value_properties(self.contents(), *data);
                }
                return Some(j);
            }
            j += 1;
        }
        proof {
            lemma_find_value_properties(self.contents(), *data);
        }
        None
    }
}

impl<T: Eq + Hash, D: SymbolId> Default for HashIndexing<T, D> {
    /// An index over a new, empty table.
    fn default() -> (r: Self)
        ensures
            r.inv(),
            r.contents() == Seq::<Symbol<T, D>>::empty(),
    {
        HashIndexing { table: Table::new(), by_id: Vec::new() }
    }
}

impl<T: Eq + Hash, D: SymbolId> Indexing for HashIndexing<T, D> {
    type Data = T;

    type Id = D;

    closed spec fn contents(self) -> Seq<Symbol<T, D>> {
        self.table@
    }

    closed spec fn inv(self) -> bool {
        &&& self.table.wf()
        &&& ids_in_range(self.table@)
        &&& ids_distinct(self.table@)
        &&& self.by_id@.len() == self.table@.len()
        &&& forall|n: int|
            0 <= n < self.by_id@.len() ==> #[trigger] self.by_id@[n] < self.table@.len()
                && self.table@[self.by_id@[n] as int].id.as_int() == n
    }

    proof fn inv_properties(self) {
    }

    fn from_table(table: Table<T, D>) -> (r: Self) {
        let n = table.len();
        let mut by_id: Vec<usize> = Vec::new();
        while by_id.len() < n
            invariant
                by_id@.len() <= n,
            decreases n - by_id@.len(),
        {
            by_id.push(0);
        }
        let mut p: usize = 0;
        while p < n
            invariant
                table.wf(),
                ids_in_range(table@),
                ids_distinct(table@),
                n == table@.len(),
                by_id@.len() == n,
                p <= n,
                forall|q: int|
                    0 <= q < p ==> #[trigger] by_id@[table@[q].id.as_int()] == q,
            decreases n - p,
        {
            let sym = table.entry_at(p);
            proof {
                sym.id.bound_properties();
            }
            let idx = sym.id().as_usize();
            by_id[idx] = p;
            p += 1;
        }
        proof {
            lemma_dense_ids_onto(table@);
            assert forall|m: int|
                0 <= m < by_id@.len() implies #[trigger] by_id@[m] < table@.len() && table@[by_id@[m] as int].id.as_int()
                == m by {
                lemma_find_id_properties(table@, m);
                let q = find_id(table@, m).unwrap();
                assert(by_id@[table@[q].id.as_int()] == q);
            }
        }
        HashIndexing { table, by_id }
    }

    fn table<'s>(&'s self) -> (r: &'s Table<T, D>) {
        &self.table
    }

    fn to_table(self) -> (r: Table<T, D>) {
        self.table
    }

    fn get<'s>(&'s self, data: &T) -> (r: Option<&'s Symbol<T, D>>) {
        match self.find_pos(data) {
            Some(j) => Some(self.table.entry_at(j)),
            None => None,
        }
    }

    fn get_or_insert<'s>(&'s mut self, data: T) -> (r: Insertion<&'s Symbol<T, D>>) {
        match self.find_pos(&data) {
            Some(j) => Insertion::Present(self.table.entry_at(j)),
            None => {
                let p = self.table.len();
                let ghost pre = self.table@;
                self.table.insert(data);
                self.by_id.push(p);
                proof {
                    assert forall|i: int|
                        0 <= i < self.table@.len() implies 0 <= (
                        #[trigger] self.table@[i].id.as_int()) < self.table@.len() by {
                        if i < pre.len() {
                            assert(self.table@[i] == pre[i]);
                        }
                    }
                    assert forall|i: int, j: int|
                        0 <= i < j < self.table@.len() implies #[trigger] self.table@[i].id.as_int()
                        != #[trigger] self.table@[j].id.as_int() by {
                        if j < pre.len() {
                            assert(self.table@[i] == pre[i]);
                            assert(self.table@[j] == pre[j]);
                        } else {
                            if i < pre.len() {
                                assert(self.table@[i] == pre[i]);
                            }
                        }
                    }
                    assert forall|n: int|
                        0 <= n < self.by_id@.len() implies #[trigger] self.by_id@[n]
                        < self.table@.len() && self.table@[self.by_id@[n] as int].id.as_int()
                        == n by {
                        if n < pre.len() {
                            assert(self.by_id@[n] == old(self).by_id@[n]);
                            assert(self.table@[self.by_id@[n] as int] == pre[self.by_id@[n] as int]);
                        }
                    }
                }
                Insertion::New(self.table.entry_at(p))
            },
        }
    }

    fn rebuild(&mut self, table: Table<T, D>) {
        *self = Self::from_table(table);
    }

    fn get_symbol<'s>(&'s self, id: &D) -> (r: Option<&'s Symbol<T, D>>) {
        proof {
            id.bound_properties();
        }
        let n = id.as_usize();
        if n < self.by_id.len() {
            let p = self.by_id[n];
            proof {
                lemma_find_id_unique(self.contents(), self.by_id@[n as int] as int);
            }
            Some(self.table.entry_at(p))
        } else {
            proof {
                lemma_find_id_properties(self.contents(), id.as_int());
                if find_id(self.contents(), id.as_int()) is Some {
                    let p = find_id(self.contents(), id.as_int()).unwrap();
                    assert(0 <= self.contents()[p].id.as_int() < self.contents().len());
                }
            }
            None
        }
    }
}

/// Pairwise distinct identifiers drawn from the dense range `[0, len)`
/// cover the whole range: every number below the entry count is carried by
/// some live entry.
pub proof fn lemma_dense_ids_onto<T, D: SymbolId>(s: Seq<Symbol<T, D>>)
    requires
        ids_in_range(s),
        ids_distinct(s),
    ensures
        forall|n: int| 0 <= n < s.len() ==> (#[trigger] find_id(s, n)) is Some,
{
    broadcast use vstd::seq_lib::seq_to_set_is_finite;
    broadcast use vstd::set::group_set_axioms;

    let ids = s.map_values(|sym: Symbol<T, D>| sym.id.as_int());
    assert forall|i: int, j: int|
        0 <= i < ids.len() && 0 <= j < ids.len() && i != j implies ids[i] != ids[j] by {
        if i < j {
            assert(s[i].id.as_int() != s[j].id.as_int());
        } else {
            assert(s[j].id.as_int() != s[i].id.as_int());
        }
    }
    ids.unique_seq_to_set();
    let range = vstd::set_lib::set_int_range(0, s.len() as int);
    vstd::set_lib::lemma_int_range(0, s.len() as int);
    assert(ids.to_set().subset_of(range)) by {
        assert forall|x: int| ids.to_set().contains(x) implies range.contains(x) by {
            let i = choose|i: int| 0 <= i < ids.len() && ids[i] == x;
            assert(0 <= s[i].id.as_int() < s.len());
        }
    }
    vstd::set_lib::lemma_subset_equality(ids.to_set(), range);
    assert forall|n: int| 0 <= n < s.len() implies (#[trigger] find_id(s, n)) is Some by {
        assert(range.contains(n));
        assert(ids.to_set().contains(n));
        let i = choose|i: int| 0 <= i < ids.len() && ids[i] == n;
        assert(s[i].id.as_int() == n);
        lemma_find_id_properties(s, n);
    }
}

/// No two live entries hold equal values under `T`'s equality.
pub open spec fn values_distinct<T: PartialEq, D: SymbolId>(s: Seq<Symbol<T, D>>) -> bool {
    forall|i: int, j: int|
        0 <= i < s.len() && 0 <= j < s.len() && i != j ==> !(#[trigger] s[i].data.eq_spec(
            &s[j].data,
        ))
}

/// Law: two consecutive `get_or_insert` calls with the same value resolve
/// to the same entry — same identifier, same handle — with the second call
/// tagged "present".
///
/// If the first call hits, it leaves the table unchanged, so the second
/// call resolves `v` to the same position. If the first call misses — no
/// entry of `s` holds a value equal to `v` — it appends one entry `e`
/// holding `v`, and this lemma shows a lookup over the result resolves to
/// exactly that new entry: the second call therefore takes the hit path and
/// returns it tagged "present", the table unchanged.
pub proof fn lemma_get_or_insert_idempotent<T: PartialEq, D: SymbolId>(
    s: Seq<Symbol<T, D>>,
    e: Symbol<T, D>,
)
    requires
        find_value(s, e.data) is None,
        e.data.eq_spec(&e.data),
    ensures
        find_value(s.push(e), e.data) == Some(s.len() as int),
    decreases s.len(),
{
    lemma_find_value_properties(s, e.data);
    if s.len() == 0 {
        assert(s.push(e)[0] == e);
    } else {
        assert(!s.push(e)[0].data.eq_spec(&e.data));
        assert(s.push(e).skip(1) =~= s.skip(1).push(e));
        lemma_find_value_properties(s.skip(1), e.data);
        assert forall|k: int| 0 <= k < s.skip(1).len() implies !(#[trigger] s.skip(
            1,
        )[k].data.eq_spec(&e.data)) by {
            assert(s.skip(1)[k] == s[k + 1]);
        }
        assert(find_value(s.skip(1), e.data) is None) by {
            lemma_find_value_properties(s.skip(1), e.data);
            if find_value(s.skip(1), e.data) is Some {
                let p = find_value(s.skip(1), e.data).unwrap();
                assert(s.skip(1)[p].data.eq_spec(&e.data));
            }
        }
        lemma_get_or_insert_idempotent(s.skip(1), e);
    }
}

/// Law: the two lookup directions round-trip on every live entry. For a
/// live entry `e`, an identifier lookup with `e`'s identifier returns the
/// entry itself — so it holds `e`'s value — and a value lookup with `e`'s
/// value also returns the entry itself — so it holds `e`'s identifier.
///
/// The value direction asks that no other live entry hold an equal value,
/// the shape every index maintains on its own insertions: over a table
/// holding equal values twice (inserted by bypassing the index), the value
/// lookup collapses the duplicates and resolves them all to one of the
/// duplicate entries, so an entry `e` that lost may round-trip to the
/// winning duplicate instead of to itself.
pub proof fn lemma_round_trip<T: PartialEq, D: SymbolId>(s: Seq<Symbol<T, D>>, p: int)
    requires
        0 <= p < s.len(),
        ids_distinct(s),
        values_distinct(s),
        s[p].data.eq_spec(&s[p].data),
    ensures
        find_id(s, s[p].id.as_int()) == Some(p),
        find_value(s, s[p].data) == Some(p),
{
    lemma_find_id_unique(s, p);
    lemma_find_value_properties(s, s[p].data);
    match find_value(s, s[p].data) {
        Some(q) => {
            if q != p {
                assert(s[q].data.eq_spec(&s[p].data));
            }
        },
        None => {
            assert(s[p].data.eq_spec(&s[p].data));
        },
    }
}

/// Law: an index satisfying its invariant holds exactly one
/// identifier-to-entry mapping per live entry — every live entry is found
/// under its own identifier, and nothing else is found. Both this and the
/// value direction are stated over the index's contents alone, so any two
/// indexes over equal table contents — an index as the operations left it
/// and a freshly rebuilt one — resolve every lookup identically.
pub proof fn lemma_index_mappings_exact<I: Indexing>(idx: I)
    requires
        idx.inv(),
    ensures
        forall|p: int|
            0 <= p < idx.contents().len() ==> find_id(
                idx.contents(),
                #[trigger] idx.contents()[p].id.as_int(),
            ) == Some(p),
        forall|n: int|
            #[trigger] find_id(idx.contents(), n) matches Some(p) ==> 0 <= p
                < idx.contents().len() && idx.contents()[p].id.as_int() == n,
{
    idx.inv_properties();
    let s = idx.contents();
    assert forall|p: int| 0 <= p < s.len() implies find_id(
        s,
        #[trigger] s[p].id.as_int(),
    ) == Some(p) by {
        lemma_find_id_unique(s, p);
    }
    assert forall|n: int|
        (#[trigger] find_id(s, n) matches Some(p) ==> 0 <= p < s.len() && s[p].id.as_int()
            == n) by {
        lemma_find_id_properties(s, n);
    }
}

} // verus!
