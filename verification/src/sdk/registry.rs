//! The part registry: every known part definition, keyed by its id.
//!
//! Definitions are loaded file by file, in sorted file order, and then registered here.
//! The registry is kept sorted by id — byte-wise, as Rust orders strings — so iteration
//! order is the same on every run and every machine, and lookups are a binary search.
//!
//! When two definitions declare the same id, the first one loaded is kept and the later
//! one is reported as a duplicate: a shadowed definition is worth a warning, never a
//! crash.

use vstd::prelude::*;
use vstd::utf8::encode_utf8;

verus! {

/// The bytes an id is ordered and compared by.
pub open spec fn key_of(id: Seq<char>) -> Seq<u8> {
    encode_utf8(id)
}

/// Byte-wise lexicographic order — the order of `str::cmp`.
pub open spec fn bytes_lt(a: Seq<u8>, b: Seq<u8>) -> bool
    decreases a.len(),
{
    if a.len() == 0 {
        b.len() > 0
    } else if b.len() == 0 {
        false
    } else if a[0] != b[0] {
        a[0] < b[0]
    } else {
        bytes_lt(a.drop_first(), b.drop_first())
    }
}

/// No key orders before itself.
pub proof fn lemma_bytes_lt_irreflexive(a: Seq<u8>)
    ensures
        !bytes_lt(a, a),
    decreases a.len(),
{
    if a.len() > 0 {
        lemma_bytes_lt_irreflexive(a.drop_first());
    }
}

/// Any two keys are equal or ordered one way round, never both.
pub proof fn lemma_bytes_lt_total(a: Seq<u8>, b: Seq<u8>)
    ensures
        a == b || bytes_lt(a, b) || bytes_lt(b, a),
        !(bytes_lt(a, b) && bytes_lt(b, a)),
    decreases a.len(),
{
    if a.len() > 0 && b.len() > 0 && a[0] == b[0] {
        lemma_bytes_lt_total(a.drop_first(), b.drop_first());
        if a.drop_first() == b.drop_first() {
            assert(a =~= seq![a[0]] + a.drop_first());
            assert(b =~= seq![b[0]] + b.drop_first());
        }
    } else if a.len() == 0 && b.len() == 0 {
        assert(a =~= b);
    }
}

/// The byte order is transitive.
pub proof fn lemma_bytes_lt_transitive(a: Seq<u8>, b: Seq<u8>, c: Seq<u8>)
    requires
        bytes_lt(a, b),
        bytes_lt(b, c),
    ensures
        bytes_lt(a, c),
    decreases a.len(),
{
    if a.len() > 0 && b.len() > 0 && c.len() > 0 && a[0] == b[0] && b[0] == c[0] {
        lemma_bytes_lt_transitive(a.drop_first(), b.drop_first(), c.drop_first());
    }
}

/// One registered definition.
#[derive(Debug, Clone)]
pub struct RegistryEntry<D> {
    /// Stable identity, e.g. `kraken.engine.spark`.
    pub id: String,
    pub definition: D,
}

/// The position a new key goes at: before the first entry it orders below.
pub open spec fn insert_position<D>(entries: Seq<RegistryEntry<D>>, key: Seq<u8>) -> int
    decreases entries.len(),
{
    if entries.len() == 0 {
        0
    } else if bytes_lt(key, key_of(entries[0].id@)) {
        0
    } else {
        1 + insert_position(entries.drop_first(), key)
    }
}

/// Whether some entry has `key`.
pub open spec fn has_key<D>(entries: Seq<RegistryEntry<D>>, key: Seq<u8>) -> bool {
    exists|i: int| 0 <= i < entries.len() && key_of(#[trigger] entries[i].id@) == key
}

/// Registering one more loaded definition: kept if its id is new, dropped otherwise.
pub open spec fn register<D>(entries: Seq<RegistryEntry<D>>, item: RegistryEntry<D>) -> Seq<RegistryEntry<D>> {
    if has_key(entries, key_of(item.id@)) {
        entries
    } else {
        entries.insert(insert_position(entries, key_of(item.id@)), item)
    }
}

/// The registry built from the first `n` loaded definitions, in load order.
pub open spec fn registry_of<D>(loaded: Seq<RegistryEntry<D>>, n: int) -> Seq<RegistryEntry<D>>
    decreases n,
{
    if n <= 0 {
        Seq::empty()
    } else {
        register(registry_of(loaded, n - 1), loaded[n - 1])
    }
}

/// Where an id goes in an id-ordered list: after every id it does not order before.
pub open spec fn position_after_equals(ids: Seq<Seq<char>>, key: Seq<u8>) -> int
    decreases ids.len(),
{
    if ids.len() == 0 {
        0
    } else if bytes_lt(key, key_of(ids[0])) {
        0
    } else {
        1 + position_after_equals(ids.drop_first(), key)
    }
}

/// The ids, among the first `n` loaded, whose definition was dropped because an earlier one
/// had the same id, in id order: an id loaded `k` times is listed `k - 1` times.
pub open spec fn duplicates_of<D>(loaded: Seq<RegistryEntry<D>>, n: int) -> Seq<Seq<char>>
    decreases n,
{
    if n <= 0 {
        Seq::empty()
    } else if has_key(registry_of(loaded, n - 1), key_of(loaded[n - 1].id@)) {
        let earlier = duplicates_of(loaded, n - 1);
        earlier.insert(position_after_equals(earlier, key_of(loaded[n - 1].id@)), loaded[n - 1].id@)
    } else {
        duplicates_of(loaded, n - 1)
    }
}

proof fn lemma_position_after_equals(ids: Seq<Seq<char>>, key: Seq<u8>, i: int)
    requires
        0 <= i <= ids.len(),
        forall|j: int| 0 <= j < i ==> !bytes_lt(key, key_of(#[trigger] ids[j])),
        i == ids.len() || bytes_lt(key, key_of(ids[i])),
    ensures
        position_after_equals(ids, key) == i,
    decreases i,
{
    if i > 0 {
        let rest = ids.drop_first();
        assert forall|j: int| 0 <= j < i - 1 implies !bytes_lt(key, key_of(#[trigger] rest[j])) by {
            assert(rest[j] == ids[j + 1]);
        }
        if i < ids.len() {
            assert(rest[i - 1] == ids[i]);
        }
        assert(!bytes_lt(key, key_of(ids[0])));
        lemma_position_after_equals(rest, key, i - 1);
    }
}

/// Where `id` goes among `ids`, kept in id order.
fn duplicate_position(ids: &Vec<String>, id: &str) -> (p: usize)
    ensures
        p <= ids@.len(),
        p == position_after_equals(ids@.map_values(|s: String| s@), key_of(id@)),
{
    let ghost view = ids@.map_values(|s: String| s@);
    let mut i: usize = 0;
    while i < ids.len()
        invariant
            view == ids@.map_values(|s: String| s@),
            i <= ids@.len(),
            forall|j: int| 0 <= j < i ==> !bytes_lt(key_of(id@), key_of(#[trigger] view[j])),
        decreases ids.len() - i,
    {
        let order = compare_ids(id, ids[i].as_str());
        proof {
            assert(view[i as int] == ids@[i as int]@);
        }
        if order == IdOrder::Before {
            proof {
                lemma_position_after_equals(view, key_of(id@), i as int);
            }
            return i;
        }
        i += 1;
    }
    proof {
        lemma_position_after_equals(view, key_of(id@), i as int);
    }
    i
}

/// The first of the first `n` loaded definitions whose id has `key`.
pub open spec fn first_loaded<D>(loaded: Seq<RegistryEntry<D>>, key: Seq<u8>, n: int) -> Option<RegistryEntry<D>>
    decreases n,
{
    if n <= 0 {
        None
    } else {
        let earlier = first_loaded(loaded, key, n - 1);
        if earlier is Some {
            earlier
        } else if key_of(loaded[n - 1].id@) == key {
            Some(loaded[n - 1])
        } else {
            None
        }
    }
}

/// Strictly increasing by id key.
pub open spec fn sorted_by_id<D>(entries: Seq<RegistryEntry<D>>) -> bool {
    forall|i: int, j: int| 0 <= i < j < entries.len() ==> bytes_lt(
        key_of(#[trigger] entries[i].id@),
        key_of(#[trigger] entries[j].id@),
    )
}

/// The entry with `key`, if any.
pub open spec fn entry_with_key<D>(entries: Seq<RegistryEntry<D>>, key: Seq<u8>) -> Option<RegistryEntry<D>> {
    if has_key(entries, key) {
        Some(entries[choose|i: int| 0 <= i < entries.len() && key_of(#[trigger] entries[i].id@) == key])
    } else {
        None
    }
}

proof fn lemma_insert_position<D>(entries: Seq<RegistryEntry<D>>, key: Seq<u8>)
    requires
        sorted_by_id(entries),
        !has_key(entries, key),
    ensures
        0 <= insert_position(entries, key) <= entries.len(),
        forall|i: int| 0 <= i < insert_position(entries, key) ==> bytes_lt(key_of(#[trigger] entries[i].id@), key),
        forall|i: int| insert_position(entries, key) <= i < entries.len() ==> bytes_lt(key, key_of(#[trigger] entries[i].id@)),
    decreases entries.len(),
{
    if entries.len() > 0 {
        let rest = entries.drop_first();
        assert(sorted_by_id(rest)) by {
            assert forall|i: int, j: int| 0 <= i < j < rest.len() implies bytes_lt(
                key_of(#[trigger] rest[i].id@),
                key_of(#[trigger] rest[j].id@),
            ) by {
                assert(rest[i] == entries[i + 1] && rest[j] == entries[j + 1]);
            }
        }
        assert(!has_key(rest, key)) by {
            if has_key(rest, key) {
                let i = choose|i: int| 0 <= i < rest.len() && key_of(#[trigger] rest[i].id@) == key;
                assert(entries[i + 1] == rest[i]);
            }
        }
        let k0 = key_of(entries[0].id@);
        lemma_bytes_lt_total(key, k0);
        if bytes_lt(key, k0) {
            assert forall|i: int| 0 <= i < entries.len() implies bytes_lt(key, key_of(#[trigger] entries[i].id@)) by {
                if i > 0 {
                    lemma_bytes_lt_transitive(key, k0, key_of(entries[i].id@));
                }
            }
        } else {
            lemma_insert_position(rest, key);
            assert(k0 != key);
            assert forall|i: int| 0 <= i < insert_position(entries, key) implies bytes_lt(key_of(#[trigger] entries[i].id@), key) by {
                if i > 0 {
                    assert(entries[i] == rest[i - 1]);
                }
            }
            assert forall|i: int| insert_position(entries, key) <= i < entries.len() implies bytes_lt(key, key_of(#[trigger] entries[i].id@)) by {
                assert(entries[i] == rest[i - 1]);
            }
        }
    }
}

proof fn lemma_register_sorted<D>(entries: Seq<RegistryEntry<D>>, item: RegistryEntry<D>)
    requires
        sorted_by_id(entries),
    ensures
        sorted_by_id(register(entries, item)),
        forall|key: Seq<u8>| #[trigger] has_key(register(entries, item), key) <==> (has_key(entries, key) || key == key_of(item.id@)),
        forall|key: Seq<u8>| has_key(entries, key) ==> #[trigger] entry_with_key(register(entries, item), key) == entry_with_key(entries, key),
        !has_key(entries, key_of(item.id@)) ==> entry_with_key(register(entries, item), key_of(item.id@)) == Some(item),
{
    let key = key_of(item.id@);
    if !has_key(entries, key) {
        lemma_insert_position(entries, key);
        let p = insert_position(entries, key);
        let r = entries.insert(p, item);
        assert forall|i: int, j: int| 0 <= i < j < r.len() implies bytes_lt(key_of(#[trigger] r[i].id@), key_of(#[trigger] r[j].id@)) by {
            if j < p {
            } else if j == p {
                assert(r[j] == item);
            } else if i < p {
                assert(r[j] == entries[j - 1]);
                lemma_bytes_lt_transitive(key_of(r[i].id@), key, key_of(r[j].id@));
            } else if i == p {
                assert(r[j] == entries[j - 1]);
            } else {
                assert(r[i] == entries[i - 1] && r[j] == entries[j - 1]);
            }
        }
        assert forall|k: Seq<u8>| #[trigger] has_key(r, k) <==> (has_key(entries, k) || k == key) by {
            if has_key(r, k) {
                let i = choose|i: int| 0 <= i < r.len() && key_of(#[trigger] r[i].id@) == k;
                if i < p {
                    assert(r[i] == entries[i]);
                } else if i > p {
                    assert(r[i] == entries[i - 1]);
                }
            }
            if has_key(entries, k) {
                let i = choose|i: int| 0 <= i < entries.len() && key_of(#[trigger] entries[i].id@) == k;
                if i < p {
                    assert(r[i] == entries[i]);
                } else {
                    assert(r[i + 1] == entries[i]);
                }
            }
            if k == key {
                assert(r[p] == item);
            }
        }
        assert forall|k: Seq<u8>| has_key(entries, k) implies #[trigger] entry_with_key(r, k) == entry_with_key(entries, k) by {
            let i = choose|i: int| 0 <= i < entries.len() && key_of(#[trigger] entries[i].id@) == k;
            let ir = choose|i: int| 0 <= i < r.len() && key_of(#[trigger] r[i].id@) == k;
            assert(has_key(r, k));
            lemma_unique_key(entries, k, i);
            let ir_entry = if i < p { i } else { i + 1 };
            assert(r[ir_entry] == entries[i]);
            lemma_unique_key(r, k, ir_entry);
        }
        assert(has_key(r, key)) by {
            assert(r[p] == item);
        }
        lemma_unique_key(r, key, p);
    }
}

/// A position that splits the entries below and above `key` is where `key` is inserted.
proof fn lemma_position_is_insert_position<D>(entries: Seq<RegistryEntry<D>>, key: Seq<u8>, p: int)
    requires
        sorted_by_id(entries),
        !has_key(entries, key),
        0 <= p <= entries.len(),
        forall|i: int| 0 <= i < p ==> bytes_lt(key_of(#[trigger] entries[i].id@), key),
        forall|i: int| p <= i < entries.len() ==> bytes_lt(key, key_of(#[trigger] entries[i].id@)),
    ensures
        p == insert_position(entries, key),
{
    lemma_insert_position(entries, key);
    let q = insert_position(entries, key);
    if p < q {
        lemma_bytes_lt_total(key_of(entries[p].id@), key);
    } else if q < p {
        lemma_bytes_lt_total(key, key_of(entries[q].id@));
    }
}

/// In a sorted registry at most one entry has a given key.
proof fn lemma_unique_key<D>(entries: Seq<RegistryEntry<D>>, key: Seq<u8>, i: int)
    requires
        sorted_by_id(entries),
        0 <= i < entries.len(),
        key_of(entries[i].id@) == key,
    ensures
        forall|j: int| 0 <= j < entries.len() && key_of(#[trigger] entries[j].id@) == key ==> j == i,
        entry_with_key(entries, key) == Some(entries[i]),
{
    assert forall|j: int| 0 <= j < entries.len() && key_of(#[trigger] entries[j].id@) == key implies j == i by {
        if j < i {
            assert(bytes_lt(key_of(entries[j].id@), key_of(entries[i].id@)));
            lemma_bytes_lt_irreflexive(key);
        } else if i < j {
            assert(bytes_lt(key_of(entries[i].id@), key_of(entries[j].id@)));
            lemma_bytes_lt_irreflexive(key);
        }
    }
}

/// Law: the registry built from loaded definitions is sorted by id, holds every loaded id
/// exactly once, and for each id holds the first definition loaded with it.
pub proof fn lemma_registry_keeps_first_loaded<D>(loaded: Seq<RegistryEntry<D>>, n: int)
    requires
        0 <= n <= loaded.len(),
    ensures
        sorted_by_id(registry_of(loaded, n)),
        forall|key: Seq<u8>| #[trigger] entry_with_key(registry_of(loaded, n), key) == first_loaded(loaded, key, n),
    decreases n,
{
    if n > 0 {
        lemma_registry_keeps_first_loaded(loaded, n - 1);
        let before = registry_of(loaded, n - 1);
        let item = loaded[n - 1];
        lemma_register_sorted(before, item);
        assert forall|key: Seq<u8>| #[trigger] entry_with_key(registry_of(loaded, n), key) == first_loaded(loaded, key, n) by {
            assert(entry_with_key(before, key) == first_loaded(loaded, key, n - 1));
            if has_key(before, key) {
            } else if key == key_of(item.id@) {
            } else {
                assert(!has_key(registry_of(loaded, n), key));
            }
        }
    }
}

/// Every known definition, sorted by id, at most one per id.
pub struct PartRegistry<D> {
    entries: Vec<RegistryEntry<D>>,
}

/// The relation between two ids, by bytes.
#[derive(Debug, Clone, Copy, PartialEq, Eq, Structural)]
pub enum IdOrder {
    Before,
    Same,
    After,
}

/// Compares two ids byte-wise, as `str::cmp` does.
pub fn compare_ids(a: &str, b: &str) -> (order: IdOrder)
    ensures
        order == IdOrder::Same <==> key_of(a@) == key_of(b@),
        order == IdOrder::Before <==> bytes_lt(key_of(a@), key_of(b@)),
        order == IdOrder::After <==> bytes_lt(key_of(b@), key_of(a@)),
{
    let x = a.as_bytes();
    let y = b.as_bytes();
    let ghost xs = x@;
    let ghost ys = y@;
    let mut i: usize = 0;
    proof {
        assert(xs.subrange(0, xs.len() as int) =~= xs);
        assert(ys.subrange(0, ys.len() as int) =~= ys);
        assert(xs.subrange(0, 0) =~= ys.subrange(0, 0));
    }
    while i < x.len() && i < y.len()
        invariant
            xs == x@,
            ys == y@,
            xs == key_of(a@),
            ys == key_of(b@),
            i <= xs.len(),
            i <= ys.len(),
            xs.subrange(0, i as int) == ys.subrange(0, i as int),
            bytes_lt(xs, ys) == bytes_lt(xs.subrange(i as int, xs.len() as int), ys.subrange(i as int, ys.len() as int)),
            bytes_lt(ys, xs) == bytes_lt(ys.subrange(i as int, ys.len() as int), xs.subrange(i as int, xs.len() as int)),
        decreases x.len() - i,
    {
        if x[i] != y[i] {
            proof {
                lemma_bytes_lt_total(xs, ys);
                if xs == ys {
                    assert(xs[i as int] == ys[i as int]);
                }
            }
            if x[i] < y[i] {
                return IdOrder::Before;
            } else {
                return IdOrder::After;
            }
        }
        proof {
            let xr = xs.subrange(i as int, xs.len() as int);
            let yr = ys.subrange(i as int, ys.len() as int);
            assert(xr.drop_first() =~= xs.subrange(i + 1, xs.len() as int));
            assert(yr.drop_first() =~= ys.subrange(i + 1, ys.len() as int));
            assert(xs.subrange(0, i + 1) =~= xs.subrange(0, i as int).push(xs[i as int]));
            assert(ys.subrange(0, i + 1) =~= ys.subrange(0, i as int).push(ys[i as int]));
        }
        i += 1;
    }
    proof {
        lemma_bytes_lt_total(xs, ys);
        if i == xs.len() && i == ys.len() {
            assert(xs =~= xs.subrange(0, i as int));
            assert(ys =~= ys.subrange(0, i as int));
        } else {
            if xs == ys {
                assert(xs.len() == ys.len());
            }
        }
    }
    if x.len() == y.len() {
        IdOrder::Same
    } else if x.len() < y.len() {
        IdOrder::Before
    } else {
        IdOrder::After
    }
}

/// Binary search for `id`: `Ok` with its position, or `Err` with where it would go.
fn position_in<D>(entries: &Vec<RegistryEntry<D>>, id: &str) -> (found: Result<usize, usize>)
    requires
        sorted_by_id(entries@),
    ensures
        found matches Ok(i) ==> i < entries@.len() && key_of(entries@[i as int].id@) == key_of(id@),
        found matches Err(p) ==> p <= entries@.len() && !has_key(entries@, key_of(id@))
            && (forall|i: int| 0 <= i < p ==> bytes_lt(key_of(#[trigger] entries@[i].id@), key_of(id@)))
            && (forall|i: int| p <= i < entries@.len() ==> bytes_lt(key_of(id@), key_of(#[trigger] entries@[i].id@))),
{
    let ghost es = entries@;
    let ghost k = key_of(id@);
    let mut lo: usize = 0;
    let mut hi: usize = entries.len();
    while lo < hi
        invariant
            es == entries@,
            k == key_of(id@),
            sorted_by_id(es),
            lo <= hi <= es.len(),
            forall|i: int| 0 <= i < lo ==> bytes_lt(key_of(#[trigger] es[i].id@), k),
            forall|i: int| hi <= i < es.len() ==> bytes_lt(k, key_of(#[trigger] es[i].id@)),
        decreases hi - lo,
    {
        let mid = lo + (hi - lo) / 2;
        let mid_id = entries[mid].id.as_str();
        let order = compare_ids(mid_id, id);
        proof {
            assert(mid_id@ == es[mid as int].id@);
        }
        match order {
            IdOrder::Same => {
                return Ok(mid);
            },
            IdOrder::Before => {
                proof {
                    assert forall|i: int| 0 <= i < mid + 1 implies bytes_lt(key_of(#[trigger] es[i].id@), k) by {
                        if i < mid {
                            lemma_bytes_lt_transitive(key_of(es[i].id@), key_of(es[mid as int].id@), k);
                        }
                    }
                }
                lo = mid + 1;
            },
            IdOrder::After => {
                proof {
                    assert forall|i: int| mid <= i < es.len() implies bytes_lt(k, key_of(#[trigger] es[i].id@)) by {
                        if i > mid {
                            lemma_bytes_lt_transitive(k, key_of(es[mid as int].id@), key_of(es[i].id@));
                        }
                    }
                }
                hi = mid;
            },
        }
    }
    proof {
        assert(!has_key(es, k)) by {
            if has_key(es, k) {
                let i = choose|i: int| 0 <= i < es.len() && key_of(#[trigger] es[i].id@) == k;
                lemma_bytes_lt_irreflexive(k);
            }
        }
    }
    Err(lo)
}

impl<D> PartRegistry<D> {
    /// A registry is always sorted strictly by id.
    #[verifier::type_invariant]
    closed spec fn sorted(self) -> bool {
        sorted_by_id(self.entries@)
    }

    /// The registered entries, in id order.
    pub closed spec fn entries(self) -> Seq<RegistryEntry<D>> {
        self.entries@
    }

    /// A registry holding nothing.
    pub fn new() -> (registry: Self)
        ensures
            registry.entries() == Seq::<RegistryEntry<D>>::empty(),
    {
        PartRegistry { entries: Vec::new() }
    }

    /// Registers loaded definitions in load order.
    ///
    /// Returns the registry and the ids of every definition that was dropped because an
    /// earlier one had already claimed its id, in id order.
    pub fn from_loaded(loaded: Vec<RegistryEntry<D>>) -> (result: (Self, Vec<String>))
        ensures
            result.0.entries() == registry_of(loaded@, loaded@.len() as int),
            result.1@.map_values(|id: String| id@) == duplicates_of(loaded@, loaded@.len() as int),
    {
        let ghost all = loaded@;
        let total = loaded.len();
        let mut entries: Vec<RegistryEntry<D>> = Vec::new();
        let mut duplicates: Vec<String> = Vec::new();
        let mut rest = loaded;
        let mut taken: usize = 0;
        proof {
            assert(rest@ =~= all.subrange(0, all.len() as int));
        }
        // Consume in load order: reverse once, then pop from the back.
        let mut pending: Vec<RegistryEntry<D>> = Vec::new();
        while rest.len() > 0
            invariant
                all.len() == pending.len() + rest.len(),
                rest@ == all.subrange(0, rest.len() as int),
                forall|k: int| 0 <= k < pending.len() ==> #[trigger] pending@[k] == all[all.len() - 1 - k],
            decreases rest.len(),
        {
            let item = rest.pop().unwrap();
            proof {
                assert(rest@ =~= all.subrange(0, rest.len() as int));
                assert(item == all[rest.len() as int]);
            }
            pending.push(item);
        }
        while pending.len() > 0
            invariant
                all.len() == pending.len() + taken,
                all.len() == total,
                forall|k: int| 0 <= k < pending.len() ==> #[trigger] pending@[k] == all[all.len() - 1 - k],
                entries@ == registry_of(all, taken as int),
                sorted_by_id(entries@),
                duplicates@.map_values(|id: String| id@) == duplicates_of(all, taken as int),
            decreases pending.len(),
        {
            let item = pending.pop().unwrap();
            proof {
                assert(item == all[taken as int]);
                lemma_register_sorted(entries@, item);
            }
            let ghost dups_before = duplicates@;
            match position_in(&entries, item.id.as_str()) {
                Ok(_) => {
                    let p = duplicate_position(&duplicates, item.id.as_str());
                    let ghost id_view = item.id@;
                    duplicates.insert(p, item.id);
                    proof {
                        assert(duplicates@.map_values(|id: String| id@) =~= dups_before.map_values(|id: String| id@).insert(
                            p as int,
                            id_view,
                        ));
                    }
                },
                Err(p) => {
                    proof {
                        lemma_insert_position(entries@, key_of(item.id@));
                        lemma_position_is_insert_position(entries@, key_of(item.id@), p as int);
                    }
                    entries.insert(p, item);
                },
            }
            taken += 1;
        }
        (PartRegistry { entries }, duplicates)
    }

    /// How many definitions are registered.
    pub fn len(&self) -> (n: usize)
        ensures
            n == self.entries().len(),
    {
        self.entries.len()
    }

    /// Whether nothing is registered.
    pub fn is_empty(&self) -> (empty: bool)
        ensures
            empty == (self.entries().len() == 0),
    {
        self.entries.len() == 0
    }

    /// Every registered definition, in id order.
    pub fn iter(&self) -> (all: &[RegistryEntry<D>])
        ensures
            all@ == self.entries(),
    {
        self.entries.as_slice()
    }

    /// The definition registered under `id`, if any.
    pub fn get(&self, id: &str) -> (found: Option<&D>)
        ensures
            found matches Some(d) ==> entry_with_key(self.entries(), key_of(id@)) matches Some(e) && *d == e.definition,
            found is None ==> entry_with_key(self.entries(), key_of(id@)) is None,
    {
        proof {
            use_type_invariant(self);
        }
        match position_in(&self.entries, id) {
            Ok(i) => {
                proof {
                    lemma_unique_key(self.entries@, key_of(id@), i as int);
                }
                Some(&self.entries[i].definition)
            },
            Err(_) => None,
        }
    }
}

} // verus!
