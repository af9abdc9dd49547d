//! The control-store session and its transactions.
//!
//! The store is a hierarchical path-based key/value space. The session holds
//! the store state as plain values; a transaction takes an isolated snapshot
//! of that state, applies reads, writes and removals against the snapshot,
//! and publishes the whole snapshot back on commit — all or nothing. A
//! transaction that is discarded without a commit leaves the store untouched.

use vstd::prelude::*;
use vstd::string::StringExecFns;
use crate::text;

verus! {

/// An opaque store-layer failure: the store does not decompose causes.
#[derive(Debug)]
pub struct Error {}

impl Error {
    pub fn new() -> Error {
        Error {  }
    }

    /// The textual form of a store failure.
    pub fn text(&self) -> (r: String)
        ensures
            r@ == "error"@,
    {
        String::from_str("error")
    }
}

/// One path/value pair held by the store.
pub struct StoreEntry {
    pub path: String,
    pub value: String,
}

/// The store contents, as a list of entries with pairwise distinct paths.
pub struct StoreMap {
    pub entries: Vec<StoreEntry>,
}

/// The mathematical contents of an entry list: later entries win, though
/// under `unique_paths` every path occurs at most once.
pub open spec fn entries_map(s: Seq<StoreEntry>) -> Map<Seq<char>, Seq<char>>
    decreases s.len(),
{
    if s.len() == 0 {
        Map::empty()
    } else {
        entries_map(s.drop_last()).insert(s.last().path@, s.last().value@)
    }
}

/// No two entries share a path.
pub open spec fn unique_paths(s: Seq<StoreEntry>) -> bool {
    forall|i: int, j: int| 0 <= i < j < s.len() ==> s[i].path@ != s[j].path@
}

impl View for StoreMap {
    type V = Map<Seq<char>, Seq<char>>;

    open spec fn view(&self) -> Map<Seq<char>, Seq<char>> {
        entries_map(self.entries@)
    }
}

/// An entry present in a unique-path list is found in its map at its path.
proof fn lemma_map_index(s: Seq<StoreEntry>, i: int)
    requires
        unique_paths(s),
        0 <= i < s.len(),
    ensures
        entries_map(s).contains_key(s[i].path@),
        entries_map(s)[s[i].path@] == s[i].value@,
    decreases s.len(),
{
    if i == s.len() - 1 {
    } else {
        assert(unique_paths(s.drop_last()));
        assert(s.drop_last()[i] == s[i]);
        lemma_map_index(s.drop_last(), i);
        assert(s.last().path@ != s[i].path@);
    }
}

/// A path held by no entry is absent from the map.
proof fn lemma_map_absent(s: Seq<StoreEntry>, k: Seq<char>)
    requires
        forall|i: int| 0 <= i < s.len() ==> s[i].path@ != k,
    ensures
        !entries_map(s).contains_key(k),
    decreases s.len(),
{
    if s.len() == 0 {
    } else {
        assert(forall|i: int|
            0 <= i < s.drop_last().len() ==> s.drop_last()[i].path@ != k);
        lemma_map_absent(s.drop_last(), k);
        assert(s.last().path@ != k);
    }
}

/// Replacing the entry at `i` by one with the same path updates the map at
/// that path.
proof fn lemma_map_update(s: Seq<StoreEntry>, i: int, e: StoreEntry)
    requires
        unique_paths(s),
        0 <= i < s.len(),
        e.path@ == s[i].path@,
    ensures
        entries_map(s.update(i, e)) =~= entries_map(s).insert(e.path@, e.value@),
    decreases s.len(),
{
    let su = s.update(i, e);
    if i == s.len() - 1 {
        assert(su.drop_last() =~= s.drop_last());
        assert(su.last() == e);
    } else {
        assert(su.drop_last() =~= s.drop_last().update(i, e));
        assert(unique_paths(s.drop_last()));
        assert(s.drop_last()[i] == s[i]);
        lemma_map_update(s.drop_last(), i, e);
        assert(su.last() == s.last());
        assert(s.last().path@ != e.path@);
    }
}

/// Removing the entry at `i` removes its path from the map.
proof fn lemma_map_remove(s: Seq<StoreEntry>, i: int)
    requires
        unique_paths(s),
        0 <= i < s.len(),
    ensures
        entries_map(s.remove(i)) =~= entries_map(s).remove(s[i].path@),
    decreases s.len(),
{
    let sr = s.remove(i);
    if i == s.len() - 1 {
        assert(sr =~= s.drop_last());
        assert(forall|j: int|
            0 <= j < s.drop_last().len() ==> s.drop_last()[j].path@ != s[i].path@);
        lemma_map_absent(s.drop_last(), s[i].path@);
    } else {
        assert(sr.drop_last() =~= s.drop_last().remove(i));
        assert(sr.last() == s.last());
        assert(unique_paths(s.drop_last()));
        assert(s.drop_last()[i] == s[i]);
        lemma_map_remove(s.drop_last(), i);
        assert(s.last().path@ != s[i].path@);
    }
}

impl StoreMap {
    /// The entry paths are pairwise distinct.
    pub open spec fn wf(&self) -> bool {
        unique_paths(self.entries@)
    }

    pub fn new() -> (r: StoreMap)
        ensures
            r.wf(),
            r@ == Map::<Seq<char>, Seq<char>>::empty(),
    {
        StoreMap { entries: Vec::new() }
    }

    /// The index of the entry holding `key`, if any.
    fn find(&self, key: &String) -> (r: Option<usize>)
        ensures
            match r {
                Some(i) => i < self.entries@.len() && self.entries@[i as int].path@ == key@,
                None => forall|j: int|
                    0 <= j < self.entries@.len() ==> self.entries@[j].path@ != key@,
            },
    {
        let n = self.entries.len();
        let mut i: usize = 0;
        while i < n
            invariant
                n == self.entries@.len(),
                i <= n,
                forall|j: int| 0 <= j < i ==> self.entries@[j].path@ != key@,
            decreases n - i,
        {
            if self.entries[i].path.eq(key) {
                return Some(i);
            }
            i = i + 1;
        }
        None
    }

    /// The value at `path`, if the store holds one.
    pub fn get(&self, path: &str) -> (r: Option<String>)
        requires
            self.wf(),
        ensures
            match r {
                Some(v) => self@.contains_key(path@) && v@ == self@[path@],
                None => !self@.contains_key(path@),
            },
    {
        let key = String::from_str(path);
        match self.find(&key) {
            Some(i) => {
                proof {
                    lemma_map_index(self.entries@, i as int);
                }
                Some(self.entries[i].value.clone())
            },
            None => {
                proof {
                    lemma_map_absent(self.entries@, path@);
                }
                None
            },
        }
    }

    /// Binds `path` to `value`, replacing any previous binding.
    pub fn set(&mut self, path: &str, value: &str)
        requires
            old(self).wf(),
        ensures
            final(self).wf(),
            final(self)@ == old(self)@.insert(path@, value@),
    {
        let key = String::from_str(path);
        let entry = StoreEntry { path: key.clone(), value: String::from_str(value) };
        match self.find(&key) {
            Some(i) => {
                proof {
                    lemma_map_update(self.entries@, i as int, entry);
                }
                self.entries[i] = entry;
                assert(unique_paths(self.entries@));
            },
            None => {
                let ghost s0 = self.entries@;
                self.entries.push(entry);
                proof {
                    assert(self.entries@.drop_last() =~= s0);
                    assert forall|i: int, j: int|
                        0 <= i < j < self.entries@.len() implies
                        self.entries@[i].path@ != self.entries@[j].path@ by {
                        if j == self.entries@.len() - 1 {
                            assert(self.entries@[i].path@ != path@);
                        }
                    }
                }
            },
        }
        assert(self@ =~= old(self)@.insert(path@, value@));
    }

    /// Drops the binding at `path`; reports whether one was present.
    pub fn unset(&mut self, path: &str) -> (r: bool)
        requires
            old(self).wf(),
        ensures
            final(self).wf(),
            r == old(self)@.contains_key(path@),
            final(self)@ == old(self)@.remove(path@),
    {
        let key = String::from_str(path);
        match self.find(&key) {
            Some(i) => {
                proof {
                    lemma_map_index(self.entries@, i as int);
                    lemma_map_remove(self.entries@, i as int);
                }
                let ghost s0 = self.entries@;
                self.entries.remove(i);
                proof {
                    assert forall|a: int, b: int|
                        0 <= a < b < self.entries@.len() implies
                        self.entries@[a].path@ != self.entries@[b].path@ by {
                        let a0 = if a < i as int { a } else { a + 1 };
                        let b0 = if b < i as int { b } else { b + 1 };
                        assert(self.entries@[a] == s0[a0]);
                        assert(self.entries@[b] == s0[b0]);
                    }
                }
                true
            },
            None => {
                proof {
                    lemma_map_absent(self.entries@, path@);
                    assert(self@ =~= old(self)@.remove(path@));
                }
                false
            },
        }
    }
}

/// The status of a transaction: it commits or aborts at most once.
#[derive(Clone, Copy, PartialEq, Eq, Structural, Debug)]
pub enum TransactionStatus {
    Pending,
    Committed,
    Aborted,
}

/// The control-store session: the exclusive owner of the store contents.
pub struct Xenstore {
    state: StoreMap,
}

impl View for Xenstore {
    type V = Map<Seq<char>, Seq<char>>;

    closed spec fn view(&self) -> Map<Seq<char>, Seq<char>> {
        self.state@
    }
}

/// The store subtree root for a domain id.
pub open spec fn spec_domain_path(dom_id: u32) -> Seq<char> {
    "/local/domain/"@ + text::spec_dec(dom_id as int)
}

impl Xenstore {
    /// The entry list behind the session holds pairwise distinct paths.
    pub closed spec fn wf(&self) -> bool {
        self.state.wf()
    }

    /// Opens a session on an empty store.
    pub fn new() -> (r: Xenstore)
        ensures
            r.wf(),
            r@ == Map::<Seq<char>, Seq<char>>::empty(),
    {
        Xenstore { state: StoreMap::new() }
    }

    /// The store subtree root for a domain id: a pure derivation, no store
    /// access.
    pub fn get_domain_path(&self, dom_id: u32) -> (r: String)
        ensures
            r@ == spec_domain_path(dom_id),
    {
        proof {
            reveal_strlit("/local/domain/");
        }
        let mut out = String::from_str("/local/domain/");
        text::push_dec(dom_id as u64, &mut out);
        out
    }

    /// Reads `path`: a single-operation transaction against the current
    /// state. Fails exactly when the path is absent.
    pub fn read(&self, path: &str) -> (r: Result<String, Error>)
        requires
            self.wf(),
        ensures
            match r {
                Ok(v) => self@.contains_key(path@) && v@ == self@[path@],
                Err(_) => !self@.contains_key(path@),
            },
    {
        match self.state.get(path) {
            Some(v) => Ok(v),
            None => Err(Error::new()),
        }
    }

    /// Writes `value` at `path`, replacing any previous value.
    pub fn write(&mut self, path: &str, value: &str) -> (r: Result<(), Error>)
        requires
            old(self).wf(),
        ensures
            final(self).wf(),
            r is Ok,
            final(self)@ == old(self)@.insert(path@, value@),
    {
        self.state.set(path, value);
        Ok(())
    }

    /// Removes the value at `path`. Fails exactly when the path is absent,
    /// leaving the store unchanged.
    pub fn rm(&mut self, path: &str) -> (r: Result<(), Error>)
        requires
            old(self).wf(),
        ensures
            final(self).wf(),
            r is Ok <==> old(self)@.contains_key(path@),
            final(self)@ == old(self)@.remove(path@),
    {
        if self.state.unset(path) {
            Ok(())
        } else {
            proof {
                assert(self@ =~= old(self)@.remove(path@));
            }
            Err(Error::new())
        }
    }
}

/// A scoped, all-or-nothing sequence of store operations. The transaction
/// owns an isolated snapshot of the session state; `commit` publishes it
/// atomically. One that is dropped without a commit discards its snapshot
/// and leaves the session state exactly as it was.
pub struct Transaction {
    tmap: StoreMap,
    status: TransactionStatus,
}

impl View for Transaction {
    type V = Map<Seq<char>, Seq<char>>;

    closed spec fn view(&self) -> Map<Seq<char>, Seq<char>> {
        self.tmap@
    }
}

impl Transaction {
    pub closed spec fn wf(&self) -> bool {
        self.tmap.wf()
    }

    pub closed spec fn status_spec(&self) -> TransactionStatus {
        self.status
    }

    /// Starts a transaction: an isolated view of the session state.
    pub fn new(store: &Xenstore) -> (r: Transaction)
        requires
            store.wf(),
        ensures
            r.wf(),
            r@ == store@,
            r.status_spec() == TransactionStatus::Pending,
    {
        let mut tmap = StoreMap::new();
        let n = store.state.entries.len();
        let mut i: usize = 0;
        while i < n
            invariant
                n == store.state.entries@.len(),
                i <= n,
                store.wf(),
                tmap.wf(),
                tmap@ == entries_map(store.state.entries@.take(i as int)),
            decreases n - i,
        {
            let entry = &store.state.entries[i];
            proof {
                assert(store.state.entries@.take(i + 1).drop_last()
                    =~= store.state.entries@.take(i as int));
                assert(store.state.entries@.take(i + 1).last() == store.state.entries@[i as int]);
            }
            tmap.set(entry.path.as_str(), entry.value.as_str());
            i = i + 1;
        }
        proof {
            assert(store.state.entries@.take(n as int) =~= store.state.entries@);
        }
        Transaction { tmap, status: TransactionStatus::Pending }
    }

    /// Reads `path` against the transaction's isolated view.
    pub fn read(&self, path: &str) -> (r: Result<String, Error>)
        requires
            self.wf(),
        ensures
            match r {
                Ok(v) => self@.contains_key(path@) && v@ == self@[path@],
                Err(_) => !self@.contains_key(path@),
            },
    {
        match self.tmap.get(path) {
            Some(v) => Ok(v),
            None => Err(Error::new()),
        }
    }

    /// Writes `value` at `path` in the isolated view; the session state is
    /// untouched until commit.
    pub fn write(&mut self, path: &str, value: &str) -> (r: Result<(), Error>)
        requires
            old(self).wf(),
        ensures
            final(self).wf(),
            r is Ok,
            final(self)@ == old(self)@.insert(path@, value@),
            final(self).status_spec() == old(self).status_spec(),
    {
        self.tmap.set(path, value);
        Ok(())
    }

    /// Removes `path` from the isolated view. Fails exactly when the path is
    /// absent there.
    pub fn rm(&mut self, path: &str) -> (r: Result<(), Error>)
        requires
            old(self).wf(),
        ensures
            final(self).wf(),
            r is Ok <==> old(self)@.contains_key(path@),
            final(self)@ == old(self)@.remove(path@),
            final(self).status_spec() == old(self).status_spec(),
    {
        if self.tmap.unset(path) {
            Ok(())
        } else {
            proof {
                assert(self@ =~= old(self)@.remove(path@));
            }
            Err(Error::new())
        }
    }

    /// Atomically publishes every operation of the transaction: the session
    /// state becomes exactly the transaction's view.
    pub fn commit(&mut self, store: &mut Xenstore) -> (r: Result<(), Error>)
        requires
            old(self).wf(),
            old(self).status_spec() == TransactionStatus::Pending,
        ensures
            r is Ok,
            final(store).wf(),
            final(store)@ == old(self)@,
            final(self).status_spec() == TransactionStatus::Committed,
    {
        std::mem::swap(&mut self.tmap, &mut store.state);
        self.status = TransactionStatus::Committed;
        Ok(())
    }

    /// Discards every operation of the transaction without touching the
    /// session state. Dropping a pending transaction has the same effect:
    /// its snapshot simply goes away.
    pub fn abort(&mut self)
        requires
            old(self).status_spec() == TransactionStatus::Pending,
        ensures
            final(self).status_spec() == TransactionStatus::Aborted,
    {
        self.status = TransactionStatus::Aborted;
    }

    pub fn get_status(&self) -> (r: TransactionStatus)
        ensures
            r == self.status_spec(),
    {
        self.status
    }
}

/// The contents of a store after writes `ws` are applied in order.
pub open spec fn apply_writes(
    m: Map<Seq<char>, Seq<char>>,
    ws: Seq<(Seq<char>, Seq<char>)>,
) -> Map<Seq<char>, Seq<char>>
    decreases ws.len(),
{
    if ws.len() == 0 {
        m
    } else {
        apply_writes(m, ws.drop_last()).insert(ws.last().0, ws.last().1)
    }
}

/// Transaction atomicity, the committed half: a transaction that performs
/// writes `ws` on a snapshot `m` holds `apply_writes(m, ws)`, which `commit`
/// publishes verbatim; this lemma states that every write is then visible —
/// each written path is present, holding the value of the last write to it.
/// The aborted half needs no lemma: no operation of a `Transaction` touches
/// a `Xenstore`, so a transaction dropped without a commit leaves the
/// session state unchanged by construction.
pub proof fn lemma_transaction_atomicity(
    m: Map<Seq<char>, Seq<char>>,
    ws: Seq<(Seq<char>, Seq<char>)>,
    i: int,
)
    requires
        0 <= i < ws.len(),
    ensures
        apply_writes(m, ws).contains_key(ws[i].0),
        (forall|j: int| i < j < ws.len() ==> ws[j].0 != ws[i].0)
            ==> apply_writes(m, ws)[ws[i].0] == ws[i].1,
    decreases ws.len(),
{
    if i == ws.len() - 1 {
    } else {
        assert(ws.drop_last()[i] == ws[i]);
        lemma_transaction_atomicity(m, ws.drop_last(), i);
    }
}

} // verus!
