//! The peer registry: the map from peer identifier to peer address that the
//! discovery listener fills and queries read.
//!
//! The registry models a map; its entries keep insertion order, and an
//! identifier announced again keeps its place with the new address (last
//! write wins).

use vstd::prelude::*;

use crate::addr::PeerAddress;
use crate::announcement::PeerID;

verus! {

/// The map a sequence of entries denotes: a later entry overrides an
/// earlier one with the same identifier.
pub open spec fn entries_map(s: Seq<(PeerID, PeerAddress)>) -> Map<PeerID, PeerAddress>
    decreases s.len(),
{
    if s.len() == 0 {
        Map::empty()
    } else {
        entries_map(s.drop_last()).insert(s.last().0, s.last().1)
    }
}

/// Whether no two entries share an identifier.
pub open spec fn unique_ids(s: Seq<(PeerID, PeerAddress)>) -> bool {
    forall|i: int, j: int| 0 <= i < j < s.len() ==> s[i].0 != s[j].0
}

/// Index of the first entry carrying `id`, searching from `from`.
pub open spec fn entry_index_from(s: Seq<(PeerID, PeerAddress)>, id: PeerID, from: int) -> Option<
    int,
>
    decreases s.len() - from,
    when 0 <= from <= s.len()
{
    if from >= s.len() {
        None
    } else if s[from].0 == id {
        Some(from)
    } else {
        entry_index_from(s, id, from + 1)
    }
}

/// `s` with the entry for `id` set to `addr`: replaced in place when `id` is
/// present, appended when it is not.
pub open spec fn upsert_entry(
    s: Seq<(PeerID, PeerAddress)>,
    id: PeerID,
    addr: PeerAddress,
) -> Seq<(PeerID, PeerAddress)> {
    match entry_index_from(s, id, 0) {
        Some(i) => s.update(i, (id, addr)),
        None => s.push((id, addr)),
    }
}

/// What the map of entries with unique identifiers holds: exactly the
/// identifiers of the entries, each at its entry's address.
pub proof fn lemma_entries_map(s: Seq<(PeerID, PeerAddress)>)
    requires
        unique_ids(s),
    ensures
        forall|k: PeerID|
            entries_map(s).dom().contains(k) <==> exists|i: int| 0 <= i < s.len() && (#[trigger] s[i]).0 == k,
        forall|i: int|
            0 <= i < s.len() ==> entries_map(s).dom().contains(#[trigger] s[i].0) && entries_map(
                s,
            )[s[i].0] == s[i].1,
        entries_map(s).dom().finite(),
        entries_map(s).dom().len() == s.len(),
    decreases s.len(),
{
    if s.len() > 0 {
        let head = s.drop_last();
        lemma_entries_map(head);
        assert forall|i: int| 0 <= i < s.len() implies entries_map(s).dom().contains(
            #[trigger] s[i].0,
        ) && entries_map(s)[s[i].0] == s[i].1 by {
            if i < s.len() - 1 {
                assert(head[i] == s[i]);
                assert(s[i].0 != s.last().0);
            }
        }
        assert(!entries_map(head).dom().contains(s.last().0));
    }
}

/// The map of peers discovered so far.
///
/// Filled by the discovery listener, read by the queries; the application
/// shares it behind a lock. An identifier announced twice keeps the address
/// announced last.
pub struct PeerRegistry {
    entries: Vec<(PeerID, PeerAddress)>,
}

impl View for PeerRegistry {
    type V = Map<PeerID, PeerAddress>;

    closed spec fn view(&self) -> Map<PeerID, PeerAddress> {
        entries_map(self.entries@)
    }
}

impl PeerRegistry {
    /// The registry's entries, oldest first.
    pub closed spec fn entries_view(&self) -> Seq<(PeerID, PeerAddress)> {
        self.entries@
    }

    /// No two entries share an identifier.
    pub closed spec fn wf(&self) -> bool {
        unique_ids(self.entries@)
    }

    /// Creates an empty registry.
    pub fn new() -> (r: PeerRegistry)
        ensures
            r@ == Map::<PeerID, PeerAddress>::empty(),
            r.entries_view() == Seq::<(PeerID, PeerAddress)>::empty(),
            r.wf(),
    {
        let r = PeerRegistry { entries: Vec::new() };
        proof {
            assert(r.entries@ =~= Seq::<(PeerID, PeerAddress)>::empty());
        }
        r
    }

    /// Records that peer `id` accepts files at `addr`: adds the entry, or
    /// replaces the address of an entry already carrying `id`.
    pub fn upsert(&mut self, id: PeerID, addr: PeerAddress)
        requires
            old(self).wf(),
        ensures
            final(self).wf(),
            final(self)@ == old(self)@.insert(id, addr),
            final(self).entries_view() == upsert_entry(old(self).entries_view(), id, addr),
    {
        let ghost s = self.entries@;
        proof {
            lemma_entries_map(s);
        }
        let n = self.entries.len();
        let mut i: usize = 0;
        while i < n
            invariant
                i <= n,
                n == self.entries@.len(),
                s == self.entries@,
                s == old(self).entries_view(),
                unique_ids(s),
                entry_index_from(s, id, 0) == entry_index_from(s, id, i as int),
                forall|j: int| 0 <= j < i ==> (#[trigger] s[j]).0 != id,
            decreases n - i,
        {
            if self.entries[i].0 == id {
                self.entries[i] = (id, addr);
                proof {
                    assert(entry_index_from(s, id, i as int) == Some(i as int));
                    lemma_entries_map_update(s, i as int, addr);
                }
                return ;
            }
            i = i + 1;
        }
        self.entries.push((id, addr));
        proof {
            assert(entry_index_from(s, id, n as int) is None);
            assert(self.entries@.drop_last() =~= s);
        }
    }

    /// The address of the peer carrying `id`, if it was ever announced.
    pub fn find(&self, id: PeerID) -> (r: Option<PeerAddress>)
        requires
            self.wf(),
        ensures
            r == if self@.dom().contains(id) {
                Some(self@[id])
            } else {
                None::<PeerAddress>
            },
    {
        proof {
            lemma_entries_map(self.entries@);
        }
        let n = self.entries.len();
        let mut i: usize = 0;
        while i < n
            invariant
                i <= n,
                n == self.entries@.len(),
                self.wf(),
                forall|j: int| 0 <= j < i ==> (#[trigger] self.entries@[j]).0 != id,
            decreases n - i,
        {
            if self.entries[i].0 == id {
                proof {
                    lemma_entries_map(self.entries@);
                }
                return Some(self.entries[i].1);
            }
            i = i + 1;
        }
        proof {
            lemma_entries_map(self.entries@);
        }
        None
    }

    /// The identifiers of all discovered peers, oldest first, or nothing
    /// when none was discovered yet.
    pub fn peer_ids(&self) -> (r: Option<Vec<PeerID>>)
        requires
            self.wf(),
        ensures
            r is None <==> self@ == Map::<PeerID, PeerAddress>::empty(),
            r matches Some(v) ==> v@ == self.entries_view().map(
                |i: int, e: (PeerID, PeerAddress)| e.0,
            ) && v@.no_duplicates() && v@.to_set() == self@.dom(),
    {
        proof {
            lemma_entries_map(self.entries@);
            if self.entries@.len() == 0 {
                assert(self.entries@ =~= Seq::<(PeerID, PeerAddress)>::empty());
                assert(self@ =~= Map::<PeerID, PeerAddress>::empty());
            } else {
                assert(self@.dom().contains(self.entries@[0].0));
            }
        }
        let n = self.entries.len();
        if n == 0 {
            return None;
        }
        let mut out: Vec<PeerID> = Vec::new();
        let mut i: usize = 0;
        while i < n
            invariant
                i <= n,
                n == self.entries@.len(),
                out@ == self.entries@.take(i as int).map(|k: int, e: (PeerID, PeerAddress)| e.0),
            decreases n - i,
        {
            out.push(self.entries[i].0);
            proof {
                assert(out@ =~= self.entries@.take(i + 1).map(
                    |k: int, e: (PeerID, PeerAddress)| e.0,
                ));
            }
            i = i + 1;
        }
        proof {
            assert(self.entries@.take(n as int) =~= self.entries@);
            let ids = self.entries@.map(|k: int, e: (PeerID, PeerAddress)| e.0);
            assert forall|a: int, b: int| 0 <= a < b < ids.len() implies ids[a] != ids[b] by {
                assert(ids[a] == self.entries@[a].0 && ids[b] == self.entries@[b].0);
            }
            lemma_entries_map(self.entries@);
            assert forall|k: PeerID| #[trigger]
                ids.to_set().contains(k) implies self@.dom().contains(k) by {
                let a = choose|a: int| 0 <= a < ids.len() && ids[a] == k;
                assert(self.entries@[a].0 == k);
            }
            assert forall|k: PeerID| #[trigger] self@.dom().contains(k) implies ids.to_set().contains(
                k,
            ) by {
                let a = choose|a: int| 0 <= a < self.entries@.len() && (#[trigger] self.entries@[a]).0
                    == k;
                assert(ids[a] == k);
            }
            assert(ids.to_set() =~= self@.dom());
        }
        Some(out)
    }

    /// The addresses of all discovered peers, oldest first, or nothing when
    /// none was discovered yet. Two peers may share an address.
    pub fn peer_addresses(&self) -> (r: Option<Vec<PeerAddress>>)
        requires
            self.wf(),
        ensures
            r is None <==> self@ == Map::<PeerID, PeerAddress>::empty(),
            r matches Some(v) ==> v@ == self.entries_view().map(
                |i: int, e: (PeerID, PeerAddress)| e.1,
            ) && v@.len() == self@.dom().len(),
    {
        proof {
            lemma_entries_map(self.entries@);
            if self.entries@.len() == 0 {
                assert(self.entries@ =~= Seq::<(PeerID, PeerAddress)>::empty());
                assert(self@ =~= Map::<PeerID, PeerAddress>::empty());
            } else {
                assert(self@.dom().contains(self.entries@[0].0));
            }
        }
        let n = self.entries.len();
        if n == 0 {
            return None;
        }
        let mut out: Vec<PeerAddress> = Vec::new();
        let mut i: usize = 0;
        while i < n
            invariant
                i <= n,
                n == self.entries@.len(),
                out@ == self.entries@.take(i as int).map(|k: int, e: (PeerID, PeerAddress)| e.1),
            decreases n - i,
        {
            out.push(self.entries[i].1);
            proof {
                assert(out@ =~= self.entries@.take(i + 1).map(
                    |k: int, e: (PeerID, PeerAddress)| e.1,
                ));
            }
            i = i + 1;
        }
        proof {
            assert(self.entries@.take(n as int) =~= self.entries@);
        }
        Some(out)
    }
}

/// Replacing the address inside the entry carrying `id` turns the entries'
/// map into the map with `id` reinserted at the new address.
proof fn lemma_entries_map_update(s: Seq<(PeerID, PeerAddress)>, i: int, addr: PeerAddress)
    requires
        unique_ids(s),
        0 <= i < s.len(),
    ensures
        entries_map(s.update(i, (s[i].0, addr))) == entries_map(s).insert(s[i].0, addr),
        unique_ids(s.update(i, (s[i].0, addr))),
    decreases s.len(),
{
    let id = s[i].0;
    let s2 = s.update(i, (id, addr));
    assert(s2.len() == s.len());
    if i == s.len() - 1 {
        assert(s2.drop_last() =~= s.drop_last());
        assert(entries_map(s).insert(s.last().0, s.last().1).insert(id, addr) =~= entries_map(
            s.drop_last(),
        ).insert(id, addr));
        assert(entries_map(s2) =~= entries_map(s).insert(id, addr));
    } else {
        assert(s2.drop_last() =~= s.drop_last().update(i, (id, addr)));
        assert(s.drop_last()[i] == s[i]);
        assert(unique_ids(s.drop_last()));
        lemma_entries_map_update(s.drop_last(), i, addr);
        let last = s.last();
        assert(s2.last() == last);
        assert(last.0 != id);
        assert(entries_map(s2) == entries_map(s.drop_last()).insert(id, addr).insert(
            last.0,
            last.1,
        ));
        assert(entries_map(s.drop_last()).insert(id, addr).insert(last.0, last.1) =~= entries_map(
            s.drop_last(),
        ).insert(last.0, last.1).insert(id, addr));
    }
}

} // verus!
