use vstd::prelude::*;
use crate::address::IpAddress;

verus! {

/// A remote participant, known by the text of its address.
#[derive(Debug)]
pub struct Peer {
    address: String,
}

impl View for Peer {
    type V = Seq<char>;

    closed spec fn view(&self) -> Seq<char> {
        self.address@
    }
}

impl Peer {
    pub fn new(address: &str) -> (r: Peer)
        ensures
            r@ == address@,
    {
        Peer { address: address.to_owned() }
    }

    pub fn address(&self) -> (r: &str)
        ensures
            r@ == self@,
    {
        self.address.as_str()
    }
}

/// One entry of a peer map: an address and the text of the peer kept for it.
pub type EntryView = (IpAddress, Seq<char>);

/// The addresses of a sequence of entries, in order.
pub open spec fn keys_of(m: Seq<EntryView>) -> Seq<IpAddress> {
    m.map_values(|e: EntryView| e.0)
}

/// Whether some entry has address `a`.
pub open spec fn has_key(m: Seq<EntryView>, a: IpAddress) -> bool {
    exists|i: int| 0 <= i < m.len() && m[i].0 == a
}

/// A position of an entry for `a`, where there is one.
pub open spec fn key_pos(m: Seq<EntryView>, a: IpAddress) -> int {
    choose|i: int| 0 <= i < m.len() && m[i].0 == a
}

/// `m` with `(a, v)` stored: in place of the entry for `a` where there is one,
/// at the end where there is none.
pub open spec fn insert_entry(m: Seq<EntryView>, a: IpAddress, v: Seq<char>) -> Seq<EntryView> {
    if has_key(m, a) {
        m.update(key_pos(m, a), (a, v))
    } else {
        m.push((a, v))
    }
}

/// A mapping from address to peer that keeps the order in which addresses
/// first came in, with at most one entry per address.
#[derive(Debug)]
pub struct PeerMap {
    entries: Vec<(IpAddress, Peer)>,
}

impl View for PeerMap {
    type V = Seq<EntryView>;

    closed spec fn view(&self) -> Seq<EntryView> {
        self.entries@.map_values(|e: (IpAddress, Peer)| (e.0, e.1@))
    }
}

impl PeerMap {
    /// At most one entry per address.
    #[verifier::type_invariant]
    closed spec fn keys_unique(self) -> bool {
        keys_of(self@).no_duplicates()
    }

    pub fn new() -> (r: PeerMap)
        ensures
            r@ == Seq::<EntryView>::empty(),
    {
        let r = PeerMap { entries: Vec::new() };
        assert(r@ =~= Seq::<EntryView>::empty());
        r
    }

    pub fn len(&self) -> (r: usize)
        ensures
            r == self@.len(),
    {
        self.entries.len()
    }

    /// The position of the entry for `a`, if any.
    fn position(&self, a: &IpAddress) -> (r: Option<usize>)
        ensures
            match r {
                Some(i) => i < self@.len() && self@[i as int].0 == *a,
                None => !has_key(self@, *a),
            },
    {
        proof {
            use_type_invariant(self);
        }
        let mut i: usize = 0;
        while i < self.entries.len()
            invariant
                keys_of(self@).no_duplicates(),
                i <= self@.len(),
                self@.len() == self.entries@.len(),
                forall|j: int| 0 <= j < i ==> self@[j].0 != *a,
            decreases self.entries.len() - i,
        {
            if self.entries[i].0 == *a {
                return Some(i);
            }
            i = i + 1;
        }
        None
    }

    pub fn contains_key(&self, a: &IpAddress) -> (r: bool)
        ensures
            r == has_key(self@, *a),
    {
        self.position(a).is_some()
    }

    pub fn get(&self, a: &IpAddress) -> (r: Option<&Peer>)
        ensures
            match r {
                Some(p) => exists|i: int| 0 <= i < self@.len() && self@[i] == (*a, p@),
                None => !has_key(self@, *a),
            },
    {
        match self.position(a) {
            Some(i) => Some(&self.entries[i].1),
            None => None,
        }
    }

    /// Stores `peer` for `a`, in place of the peer kept for `a` if there is one.
    pub fn insert(&mut self, a: IpAddress, peer: Peer)
        ensures
            final(self)@ == insert_entry(old(self)@, a, peer@),
    {
        proof {
            use_type_invariant(&*self);
        }
        let ghost m = self@;
        let ghost v = peer@;
        let pos = self.position(&a);
        let mut taken = PeerMap::new();
        core::mem::swap(self, &mut taken);
        let PeerMap { mut entries } = taken;
        assert(entries@.map_values(|e: (IpAddress, Peer)| (e.0, e.1@)) == m);
        match pos {
            Some(i) => {
                proof {
                    assert(has_key(m, a));
                    let k = key_pos(m, a);
                    assert(keys_of(m)[k] == m[k].0);
                    assert(keys_of(m)[i as int] == m[i as int].0);
                    assert(k == i);
                }
                entries[i] = (a, peer);
                let ghost e = entries@;
                assert(e.map_values(|e: (IpAddress, Peer)| (e.0, e.1@)) =~= m.update(i as int, (a, v)));
                assert(keys_of(m.update(i as int, (a, v))) =~= keys_of(m));
                let r = PeerMap { entries };
                *self = r;
            },
            None => {
                entries.push((a, peer));
                assert forall|j: int| 0 <= j < keys_of(m).len() implies keys_of(m)[j] != a by {
                    assert(m[j].0 == keys_of(m)[j]);
                }
                let ghost e = entries@;
                assert(e.map_values(|e: (IpAddress, Peer)| (e.0, e.1@)) =~= m.push((a, v)));
                assert(keys_of(m.push((a, v))) =~= keys_of(m).push(a));
                assert forall|x: int, y: int|
                    0 <= x < y < keys_of(m).len() + 1 implies keys_of(m).push(a)[x] != keys_of(m).push(a)[y] by {
                    if y < keys_of(m).len() {
                        assert(keys_of(m)[x] != keys_of(m)[y]);
                    }
                }
                let r = PeerMap { entries };
                *self = r;
            },
        }
    }

    /// The addresses, in order.
    pub fn keys(&self) -> (r: Vec<IpAddress>)
        ensures
            r@ == keys_of(self@),
            r@.no_duplicates(),
    {
        proof {
            use_type_invariant(self);
        }
        let mut out: Vec<IpAddress> = Vec::new();
        let mut i: usize = 0;
        while i < self.entries.len()
            invariant
                i <= self.entries@.len(),
                self@.len() == self.entries@.len(),
                out@ == keys_of(self@).take(i as int),
            decreases self.entries.len() - i,
        {
            out.push(self.entries[i].0);
            assert(keys_of(self@).take(i + 1) =~= keys_of(self@).take(i as int).push(self@[i as int].0));
            i = i + 1;
        }
        assert(keys_of(self@).take(i as int) =~= keys_of(self@));
        out
    }
}

} // verus!
