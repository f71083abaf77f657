use vstd::prelude::*;
use crate::address::{IpAddress, address_of, ip_text, lemma_address_of_text};
use crate::json::{
    decode_string_list, encode_string_list, json_of_strings, json_string_list, string_views,
};
use crate::peer::{EntryView, Peer, PeerMap, has_key, insert_entry, key_pos, keys_of};

verus! {

#[verifier::external_type_specification]
#[verifier::external_body]
pub struct ExIoError(std::io::Error);

/// A text that is the text of no IP address.
#[derive(Debug)]
pub struct AddrParseError;

/// What can go wrong while loading or saving the peers file.
#[derive(Debug)]
pub enum PeersFileControllerError {
    /// Unable to read or write the peers file.
    Io(std::io::Error),
    /// The JSON does not have the expected form.
    Serialization(serde_json::Error),
    /// A text is not an IP address.
    IpAddressFormat(AddrParseError),
}

/// The entries that a list of address texts loads to: each text that is an
/// address stores a peer made from it, in place of any earlier one for that
/// address; other texts are passed over.
pub open spec fn load_entries(items: Seq<Seq<char>>) -> Seq<EntryView>
    decreases items.len(),
{
    if items.len() == 0 {
        Seq::empty()
    } else {
        let m = load_entries(items.drop_last());
        match address_of(items.last()) {
            Some(a) => insert_entry(m, a, items.last()),
            None => m,
        }
    }
}

/// The texts of the addresses of a mapping, in its order.
pub open spec fn address_texts(m: Seq<EntryView>) -> Seq<Seq<char>> {
    keys_of(m).map_values(|a: IpAddress| ip_text(a))
}

/// What a load from the text of a peers file gives: the entries, or `None`
/// where the text is not a JSON array of strings.
pub open spec fn load_text_entries(text: Seq<char>) -> Option<Seq<EntryView>> {
    match json_string_list(text) {
        Some(items) => Some(load_entries(items)),
        None => None,
    }
}

/// The file path and whether the mapping changed since it was last saved.
pub struct ControllerView {
    pub path: Seq<char>,
    pub changed: bool,
}

/// The state after a successful save.
pub open spec fn after_save(v: ControllerView) -> ControllerView {
    ControllerView { path: v.path, changed: false }
}

/// Keeps the peers file: where it is, and whether it needs writing.
pub struct PeersFileController {
    file_path: String,
    is_changed: bool,
}

impl View for PeersFileController {
    type V = ControllerView;

    closed spec fn view(&self) -> ControllerView {
        ControllerView { path: self.file_path@, changed: self.is_changed }
    }
}

/// Builds the mapping from a list of address texts.
pub fn peers_from_strings(items: &Vec<String>) -> (r: PeerMap)
    ensures
        r@ == load_entries(string_views(items@)),
{
    let ghost views = string_views(items@);
    let mut m = PeerMap::new();
    let mut i: usize = 0;
    while i < items.len()
        invariant
            i <= items@.len(),
            views == string_views(items@),
            m@ == load_entries(views.take(i as int)),
        decreases items.len() - i,
    {
        let text = items[i].as_str();
        proof {
            assert(views.take(i + 1).drop_last() =~= views.take(i as int));
            assert(views.take(i + 1).last() == text@);
        }
        match IpAddress::parse(text) {
            Some(a) => {
                m.insert(a, Peer::new(text));
            },
            None => {},
        }
        i = i + 1;
    }
    assert(views.take(i as int) =~= views);
    m
}

impl PeersFileController {
    pub fn new(file: &str) -> (r: PeersFileController)
        ensures
            r@ == (ControllerView { path: file@, changed: false }),
    {
        PeersFileController { file_path: file.to_owned(), is_changed: false }
    }

    pub fn file_path(&self) -> (r: &str)
        ensures
            r@ == self@.path,
    {
        self.file_path.as_str()
    }

    pub fn is_changed(&self) -> (r: bool)
        ensures
            r == self@.changed,
    {
        self.is_changed
    }

    /// Records that the mapping has changed since it was last saved.
    pub fn mark_changed(&mut self)
        ensures
            final(self)@ == (ControllerView { path: old(self)@.path, changed: true }),
    {
        self.is_changed = true;
    }

    /// Builds the mapping from the text of a peers file.
    pub fn parse_peer(data: String) -> (r: Result<PeerMap, PeersFileControllerError>)
        ensures
            match load_text_entries(data@) {
                Some(m) => r matches Ok(p) && p@ == m,
                None => r matches Err(PeersFileControllerError::Serialization(_)),
            },
    {
        match decode_string_list(data.as_str()) {
            Ok(items) => Ok(peers_from_strings(&items)),
            Err(e) => Err(PeersFileControllerError::Serialization(e)),
        }
    }

    /// Builds the mapping from what reading the peers file gave.
    pub fn load(read: Result<String, std::io::Error>) -> (r: Result<PeerMap, PeersFileControllerError>)
        ensures
            match read {
                Err(_) => r matches Err(PeersFileControllerError::Io(_)),
                Ok(data) => match load_text_entries(data@) {
                    Some(m) => r matches Ok(p) && p@ == m,
                    None => r matches Err(PeersFileControllerError::Serialization(_)),
                },
            },
    {
        match read {
            Ok(data) => Self::parse_peer(data),
            Err(e) => Err(PeersFileControllerError::Io(e)),
        }
    }

    /// The text to write to the peers file: `None` where nothing changed since
    /// the last save, else the JSON array of the addresses of `peers`.
    pub fn write_plan(&self, peers: &PeerMap) -> (r: Result<Option<String>, PeersFileControllerError>)
        ensures
            !self@.changed ==> r matches Ok(None),
            self@.changed ==> match json_of_strings(address_texts(peers@)) {
                Some(t) => r matches Ok(Some(s)) && s@ == t,
                None => r matches Err(PeersFileControllerError::Serialization(_)),
            },
    {
        if !self.is_changed {
            return Ok(None);
        }
        let keys = peers.keys();
        let mut texts: Vec<String> = Vec::new();
        let mut i: usize = 0;
        while i < keys.len()
            invariant
                i <= keys@.len(),
                keys@ == keys_of(peers@),
                string_views(texts@) == address_texts(peers@).take(i as int),
            decreases keys.len() - i,
        {
            let t = keys[i].to_text();
            proof {
                assert(string_views(texts@.push(t)) =~= string_views(texts@).push(t@));
                assert(address_texts(peers@).take(i + 1) =~= address_texts(peers@).take(i as int).push(t@));
            }
            texts.push(t);
            i = i + 1;
        }
        assert(address_texts(peers@).take(i as int) =~= address_texts(peers@));
        match encode_string_list(&texts) {
            Ok(t) => Ok(Some(t)),
            Err(e) => Err(PeersFileControllerError::Serialization(e)),
        }
    }

    /// Takes in how writing the peers file went: on success nothing is left
    /// to save; on failure the change stays recorded, so a later save retries.
    pub fn finish_write(&mut self, outcome: Result<(), std::io::Error>) -> (r: Result<(), PeersFileControllerError>)
        ensures
            outcome is Ok ==> r is Ok && final(self)@ == after_save(old(self)@),
            outcome is Err ==> (r matches Err(PeersFileControllerError::Io(_))),
            outcome is Err ==> final(self)@ == old(self)@,
    {
        match outcome {
            Ok(()) => {
                self.is_changed = false;
                Ok(())
            },
            Err(e) => Err(PeersFileControllerError::Io(e)),
        }
    }
}

/// Storing an entry keeps the addresses where the address is present, and
/// appends it where it is not.
proof fn lemma_insert_keys(m: Seq<EntryView>, a: IpAddress, v: Seq<char>)
    requires
        keys_of(m).no_duplicates(),
    ensures
        has_key(m, a) <==> keys_of(m).contains(a),
        has_key(m, a) ==> keys_of(insert_entry(m, a, v)) == keys_of(m),
        !has_key(m, a) ==> keys_of(insert_entry(m, a, v)) == keys_of(m).push(a),
        keys_of(insert_entry(m, a, v)).no_duplicates(),
{
    if has_key(m, a) {
        let k = key_pos(m, a);
        assert(keys_of(m)[k] == a);
        assert(keys_of(insert_entry(m, a, v)) =~= keys_of(m));
    } else {
        assert forall|j: int| 0 <= j < keys_of(m).len() implies keys_of(m)[j] != a by {
            assert(m[j].0 == keys_of(m)[j]);
        }
        assert(keys_of(insert_entry(m, a, v)) =~= keys_of(m).push(a));
    }
    if keys_of(m).contains(a) {
        let j = choose|j: int| 0 <= j < keys_of(m).len() && keys_of(m)[j] == a;
        assert(m[j].0 == a);
    }
}

/// A load keeps exactly the distinct addresses among the texts, once each;
/// texts that are no address are left out.
pub proof fn lemma_load_keys(items: Seq<Seq<char>>)
    ensures
        keys_of(load_entries(items)).no_duplicates(),
        forall|a: IpAddress|
            keys_of(load_entries(items)).contains(a) <==> exists|i: int|
                0 <= i < items.len() && #[trigger] address_of(items[i]) == Some(a),
    decreases items.len(),
{
    if items.len() > 0 {
        let p = items.drop_last();
        lemma_load_keys(p);
        let m = load_entries(p);
        let ks = keys_of(load_entries(items));
        match address_of(items.last()) {
            Some(b) => {
                lemma_insert_keys(m, b, items.last());
            },
            None => {},
        }
        let n = items.len() - 1;
        assert(items[n] == items.last());
        assert(load_entries(items) == match address_of(items.last()) {
            Some(b) => insert_entry(m, b, items.last()),
            None => m,
        });
        assert forall|a: IpAddress| ks.contains(a) <==> exists|i: int|
            0 <= i < items.len() && #[trigger] address_of(items[i]) == Some(a) by {
            let km = keys_of(m);
            // what was there stays
            if km.contains(a) {
                let j = choose|j: int| 0 <= j < km.len() && km[j] == a;
                if let Some(b) = address_of(items.last()) {
                    if !has_key(m, b) {
                        assert(ks[j] == a);
                    }
                }
                assert(ks.contains(a));
            }
            if let Some(b) = address_of(items.last()) {
                if !has_key(m, b) {
                    assert(ks[ks.len() - 1] == b);
                    if ks.contains(a) && a != b {
                        let j = choose|j: int| 0 <= j < ks.len() && ks[j] == a;
                        assert(km[j] == a);
                    }
                }
                assert(ks.contains(b));
            }
            if exists|i: int| 0 <= i < p.len() && #[trigger] address_of(p[i]) == Some(a) {
                let i = choose|i: int| 0 <= i < p.len() && #[trigger] address_of(p[i]) == Some(a);
                assert(items[i] == p[i]);
            }
            if exists|i: int| 0 <= i < items.len() && #[trigger] address_of(items[i]) == Some(a) {
                let i = choose|i: int| 0 <= i < items.len() && #[trigger] address_of(items[i]) == Some(a);
                if i < p.len() {
                    assert(items[i] == p[i]);
                } else {
                    assert(i == n);
                }
            }
            if ks.contains(a) && !km.contains(a) {
                assert(address_of(items[n]) == Some(a));
            }
        }
    } else {
        assert(keys_of(load_entries(items)) =~= Seq::<IpAddress>::empty());
    }
}

/// Loading the texts of the addresses of a mapping without repeated addresses
/// gives back those addresses, in the same order.
pub proof fn lemma_round_trip(m: Seq<EntryView>)
    requires
        keys_of(m).no_duplicates(),
    ensures
        keys_of(load_entries(address_texts(m))) == keys_of(m),
    decreases m.len(),
{
    if m.len() == 0 {
        assert(address_texts(m) =~= Seq::<Seq<char>>::empty());
        assert(keys_of(load_entries(address_texts(m))) =~= keys_of(m));
    } else {
        let p = m.drop_last();
        let a = m.last().0;
        assert(keys_of(p) =~= keys_of(m).drop_last());
        assert(address_texts(m).drop_last() =~= address_texts(p));
        lemma_round_trip(p);
        lemma_address_of_text(a);
        assert(address_texts(m).last() == ip_text(a));
        let lp = load_entries(address_texts(p));
        lemma_load_keys(address_texts(p));
        assert(!keys_of(p).contains(a)) by {
            if keys_of(p).contains(a) {
                let j = choose|j: int| 0 <= j < keys_of(p).len() && keys_of(p)[j] == a;
                assert(keys_of(m)[j] == keys_of(m)[m.len() - 1]);
            }
        }
        lemma_insert_keys(lp, a, ip_text(a));
        assert(keys_of(m) =~= keys_of(p).push(a));
    }
}

/// A successful save leaves nothing to write, so a second save in a row
/// writes nothing and changes nothing.
pub proof fn lemma_save_idempotent(v: ControllerView)
    ensures
        !after_save(v).changed,
        after_save(after_save(v)) == after_save(v),
        after_save(v).path == v.path,
{
}

} // verus!
