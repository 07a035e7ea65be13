//! The share registry: files an uploader tab has offered, keyed by a short id.

use crate::sanitize::{bare_mime, safe_name};
use crate::text::{chars_of, string_of};
use dashmap::mapref::entry::Entry;
use dashmap::DashMap;
use rand::Rng;
use vstd::prelude::*;

verus! {

/// The characters of an id: letters and digits, without the ambiguous
/// 0 and O, 1, l and I.
pub const ALPHABET: &'static str = "abcdefghijkmnopqrstuvwxyzABCDEFGHJKLMNPQRSTUVWXYZ23456789";

/// The length of an id.
pub const ID_LEN: usize = 8;

/// Whether `id` has the form of an id.
pub open spec fn valid_id(id: Seq<char>) -> bool {
    id.len() == ID_LEN && forall|i: int| 0 <= i < id.len() ==> ALPHABET@.contains(#[trigger] id[i])
}

/// A registered file.
pub struct Share {
    /// The name under which the file is handed out.
    pub name: String,
    /// Its MIME type.
    pub mime: String,
    /// Its size in bytes.
    pub size: u64,
    /// The connection of the tab that holds it.
    pub conn: u64,
}

/// What a `Share` says.
pub struct ShareView {
    pub name: Seq<char>,
    pub mime: Seq<char>,
    pub size: u64,
    pub conn: u64,
}

impl View for Share {
    type V = ShareView;

    open spec fn view(&self) -> ShareView {
        ShareView { name: self.name@, mime: self.mime@, size: self.size, conn: self.conn }
    }
}

impl Share {
    /// A copy of the share.
    pub fn copy(&self) -> (s: Share)
        ensures
            s@ == self@,
    {
        Share {
            name: self.name.clone(),
            mime: self.mime.clone(),
            size: self.size,
            conn: self.conn,
        }
    }
}

/// Whether a share may be handed out: its name and MIME type are fit for a header.
pub open spec fn clean_share(s: ShareView) -> bool {
    safe_name(s.name) && bare_mime(s.mime)
}

/// The empty registry.
pub open spec fn no_shares() -> Map<Seq<char>, ShareView> {
    Map::empty()
}

/// Whether every share in a registry has the form of an id for its key and may
/// be handed out.
pub open spec fn registry_wf(m: Map<Seq<char>, ShareView>) -> bool {
    forall|id: Seq<char>| #[trigger]
        m.contains_key(id) ==> valid_id(id) && clean_share(m[id])
}

/// `dashmap::DashMap`, a hash map.
#[verifier::external_type_specification]
#[verifier::external_body]
#[verifier::reject_recursive_types(K)]
#[verifier::reject_recursive_types(V)]
#[verifier::reject_recursive_types(S)]
pub struct ExDashMap<K, V, S>(dashmap::DashMap<K, V, S>);

/// The shares that a map of shares holds, by id.
pub uninterp spec fn registered(m: DashMap<String, Share>) -> Map<Seq<char>, ShareView>;

/// `DashMap::new`: a map that holds nothing.
#[verifier::external_body]
fn map_new() -> (m: DashMap<String, Share>)
    ensures
        registered(m) == no_shares(),
{
    DashMap::new()
}

/// `DashMap::entry`, and `VacantEntry::insert` where the entry is vacant: the
/// share is stored under an id that had none, and handed back otherwise.
/// The map is borrowed exclusively, so that no other thread reaches it meanwhile.
#[verifier::external_body]
fn map_insert_vacant(m: &mut DashMap<String, Share>, id: String, share: Share) -> (r: Result<
    (),
    Share,
>)
    ensures
        r is Ok <==> !registered(*old(m)).contains_key(id@),
        r is Ok ==> registered(*final(m)) == registered(*old(m)).insert(id@, share@),
        r is Err ==> registered(*final(m)) == registered(*old(m)),
        r matches Err(back) ==> back == share,
{
    match m.entry(id) {
        Entry::Vacant(slot) => {
            slot.insert(share);
            Ok(())
        },
        Entry::Occupied(_) => Err(share),
    }
}

/// `DashMap::get`: a copy of the share under `id`, where there is one.
#[verifier::external_body]
fn map_get(m: &DashMap<String, Share>, id: &str) -> (r: Option<Share>)
    ensures
        r is Some <==> registered(*m).contains_key(id@),
        r matches Some(share) ==> share@ == registered(*m)[id@],
{
    m.get(id).map(|share| share.copy())
}

/// `DashMap::remove`: takes out the share under `id`, where there is one.
/// The map is borrowed exclusively, so that no other thread reaches it meanwhile.
#[verifier::external_body]
fn map_remove(m: &mut DashMap<String, Share>, id: &str)
    ensures
        registered(*final(m)) == registered(*old(m)).remove(id@),
{
    m.remove(id);
}

/// `Rng::random_range` of the thread's generator, over `0 .. n`: some number
/// below `n`. The call panics on an empty range, which `requires` rules out.
#[verifier::external_body]
fn random_below(n: usize) -> (r: usize)
    requires
        n > 0,
    ensures
        r < n,
{
    rand::rng().random_range(0..n)
}

/// The registered shares, by id.
pub struct Registry {
    shares: DashMap<String, Share>,
}

impl View for Registry {
    type V = Map<Seq<char>, ShareView>;

    closed spec fn view(&self) -> Map<Seq<char>, ShareView> {
        registered(self.shares)
    }
}

impl Registry {
    /// A registry without shares.
    pub fn new() -> (r: Registry)
        ensures
            r@ == no_shares(),
    {
        Registry { shares: map_new() }
    }

    /// The share under `id`.
    pub fn find(&self, id: &str) -> (r: Option<Share>)
        ensures
            r is Some <==> self@.contains_key(id@),
            r matches Some(share) ==> share@ == self@[id@],
    {
        map_get(&self.shares, id)
    }

    /// Registers `share` under `id`, unless `id` is taken.
    pub fn claim(&mut self, id: String, share: Share) -> (r: Result<(), Share>)
        ensures
            r is Ok <==> !old(self)@.contains_key(id@),
            r is Ok ==> final(self)@ == old(self)@.insert(id@, share@),
            r is Err ==> final(self)@ == old(self)@,
            r matches Err(back) ==> back == share,
    {
        map_insert_vacant(&mut self.shares, id, share)
    }

    /// Takes the share under `id` out.
    pub fn remove(&mut self, id: &str)
        ensures
            final(self)@ == old(self)@.remove(id@),
    {
        map_remove(&mut self.shares, id);
    }
}

/// What the whole server shares: the registry, the memory budget and the count
/// of active downloads.
pub struct App {
    /// The registered shares.
    pub shares: Registry,
    /// Chunks that may be in memory over all downloads.
    pub budget_chunks: usize,
    /// Downloads that are being served now, over all connections.
    pub active_downloads: usize,
}

/// Whether `app` is a server that has just begun, with this budget.
pub open spec fn new_app(app: App, budget_chunks: usize) -> bool {
    &&& app.shares@ == no_shares()
    &&& app.budget_chunks == budget_chunks
    &&& app.active_downloads == 0
}

/// Law: a new server has no shares and no downloads, and the budget that it was
/// given.
pub proof fn law_servers_begin_empty(app: App, budget_chunks: usize, id: Seq<char>)
    requires
        new_app(app, budget_chunks),
    ensures
        !app.shares@.contains_key(id),
        registry_wf(app.shares@),
        app.budget_chunks == budget_chunks,
        app.active_downloads == 0,
{
}

impl App {
    /// A server without shares and downloads.
    pub fn new(budget_chunks: usize) -> (app: App)
        ensures
            app.shares@ == no_shares(),
            app.budget_chunks == budget_chunks,
            app.active_downloads == 0,
            new_app(app, budget_chunks),
    {
        App { shares: Registry::new(), budget_chunks, active_downloads: 0 }
    }
}

/// The id that the positions `draws` in the alphabet spell.
pub open spec fn spelled(draws: Seq<usize>) -> Seq<char> {
    draws.map_values(|d: usize| ALPHABET@[d as int])
}

/// Spells the id with its letters at the positions `draws` in the alphabet.
pub fn spell_id(draws: &Vec<usize>) -> (id: String)
    requires
        forall|i: int| 0 <= i < draws@.len() ==> #[trigger] draws@[i] < ALPHABET@.len(),
    ensures
        id@ == draws@.map_values(|d: usize| ALPHABET@[d as int]),
        id@ == spelled(draws@),
{
    let letters: Vec<char> = chars_of(ALPHABET);
    let mut id: Vec<char> = Vec::new();
    let mut i: usize = 0;
    while i < draws.len()
        invariant
            letters@ == ALPHABET@,
            i <= draws@.len(),
            forall|j: int| 0 <= j < draws@.len() ==> #[trigger] draws@[j] < ALPHABET@.len(),
            id@ == draws@.take(i as int).map_values(|d: usize| ALPHABET@[d as int]),
        decreases draws@.len() - i,
    {
        id.push(letters[draws[i]]);
        i = i + 1;
        assert(draws@.take(i as int).map_values(|d: usize| ALPHABET@[d as int]) =~= draws@.take(
            i - 1,
        ).map_values(|d: usize| ALPHABET@[d as int]).push(ALPHABET@[draws@[i - 1] as int]));
    }
    assert(draws@.take(draws@.len() as int) =~= draws@);
    string_of(&id)
}

/// Draws an id at random.
pub fn gen_id() -> (id: String)
    ensures
        valid_id(id@),
{
    proof {
        reveal_strlit("abcdefghijkmnopqrstuvwxyzABCDEFGHJKLMNPQRSTUVWXYZ23456789");
    }
    let letters: usize = chars_of(ALPHABET).len();
    let mut draws: Vec<usize> = Vec::new();
    while draws.len() < ID_LEN
        invariant
            letters == ALPHABET@.len(),
            letters > 0,
            draws@.len() <= ID_LEN,
            forall|j: int| 0 <= j < draws@.len() ==> #[trigger] draws@[j] < ALPHABET@.len(),
        decreases ID_LEN - draws@.len(),
    {
        draws.push(random_below(letters));
    }
    let id: String = spell_id(&draws);
    assert forall|i: int| 0 <= i < id@.len() implies ALPHABET@.contains(#[trigger] id@[i]) by {
        assert(id@[i] == ALPHABET@[draws@[i] as int]);
    }
    id
}

/// Whether some id is free.
pub open spec fn has_free_id(m: Map<Seq<char>, ShareView>) -> bool {
    exists|id: Seq<char>| valid_id(id) && !#[trigger] m.contains_key(id)
}

/// Looks for a free id among those that begin with `prefix`.
pub fn free_id(registry: &Registry, prefix: &mut Vec<char>) -> (r: Option<String>)
    requires
        old(prefix)@.len() <= ID_LEN,
        forall|i: int|
            0 <= i < old(prefix)@.len() ==> ALPHABET@.contains(#[trigger] old(prefix)@[i]),
    ensures
        final(prefix)@ == old(prefix)@,
        match r {
            Some(id) => {
                &&& valid_id(id@)
                &&& old(prefix)@.is_prefix_of(id@)
                &&& !registry@.contains_key(id@)
            },
            None => forall|id: Seq<char>|
                valid_id(id) && old(prefix)@.is_prefix_of(id) ==> #[trigger]
                    registry@.contains_key(id),
        },
    decreases ID_LEN - old(prefix)@.len(),
{
    let ghost start = prefix@;
    if prefix.len() == ID_LEN {
        let id: String = string_of(prefix);
        assert(id@.subrange(0, start.len() as int) =~= id@);
        return match registry.find(id.as_str()) {
            Some(_) => {
                assert forall|other: Seq<char>|
                    valid_id(other) && start.is_prefix_of(other) implies #[trigger]
                    registry@.contains_key(other) by {
                    assert(other.subrange(0, start.len() as int) =~= other);
                }
                None
            },
            None => Some(id),
        };
    }
    let letters: Vec<char> = chars_of(ALPHABET);
    let mut i: usize = 0;
    while i < letters.len()
        invariant
            letters@ == ALPHABET@,
            i <= letters@.len(),
            prefix@ == start,
            start.len() < ID_LEN,
            start == old(prefix)@,
            forall|j: int| 0 <= j < start.len() ==> ALPHABET@.contains(#[trigger] start[j]),
            forall|id: Seq<char>|
                valid_id(id) && start.is_prefix_of(id) && letters@.take(i as int).contains(
                    id[start.len() as int],
                ) ==> #[trigger] registry@.contains_key(id),
        decreases letters@.len() - i,
    {
        let letter: char = letters[i];
        prefix.push(letter);
        let ghost longer = prefix@;
        let found: Option<String> = free_id(registry, prefix);
        prefix.pop();
        assert(prefix@ =~= start);
        if found.is_some() {
            proof {
                let id = found->0@;
                assert(id.subrange(0, longer.len() as int) == longer);
                assert(id.subrange(0, start.len() as int) =~= start);
            }
            return found;
        }
        proof {
            assert forall|id: Seq<char>|
                valid_id(id) && start.is_prefix_of(id) && letters@.take(i + 1).contains(
                    id[start.len() as int],
                ) implies #[trigger] registry@.contains_key(id) by {
                let c = id[start.len() as int];
                if c == letter {
                    assert(id.subrange(0, start.len() as int) == start);
                    assert(id.subrange(0, longer.len() as int) =~= longer);
                    assert(longer.is_prefix_of(id));
                } else {
                    let seen = letters@.take(i + 1);
                    let k = choose|k: int| 0 <= k < seen.len() && seen[k] == c;
                    assert(letters@.take(i as int)[k] == c);
                }
            }
        }
        i = i + 1;
    }
    assert(letters@.take(letters@.len() as int) =~= ALPHABET@);
    None
}

/// Registers `share` under a fresh id, drawing again on the (astronomically
/// unlikely) collision, and at last looking for one. Without an id only where
/// every id is taken.
pub fn insert_share(app: &mut App, share: Share) -> (r: Option<String>)
    ensures
        match r {
            Some(id) => {
                &&& valid_id(id@)
                &&& !old(app).shares@.contains_key(id@)
                &&& final(app).shares@ == old(app).shares@.insert(id@, share@)
            },
            None => {
                &&& final(app).shares@ == old(app).shares@
                &&& !has_free_id(old(app).shares@)
            },
        },
        final(app).budget_chunks == old(app).budget_chunks,
        final(app).active_downloads == old(app).active_downloads,
{
    let mut held: Share = share;
    let mut left: u64 = u64::MAX;
    while left > 0
        invariant
            held@ == share@,
            app.shares@ == old(app).shares@,
            app.budget_chunks == old(app).budget_chunks,
            app.active_downloads == old(app).active_downloads,
        decreases left,
    {
        let id: String = gen_id();
        match app.shares.claim(id.clone(), held) {
            Ok(()) => {
                return Some(id);
            },
            Err(back) => {
                held = back;
                left = left - 1;
            },
        }
    }
    let mut prefix: Vec<char> = Vec::new();
    match free_id(&app.shares, &mut prefix) {
        Some(id) => match app.shares.claim(id.clone(), held) {
            Ok(()) => Some(id),
            Err(_) => None,
        },
        None => {
            assert forall|id: Seq<char>| valid_id(id) implies #[trigger]
                app.shares@.contains_key(id) by {
                assert(id.subrange(0, 0) =~= prefix@);
            }
            None
        },
    }
}

/// Law: an id has no character that can be taken for another one, and none
/// that means something in JSON, in a path or in a header.
pub proof fn law_ids_are_unambiguous(id: Seq<char>)
    requires
        valid_id(id),
    ensures
        id.len() == ID_LEN,
        forall|i: int|
            #![trigger id[i]]
            0 <= i < id.len() ==> {
                &&& id[i] != '0' && id[i] != 'O' && id[i] != '1' && id[i] != 'l' && id[i] != 'I'
                &&& 0x30 <= id[i] as u32 <= 0x39 || 0x41 <= id[i] as u32 <= 0x5a || 0x61
                    <= id[i] as u32
                    <= 0x7a
            },
{
    reveal_strlit("abcdefghijkmnopqrstuvwxyzABCDEFGHJKLMNPQRSTUVWXYZ23456789");
    assert forall|i: int| 0 <= i < id.len() implies {
        &&& id[i] != '0' && id[i] != 'O' && id[i] != '1' && id[i] != 'l' && id[i] != 'I'
        &&& 0x30 <= id[i] as u32 <= 0x39 || 0x41 <= id[i] as u32 <= 0x5a || 0x61 <= id[i] as u32
            <= 0x7a
    } by {
        assert(ALPHABET@.contains(#[trigger] id[i]));
        let k = choose|k: int| 0 <= k < ALPHABET@.len() && ALPHABET@[k] == id[i];
        assert(0 <= k < 57);
    }
}

/// Law: every draw of as many letters as an id has spells an id, letter by letter,
/// and every id can be drawn.
pub proof fn law_every_id_can_be_drawn(draws: Seq<usize>, id: Seq<char>, i: int)
    requires
        draws.len() == 8,
        forall|j: int| 0 <= j < draws.len() ==> #[trigger] draws[j] < 57,
    ensures
        valid_id(spelled(draws)),
        0 <= i < 8 ==> spelled(draws)[i]
            == "abcdefghijkmnopqrstuvwxyzABCDEFGHJKLMNPQRSTUVWXYZ23456789"@[draws[i] as int],
        valid_id(id) ==> exists|others: Seq<usize>|
            others.len() == 8 && #[trigger] spelled(others) == id,
{
    reveal_strlit("abcdefghijkmnopqrstuvwxyzABCDEFGHJKLMNPQRSTUVWXYZ23456789");
    assert forall|j: int| 0 <= j < 8 implies ALPHABET@.contains(#[trigger] spelled(draws)[j]) by {
        assert(spelled(draws)[j] == ALPHABET@[draws[j] as int]);
    }
    if valid_id(id) {
        let others = Seq::new(
            8,
            |j: int| (choose|k: int| 0 <= k < ALPHABET@.len() && ALPHABET@[k] == id[j]) as usize,
        );
        assert forall|j: int| 0 <= j < 8 implies #[trigger] spelled(others)[j] == id[j] by {
            assert(ALPHABET@.contains(id[j]));
            let k = choose|k: int| 0 <= k < ALPHABET@.len() && ALPHABET@[k] == id[j];
            assert(others[j] == k as usize);
        }
        assert(spelled(others) =~= id);
    }
}

} // verus!
