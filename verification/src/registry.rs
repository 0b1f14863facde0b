//! Which peers wait for which game: the table that a bootstrap server keeps.

use vstd::hash_map::StringHashMap;
use vstd::prelude::*;

verus! {

/// A peer that waits for a game.
#[derive(Debug)]
pub struct PeerEntry {
    /// The peer's identity as text.
    pub id: String,
    /// The peer's full address as text, if it sent one.
    pub addr: Option<String>,
    /// When the peer was last heard of, in nanoseconds of a steady clock.
    pub last_seen: u128,
}

/// Mathematical value of a [`PeerEntry`].
pub struct Entry {
    /// The peer's identity.
    pub id: Seq<char>,
    /// The peer's address.
    pub addr: Option<Seq<char>>,
    /// When the peer was last heard of.
    pub last_seen: u128,
}

impl View for PeerEntry {
    type V = Entry;

    open spec fn view(&self) -> Entry {
        Entry {
            id: self.id@,
            addr: match self.addr {
                Some(a) => Some(a@),
                None => None,
            },
            last_seen: self.last_seen,
        }
    }
}

impl Clone for PeerEntry {
    fn clone(&self) -> (copy: PeerEntry)
        ensures
            copy@ == self@,
    {
        PeerEntry {
            id: self.id.clone(),
            addr: match &self.addr {
                Some(a) => Some(a.clone()),
                None => None,
            },
            last_seen: self.last_seen,
        }
    }
}

/// Values of some entries.
pub open spec fn entries(v: Seq<PeerEntry>) -> Seq<Entry> {
    Seq::new(v.len(), |i: int| v[i]@)
}

/// The peers of one game.
struct Bucket {
    game: String,
    peers: Vec<PeerEntry>,
}

/// Peers by game. A game is found through an index, and games can be listed.
pub struct GameTable {
    index: StringHashMap<usize>,
    buckets: Vec<Bucket>,
}

impl GameTable {
    /// The index and the buckets agree.
    pub closed spec fn wf(self) -> bool {
        &&& forall|i: int|
            0 <= i < self.buckets@.len() ==> self.index@.contains_key(
                (#[trigger] self.buckets@[i]).game@,
            ) && self.index@[self.buckets@[i].game@] == i
        &&& forall|g: Seq<char>| #[trigger]
            self.index@.contains_key(g) ==> self.index@[g] < self.buckets@.len()
                && self.buckets@[self.index@[g] as int].game@ == g
        &&& self.index@.dom().finite()
        &&& self.index@.len() == self.buckets@.len()
    }
}

impl View for GameTable {
    type V = Map<Seq<char>, Seq<Entry>>;

    closed spec fn view(&self) -> Map<Seq<char>, Seq<Entry>> {
        Map::new(
            |g: Seq<char>| self.index@.contains_key(g),
            |g: Seq<char>| entries(self.buckets@[self.index@[g] as int].peers@),
        )
    }
}

impl GameTable {
    /// A table without games.
    pub fn new() -> (table: GameTable)
        ensures
            table.wf(),
            table@ == Map::<Seq<char>, Seq<Entry>>::empty(),
    {
        let table = GameTable { index: StringHashMap::new(), buckets: Vec::new() };
        assert(table@ =~= Map::<Seq<char>, Seq<Entry>>::empty());
        table
    }

    /// How many games there are.
    pub fn len(&self) -> (n: usize)
        requires
            self.wf(),
        ensures
            n == self@.len(),
            self@.dom().finite(),
    {
        assert(self@.dom() =~= self.index@.dom());
        self.buckets.len()
    }

    /// Whether a game is there.
    pub fn contains(&self, game: &str) -> (is: bool)
        requires
            self.wf(),
        ensures
            is == self@.contains_key(game@),
    {
        self.index.contains_key(game)
    }

    /// The peers of a game.
    pub fn get(&self, game: &str) -> (peers: Option<&Vec<PeerEntry>>)
        requires
            self.wf(),
        ensures
            match peers {
                Some(p) => self@.contains_key(game@) && entries(p@) == self@[game@],
                None => !self@.contains_key(game@),
            },
    {
        match self.index.get(game) {
            Some(i) => Some(&self.buckets[*i].peers),
            None => None,
        }
    }

    /// Sets the peers of a game.
    pub fn set(&mut self, game: &String, peers: Vec<PeerEntry>)
        requires
            old(self).wf(),
        ensures
            final(self).wf(),
            final(self)@ == old(self)@.insert(game@, entries(peers@)),
    {
        let found = match self.index.get(game.as_str()) {
            Some(i) => Some(*i),
            None => None,
        };
        match found {
            Some(i) => {
                self.buckets.set(i, Bucket { game: game.clone(), peers });
                assert forall|j: int| 0 <= j < self.buckets@.len() implies (
                #[trigger] self.buckets@[j]).game@ == old(self).buckets@[j].game@ by {}
                assert(self@ =~= old(self)@.insert(game@, entries(peers@)));
            },
            None => {
                let i: usize = self.buckets.len();
                self.index.insert(game.clone(), i);
                self.buckets.push(Bucket { game: game.clone(), peers });
                assert(self.index@.dom() =~= old(self).index@.dom().insert(game@));
                assert forall|j: int| 0 <= j < self.buckets@.len() implies self.index@.contains_key(
                    (#[trigger] self.buckets@[j]).game@,
                ) && self.index@[self.buckets@[j].game@] == j by {
                    if j < i {
                        assert(self.buckets@[j] == old(self).buckets@[j]);
                    }
                }
                assert(self@ =~= old(self)@.insert(game@, entries(peers@)));
            },
        }
    }

    /// Removes a game.
    pub fn remove(&mut self, game: &str)
        requires
            old(self).wf(),
        ensures
            final(self).wf(),
            final(self)@ == old(self)@.remove(game@),
    {
        let found = match self.index.get(game) {
            Some(i) => Some(*i),
            None => None,
        };
        match found {
            Some(i) => {
                let ghost last = self.buckets@.len() - 1;
                self.index.remove(game);
                self.buckets.swap_remove(i);
                let ghost removed = self.index@;
                assert(removed.dom() =~= old(self).index@.dom().remove(game@));
                if i < self.buckets.len() {
                    let moved = self.buckets[i].game.clone();
                    assert(old(self).index@[old(self).buckets@[last].game@] == last);
                    assert(moved@ == old(self).buckets@[last].game@);
                    assert(moved@ != game@);
                    self.index.insert(moved, i);
                    assert(self.index@.dom() =~= removed.dom());
                }
                assert forall|j: int| 0 <= j < self.buckets@.len() implies self.index@.contains_key(
                    (#[trigger] self.buckets@[j]).game@,
                ) && self.index@[self.buckets@[j].game@] == j by {
                    let k = if j == i {
                        last
                    } else {
                        j
                    };
                    assert(self.buckets@[j] == old(self).buckets@[k]);
                    assert(old(self).index@[old(self).buckets@[k].game@] == k);
                    assert(old(self).index@[game@] == i);
                    if j != i && i < self.buckets@.len() {
                        assert(old(self).index@[old(self).buckets@[last].game@] == last);
                        assert(old(self).buckets@[k].game@ != old(self).buckets@[last].game@);
                    }
                }
                assert forall|g: Seq<char>| #[trigger] self.index@.contains_key(g) implies
                    self.index@[g] < self.buckets@.len() && self.buckets@[self.index@[g] as int].game@
                    == g by {
                    assert(old(self).index@.contains_key(g));
                    assert(old(self).buckets@[old(self).index@[g] as int].game@ == g);
                }
                assert(self@ =~= old(self)@.remove(game@));
            },
            None => {
                assert(self@ =~= old(self)@.remove(game@));
            },
        }
    }

    /// The names of all games, each once.
    pub fn names(&self) -> (names: Vec<String>)
        requires
            self.wf(),
        ensures
            forall|i: int|
                0 <= i < names@.len() ==> self@.contains_key((#[trigger] names@[i])@),
            forall|i: int, j: int|
                0 <= i < j < names@.len() ==> (#[trigger] names@[i])@ != (#[trigger] names@[j])@,
            forall|g: Seq<char>| #[trigger]
                self@.contains_key(g) ==> exists|i: int|
                    0 <= i < names@.len() && (#[trigger] names@[i])@ == g,
    {
        let mut names: Vec<String> = Vec::new();
        let mut i: usize = 0;
        while i < self.buckets.len()
            invariant
                i <= self.buckets@.len(),
                names@.len() == i,
                forall|j: int|
                    0 <= j < i ==> (#[trigger] names@[j])@ == self.buckets@[j].game@,
            decreases self.buckets@.len() - i,
        {
            names.push(self.buckets[i].game.clone());
            i += 1;
        }
        assert forall|g: Seq<char>| #[trigger] self@.contains_key(g) implies exists|i: int|
            0 <= i < names@.len() && (#[trigger] names@[i])@ == g by {
            let k = self.index@[g] as int;
            assert(self.index@.contains_key(g));
            assert(names@[k]@ == g);
        }
        assert forall|i: int, j: int| 0 <= i < j < names@.len() implies (#[trigger] names@[i])@
            != (#[trigger] names@[j])@ by {
            assert(self.index@[self.buckets@[i].game@] == i);
            assert(self.index@[self.buckets@[j].game@] == j);
        }
        names
    }
}

} // verus!
