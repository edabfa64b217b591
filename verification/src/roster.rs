//! Picking clients out of the records of all clients, in the order of their
//! numbers.

use std::collections::BTreeMap;

use vstd::prelude::*;
use vstd::std_specs::iter::IteratorSpec;

use crate::interop::ClientId;
use crate::interop::ClientServerState;
use crate::order::ascending;
use crate::order::is_ascending;
use crate::order::lemma_ascending_is;
use crate::order::lemma_increasing_is_ascending;

verus! {

broadcast use vstd::std_specs::btree::group_btree_axioms;

/// Which clients to pick.
#[derive(Clone, Copy, Debug, PartialEq, Eq)]
pub enum Pick {
    /// Those that have joined the given host.
    JoinedTo(ClientId),
    /// Those that have joined the given host, and the host itself.
    RaceOf(ClientId),
    /// Those that host a race.
    Hosting,
    /// Those that have a body.
    Embodied,
}

impl Pick {
    /// Whether the client with the given number and record is picked.
    pub open spec fn picks(self, id: ClientId, record: ClientServerState) -> bool {
        match self {
            Pick::JoinedTo(host) => record.joined == Some(host),
            Pick::RaceOf(host) => record.joined == Some(host) || id == host,
            Pick::Hosting => record.hosting_race,
            Pick::Embodied => record.baby is Some,
        }
    }

    /// The numbers of the clients that are picked among the given ones.
    pub open spec fn picked(self, clients: Map<ClientId, ClientServerState>) -> Set<ClientId> {
        Set::new(|id: ClientId| clients.contains_key(id) && self.picks(id, clients[id]))
    }

    /// Whether the client with the given number and record is picked.
    pub fn accepts(&self, id: ClientId, record: &ClientServerState) -> (r: bool)
        ensures
            r == self.picks(id, *record),
    {
        match self {
            Pick::JoinedTo(host) => match record.joined {
                Some(target) => target == *host,
                None => false,
            },
            Pick::RaceOf(host) => id == *host || match record.joined {
                Some(target) => target == *host,
                None => false,
            },
            Pick::Hosting => record.hosting_race,
            Pick::Embodied => record.baby.is_some(),
        }
    }

    /// The numbers of the clients that are picked among the given ones, in
    /// ascending order.
    pub fn among(&self, clients: &BTreeMap<ClientId, ClientServerState>) -> (ids: Vec<ClientId>)
        ensures
            ids@ == ascending(self.picked(clients@)),
            is_ascending(ids@),
            forall|id: ClientId| ids@.contains(id) <==> self.picked(clients@).contains(id),
    {
        let mut ids: Vec<ClientId> = Vec::new();
        let entries = clients.iter();
        let ghost all = entries.remaining();
        let ghost keys = all.map_values(|kv: (&ClientId, &ClientServerState)| *kv.0);
        let ghost records = clients@;
        proof {
            lemma_increasing_is_ascending(keys);
            assert forall|i: int, j: int| 0 <= i < j < all.len() implies *all[i].0 < *all[j].0 by {
                assert(keys[i] < keys[j]);
            }
        }
        for entry in it: entries
            invariant
                it.seq() == all,
                forall|i: int, j: int| 0 <= i < j < all.len() ==> *all[i].0 < *all[j].0,
                forall|i: int|
                    0 <= i < all.len() ==> records.contains_key(*(#[trigger] all[i]).0)
                        && records[*all[i].0] == *all[i].1,
                is_ascending(ids@),
                forall|i: int|
                    0 <= i < ids@.len() ==> records.contains_key(#[trigger] ids@[i]) && self.picks(
                        ids@[i],
                        records[ids@[i]],
                    ),
                forall|i: int|
                    #![auto]
                    0 <= i < ids@.len() && it.index() < all.len() ==> ids@[i] < *all[it.index()].0,
                forall|j: int|
                    0 <= j < it.index() && self.picks(*(#[trigger] all[j]).0, *all[j].1)
                        ==> ids@.contains(*all[j].0),
        {
            let (id, record) = entry;
            let ghost before = ids@;
            if self.accepts(*id, record) {
                ids.push(*id);
                proof {
                    assert forall|j: int|
                        0 <= j < it.index() + 1 && self.picks(
                            *(#[trigger] all[j]).0,
                            *all[j].1,
                        ) implies ids@.contains(*all[j].0) by {
                        if j < it.index() {
                            let w = choose|w: int| 0 <= w < before.len() && before[w] == *all[j].0;
                            assert(ids@[w] == *all[j].0);
                        } else {
                            assert(ids@[ids@.len() - 1] == *all[j].0);
                        }
                    }
                }
            }
        }
        proof {
            assert forall|id: ClientId|
                records.contains_key(id) && self.picks(id, records[id]) implies ids@.contains(
                id,
            ) by {
                let pair = (&id, &records[id]);
                assert(all.contains(pair));
                let j = choose|j: int| 0 <= j < all.len() && all[j] == pair;
                assert(self.picks(*all[j].0, *all[j].1));
            }
            lemma_ascending_is(ids@, self.picked(records));
        }
        ids
    }
}

} // verus!
