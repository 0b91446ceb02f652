//! The state that the connections of a broker share: the subscription
//! index, the sending sides of the connections, and the number that was
//! given to the newest connection.

use crate::server::client::{outbound_of, ClientMessageSender};
use crate::server::simple_sublist::SubListTrait;
use std::collections::HashMap;
use vstd::prelude::*;

verus! {

broadcast use vstd::std_specs::hash::group_hash_axioms;

/// The shared state of a broker.
pub struct ServerState<T: SubListTrait> {
    /// The sending sides of the connections, by connection number.
    pub clients: HashMap<u64, ClientMessageSender>,
    /// The subscription index.
    pub sublist: T,
    /// The number of the newest connection.
    pub gen_cid: u64,
}

impl<T: SubListTrait> ServerState<T> {
    /// The state of a broker without connections, over the index `sublist`.
    pub fn new(sublist: T) -> (state: Self)
        ensures
            state.sublist == sublist,
            state.gen_cid == 0,
            state.clients@ == Map::<u64, ClientMessageSender>::empty(),
    {
        ServerState { clients: HashMap::new(), sublist, gen_cid: 0 }
    }

    /// Takes a new connection in: it gets the next number, and an open
    /// sending side without bytes.
    pub fn new_client(&mut self) -> (cid: u64)
        requires
            old(self).gen_cid < u64::MAX,
        ensures
            cid == old(self).gen_cid + 1,
            final(self).gen_cid == cid,
            final(self).sublist == old(self).sublist,
            outbound_of(final(self).clients@) == outbound_of(old(self).clients@).insert(
                cid,
                Some(Seq::<u8>::empty()),
            ),
    {
        self.gen_cid = self.gen_cid + 1;
        let cid = self.gen_cid;
        self.clients.insert(cid, ClientMessageSender::new());
        assert(outbound_of(self.clients@) =~= outbound_of(old(self).clients@).insert(
            cid,
            Some(Seq::<u8>::empty()),
        ));
        cid
    }

    /// Hands out the bytes that wait to be written to the connection
    /// `cid`, and keeps none of them. A connection that is closed or not
    /// known has none.
    pub fn send_all(&mut self, cid: u64) -> (bytes: Vec<u8>)
        ensures
            final(self).gen_cid == old(self).gen_cid,
            final(self).sublist == old(self).sublist,
            bytes@ == if outbound_of(old(self).clients@).contains_key(cid) && outbound_of(
                old(self).clients@,
            )[cid] is Some {
                outbound_of(old(self).clients@)[cid]->Some_0
            } else {
                Seq::<u8>::empty()
            },
            outbound_of(final(self).clients@) == if outbound_of(old(self).clients@).contains_key(cid)
                && outbound_of(old(self).clients@)[cid] is Some {
                outbound_of(old(self).clients@).insert(cid, Some(Seq::<u8>::empty()))
            } else {
                outbound_of(old(self).clients@)
            },
    {
        let ghost before = self.clients@;
        match self.clients.remove(&cid) {
            Some(mut sender) => {
                assert(before.contains_key(cid) && before[cid] == sender);
                let bytes = sender.send_all();
                self.clients.insert(cid, sender);
                assert(outbound_of(self.clients@) =~= if outbound_of(before)[cid] is Some {
                    outbound_of(before).insert(cid, Some(Seq::<u8>::empty()))
                } else {
                    outbound_of(before)
                });
                bytes
            },
            None => {
                assert(self.clients@ =~= before);
                Vec::new()
            },
        }
    }

    /// Closes the sending side of the connection `cid`: the bytes that wait
    /// are dropped, and so is what is sent to it from now on.
    pub fn close(&mut self, cid: u64)
        ensures
            final(self).gen_cid == old(self).gen_cid,
            final(self).sublist == old(self).sublist,
            outbound_of(final(self).clients@) == if outbound_of(old(self).clients@).contains_key(cid) {
                outbound_of(old(self).clients@).insert(cid, None)
            } else {
                outbound_of(old(self).clients@)
            },
    {
        let ghost before = self.clients@;
        match self.clients.remove(&cid) {
            Some(mut sender) => {
                assert(before.contains_key(cid) && before[cid] == sender);
                sender.close();
                self.clients.insert(cid, sender);
                assert(outbound_of(self.clients@) =~= outbound_of(before).insert(cid, None));
            },
            None => {
                assert(self.clients@ =~= before);
            },
        }
    }
}

} // verus!
