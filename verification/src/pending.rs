//! The pending-request table of the HTTP bridge.
//!
//! Every accepted HTTP request registers a fresh request id against a
//! ticket standing for its single-shot response channel. The reader of
//! standard input looks responses up by id: a matching response claims
//! its ticket and unregisters the id, so each request is answered at most
//! once and no response reaches any other request.

use vstd::hash_map::StringHashMap;
use vstd::prelude::*;

verus! {

/// The rendezvous between request handlers and the response reader:
/// request id to response ticket.
pub struct PendingTable {
    entries: StringHashMap<u64>,
}

impl View for PendingTable {
    type V = Map<Seq<char>, u64>;

    closed spec fn view(&self) -> Map<Seq<char>, u64> {
        self.entries@
    }
}

impl PendingTable {
    /// An empty table.
    pub fn new() -> (r: PendingTable)
        ensures
            r@ == Map::<Seq<char>, u64>::empty(),
    {
        PendingTable { entries: StringHashMap::new() }
    }

    /// Register a request id against its response ticket. A reused id —
    /// the shell never produces one — would be re-pointed at the new
    /// ticket, exactly as the underlying map inserts.
    pub fn register(&mut self, id: String, ticket: u64)
        ensures
            final(self)@ == old(self)@.insert(id@, ticket),
    {
        self.entries.insert(id, ticket);
    }

    /// Whether a request id is still awaiting its response.
    pub fn is_pending(&self, id: &String) -> (r: bool)
        ensures
            r == self@.contains_key(id@),
    {
        self.entries.contains_key(id.as_str())
    }

    /// Claim the response ticket for `id`: exactly the registered ticket
    /// comes back, the id stops being pending, and every other pending
    /// request is untouched. An unknown id claims nothing and changes
    /// nothing.
    pub fn take(&mut self, id: &String) -> (r: Option<u64>)
        ensures
            old(self)@.contains_key(id@) ==> {
                &&& r == Some::<u64>(old(self)@[id@])
                &&& final(self)@ == old(self)@.remove(id@)
            },
            !old(self)@.contains_key(id@) ==> {
                &&& r == None::<u64>
                &&& final(self)@ == old(self)@
            },
    {
        let found = match self.entries.get(id.as_str()) {
            Some(t) => Some(*t),
            None => None,
        };
        match found {
            Some(t) => {
                self.entries.remove(id.as_str());
                Some(t)
            },
            None => None,
        }
    }

    /// How many requests are awaiting a response.
    pub fn len(&self) -> (r: usize)
        ensures
            r == self@.len(),
    {
        self.entries.len()
    }
}

/// Correlation law: claiming the response for one pending request
/// removes exactly that request — the claimed ticket is the one the
/// request registered, the id cannot be claimed again, and every other
/// pending request keeps its own ticket.
pub proof fn lemma_correlation(table: Map<Seq<char>, u64>, id: Seq<char>, other: Seq<char>)
    requires
        table.contains_key(id),
        table.contains_key(other),
        other != id,
    ensures
        !table.remove(id).contains_key(id),
        table.remove(id).contains_key(other),
        table.remove(id)[other] == table[other],
{
}

} // verus!
