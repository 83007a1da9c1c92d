//! The supply of tokens: the sum of the balances of all actors.

use vstd::prelude::*;
use crate::actor::{ActorID, ActorModel};

verus! {

/// The sum of the balances of the records.
pub open spec fn total(records: Map<ActorID, ActorModel>) -> int
    decreases records.dom().len(),
    when records.dom().finite()
{
    if records.dom().len() == 0 {
        0
    } else {
        let id = records.dom().choose();
        records[id].balance() + total(records.remove(id))
    }
}

/// The sum can be taken apart at any record.
pub proof fn lemma_total_split(records: Map<ActorID, ActorModel>, id: ActorID)
    requires
        records.dom().finite(),
        records.contains_key(id),
    ensures
        total(records) == records[id].balance() + total(records.remove(id)),
    decreases records.dom().len(),
{
    let first = records.dom().choose();
    if first != id {
        lemma_total_split(records.remove(first), id);
        lemma_total_split(records.remove(id), first);
        assert(records.remove(first).remove(id) =~= records.remove(id).remove(first));
    }
}

/// Replacing one record changes the sum by the change of its balance.
pub proof fn lemma_total_update(records: Map<ActorID, ActorModel>, id: ActorID, record: ActorModel)
    requires
        records.dom().finite(),
        records.contains_key(id),
    ensures
        total(records.insert(id, record)) == total(records) - records[id].balance()
            + record.balance(),
{
    lemma_total_split(records, id);
    lemma_total_split(records.insert(id, record), id);
    assert(records.insert(id, record).remove(id) =~= records.remove(id));
}

/// Moving an amount from one record to another leaves the sum as it is.
pub proof fn lemma_total_moved(
    before: Map<ActorID, ActorModel>,
    after: Map<ActorID, ActorModel>,
    from: ActorID,
    to: ActorID,
    value: int,
)
    requires
        before.dom().finite(),
        from != to,
        before.contains_key(from),
        before.contains_key(to),
        after.contains_key(from),
        after.contains_key(to),
        after[from].balance() == before[from].balance() - value,
        after[to].balance() == before[to].balance() + value,
        forall|id: ActorID|
            id != from && id != to ==> before.contains_key(id) == after.contains_key(id),
        forall|id: ActorID|
            id != from && id != to && before.contains_key(id) ==> after[id] == before[id],
    ensures
        total(after) == total(before),
{
    let mid = before.insert(from, after[from]);
    lemma_total_update(before, from, after[from]);
    lemma_total_update(mid, to, after[to]);
    assert(mid.insert(to, after[to]) =~= after);
}

/// A sum of balances that are not negative is not negative.
pub proof fn lemma_total_not_negative(records: Map<ActorID, ActorModel>)
    requires
        records.dom().finite(),
        forall|id: ActorID| records.contains_key(id) ==> (#[trigger] records[id]).balance() >= 0,
    ensures
        total(records) >= 0,
    decreases records.dom().len(),
{
    if records.dom().len() > 0 {
        let id = records.dom().choose();
        lemma_total_not_negative(records.remove(id));
    }
}

} // verus!
