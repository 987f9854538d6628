//! The shared state as a mathematical value: a sequence of entries, one for
//! each registered client, in the order in which the clients were registered.
//! The three operations that the keeper performs on it are defined here, with
//! the facts that make the sequence behave as a mapping from address to
//! number.

use crate::client_message::EntryView;
use vstd::prelude::*;

verus! {

/// No address occurs in two entries.
pub open spec fn distinct(roster: Seq<EntryView>) -> bool {
    forall|i: int, j: int|
        0 <= i < j < roster.len() ==> (#[trigger] roster[i]).address != (
        #[trigger] roster[j]).address
}

/// Some entry belongs to `address`.
pub open spec fn registered(roster: Seq<EntryView>, address: Seq<char>) -> bool {
    exists|i: int| 0 <= i < roster.len() && (#[trigger] roster[i]).address == address
}

/// Where the entry of `address` stands, if it is registered.
pub open spec fn position(roster: Seq<EntryView>, address: Seq<char>) -> int {
    choose|i: int| 0 <= i < roster.len() && (#[trigger] roster[i]).address == address
}

/// The number that `address` holds, if it is registered.
pub open spec fn number_of(roster: Seq<EntryView>, address: Seq<char>) -> Option<i64> {
    if registered(roster, address) {
        Some(roster[position(roster, address)].number)
    } else {
        None
    }
}

/// The roster once `address` has asked to be registered: a newcomer is put
/// at the end with the number 0, and a request from an address that is
/// registered already changes nothing.
pub open spec fn enrolled(roster: Seq<EntryView>, address: Seq<char>) -> Seq<EntryView> {
    if registered(roster, address) {
        roster
    } else {
        roster.push(EntryView { address, number: 0 })
    }
}

/// The roster once `address` has left: its entry is taken out, and an address
/// that is not registered leaves nothing behind to take out.
pub open spec fn withdrawn(roster: Seq<EntryView>, address: Seq<char>) -> Seq<EntryView> {
    if registered(roster, address) {
        roster.remove(position(roster, address))
    } else {
        roster
    }
}

/// The roster once `address` has set its number to `number`.  An address
/// that is not registered sets nothing.
pub open spec fn assigned(roster: Seq<EntryView>, address: Seq<char>, number: i64) -> Seq<
    EntryView,
> {
    if registered(roster, address) {
        roster.update(position(roster, address), EntryView { address, number })
    } else {
        roster
    }
}

/// In a roster without repeated addresses, an entry is found where it stands.
pub proof fn lemma_found(roster: Seq<EntryView>, address: Seq<char>, i: int)
    requires
        distinct(roster),
        0 <= i < roster.len(),
        roster[i].address == address,
    ensures
        registered(roster, address),
        position(roster, address) == i,
        number_of(roster, address) == Some(roster[i].number),
{
    let p = position(roster, address);
    assert(0 <= p < roster.len() && roster[p].address == address);
    if p < i {
        assert(roster[p].address != roster[i].address);
    } else if i < p {
        assert(roster[i].address != roster[p].address);
    }
}

/// Looking one entry further finds what was found before, and the owner of
/// that entry.
pub proof fn lemma_registered_take(roster: Seq<EntryView>, i: int, address: Seq<char>)
    requires
        0 <= i < roster.len(),
    ensures
        registered(roster.take(i + 1), address) <==> registered(roster.take(i), address)
            || roster[i].address == address,
{
    let short = roster.take(i);
    let long = roster.take(i + 1);
    if registered(short, address) {
        let k = position(short, address);
        assert(long[k] == short[k]);
    }
    if roster[i].address == address {
        assert(long[i] == roster[i]);
    }
    if registered(long, address) && roster[i].address != address {
        let k = position(long, address);
        assert(short[k] == long[k]);
    }
}

/// A sequence with one more item at its end holds what it held, and that
/// item.
pub proof fn lemma_push_contains<A>(s: Seq<A>, last: A, item: A)
    ensures
        s.push(last).contains(item) <==> s.contains(item) || item == last,
{
    if s.contains(item) {
        let k = choose|k: int| 0 <= k < s.len() && s[k] == item;
        assert(s.push(last)[k] == item);
    }
    assert(s.push(last)[s.len() as int] == last);
}

/// A sequence without repeats stays so when an item that it lacks is put at
/// its end.
pub proof fn lemma_push_no_duplicates<A>(s: Seq<A>, last: A)
    requires
        s.no_duplicates(),
        !s.contains(last),
    ensures
        s.push(last).no_duplicates(),
{
    let t = s.push(last);
    assert forall|i: int, j: int| 0 <= i < t.len() && 0 <= j < t.len() && i != j implies t[i]
        != t[j] by {
        if i < s.len() && j < s.len() {
        } else if i < s.len() {
            assert(s.contains(t[i]));
        } else {
            assert(s.contains(t[j]));
        }
    }
}

/// Registering keeps addresses apart, gives a newcomer the number 0 and
/// leaves every other client as it was.
pub proof fn lemma_enrolled(roster: Seq<EntryView>, address: Seq<char>, other: Seq<char>)
    requires
        distinct(roster),
    ensures
        distinct(enrolled(roster, address)),
        registered(enrolled(roster, address), address),
        number_of(enrolled(roster, address), other) == if other == address && !registered(
            roster,
            address,
        ) {
            Some(0i64)
        } else {
            number_of(roster, other)
        },
{
    let after = enrolled(roster, address);
    if registered(roster, address) {
    } else {
        let last = roster.len() as int;
        assert forall|i: int, j: int| 0 <= i < j < after.len() implies (#[trigger] after[i]).address
            != (#[trigger] after[j]).address by {
            if j == last {
                assert(after[i] == roster[i]);
            } else {
                assert(after[i] == roster[i] && after[j] == roster[j]);
            }
        }
        assert(after[last].address == address);
        lemma_found(after, address, last);
        if other != address {
            if registered(roster, other) {
                let p = position(roster, other);
                assert(after[p] == roster[p]);
                lemma_found(after, other, p);
            } else {
                if registered(after, other) {
                    let q = position(after, other);
                    assert(q < last);
                    assert(roster[q] == after[q]);
                }
            }
        }
    }
}

/// Leaving keeps addresses apart, removes the one who left and leaves every
/// other client as it was.
pub proof fn lemma_withdrawn(roster: Seq<EntryView>, address: Seq<char>, other: Seq<char>)
    requires
        distinct(roster),
    ensures
        distinct(withdrawn(roster, address)),
        !registered(withdrawn(roster, address), address),
        number_of(withdrawn(roster, address), other) == if other == address {
            None
        } else {
            number_of(roster, other)
        },
{
    let after = withdrawn(roster, address);
    if registered(roster, address) {
        let p = position(roster, address);
        assert forall|k: int| 0 <= k < after.len() implies #[trigger] after[k] == roster[if k
            < p {
            k
        } else {
            k + 1
        }] by {}
        assert forall|i: int, j: int| 0 <= i < j < after.len() implies (#[trigger] after[i]).address
            != (#[trigger] after[j]).address by {
            let i0 = if i < p {
                i
            } else {
                i + 1
            };
            let j0 = if j < p {
                j
            } else {
                j + 1
            };
            assert(after[i] == roster[i0] && after[j] == roster[j0]);
            assert(roster[i0].address != roster[j0].address);
        }
        if registered(after, address) {
            let q = position(after, address);
            let q0 = if q < p {
                q
            } else {
                q + 1
            };
            assert(after[q] == roster[q0]);
            lemma_found(roster, address, q0);
        }
        if other != address {
            if registered(roster, other) {
                let r = position(roster, other);
                let r1 = if r < p {
                    r
                } else {
                    r - 1
                };
                assert(after[r1] == roster[r]);
                lemma_found(after, other, r1);
            } else {
                if registered(after, other) {
                    let q = position(after, other);
                    let q0 = if q < p {
                        q
                    } else {
                        q + 1
                    };
                    assert(after[q] == roster[q0]);
                }
            }
        }
    }
}

/// Setting a number keeps addresses apart, gives a registered client the new
/// number and leaves every other client as it was.
pub proof fn lemma_assigned(
    roster: Seq<EntryView>,
    address: Seq<char>,
    number: i64,
    other: Seq<char>,
)
    requires
        distinct(roster),
    ensures
        distinct(assigned(roster, address, number)),
        assigned(roster, address, number).len() == roster.len(),
        number_of(assigned(roster, address, number), other) == if other == address && registered(
            roster,
            address,
        ) {
            Some(number)
        } else {
            number_of(roster, other)
        },
{
    let after = assigned(roster, address, number);
    if registered(roster, address) {
        let p = position(roster, address);
        assert forall|k: int| 0 <= k < after.len() implies (#[trigger] after[k]).address
            == roster[k].address by {}
        assert forall|i: int, j: int| 0 <= i < j < after.len() implies (#[trigger] after[i]).address
            != (#[trigger] after[j]).address by {
            assert(roster[i].address != roster[j].address);
        }
        lemma_found(after, address, p);
        if other != address {
            if registered(roster, other) {
                let r = position(roster, other);
                assert(after[r] == roster[r]);
                lemma_found(after, other, r);
            } else {
                if registered(after, other) {
                    let q = position(after, other);
                    assert(roster[q].address == other);
                }
            }
        }
    }
}

} // verus!
