//! Registry of edge servers with live connection counters: least-loaded
//! selection, release, and reload from configuration.

use vstd::prelude::*;
use vstd::multiset::Multiset;
use crate::configdb::{Edge, EdgeView};
use crate::text::str_eq;

verus! {

/// One registry entry as plain values: the number of connections assigned to
/// the edge, and its descriptor.
pub struct SlotView {
    pub assigned: nat,
    pub edge: EdgeView,
}

/// The registry: `(assigned, edge)` pairs.
pub struct EdgeServers {
    pub list: Vec<(u64, Edge)>,
}

/// The entries of a list as plain values.
pub open spec fn slots(list: Seq<(u64, Edge)>) -> Seq<SlotView> {
    list.map_values(|e: (u64, Edge)| SlotView { assigned: e.0 as nat, edge: e.1@ })
}

impl View for EdgeServers {
    type V = Seq<SlotView>;

    open spec fn view(&self) -> Seq<SlotView> {
        slots(self.list@)
    }
}

/// Ascending by counter.
pub open spec fn sorted(s: Seq<SlotView>) -> bool {
    forall|i: int, j: int| 0 <= i <= j < s.len() ==> s[i].assigned <= s[j].assigned
}

/// The entries of `s` whose counter is `k`, in their order.
pub open spec fn with_assigned(s: Seq<SlotView>, k: nat) -> Seq<SlotView> {
    s.filter(|e: SlotView| e.assigned == k)
}

/// `out` holds the entries of `s` in ascending order of their counters, and
/// entries with equal counters in the order they have in `s`.
pub open spec fn is_stable_sort_of(out: Seq<SlotView>, s: Seq<SlotView>) -> bool {
    &&& sorted(out)
    &&& forall|k: nat| #[trigger] with_assigned(out, k) == with_assigned(s, k)
}

/// `s`, which is sorted, with `e` put behind the last entry whose counter is
/// not greater than that of `e`.
pub open spec fn insert_sorted(s: Seq<SlotView>, e: SlotView) -> Seq<SlotView>
    decreases s.len(),
{
    if s.len() == 0 || s.last().assigned <= e.assigned {
        s.push(e)
    } else {
        insert_sorted(s.drop_last(), e).push(s.last())
    }
}

/// The stable sort of `s` by counter, built by putting one entry after the
/// other in its place. `lemma_stable_sort` says what it is, and
/// `lemma_stable_sort_unique` that nothing else is.
pub open spec fn stable_sort(s: Seq<SlotView>) -> Seq<SlotView>
    decreases s.len(),
{
    if s.len() == 0 {
        s
    } else {
        insert_sorted(stable_sort(s.drop_last()), s.last())
    }
}

/// Index of the first entry that has the least counter; 0 for the empty list.
pub open spec fn least_index(s: Seq<SlotView>) -> int
    decreases s.len(),
{
    if s.len() <= 1 {
        0
    } else {
        let r = least_index(s.drop_last());
        if s.last().assigned < s[r].assigned {
            s.len() - 1
        } else {
            r
        }
    }
}

/// The entry `e` with one more connection assigned.
pub open spec fn taken(e: SlotView) -> SlotView {
    SlotView { assigned: e.assigned + 1, edge: e.edge }
}

/// The registry after a selection: sorted, with the first entry taken.
pub open spec fn select(s: Seq<SlotView>) -> Seq<SlotView> {
    if s.len() == 0 {
        s
    } else {
        stable_sort(s).update(0, taken(stable_sort(s)[0]))
    }
}

/// Index of the first entry for the address `destination`, or the length.
pub open spec fn first_at_address(s: Seq<SlotView>, destination: Seq<char>) -> int
    decreases s.len(),
{
    if s.len() == 0 || s[0].edge.destination == destination {
        0
    } else {
        1 + first_at_address(s.drop_first(), destination)
    }
}

/// The registry after a release for `destination`: the first entry with that
/// address has one connection less, unless it has none or there is no such
/// entry.
pub open spec fn release(s: Seq<SlotView>, destination: Seq<char>) -> Seq<SlotView> {
    let i = first_at_address(s, destination);
    if 0 <= i < s.len() && s[i].assigned > 0 {
        s.update(i, SlotView { assigned: (s[i].assigned - 1) as nat, edge: s[i].edge })
    } else {
        s
    }
}

/// Whether `e` is the entry for the address and port of `edge`.
pub open spec fn same_endpoint(e: EdgeView, edge: EdgeView) -> bool {
    e.destination == edge.destination && e.destination_port == edge.destination_port
}

/// Index of the first entry for the address and port of `edge`, or the
/// length.
pub open spec fn first_at_endpoint(s: Seq<SlotView>, edge: EdgeView) -> int
    decreases s.len(),
{
    if s.len() == 0 || same_endpoint(s[0].edge, edge) {
        0
    } else {
        1 + first_at_endpoint(s.drop_first(), edge)
    }
}

/// The registry after loading one descriptor: it replaces the descriptor of
/// the first entry for its address and port, whose counter stays; without
/// such an entry it is added at the end with no connection assigned.
pub open spec fn upsert(s: Seq<SlotView>, edge: EdgeView) -> Seq<SlotView> {
    let i = first_at_endpoint(s, edge);
    if 0 <= i < s.len() {
        s.update(i, SlotView { assigned: s[i].assigned, edge })
    } else {
        s.push(SlotView { assigned: 0, edge })
    }
}

/// The registry after loading `edges` one after the other.
pub open spec fn reload(s: Seq<SlotView>, edges: Seq<EdgeView>) -> Seq<SlotView>
    decreases edges.len(),
{
    if edges.len() == 0 {
        s
    } else {
        upsert(reload(s, edges.drop_last()), edges.last())
    }
}

/// `first_at_address` is the least index of an entry with the address.
pub proof fn lemma_first_at_address(s: Seq<SlotView>, destination: Seq<char>)
    ensures
        0 <= first_at_address(s, destination) <= s.len(),
        forall|j: int|
            0 <= j < first_at_address(s, destination) ==> (#[trigger] s[j]).edge.destination
                != destination,
        first_at_address(s, destination) < s.len() ==> s[first_at_address(
            s,
            destination,
        )].edge.destination == destination,
    decreases s.len(),
{
    if s.len() > 0 && s[0].edge.destination != destination {
        let t = s.drop_first();
        lemma_first_at_address(t, destination);
        assert forall|j: int| 0 <= j < first_at_address(s, destination) implies (
        #[trigger] s[j]).edge.destination != destination by {
            if j > 0 {
                assert(s[j] == t[j - 1]);
            }
        }
    }
}

/// An index with the address, with none before it, is the first.
pub proof fn lemma_first_at_address_is(s: Seq<SlotView>, destination: Seq<char>, i: int)
    requires
        0 <= i <= s.len(),
        forall|j: int| 0 <= j < i ==> (#[trigger] s[j]).edge.destination != destination,
        i < s.len() ==> s[i].edge.destination == destination,
    ensures
        first_at_address(s, destination) == i,
{
    lemma_first_at_address(s, destination);
}

/// `first_at_endpoint` is the least index of an entry with the endpoint.
pub proof fn lemma_first_at_endpoint(s: Seq<SlotView>, edge: EdgeView)
    ensures
        0 <= first_at_endpoint(s, edge) <= s.len(),
        forall|j: int|
            0 <= j < first_at_endpoint(s, edge) ==> !same_endpoint((#[trigger] s[j]).edge, edge),
        first_at_endpoint(s, edge) < s.len() ==> same_endpoint(
            s[first_at_endpoint(s, edge)].edge,
            edge,
        ),
    decreases s.len(),
{
    if s.len() > 0 && !same_endpoint(s[0].edge, edge) {
        let t = s.drop_first();
        lemma_first_at_endpoint(t, edge);
        assert forall|j: int| 0 <= j < first_at_endpoint(s, edge) implies !same_endpoint(
            (#[trigger] s[j]).edge,
            edge,
        ) by {
            if j > 0 {
                assert(s[j] == t[j - 1]);
            }
        }
    }
}

/// An index with the endpoint, with none before it, is the first.
pub proof fn lemma_first_at_endpoint_is(s: Seq<SlotView>, edge: EdgeView, i: int)
    requires
        0 <= i <= s.len(),
        forall|j: int| 0 <= j < i ==> !same_endpoint((#[trigger] s[j]).edge, edge),
        i < s.len() ==> same_endpoint(s[i].edge, edge),
    ensures
        first_at_endpoint(s, edge) == i,
{
    lemma_first_at_endpoint(s, edge);
}

/// Where `insert_sorted` puts the new entry: at `p`, if every entry from `p`
/// on has a greater counter and the one before `p` has not.
pub proof fn lemma_insert_sorted_at(s: Seq<SlotView>, e: SlotView, p: int)
    requires
        0 <= p <= s.len(),
        forall|j: int| p <= j < s.len() ==> (#[trigger] s[j]).assigned > e.assigned,
        p > 0 ==> s[p - 1].assigned <= e.assigned,
    ensures
        insert_sorted(s, e) == s.subrange(0, p).push(e) + s.subrange(p, s.len() as int),
    decreases s.len() - p,
{
    if p < s.len() {
        lemma_insert_sorted_at(s.drop_last(), e, p);
    }
}

/// What `insert_sorted` keeps: the length grows by one, a sorted list stays
/// sorted, the first entry is the lesser of the old first and the new one,
/// and among the entries of one counter the new one comes last.
pub proof fn lemma_insert_sorted(s: Seq<SlotView>, e: SlotView)
    ensures
        insert_sorted(s, e).len() == s.len() + 1,
        forall|i: int|
            0 <= i < insert_sorted(s, e).len() ==> (#[trigger] insert_sorted(s, e)[i]) == e
                || s.contains(insert_sorted(s, e)[i]),
        sorted(s) ==> sorted(insert_sorted(s, e)),
        sorted(s) ==> insert_sorted(s, e)[0] == (if s.len() > 0 && s[0].assigned <= e.assigned {
            s[0]
        } else {
            e
        }),
        forall|k: nat| #[trigger]
            with_assigned(insert_sorted(s, e), k) == (if e.assigned == k {
                with_assigned(s, k).push(e)
            } else {
                with_assigned(s, k)
            }),
    decreases s.len(),
{
    let r = insert_sorted(s, e);
    if s.len() == 0 || s.last().assigned <= e.assigned {
        assert forall|k: nat| #[trigger]
            with_assigned(r, k) == (if e.assigned == k {
                with_assigned(s, k).push(e)
            } else {
                with_assigned(s, k)
            }) by {
            s.lemma_filter_push(e, |x: SlotView| x.assigned == k);
        }
    } else {
        let t = s.drop_last();
        let x = s.last();
        let q = insert_sorted(t, e);
        lemma_insert_sorted(t, e);
        assert(s =~= t.push(x));
        assert forall|i: int| 0 <= i < r.len() implies (#[trigger] r[i]) == e || s.contains(
            r[i],
        ) by {
            if i < q.len() && q[i] != e {
                assert(t.contains(q[i]));
            }
        }
        if sorted(s) {
            assert(sorted(t));
            assert forall|i: int, j: int| 0 <= i <= j < r.len() implies r[i].assigned
                <= r[j].assigned by {
                if i < q.len() && j == q.len() && q[i] != e {
                    assert(t.contains(q[i]));
                }
            }
        }
        assert forall|k: nat| #[trigger]
            with_assigned(r, k) == (if e.assigned == k {
                with_assigned(s, k).push(e)
            } else {
                with_assigned(s, k)
            }) by {
            let pred = |y: SlotView| y.assigned == k;
            q.lemma_filter_push(x, pred);
            t.lemma_filter_push(x, pred);
            assert(with_assigned(q, k) == (if e.assigned == k {
                with_assigned(t, k).push(e)
            } else {
                with_assigned(t, k)
            }));
        }
    }
}

/// What `stable_sort` is: the entries of `s`, as many as before, in ascending
/// order of their counters, those of equal counter in the order they had.
pub proof fn lemma_stable_sort(s: Seq<SlotView>)
    ensures
        stable_sort(s).len() == s.len(),
        is_stable_sort_of(stable_sort(s), s),
    decreases s.len(),
{
    if s.len() > 0 {
        let t = s.drop_last();
        let x = s.last();
        lemma_stable_sort(t);
        lemma_insert_sorted(stable_sort(t), x);
        assert(s =~= t.push(x));
        assert forall|k: nat| #[trigger]
            with_assigned(stable_sort(s), k) == with_assigned(s, k) by {
            t.lemma_filter_push(x, |y: SlotView| y.assigned == k);
        }
    }
}

/// There is one stable sort only: two lists that are both a stable sort of
/// `s` are the same list.
pub proof fn lemma_stable_sort_unique(a: Seq<SlotView>, b: Seq<SlotView>, s: Seq<SlotView>)
    requires
        is_stable_sort_of(a, s),
        is_stable_sort_of(b, s),
    ensures
        a == b,
    decreases a.len(),
{
    if a.len() == 0 || b.len() == 0 {
        let c = if a.len() == 0 {
            b
        } else {
            a
        };
        if c.len() > 0 {
            let k = c[0].assigned;
            c.lemma_filter_contains(|e: SlotView| e.assigned == k, 0);
            assert(with_assigned(a, k) == with_assigned(s, k));
            assert(with_assigned(b, k) == with_assigned(s, k));
        }
    } else {
        let x = a.last();
        let y = b.last();
        let ta = a.drop_last();
        let tb = b.drop_last();
        assert(a =~= ta.push(x));
        assert(b =~= tb.push(y));
        let px = |e: SlotView| e.assigned == x.assigned;
        let py = |e: SlotView| e.assigned == y.assigned;
        assert(with_assigned(a, x.assigned) == with_assigned(s, x.assigned));
        assert(with_assigned(b, x.assigned) == with_assigned(s, x.assigned));
        assert(with_assigned(a, y.assigned) == with_assigned(s, y.assigned));
        assert(with_assigned(b, y.assigned) == with_assigned(s, y.assigned));
        b.lemma_filter_contains_rev(px, x);
        a.lemma_filter_contains_rev(py, y);
        ta.lemma_filter_push(x, px);
        tb.lemma_filter_push(y, px);
        assert(with_assigned(tb, x.assigned).push(y).last() == y);
        assert(with_assigned(tb, x.assigned) =~= with_assigned(tb, x.assigned).push(y).drop_last());
        assert forall|k: nat| #[trigger] with_assigned(ta, k) == with_assigned(tb, k) by {
            let pk = |e: SlotView| e.assigned == k;
            assert(with_assigned(a, k) == with_assigned(s, k));
            assert(with_assigned(b, k) == with_assigned(s, k));
            if k != x.assigned {
                ta.lemma_filter_push(x, pk);
                tb.lemma_filter_push(y, pk);
            }
        }
        assert(sorted(ta));
        assert(sorted(tb));
        lemma_stable_sort_unique(ta, tb, tb);
    }
}

/// Whether `i` is the index of the first entry of `s` that has the least
/// counter: no entry undercuts it, and every entry before it exceeds it.
pub open spec fn first_least(s: Seq<SlotView>, i: int) -> bool {
    &&& 0 <= i < s.len()
    &&& forall|j: int| 0 <= j < s.len() ==> s[i].assigned <= (#[trigger] s[j]).assigned
    &&& forall|j: int| 0 <= j < i ==> s[i].assigned < (#[trigger] s[j]).assigned
}

/// What `least_index` is.
pub proof fn lemma_least_index(s: Seq<SlotView>)
    requires
        s.len() > 0,
    ensures
        first_least(s, least_index(s)),
    decreases s.len(),
{
    if s.len() > 1 {
        let t = s.drop_last();
        lemma_least_index(t);
        assert forall|j: int| 0 <= j < s.len() implies s[least_index(s)].assigned <= (
        #[trigger] s[j]).assigned by {
            if j < t.len() {
                assert(t[j] == s[j]);
            }
        }
        assert forall|j: int| 0 <= j < least_index(s) implies s[least_index(s)].assigned < (
        #[trigger] s[j]).assigned by {
            assert(t[j] == s[j]);
        }
    }
}

/// The first entry of the sorted list is the first entry of `s` that has the
/// least counter.
pub proof fn lemma_stable_sort_first(s: Seq<SlotView>)
    requires
        s.len() > 0,
    ensures
        stable_sort(s).len() == s.len(),
        stable_sort(s)[0] == s[least_index(s)],
    decreases s.len(),
{
    let t = s.drop_last();
    let x = s.last();
    lemma_stable_sort(t);
    lemma_insert_sorted(stable_sort(t), x);
    if t.len() > 0 {
        lemma_stable_sort_first(t);
        lemma_least_index(t);
    }
}

/// What the entry `e` adds to the tally of the address `a`: nothing if it is
/// for another address; else one when entries are tallied, and its counter
/// when connections are.
pub open spec fn share(e: SlotView, a: Seq<char>, entries: bool) -> nat {
    if e.edge.destination != a {
        0
    } else if entries {
        1
    } else {
        e.assigned
    }
}

/// The tally of the address `a` over the registry `s`.
pub open spec fn tally(s: Seq<SlotView>, a: Seq<char>, entries: bool) -> nat
    decreases s.len(),
{
    if s.len() == 0 {
        0
    } else {
        tally(s.drop_last(), a, entries) + share(s.last(), a, entries)
    }
}

/// Number of connections that the registry counts for the address `a`.
pub open spec fn assigned_at(s: Seq<SlotView>, a: Seq<char>) -> nat {
    tally(s, a, false)
}

/// Number of entries that the registry has for the address `a`.
pub open spec fn entries_at(s: Seq<SlotView>, a: Seq<char>) -> nat {
    tally(s, a, true)
}

/// One more entry adds its share.
pub proof fn lemma_tally_push(s: Seq<SlotView>, e: SlotView, a: Seq<char>, entries: bool)
    ensures
        tally(s.push(e), a, entries) == tally(s, a, entries) + share(e, a, entries),
{
    assert(s.push(e).drop_last() =~= s);
}

/// A changed entry changes the tally by the difference of the shares.
pub proof fn lemma_tally_update(s: Seq<SlotView>, i: int, e: SlotView, a: Seq<char>, entries: bool)
    requires
        0 <= i < s.len(),
    ensures
        tally(s.update(i, e), a, entries) + share(s[i], a, entries) == tally(s, a, entries)
            + share(e, a, entries),
    decreases s.len(),
{
    let u = s.update(i, e);
    if i == s.len() - 1 {
        assert(u.drop_last() =~= s.drop_last());
    } else {
        lemma_tally_update(s.drop_last(), i, e, a, entries);
        assert(u.drop_last() =~= s.drop_last().update(i, e));
    }
}

/// Sorting changes no tally.
pub proof fn lemma_tally_sorted(s: Seq<SlotView>, a: Seq<char>, entries: bool)
    ensures
        tally(stable_sort(s), a, entries) == tally(s, a, entries),
    decreases s.len(),
{
    if s.len() > 0 {
        lemma_tally_sorted(s.drop_last(), a, entries);
        lemma_tally_insert_sorted(stable_sort(s.drop_last()), s.last(), a, entries);
    }
}

/// An entry put in its place adds its share.
pub proof fn lemma_tally_insert_sorted(s: Seq<SlotView>, e: SlotView, a: Seq<char>, entries: bool)
    ensures
        tally(insert_sorted(s, e), a, entries) == tally(s, a, entries) + share(e, a, entries),
    decreases s.len(),
{
    if s.len() == 0 || s.last().assigned <= e.assigned {
        lemma_tally_push(s, e, a, entries);
    } else {
        lemma_tally_insert_sorted(s.drop_last(), e, a, entries);
        lemma_tally_push(insert_sorted(s.drop_last(), e), s.last(), a, entries);
    }
}

/// An address without an entry has an empty tally.
pub proof fn lemma_tally_absent(s: Seq<SlotView>, a: Seq<char>, entries: bool)
    requires
        forall|j: int| 0 <= j < s.len() ==> (#[trigger] s[j]).edge.destination != a,
    ensures
        tally(s, a, entries) == 0,
    decreases s.len(),
{
    if s.len() > 0 {
        lemma_tally_absent(s.drop_last(), a, entries);
    }
}

/// An address without entries has no connections counted.
pub proof fn lemma_no_entry_no_connection(s: Seq<SlotView>, a: Seq<char>)
    requires
        entries_at(s, a) == 0,
    ensures
        assigned_at(s, a) == 0,
    decreases s.len(),
{
    if s.len() > 0 {
        lemma_no_entry_no_connection(s.drop_last(), a);
    }
}

/// An entry is part of the tallies of its address; where it is the only
/// entry of its address, its counter is the whole tally.
pub proof fn lemma_tally_entry(s: Seq<SlotView>, i: int)
    requires
        0 <= i < s.len(),
    ensures
        entries_at(s, s[i].edge.destination) >= 1,
        assigned_at(s, s[i].edge.destination) >= s[i].assigned,
        entries_at(s, s[i].edge.destination) <= 1 ==> assigned_at(s, s[i].edge.destination)
            == s[i].assigned,
    decreases s.len(),
{
    let a = s[i].edge.destination;
    let t = s.drop_last();
    if i == s.len() - 1 {
        if entries_at(s, a) <= 1 {
            lemma_no_entry_no_connection(t, a);
        }
    } else {
        lemma_tally_entry(t, i);
    }
}

/// What the proxy does to the registry.
pub enum RegistryEvent {
    /// A task selects an edge.
    Select,
    /// A task that selected the edge at this address ends.
    Release(Seq<char>),
    /// A descriptor is loaded.
    Load(EdgeView),
}

/// The registry together with the addresses that live tasks hold, one
/// occurrence for each task.
pub struct Ledger {
    pub slots: Seq<SlotView>,
    pub held: Multiset<Seq<char>>,
}

/// The ledger after an event.
pub open spec fn apply(l: Ledger, event: RegistryEvent) -> Ledger {
    match event {
        RegistryEvent::Select => if l.slots.len() == 0 {
            l
        } else {
            Ledger {
                slots: select(l.slots),
                held: l.held.insert(l.slots[least_index(l.slots)].edge.destination),
            }
        },
        RegistryEvent::Release(a) => Ledger { slots: release(l.slots, a), held: l.held.remove(a) },
        RegistryEvent::Load(edge) => Ledger { slots: upsert(l.slots, edge), held: l.held },
    }
}

/// The events that can come: a release comes from a task that holds the
/// address, and a load either replaces an entry or brings an address that
/// the registry does not have yet.
pub open spec fn allowed(l: Ledger, event: RegistryEvent) -> bool {
    match event {
        RegistryEvent::Select => true,
        RegistryEvent::Release(a) => l.held.count(a) > 0,
        RegistryEvent::Load(edge) => first_at_endpoint(l.slots, edge) < l.slots.len()
            || first_at_address(l.slots, edge.destination) >= l.slots.len(),
    }
}

/// The ledger after the events of `events`, in order.
pub open spec fn replay(l: Ledger, events: Seq<RegistryEvent>) -> Ledger
    decreases events.len(),
{
    if events.len() == 0 {
        l
    } else {
        apply(replay(l, events.drop_last()), events.last())
    }
}

/// Whether each event of `events` is allowed when it comes.
pub open spec fn all_allowed(l: Ledger, events: Seq<RegistryEvent>) -> bool
    decreases events.len(),
{
    events.len() > 0 ==> all_allowed(l, events.drop_last()) && allowed(
        replay(l, events.drop_last()),
        events.last(),
    )
}

/// The books agree on the address `a`: it has at most one entry, and the
/// registry counts as many connections for it as tasks hold it.
pub open spec fn agrees(l: Ledger, a: Seq<char>) -> bool {
    entries_at(l.slots, a) <= 1 && assigned_at(l.slots, a) == l.held.count(a)
}

/// The books agree on every address.
pub open spec fn balanced(l: Ledger) -> bool {
    forall|a: Seq<char>| #[trigger] agrees(l, a)
}

/// The ledger of a registry that is empty and in no use.
pub open spec fn fresh() -> Ledger {
    Ledger { slots: Seq::empty(), held: Multiset::empty() }
}

/// An allowed event keeps the books in agreement.
pub proof fn lemma_apply_balanced(l: Ledger, event: RegistryEvent)
    requires
        balanced(l),
        allowed(l, event),
    ensures
        balanced(apply(l, event)),
{
    let next = apply(l, event);
    match event {
        RegistryEvent::Select => {
            if l.slots.len() > 0 {
                let ordered = stable_sort(l.slots);
                lemma_stable_sort_first(l.slots);
                assert forall|a: Seq<char>| #[trigger] agrees(next, a) by {
                    assert(agrees(l, a));
                    lemma_tally_sorted(l.slots, a, true);
                    lemma_tally_sorted(l.slots, a, false);
                    lemma_tally_update(ordered, 0, taken(ordered[0]), a, true);
                    lemma_tally_update(ordered, 0, taken(ordered[0]), a, false);
                }
            }
        },
        RegistryEvent::Release(addr) => {
            let i = first_at_address(l.slots, addr);
            lemma_first_at_address(l.slots, addr);
            assert(agrees(l, addr));
            if i >= l.slots.len() {
                lemma_tally_absent(l.slots, addr, false);
            }
            lemma_tally_entry(l.slots, i);
            let e = SlotView { assigned: (l.slots[i].assigned - 1) as nat, edge: l.slots[i].edge };
            assert forall|a: Seq<char>| #[trigger] agrees(next, a) by {
                assert(agrees(l, a));
                lemma_tally_update(l.slots, i, e, a, true);
                lemma_tally_update(l.slots, i, e, a, false);
            }
        },
        RegistryEvent::Load(edge) => {
            let i = first_at_endpoint(l.slots, edge);
            lemma_first_at_endpoint(l.slots, edge);
            assert forall|a: Seq<char>| #[trigger] agrees(next, a) by {
                assert(agrees(l, a));
                if i < l.slots.len() {
                    let e = SlotView { assigned: l.slots[i].assigned, edge };
                    lemma_tally_update(l.slots, i, e, a, true);
                    lemma_tally_update(l.slots, i, e, a, false);
                } else {
                    let e = SlotView { assigned: 0, edge };
                    lemma_tally_push(l.slots, e, a, true);
                    lemma_tally_push(l.slots, e, a, false);
                    if a == edge.destination {
                        lemma_first_at_address(l.slots, a);
                        lemma_tally_absent(l.slots, a, true);
                    }
                }
            }
        },
    }
}

/// Allowed events keep the books in agreement.
pub proof fn lemma_replay_balanced(l: Ledger, events: Seq<RegistryEvent>)
    requires
        balanced(l),
        all_allowed(l, events),
    ensures
        balanced(replay(l, events)),
    decreases events.len(),
{
    if events.len() > 0 {
        lemma_replay_balanced(l, events.drop_last());
        lemma_apply_balanced(replay(l, events.drop_last()), events.last());
    }
}

/// Counter conservation: after any run of selections, releases and loads,
/// once no task holds an edge any more, every counter of the registry is
/// zero. The run starts from books that agree, as those of a fresh registry
/// do.
pub proof fn lemma_counter_conservation(l: Ledger, events: Seq<RegistryEvent>)
    requires
        balanced(l),
        all_allowed(l, events),
        replay(l, events).held.len() == 0,
    ensures
        balanced(fresh()),
        forall|i: int|
            0 <= i < replay(l, events).slots.len() ==> (#[trigger] replay(
                l,
                events,
            ).slots[i]).assigned == 0,
{
    let end = replay(l, events);
    lemma_replay_balanced(l, events);
    assert forall|i: int| 0 <= i < end.slots.len() implies (#[trigger] end.slots[i]).assigned
        == 0 by {
        let a = end.slots[i].edge.destination;
        lemma_tally_entry(end.slots, i);
        assert(agrees(end, a));
    }
}

impl EdgeServers {
    /// The empty registry.
    pub fn new() -> (r: Self)
        ensures
            r.list@ == Seq::<(u64, Edge)>::empty(),
            r@ == Seq::<SlotView>::empty(),
    {
        EdgeServers { list: Vec::new() }
    }
}

/// Sorts `list` by counter; entries with equal counters keep their order.
fn sort_by_assigned(list: &mut Vec<(u64, Edge)>)
    ensures
        slots(final(list)@) == stable_sort(slots(old(list)@)),
{
    let ghost start = slots(list@);
    let n = list.len();
    let mut i: usize = 0;
    while i < n
        invariant
            i <= n == list.len(),
            start.len() == n,
            slots(list@).subrange(0, i as int) == stable_sort(start.subrange(0, i as int)),
            slots(list@).subrange(i as int, n as int) == start.subrange(i as int, n as int),
        decreases n - i,
    {
        let ghost before = slots(list@);
        let ghost prefix = before.subrange(0, i as int);
        let ghost e = before[i as int];
        let key = list[i].0;
        let mut p: usize = i;
        while p > 0 && list[p - 1].0 > key
            invariant
                p <= i < list.len(),
                before == slots(list@),
                e == before[i as int],
                key == e.assigned,
                forall|j: int| p <= j < i ==> (#[trigger] before[j]).assigned > e.assigned,
            decreases p,
        {
            p -= 1;
        }
        let item = list.remove(i);
        list.insert(p, item);
        proof {
            assert(e == start.subrange(i as int, n as int)[0]);
            lemma_insert_sorted_at(prefix, e, p as int);
            let grown = start.subrange(0, i + 1);
            assert(grown.drop_last() =~= start.subrange(0, i as int));
            assert(slots(list@).subrange(i + 1, n as int) =~= start.subrange(i + 1, n as int)) by {
                assert forall|j: int| i + 1 <= j < n implies slots(list@)[j] == start[j] by {
                    assert(before[j] == before.subrange(i as int, n as int)[j - i]);
                }
            }
        }
        i += 1;
    }
    assert(start.subrange(0, n as int) =~= start);
}

/// Picks the least-loaded edge: sorts the registry by counter, counts one
/// more connection on its first entry and returns that entry's descriptor.
/// The edge is the first of those that had the least counter. `None` exactly
/// when the registry is empty.
///
/// The least counter must have room for one more connection.
pub fn find_edge_server(servers: &mut EdgeServers) -> (res: Option<Edge>)
    requires
        old(servers)@.len() > 0 ==> old(servers)@[least_index(old(servers)@)].assigned < u64::MAX,
    ensures
        final(servers)@ == select(old(servers)@),
        match res {
            Some(edge) => first_least(old(servers)@, least_index(old(servers)@)) && edge@ == old(
                servers,
            )@[least_index(old(servers)@)].edge,
            None => old(servers)@.len() == 0,
        },
{
    let ghost before = servers@;
    sort_by_assigned(&mut servers.list);
    proof {
        if before.len() > 0 {
            lemma_stable_sort_first(before);
            lemma_least_index(before);
        }
    }
    if servers.list.len() == 0 {
        return None;
    }
    let (assigned, edge) = servers.list.remove(0);
    let res = edge.clone();
    servers.list.insert(0, (assigned + 1, edge));
    Some(res)
}

/// Gives back one connection of the edge at `edge_server_ip`: the first entry
/// with that address counts one less, unless it counts none.
pub fn decrement_conn_count(servers: &mut EdgeServers, edge_server_ip: &str)
    ensures
        final(servers)@ == release(old(servers)@, edge_server_ip@),
{
    let ghost before = servers@;
    let mut i: usize = 0;
    while i < servers.list.len()
        invariant
            i <= servers.list.len(),
            servers@ == before,
            before == old(servers)@,
            forall|j: int| 0 <= j < i ==> (#[trigger] before[j]).edge.destination != edge_server_ip@,
        decreases servers.list.len() - i,
    {
        if str_eq(servers.list[i].1.destination.as_str(), edge_server_ip) {
            proof {
                lemma_first_at_address_is(before, edge_server_ip@, i as int);
            }
            if servers.list[i].0 > 0 {
                let (assigned, edge) = servers.list.remove(i);
                servers.list.insert(i, (assigned - 1, edge));
            }
            return;
        }
        i += 1;
    }
    proof {
        lemma_first_at_address_is(before, edge_server_ip@, i as int);
    }
}

/// Loads one descriptor into the registry.
pub fn load_edge_server(servers: &mut EdgeServers, edge: Edge)
    ensures
        final(servers)@ == upsert(old(servers)@, edge@),
{
    let ghost before = servers@;
    let mut i: usize = 0;
    while i < servers.list.len()
        invariant
            i <= servers.list.len(),
            servers@ == before,
            before == old(servers)@,
            forall|j: int| 0 <= j < i ==> !same_endpoint((#[trigger] before[j]).edge, edge@),
        decreases servers.list.len() - i,
    {
        if servers.list[i].1.destination_port == edge.destination_port && str_eq(
            servers.list[i].1.destination.as_str(),
            edge.destination.as_str(),
        ) {
            proof {
                lemma_first_at_endpoint_is(before, edge@, i as int);
            }
            let (assigned, _) = servers.list.remove(i);
            servers.list.insert(i, (assigned, edge));
            return;
        }
        i += 1;
    }
    proof {
        lemma_first_at_endpoint_is(before, edge@, i as int);
    }
    servers.list.push((0, edge));
}

/// Loads the given descriptors, in their order. Entries that none of them
/// names stay as they are.
pub fn load_edge_servers(servers: &mut EdgeServers, edges: &Vec<Edge>)
    ensures
        final(servers)@ == reload(old(servers)@, edges@.map_values(|e: Edge| e@)),
{
    let ghost before = servers@;
    let ghost views = edges@.map_values(|e: Edge| e@);
    let n = edges.len();
    let mut i: usize = 0;
    while i < n
        invariant
            i <= n == edges.len(),
            views == edges@.map_values(|e: Edge| e@),
            servers@ == reload(before, views.subrange(0, i as int)),
        decreases n - i,
    {
        load_edge_server(servers, edges[i].clone());
        proof {
            let grown = views.subrange(0, i + 1);
            assert(grown.drop_last() =~= views.subrange(0, i as int));
        }
        i += 1;
    }
    assert(views.subrange(0, n as int) =~= views);
}

} // verus!
