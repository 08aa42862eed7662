//! The table of label addresses: which address each label resolves to.
//!
//! The table is kept in ascending order of address, and names each label at
//! most once.

use vstd::prelude::*;

verus! {

/// One line of the table: a label and the address it resolves to.
pub struct Entry {
    pub label: Seq<char>,
    pub addr: int,
}

/// A label and the address it resolves to.
#[derive(Debug)]
pub struct LabelAddr {
    pub label: String,
    pub addr: i32,
}

impl View for LabelAddr {
    type V = Entry;

    open spec fn view(&self) -> Entry {
        Entry { label: self.label@, addr: self.addr as int }
    }
}

/// The table that a list of lines stands for.
pub open spec fn table_of(v: Seq<LabelAddr>) -> Seq<Entry> {
    Seq::new(v.len(), |i: int| v[i]@)
}

/// The labels that a list of texts stands for.
pub open spec fn texts_of(v: Seq<String>) -> Seq<Seq<char>> {
    Seq::new(v.len(), |i: int| v[i]@)
}

/// Whether the table names `label`.
pub open spec fn knows(t: Seq<Entry>, label: Seq<char>) -> bool {
    exists|i: int| 0 <= i < t.len() && (#[trigger] t[i]).label == label
}

/// The address of `label` in a table that names it.
pub open spec fn addr_of(t: Seq<Entry>, label: Seq<char>) -> int
    recommends
        knows(t, label),
{
    t[choose|i: int| 0 <= i < t.len() && (#[trigger] t[i]).label == label].addr
}

/// The address of `label`, if the table names it.
pub open spec fn lookup(t: Seq<Entry>, label: Seq<char>) -> Option<int> {
    if knows(t, label) {
        Some(addr_of(t, label))
    } else {
        None
    }
}

/// No label is named twice.
pub open spec fn distinct(t: Seq<Entry>) -> bool {
    forall|i: int, j: int| 0 <= i < j < t.len() ==> (#[trigger] t[i]).label != (#[trigger] t[j]).label
}

/// The addresses ascend.
pub open spec fn sorted(t: Seq<Entry>) -> bool {
    forall|i: int, j: int| 0 <= i <= j < t.len() ==> (#[trigger] t[i]).addr <= (#[trigger] t[j]).addr
}

/// Every address lies in `1 ..= top`.
pub open spec fn within(t: Seq<Entry>, top: int) -> bool {
    forall|i: int| 0 <= i < t.len() ==> 1 <= (#[trigger] t[i]).addr <= top
}

/// The place of a new line with address `addr`: behind the last line whose
/// address is not greater.
pub open spec fn slot(t: Seq<Entry>, addr: int) -> int
    decreases t.len(),
{
    if t.len() == 0 {
        0
    } else if t.last().addr <= addr {
        t.len() as int
    } else {
        slot(t.drop_last(), addr)
    }
}

/// The table with one more line, in its place.
pub open spec fn place(t: Seq<Entry>, label: Seq<char>, addr: int) -> Seq<Entry> {
    t.insert(slot(t, addr), Entry { label, addr })
}

/// The table in which `label` has an address: its own if it had one, else
/// `addr`.
pub open spec fn assign(t: Seq<Entry>, label: Seq<char>, addr: int) -> Seq<Entry> {
    if knows(t, label) {
        t
    } else {
        place(t, label, addr)
    }
}

/// The table in which each of `labels` has an address: its own if it had
/// one, else `addr`.
pub open spec fn assign_all(t: Seq<Entry>, labels: Seq<Seq<char>>, addr: int) -> Seq<Entry>
    decreases labels.len(),
{
    if labels.len() == 0 {
        t
    } else {
        assign_all(assign(t, labels[0], addr), labels.drop_first(), addr)
    }
}

/// The address of the first of `labels` that the table names, if any.
pub open spec fn first_known(t: Seq<Entry>, labels: Seq<Seq<char>>) -> Option<int>
    decreases labels.len(),
{
    if labels.len() == 0 {
        None
    } else if knows(t, labels[0]) {
        Some(addr_of(t, labels[0]))
    } else {
        first_known(t, labels.drop_first())
    }
}

/// The address that a group of labels at one program point shares: that of
/// the first label with an address, else the one after `next_addr`.
pub open spec fn shared_addr(t: Seq<Entry>, next_addr: int, labels: Seq<Seq<char>>) -> int {
    match first_known(t, labels) {
        Some(a) => a,
        None => next_addr + 1,
    }
}

/// The last address given out once the group `labels` has its address.
pub open spec fn next_after(t: Seq<Entry>, next_addr: int, labels: Seq<Seq<char>>) -> int {
    if labels.len() == 0 || first_known(t, labels).is_some() {
        next_addr
    } else {
        next_addr + 1
    }
}

/// The table once the group `labels` has its address.
pub open spec fn coalesced(t: Seq<Entry>, next_addr: int, labels: Seq<Seq<char>>) -> Seq<Entry> {
    assign_all(t, labels, shared_addr(t, next_addr, labels))
}

pub proof fn lemma_slot_bounds(t: Seq<Entry>, addr: int)
    ensures
        0 <= slot(t, addr) <= t.len(),
        forall|j: int| slot(t, addr) <= j < t.len() ==> (#[trigger] t[j]).addr > addr,
        slot(t, addr) > 0 ==> t[slot(t, addr) - 1].addr <= addr,
    decreases t.len(),
{
    if t.len() > 0 && t.last().addr > addr {
        lemma_slot_bounds(t.drop_last(), addr);
        assert forall|j: int| slot(t, addr) <= j < t.len() implies (#[trigger] t[j]).addr
            > addr by {
            if j < t.len() - 1 {
                assert(t.drop_last()[j] == t[j]);
            }
        }
    }
}

/// Where an address lies in a table without `label`, with the label placed.
pub proof fn lemma_place(t: Seq<Entry>, label: Seq<char>, addr: int)
    requires
        distinct(t),
        sorted(t),
        !knows(t, label),
    ensures
        distinct(place(t, label, addr)),
        sorted(place(t, label, addr)),
        forall|x: Seq<char>| knows(place(t, label, addr), x) <==> (knows(t, x) || x == label),
        forall|x: Seq<char>| knows(t, x) ==> addr_of(place(t, label, addr), x) == addr_of(t, x),
        addr_of(place(t, label, addr), label) == addr,
        forall|top: int| within(t, top) && 1 <= addr <= top ==> within(place(t, label, addr), top),
{
    lemma_slot_bounds(t, addr);
    let p = slot(t, addr);
    let e = Entry { label, addr };
    let u = place(t, label, addr);
    assert(u.len() == t.len() + 1);
    assert(u[p] == e);
    assert forall|i: int| 0 <= i < u.len() implies (#[trigger] u[i]) == (if i < p {
        t[i]
    } else if i == p {
        e
    } else {
        t[i - 1]
    }) by {}
    assert(distinct(u)) by {
        assert forall|i: int, j: int| 0 <= i < j < u.len() implies (#[trigger] u[i]).label != (
        #[trigger] u[j]).label by {
            let a = if i < p { i } else { i - 1 };
            let b = if j < p { j } else { j - 1 };
            if i != p && j != p {
                assert(t[a].label != t[b].label);
            } else if i == p {
                assert(t[b].label != label);
            } else {
                assert(t[a].label != label);
            }
        }
    }
    assert(sorted(u)) by {
        assert forall|i: int, j: int| 0 <= i <= j < u.len() implies (#[trigger] u[i]).addr <= (
        #[trigger] u[j]).addr by {
            let a = if i < p { i } else { i - 1 };
            let b = if j < p { j } else { j - 1 };
            if i != p && j != p {
                assert(t[a].addr <= t[b].addr);
            } else if i == p && j != p {
                assert(t[b].addr > addr);
            } else if j == p && i != p {
                if p > 0 {
                    assert(t[a].addr <= t[p - 1].addr);
                }
            }
        }
    }
    assert forall|x: Seq<char>| knows(u, x) <==> (knows(t, x) || x == label) by {
        if knows(u, x) {
            let i = choose|i: int| 0 <= i < u.len() && (#[trigger] u[i]).label == x;
            if i != p {
                let a = if i < p { i } else { i - 1 };
                assert(t[a].label == x);
            }
        }
        if knows(t, x) {
            let i = choose|i: int| 0 <= i < t.len() && (#[trigger] t[i]).label == x;
            let a = if i < p { i } else { i + 1 };
            assert(u[a].label == x);
        }
        if x == label {
            assert(u[p].label == x);
        }
    }
    assert forall|x: Seq<char>| knows(t, x) implies addr_of(u, x) == addr_of(t, x) by {
        let i = choose|i: int| 0 <= i < t.len() && (#[trigger] t[i]).label == x;
        let a = if i < p { i } else { i + 1 };
        assert(u[a].label == x);
        let k = choose|k: int| 0 <= k < u.len() && (#[trigger] u[k]).label == x;
        if k != a {
            if k < a {
                assert(u[k].label != u[a].label);
            } else {
                assert(u[a].label != u[k].label);
            }
        }
    }
    assert(addr_of(u, label) == addr) by {
        let k = choose|k: int| 0 <= k < u.len() && (#[trigger] u[k]).label == label;
        assert(u[p].label == label);
        if k != p {
            if k < p {
                assert(u[k].label != u[p].label);
            } else {
                assert(u[p].label != u[k].label);
            }
        }
    }
    assert forall|top: int| within(t, top) && 1 <= addr <= top implies within(u, top) by {
        assert forall|i: int| 0 <= i < u.len() implies 1 <= (#[trigger] u[i]).addr <= top by {
            if i != p {
                let a = if i < p { i } else { i - 1 };
                assert(1 <= t[a].addr <= top);
            }
        }
    }
}

/// In a table without repeated labels, the line that names a label gives
/// its address.
pub proof fn lemma_addr_at(t: Seq<Entry>, i: int)
    requires
        distinct(t),
        0 <= i < t.len(),
    ensures
        knows(t, t[i].label),
        addr_of(t, t[i].label) == t[i].addr,
{
    let x = t[i].label;
    let k = choose|k: int| 0 <= k < t.len() && (#[trigger] t[k]).label == x;
    if k < i {
        assert(t[k].label != t[i].label);
    } else if i < k {
        assert(t[i].label != t[k].label);
    }
}

/// What giving a group of labels the address `addr` does to a table: labels
/// with an address keep it, the others of the group get `addr`, and nothing
/// else changes.
pub proof fn lemma_assign_all(t: Seq<Entry>, labels: Seq<Seq<char>>, addr: int)
    requires
        distinct(t),
        sorted(t),
    ensures
        distinct(assign_all(t, labels, addr)),
        sorted(assign_all(t, labels, addr)),
        forall|x: Seq<char>|
            knows(assign_all(t, labels, addr), x) <==> (knows(t, x) || labels.contains(x)),
        forall|x: Seq<char>| knows(t, x) ==> addr_of(assign_all(t, labels, addr), x) == addr_of(t, x),
        forall|x: Seq<char>|
            labels.contains(x) && !knows(t, x) ==> addr_of(assign_all(t, labels, addr), x) == addr,
        forall|top: int|
            within(t, top) && 1 <= addr <= top ==> within(assign_all(t, labels, addr), top),
    decreases labels.len(),
{
    if labels.len() > 0 {
        let l = labels[0];
        let t1 = assign(t, l, addr);
        let rest = labels.drop_first();
        if !knows(t, l) {
            lemma_place(t, l, addr);
        }
        lemma_assign_all(t1, rest, addr);
        let r = assign_all(t, labels, addr);
        assert forall|x: Seq<char>| knows(r, x) <==> (knows(t, x) || labels.contains(x)) by {
            if labels.contains(x) {
                let i = choose|i: int| 0 <= i < labels.len() && labels[i] == x;
                if i > 0 {
                    assert(rest[i - 1] == x);
                }
            }
            if rest.contains(x) {
                let i = choose|i: int| 0 <= i < rest.len() && rest[i] == x;
                assert(labels[i + 1] == x);
            }
            assert(labels[0] == l);
        }
        assert forall|x: Seq<char>| labels.contains(x) && !knows(t, x) implies addr_of(r, x)
            == addr by {
            let i = choose|i: int| 0 <= i < labels.len() && labels[i] == x;
            if x != l {
                assert(rest[i - 1] == x);
            }
        }
    }
}

/// The address of the first label with an address is that of a label of the
/// group; there is none exactly when no label of the group has an address.
pub proof fn lemma_first_known(t: Seq<Entry>, labels: Seq<Seq<char>>)
    ensures
        first_known(t, labels).is_none() <==> forall|i: int|
            0 <= i < labels.len() ==> !knows(t, #[trigger] labels[i]),
        first_known(t, labels).is_some() ==> exists|i: int|
            0 <= i < labels.len() && knows(t, #[trigger] labels[i]) && first_known(t, labels)
                == Some(addr_of(t, labels[i])),
    decreases labels.len(),
{
    if labels.len() > 0 {
        let rest = labels.drop_first();
        lemma_first_known(t, rest);
        if knows(t, labels[0]) {
        } else {
            if first_known(t, rest).is_some() {
                let i = choose|i: int|
                    0 <= i < rest.len() && knows(t, #[trigger] rest[i]) && first_known(t, rest)
                        == Some(addr_of(t, rest[i]));
                assert(labels[i + 1] == rest[i]);
            } else {
                assert forall|i: int| 0 <= i < labels.len() implies !knows(
                    t,
                    #[trigger] labels[i],
                ) by {
                    if i > 0 {
                        assert(rest[i - 1] == labels[i]);
                    }
                }
            }
            if forall|i: int| 0 <= i < labels.len() ==> !knows(t, #[trigger] labels[i]) {
                assert forall|i: int| 0 <= i < rest.len() implies !knows(t, #[trigger] rest[i]) by {
                    assert(labels[i + 1] == rest[i]);
                }
            }
        }
    }
}

/// Labels that stand at one program point resolve to one address: once a
/// group of labels is coalesced, every label of the group has an address,
/// and any two of them have the same one, provided that the labels of the
/// group that had an address before all had the same.
pub proof fn lemma_coalesced_labels_share_address(
    t: Seq<Entry>,
    next_addr: int,
    labels: Seq<Seq<char>>,
    i: int,
    j: int,
)
    requires
        distinct(t),
        sorted(t),
        0 <= i < labels.len(),
        0 <= j < labels.len(),
        forall|a: int, b: int|
            0 <= a < labels.len() && 0 <= b < labels.len() && knows(t, labels[a]) && knows(t, labels[b])
                ==> addr_of(t, labels[a]) == addr_of(t, labels[b]),
    ensures
        knows(coalesced(t, next_addr, labels), labels[i]),
        knows(coalesced(t, next_addr, labels), labels[j]),
        addr_of(coalesced(t, next_addr, labels), labels[i]) == addr_of(
            coalesced(t, next_addr, labels),
            labels[j],
        ),
        addr_of(coalesced(t, next_addr, labels), labels[i]) == shared_addr(t, next_addr, labels),
{
    let a = shared_addr(t, next_addr, labels);
    lemma_first_known(t, labels);
    lemma_assign_all(t, labels, a);
    assert(labels.contains(labels[i]));
    assert(labels.contains(labels[j]));
}

/// Coalescing a group of labels keeps the table in order and without
/// repeated labels, keeps every address that was given, and uses at most
/// one new address.
pub proof fn lemma_coalesced_wf(t: Seq<Entry>, next_addr: int, labels: Seq<Seq<char>>)
    requires
        distinct(t),
        sorted(t),
        within(t, next_addr),
        0 <= next_addr,
    ensures
        distinct(coalesced(t, next_addr, labels)),
        sorted(coalesced(t, next_addr, labels)),
        within(coalesced(t, next_addr, labels), next_after(t, next_addr, labels)),
        next_addr <= next_after(t, next_addr, labels) <= next_addr + 1,
        forall|x: Seq<char>|
            knows(t, x) ==> knows(coalesced(t, next_addr, labels), x) && addr_of(
                coalesced(t, next_addr, labels),
                x,
            ) == addr_of(t, x),
{
    let a = shared_addr(t, next_addr, labels);
    lemma_first_known(t, labels);
    lemma_assign_all(t, labels, a);
    let top = next_after(t, next_addr, labels);
    if labels.len() == 0 {
        assert(coalesced(t, next_addr, labels) == t);
    } else if first_known(t, labels).is_some() {
        let i = choose|i: int|
            0 <= i < labels.len() && knows(t, #[trigger] labels[i]) && first_known(t, labels) == Some(
                addr_of(t, labels[i]),
            );
        let k = choose|k: int| 0 <= k < t.len() && (#[trigger] t[k]).label == labels[i];
        assert(1 <= t[k].addr <= next_addr);
        assert(within(t, top) && 1 <= a <= top);
    } else {
        assert(within(t, top)) by {
            assert forall|k: int| 0 <= k < t.len() implies 1 <= (#[trigger] t[k]).addr <= top by {}
        }
        assert(within(t, top) && 1 <= a <= top);
    }
}

} // verus!
