//! Sparse, recursive storage of the values of an entity's fields.

use vstd::prelude::*;
use crate::field_path::{depth_left, path_views, FieldPath};
use crate::field_value::FieldValue;

verus! {

/// What a slot of a field state holds: a value, or the state of a nested container.
#[derive(Debug)]
pub enum States {
    Value(FieldValue),
    FieldState(FieldState),
}

/// One level of the state tree: a vector of optional slots, indexed by field or element.
#[derive(Debug)]
pub struct FieldState {
    pub state: Vec<Option<States>>,
}

/// The mathematical model of a slot.
pub enum Slot {
    Empty,
    Leaf(FieldValue),
    Node(Seq<Slot>),
}

/// The model of one slot of a state vector.
pub open spec fn slot_tree(slot: Option<States>) -> Slot
    decreases slot,
{
    match slot {
        None => Slot::Empty,
        Some(States::Value(v)) => Slot::Leaf(v),
        Some(States::FieldState(child)) => Slot::Node(child.tree()),
    }
}

impl FieldState {
    /// The model of a state: its slots, in order.
    pub open spec fn tree(&self) -> Seq<Slot>
        decreases self,
    {
        Seq::new(
            self.state@.len(),
            |i: int|
                if 0 <= i < self.state@.len() {
                    slot_tree(self.state@[i])
                } else {
                    Slot::Empty
                },
        )
    }
}

/// The slot that the path `p` leads to in the tree `t`; `Empty` where the path leaves the tree.
pub open spec fn tree_get(t: Seq<Slot>, p: Seq<u8>) -> Slot
    decreases p.len(),
{
    if p.len() == 0 || p[0] >= t.len() {
        Slot::Empty
    } else if p.len() == 1 {
        t[p[0] as int]
    } else {
        match t[p[0] as int] {
            Slot::Node(child) => tree_get(child, p.skip(1)),
            _ => Slot::Empty,
        }
    }
}

/// The value stored at the path `p`, if a value is stored there.
pub open spec fn tree_value(t: Seq<Slot>, p: Seq<u8>) -> Option<FieldValue> {
    match tree_get(t, p) {
        Slot::Leaf(v) => Some(v),
        _ => None,
    }
}

/// The tree `t`, extended with empty slots to at least `n` slots.
pub open spec fn padded(t: Seq<Slot>, n: nat) -> Seq<Slot> {
    if t.len() >= n {
        t
    } else {
        t + Seq::new((n - t.len()) as nat, |i: int| Slot::Empty)
    }
}

/// The tree after the value `v` is written at the path `p`: every level on the way is
/// extended just far enough to hold its index, a slot on the way that held no container
/// becomes one, and the last slot becomes the value.
pub open spec fn tree_put(t: Seq<Slot>, p: Seq<u8>, v: FieldValue) -> Seq<Slot>
    decreases p.len(),
{
    if p.len() == 0 {
        t
    } else {
        let i = p[0] as int;
        let wide = padded(t, (i + 1) as nat);
        if p.len() == 1 {
            wide.update(i, Slot::Leaf(v))
        } else {
            let child = match wide[i] {
                Slot::Node(c) => c,
                _ => Seq::empty(),
            };
            wide.update(i, Slot::Node(tree_put(child, p.skip(1), v)))
        }
    }
}

/// The paths at which the slots from index `i` on, which stand below the path `prefix`,
/// store values, in the order of their indices: slot after slot, and what a container
/// stores in the place of the container. Slots past index 255 and below seven levels have
/// no path.
pub open spec fn stored_paths(slots: Seq<Slot>, prefix: Seq<u8>, i: nat) -> Seq<Seq<u8>>
    decreases depth_left(prefix), slots.len() - i,
{
    if prefix.len() >= 7 || i >= slots.len() || i >= 256 {
        Seq::empty()
    } else {
        (match slots[i as int] {
            Slot::Empty => Seq::empty(),
            Slot::Leaf(_) => seq![prefix.push(i as u8)],
            Slot::Node(below) => stored_paths(below, prefix.push(i as u8), 0),
        }) + stored_paths(slots, prefix, i + 1)
    }
}

/// Whether `a` is a proper prefix of `b`.
pub open spec fn above(a: Seq<u8>, b: Seq<u8>) -> bool {
    a.len() < b.len() && b.take(a.len() as int) == a
}

/// Whether a write at the path `q` clears what is stored at the path `p`: one of the two
/// lies above the other, so that the write replaces the container that holds `p`, or the
/// value on the way to it, or turns `p` itself into a container.
pub open spec fn clears(q: Seq<u8>, p: Seq<u8>) -> bool {
    above(q, p) || above(p, q)
}

/// A value that was written is read back.
pub proof fn lemma_put_then_get(t: Seq<Slot>, p: Seq<u8>, v: FieldValue)
    requires
        p.len() >= 1,
    ensures
        tree_value(tree_put(t, p, v), p) == Some(v),
    decreases p.len(),
{
    if p.len() > 1 {
        let wide = padded(t, (p[0] + 1) as nat);
        let child = match wide[p[0] as int] {
            Slot::Node(c) => c,
            _ => Seq::empty(),
        };
        lemma_put_then_get(child, p.skip(1), v);
    }
}

/// A write leaves alone what is stored at a path that neither lies above the written
/// path nor below it.
pub proof fn lemma_put_keeps_others(t: Seq<Slot>, p: Seq<u8>, v: FieldValue, q: Seq<u8>)
    requires
        p.len() >= 1,
        q.len() >= 1,
        p != q,
        !clears(p, q),
    ensures
        tree_value(tree_put(t, p, v), q) == tree_value(t, q),
    decreases p.len(),
{
    let i = p[0] as int;
    let wide = padded(t, (i + 1) as nat);
    if q[0] != p[0] {
        if q[0] < t.len() {
            assert(wide[q[0] as int] == t[q[0] as int]);
        }
    } else {
        // Both paths pass through slot `i`; neither ends there.
        assert(p.len() > 1 && q.len() > 1) by {
            if p.len() == 1 && q.len() == 1 {
                assert(p =~= q);
            } else if p.len() == 1 {
                assert(q.take(1) =~= p);
                assert(above(p, q));
            } else if q.len() == 1 {
                assert(p.take(1) =~= q);
                assert(above(q, p));
            }
        }
        let child = match wide[i] {
            Slot::Node(c) => c,
            _ => Seq::empty(),
        };
        assert(p.skip(1) != q.skip(1)) by {
            if p.skip(1) == q.skip(1) {
                assert(p =~= seq![p[0]] + p.skip(1));
                assert(q =~= seq![q[0]] + q.skip(1));
            }
        }
        assert(!clears(p.skip(1), q.skip(1))) by {
            if above(p.skip(1), q.skip(1)) {
                assert(q.take(p.len() as int) =~= seq![q[0]] + q.skip(1).take(p.len() - 1));
                assert(p =~= seq![p[0]] + p.skip(1));
            }
            if above(q.skip(1), p.skip(1)) {
                assert(p.take(q.len() as int) =~= seq![p[0]] + p.skip(1).take(q.len() - 1));
                assert(q =~= seq![q[0]] + q.skip(1));
            }
        }
        lemma_put_keeps_others(child, p.skip(1), v, q.skip(1));
        if i < t.len() {
            assert(wide[i] == t[i]);
        } else {
            assert(wide[i] is Empty);
            assert(tree_value(child, q.skip(1)) is None);
        }
    }
}

/// A write leaves no value at the paths above the written path and below it.
pub proof fn lemma_put_clears(t: Seq<Slot>, p: Seq<u8>, v: FieldValue, q: Seq<u8>)
    requires
        p.len() >= 1,
        q.len() >= 1,
        clears(p, q),
    ensures
        tree_value(tree_put(t, p, v), q) is None,
    decreases p.len(),
{
    let i = p[0] as int;
    let wide = padded(t, (i + 1) as nat);
    assert(q[0] == p[0]) by {
        if above(p, q) {
            assert(q.take(p.len() as int)[0] == q[0]);
        } else {
            assert(p.take(q.len() as int)[0] == p[0]);
        }
    }
    if p.len() > 1 && q.len() > 1 {
        let child = match wide[i] {
            Slot::Node(c) => c,
            _ => Seq::empty(),
        };
        assert(clears(p.skip(1), q.skip(1))) by {
            if above(p, q) {
                assert(q.skip(1).take(p.len() - 1) =~= q.take(p.len() as int).skip(1));
            } else {
                assert(p.skip(1).take(q.len() - 1) =~= p.take(q.len() as int).skip(1));
            }
        }
        lemma_put_clears(child, p.skip(1), v, q.skip(1));
    }
}

/// Whether the path `q` leads below the path `prefix`, through one of the slots from
/// index `i` on, to a value that those slots store, in at most seven indices.
pub open spec fn stored_below(slots: Seq<Slot>, prefix: Seq<u8>, i: nat, q: Seq<u8>) -> bool {
    &&& prefix.len() < q.len() <= 7
    &&& q.take(prefix.len() as int) == prefix
    &&& q[prefix.len() as int] >= i
    &&& tree_value(slots, q.skip(prefix.len() as int)) is Some
}

/// A path is in a listing put together from two exactly when it is in one of them.
pub proof fn lemma_contains_concat(a: Seq<Seq<u8>>, b: Seq<Seq<u8>>, q: Seq<u8>)
    ensures
        (a + b).contains(q) <==> a.contains(q) || b.contains(q),
{
    if a.contains(q) {
        let k = choose|k: int| 0 <= k < a.len() && a[k] == q;
        assert((a + b)[k] == q);
    }
    if b.contains(q) {
        let k = choose|k: int| 0 <= k < b.len() && b[k] == q;
        assert((a + b)[a.len() + k] == q);
    }
    if (a + b).contains(q) {
        let k = choose|k: int| 0 <= k < (a + b).len() && (a + b)[k] == q;
        if k < a.len() {
            assert(a[k] == q);
        } else {
            assert(b[k - a.len()] == q);
        }
    }
}

/// The paths that the slot `slot`, which stands at the path `here`, contributes to the
/// listing: its own path where it holds a value, what it stores where it is a container.
pub open spec fn slot_paths(slot: Slot, here: Seq<u8>) -> Seq<Seq<u8>> {
    match slot {
        Slot::Empty => Seq::empty(),
        Slot::Leaf(_) => seq![here],
        Slot::Node(below) => stored_paths(below, here, 0),
    }
}

/// Whether the path `q` leads below the path `prefix`, through slot `i` of `slots`, to a
/// value that is stored there, in at most seven indices.
pub open spec fn stored_through(slots: Seq<Slot>, prefix: Seq<u8>, i: nat, q: Seq<u8>) -> bool {
    &&& prefix.len() < q.len() <= 7
    &&& q.take(prefix.len() as int) == prefix
    &&& q[prefix.len() as int] == i
    &&& tree_value(slots, q.skip(prefix.len() as int)) is Some
}

/// A slot contributes exactly the paths that lead through it to a stored value.
pub proof fn lemma_slot_paths(slots: Seq<Slot>, prefix: Seq<u8>, i: nat, q: Seq<u8>)
    requires
        prefix.len() < 7,
        i < slots.len(),
        i < 256,
    ensures
        slot_paths(slots[i as int], prefix.push(i as u8)).contains(q) <==> stored_through(
            slots,
            prefix,
            i,
            q,
        ),
    decreases depth_left(prefix), slots.len() - i, 0nat,
{
    let n = prefix.len() as int;
    let here = prefix.push(i as u8);
    let head = slot_paths(slots[i as int], here);
    let through = stored_through(slots, prefix, i, q);
    let rest = q.skip(n);
    if prefix.len() < q.len() {
        assert(rest[0] == q[n]);
        assert(rest.skip(1) =~= q.skip(n + 1));
    }
    match slots[i as int] {
        Slot::Empty => {
            assert(!head.contains(q));
            if prefix.len() < q.len() && q[n] == i {
                assert(tree_get(slots, rest) is Empty);
            }
            assert(!through);
        },
        Slot::Leaf(_) => {
            if head.contains(q) {
                assert(head[0] == q);
                assert(q.take(n) =~= prefix);
                assert(rest.len() == 1);
                assert(through);
            }
            if through {
                assert(rest.len() == 1) by {
                    if rest.len() > 1 {
                        assert(tree_get(slots, rest) is Empty);
                    }
                }
                assert(q =~= here);
                assert(head[0] == q);
            }
        },
        Slot::Node(below) => {
            lemma_stored_paths(below, here, 0, q);
            if stored_below(below, here, 0, q) {
                assert(q.take(n) =~= q.take(n + 1).take(n));
                assert(here.take(n) =~= prefix);
                assert(q.take(n + 1)[n] == q[n]);
                assert(here[n] == i);
                assert(rest.len() > 1);
                assert(rest[0] == i);
                assert(tree_get(slots, rest) == tree_get(below, rest.skip(1)));
                assert(through);
            }
            if through {
                assert(rest.len() > 1) by {
                    if rest.len() == 1 {
                        assert(tree_get(slots, rest) is Node);
                    }
                }
                assert(q.take(n + 1) =~= here);
                assert(tree_get(slots, rest) == tree_get(below, rest.skip(1)));
                assert(stored_below(below, here, 0, q));
            }
        },
    }
}

/// The listing holds exactly the paths at which values are stored.
pub proof fn lemma_stored_paths(slots: Seq<Slot>, prefix: Seq<u8>, i: nat, q: Seq<u8>)
    ensures
        stored_paths(slots, prefix, i).contains(q) <==> stored_below(slots, prefix, i, q),
    decreases depth_left(prefix), slots.len() - i, 1nat,
{
    let n = prefix.len() as int;
    if prefix.len() >= 7 || i >= slots.len() || i >= 256 {
        assert(!stored_paths(slots, prefix, i).contains(q));
        if stored_below(slots, prefix, i, q) {
            assert(q.skip(n)[0] == q[n]);
        }
    } else {
        let head = slot_paths(slots[i as int], prefix.push(i as u8));
        let tail = stored_paths(slots, prefix, i + 1);
        assert(stored_paths(slots, prefix, i) == head + tail);
        lemma_contains_concat(head, tail, q);
        lemma_stored_paths(slots, prefix, i + 1, q);
        lemma_slot_paths(slots, prefix, i, q);
    }
}

/// Whether the path `a` comes before the path `b` in the lexicographic order of their
/// indices.
pub open spec fn comes_before(a: Seq<u8>, b: Seq<u8>) -> bool {
    exists|k: int|
        0 <= k <= a.len() && k <= b.len() && #[trigger] a.take(k) == b.take(k) && (if k
            == a.len() {
            k < b.len()
        } else {
            k < b.len() && a[k] < b[k]
        })
}

/// The listing is in lexicographic order: each path comes before those listed after it.
pub proof fn lemma_stored_paths_ordered(
    slots: Seq<Slot>,
    prefix: Seq<u8>,
    i: nat,
    a: int,
    b: int,
)
    requires
        0 <= a < b < stored_paths(slots, prefix, i).len(),
    ensures
        comes_before(stored_paths(slots, prefix, i)[a], stored_paths(slots, prefix, i)[b]),
    decreases depth_left(prefix), slots.len() - i,
{
    let n = prefix.len() as int;
    let head = slot_paths(slots[i as int], prefix.push(i as u8));
    let tail = stored_paths(slots, prefix, i + 1);
    assert(stored_paths(slots, prefix, i) == head + tail);
    if b < head.len() {
        match slots[i as int] {
            Slot::Node(below) => {
                lemma_stored_paths_ordered(below, prefix.push(i as u8), 0, a, b);
            },
            _ => {},
        }
    } else if a >= head.len() {
        lemma_stored_paths_ordered(slots, prefix, i + 1, a - head.len(), b - head.len());
    } else {
        let x = head[a];
        let y = tail[b - head.len()];
        assert(head.contains(x));
        assert(tail.contains(y));
        lemma_slot_paths(slots, prefix, i, x);
        lemma_stored_paths(slots, prefix, i + 1, y);
        assert(x.take(n) == y.take(n));
        assert(x[n] < y[n]);
    }
}

/// A state lists a path among those at which it stores values exactly when it stores a
/// value there, and it lists the paths in lexicographic order.
pub proof fn lemma_paths_are_the_stored(slots: Seq<Slot>, q: Seq<u8>)
    requires
        1 <= q.len() <= 7,
    ensures
        stored_paths(slots, Seq::empty(), 0).contains(q) <==> tree_value(slots, q) is Some,
        forall|a: int, b: int|
            0 <= a < b < stored_paths(slots, Seq::empty(), 0).len() ==> comes_before(
                #[trigger] stored_paths(slots, Seq::empty(), 0)[a],
                #[trigger] stored_paths(slots, Seq::empty(), 0)[b],
            ),
{
    lemma_stored_paths(slots, Seq::empty(), 0, q);
    assert(q.take(0) =~= Seq::<u8>::empty());
    assert(q.skip(0) =~= q);
    assert forall|a: int, b: int|
        0 <= a < b < stored_paths(slots, Seq::empty(), 0).len() implies comes_before(
        #[trigger] stored_paths(slots, Seq::empty(), 0)[a],
        #[trigger] stored_paths(slots, Seq::empty(), 0)[b],
    ) by {
        lemma_stored_paths_ordered(slots, Seq::empty(), 0, a, b);
    }
}

/// The tree after what is stored at the path `q` is cleared: the slot there becomes
/// empty, and with it goes all that a container there stored. A path that leaves the
/// tree clears nothing.
pub open spec fn tree_clear(t: Seq<Slot>, q: Seq<u8>) -> Seq<Slot>
    decreases q.len(),
{
    if q.len() == 0 || q[0] >= t.len() {
        t
    } else if q.len() == 1 {
        t.update(q[0] as int, Slot::Empty)
    } else {
        match t[q[0] as int] {
            Slot::Node(child) => t.update(q[0] as int, Slot::Node(tree_clear(child, q.skip(1)))),
            _ => t,
        }
    }
}

/// Clearing at a path leaves no value there nor below it.
pub proof fn lemma_clear_clears(t: Seq<Slot>, q: Seq<u8>, p: Seq<u8>)
    requires
        q.len() >= 1,
        q == p || above(q, p),
    ensures
        tree_value(tree_clear(t, q), p) is None,
    decreases q.len(),
{
    assert(p[0] == q[0]) by {
        if above(q, p) {
            assert(p.take(q.len() as int)[0] == p[0]);
        }
    }
    if q.len() > 1 && q[0] < t.len() {
        match t[q[0] as int] {
            Slot::Node(child) => {
                if above(q, p) {
                    assert(p.skip(1).take(q.len() - 1) =~= p.take(q.len() as int).skip(1));
                }
                lemma_clear_clears(child, q.skip(1), p.skip(1));
            },
            _ => {},
        }
    }
}

/// Clearing at a path leaves alone what is stored at every path that is neither that
/// path nor below it.
pub proof fn lemma_clear_keeps_others(t: Seq<Slot>, q: Seq<u8>, p: Seq<u8>)
    requires
        q.len() >= 1,
        p.len() >= 1,
        q != p,
        !above(q, p),
    ensures
        tree_value(tree_clear(t, q), p) == tree_value(t, p),
    decreases q.len(),
{
    if q[0] < t.len() && p[0] == q[0] {
        assert(q.len() > 1) by {
            if q.len() == 1 {
                if p.len() == 1 {
                    assert(p =~= q);
                } else {
                    assert(p.take(1) =~= q);
                }
            }
        }
        match t[q[0] as int] {
            Slot::Node(child) => {
                if p.len() > 1 {
                    assert(q.skip(1) != p.skip(1)) by {
                        if q.skip(1) == p.skip(1) {
                            assert(p =~= seq![p[0]] + p.skip(1));
                            assert(q =~= seq![q[0]] + q.skip(1));
                        }
                    }
                    assert(!above(q.skip(1), p.skip(1))) by {
                        if above(q.skip(1), p.skip(1)) {
                            assert(p.take(q.len() as int) =~= seq![p[0]] + p.skip(1).take(
                                q.len() - 1,
                            ));
                            assert(q =~= seq![q[0]] + q.skip(1));
                        }
                    }
                    lemma_clear_keeps_others(child, q.skip(1), p.skip(1));
                }
            },
            _ => {},
        }
    }
}

/// A change of a state: a value is written at a path, or what is stored at a path is
/// cleared.
pub enum Change {
    Write(Seq<u8>, FieldValue),
    Clear(Seq<u8>),
}

/// The tree after a change.
pub open spec fn tree_changed(t: Seq<Slot>, change: Change) -> Seq<Slot> {
    match change {
        Change::Write(q, v) => tree_put(t, q, v),
        Change::Clear(q) => tree_clear(t, q),
    }
}

/// The tree after a run of changes to the tree `t`, in order.
pub open spec fn tree_after(t: Seq<Slot>, changes: Seq<Change>) -> Seq<Slot>
    decreases changes.len(),
{
    if changes.len() == 0 {
        t
    } else {
        tree_changed(tree_after(t, changes.drop_last()), changes.last())
    }
}

/// Whether a change undoes a write at the path `p`: it writes there itself, or it
/// writes above or below, or it clears there or above.
pub open spec fn undoes(change: Change, p: Seq<u8>) -> bool {
    match change {
        Change::Write(q, _) => q == p || clears(q, p),
        Change::Clear(q) => q == p || above(q, p),
    }
}

/// Whether the change `i` of a run writes the value `v` at the path `p` and no later
/// change undoes it.
pub open spec fn last_written(changes: Seq<Change>, p: Seq<u8>, v: FieldValue, i: int) -> bool {
    &&& 0 <= i < changes.len()
    &&& changes[i] == Change::Write(p, v)
    &&& forall|j: int| i < j < changes.len() ==> !undoes(#[trigger] changes[j], p)
}

/// The path that a change writes or clears.
pub open spec fn changed_path(change: Change) -> Seq<u8> {
    match change {
        Change::Write(q, _) => q,
        Change::Clear(q) => q,
    }
}

/// After a run of changes to an empty tree, the value stored at a path is the one that
/// the last write at the path wrote, provided no later change undid it: a path stores
/// nothing where it was never written, and nothing since it was last cleared, or a
/// container above it was, or a write turned it or a slot above it into something else.
pub proof fn lemma_value_iff_written(changes: Seq<Change>, p: Seq<u8>, v: FieldValue)
    requires
        p.len() >= 1,
        forall|i: int| 0 <= i < changes.len() ==> changed_path(#[trigger] changes[i]).len() >= 1,
    ensures
        tree_value(tree_after(Seq::empty(), changes), p) == Some(v) <==> exists|i: int|
            last_written(changes, p, v, i),
    decreases changes.len(),
{
    let holds = exists|i: int| last_written(changes, p, v, i);
    if changes.len() == 0 {
    } else {
        let earlier = changes.drop_last();
        let last = changes.last();
        let n = changes.len() - 1;
        let before = tree_after(Seq::empty(), earlier);
        assert(changed_path(changes[n]).len() >= 1);
        lemma_value_iff_written(earlier, p, v);
        let held = exists|i: int| last_written(earlier, p, v, i);
        if undoes(last, p) {
            match last {
                Change::Write(q, w) => {
                    if q == p {
                        lemma_put_then_get(before, p, w);
                        if w == v {
                            assert(last_written(changes, p, v, n));
                        }
                    } else {
                        lemma_put_clears(before, q, w, p);
                    }
                },
                Change::Clear(q) => {
                    lemma_clear_clears(before, q, p);
                },
            }
            if holds {
                let i = choose|i: int| last_written(changes, p, v, i);
                if i < n {
                    assert(!undoes(changes[n], p));
                }
            }
        } else {
            match last {
                Change::Write(q, w) => {
                    lemma_put_keeps_others(before, q, w, p);
                },
                Change::Clear(q) => {
                    lemma_clear_keeps_others(before, q, p);
                },
            }
            if held {
                let i = choose|i: int| last_written(earlier, p, v, i);
                assert(changes[i] == earlier[i]);
                assert forall|j: int| i < j < changes.len() implies !undoes(
                    #[trigger] changes[j],
                    p,
                ) by {
                    if j < n {
                        assert(changes[j] == earlier[j]);
                    }
                }
                assert(last_written(changes, p, v, i));
            }
            if holds {
                let i = choose|i: int| last_written(changes, p, v, i);
                assert(i < n);
                assert(earlier[i] == changes[i]);
                assert forall|j: int| i < j < earlier.len() implies !undoes(
                    #[trigger] earlier[j],
                    p,
                ) by {
                    assert(earlier[j] == changes[j]);
                }
                assert(last_written(earlier, p, v, i));
            }
        }
    }
}

/// The paths at or below the path `p` at which the tree stores values, in lexicographic
/// order: `p` itself where a value is stored there, and what the container there stores
/// where one is.
pub open spec fn stored_under(tree: Seq<Slot>, p: Seq<u8>) -> Seq<Seq<u8>> {
    slot_paths(tree_get(tree, p), p)
}

/// What the path `p + r` leads to is what `r` leads to in the container at `p`; where
/// no container is at `p`, it leads to nothing.
pub proof fn lemma_get_below(tree: Seq<Slot>, p: Seq<u8>, r: Seq<u8>)
    requires
        p.len() >= 1,
        r.len() >= 1,
    ensures
        tree_get(tree, p + r) == (match tree_get(tree, p) {
            Slot::Node(below) => tree_get(below, r),
            _ => Slot::Empty,
        }),
    decreases p.len(),
{
    let q = p + r;
    assert(q[0] == p[0]);
    assert(q.skip(1) =~= p.skip(1) + r);
    if p.len() > 1 && p[0] < tree.len() {
        match tree[p[0] as int] {
            Slot::Node(child) => {
                lemma_get_below(child, p.skip(1), r);
            },
            _ => {},
        }
    }
}

/// The listing at or below a path holds exactly the paths of at most seven indices that
/// start with it and at which a value is stored.
pub proof fn lemma_stored_under(tree: Seq<Slot>, p: Seq<u8>, q: Seq<u8>)
    requires
        1 <= p.len() <= 7,
    ensures
        stored_under(tree, p).contains(q) <==> (p.len() <= q.len() <= 7 && q.take(
            p.len() as int,
        ) == p && tree_value(tree, q) is Some),
{
    let n = p.len() as int;
    let listed = stored_under(tree, p);
    let starts = p.len() <= q.len() && q.take(n) == p;
    if starts && q.len() > n {
        let r = q.skip(n);
        assert(q =~= p + r);
        lemma_get_below(tree, p, r);
    }
    if starts && q.len() == n {
        assert(q =~= p);
    }
    match tree_get(tree, p) {
        Slot::Empty => {
            assert(!listed.contains(q));
        },
        Slot::Leaf(_) => {
            if listed.contains(q) {
                assert(listed[0] == q);
                assert(q.take(n) =~= p);
            }
            if q == p {
                assert(listed[0] == q);
            }
        },
        Slot::Node(below) => {
            lemma_stored_paths(below, p, 0, q);
        },
    }
}

/// The listing at or below a path is in lexicographic order.
pub proof fn lemma_stored_under_ordered(tree: Seq<Slot>, p: Seq<u8>, a: int, b: int)
    requires
        0 <= a < b < stored_under(tree, p).len(),
    ensures
        comes_before(stored_under(tree, p)[a], stored_under(tree, p)[b]),
{
    match tree_get(tree, p) {
        Slot::Node(below) => {
            lemma_stored_paths_ordered(below, p, 0, a, b);
        },
        _ => {},
    }
}

impl FieldValue {
    /// A copy of the value.
    pub fn duplicate(&self) -> (copy: FieldValue)
        ensures
            copy == *self,
    {
        match self {
            FieldValue::Boolean(x) => FieldValue::Boolean(*x),
            FieldValue::Signed32(x) => FieldValue::Signed32(*x),
            FieldValue::Unsigned32(x) => FieldValue::Unsigned32(*x),
            FieldValue::Signed64(x) => FieldValue::Signed64(*x),
            FieldValue::Unsigned64(x) => FieldValue::Unsigned64(*x),
            FieldValue::Float(x) => FieldValue::Float(*x),
            FieldValue::String(x) => FieldValue::String(x.clone()),
            FieldValue::Vector2D(x) => FieldValue::Vector2D(*x),
            FieldValue::Vector3D(x) => FieldValue::Vector3D(*x),
            FieldValue::Vector4D(x) => FieldValue::Vector4D(*x),
            FieldValue::Quaternion(x) => FieldValue::Quaternion(*x),
            FieldValue::Handle(x) => FieldValue::Handle(*x),
        }
    }
}

impl FieldState {
    /// The state with no slots.
    pub fn new() -> (st: FieldState)
        ensures
            st.tree() == Seq::<Slot>::empty(),
    {
        let st = FieldState { state: Vec::new() };
        assert(st.tree() =~= Seq::<Slot>::empty());
        st
    }

    /// The slot that `fp` leads to: `None` where nothing is stored there.
    pub fn get(&self, fp: &FieldPath) -> (res: Option<&States>)
        ensures
            res is None <==> tree_get(self.tree(), fp@) is Empty,
            res matches Some(s) ==> slot_tree(Some(*s)) == tree_get(self.tree(), fp@),
    {
        let last: usize = fp.last();
        let mut cur: &FieldState = self;
        let mut i: usize = 0;
        assert(fp@.skip(0) =~= fp@);
        loop
            invariant
                i <= last == fp@.len() - 1,
                tree_get(cur.tree(), fp@.skip(i as int)) == tree_get(self.tree(), fp@),
            decreases last - i,
        {
            let ghost rest = fp@.skip(i as int);
            assert(rest[0] == fp@[i as int]);
            assert(rest.skip(1) =~= fp@.skip(i + 1));
            let idx: usize = fp.get(i) as usize;
            if idx >= cur.state.len() {
                return None;
            }
            match &cur.state[idx] {
                None => {
                    return None;
                },
                Some(s) => {
                    if i == last {
                        return Some(s);
                    }
                    match s {
                        States::FieldState(child) => {
                            cur = child;
                            i += 1;
                        },
                        States::Value(_) => {
                            return None;
                        },
                    }
                },
            }
        }
    }

    /// The value stored at `fp`: `None` where no value is stored there.
    pub fn get_value(&self, fp: &FieldPath) -> (res: Option<&FieldValue>)
        ensures
            res is Some <==> tree_value(self.tree(), fp@) is Some,
            res matches Some(v) ==> tree_value(self.tree(), fp@) == Some(*v),
    {
        match self.get(fp) {
            Some(States::Value(v)) => Some(v),
            _ => None,
        }
    }

    /// Writes `value` at `fp`, growing the tree as far as the path needs.
    pub fn set(&mut self, fp: &FieldPath, value: FieldValue)
        ensures
            final(self).tree() == tree_put(old(self).tree(), fp@, value),
    {
        let last: usize = fp.last();
        assert(fp@.skip(0) =~= fp@);
        self.set_from(fp, 0, value);
    }

    fn set_from(&mut self, fp: &FieldPath, pos: usize, value: FieldValue)
        requires
            pos < fp@.len(),
        ensures
            final(self).tree() == tree_put(old(self).tree(), fp@.skip(pos as int), value),
        decreases fp@.len() - pos,
    {
        let ghost rest = fp@.skip(pos as int);
        assert(rest[0] == fp@[pos as int]);
        assert(rest.skip(1) =~= fp@.skip(pos + 1));
        let idx: usize = fp.get(pos) as usize;
        while self.state.len() <= idx
            invariant
                idx < 256,
                self.tree() == padded(old(self).tree(), self.state@.len() as nat),
                old(self).state@.len() <= self.state@.len(),
                self.state@.len() <= idx + 1 || self.state@.len() == old(self).state@.len(),
            decreases idx + 1 - self.state@.len(),
        {
            let ghost before = self.tree();
            self.state.push(None);
            assert(self.tree() =~= before.push(Slot::Empty));
            assert(self.tree() =~= padded(old(self).tree(), self.state@.len() as nat));
        }
        let ghost wide = self.tree();
        assert(wide == padded(old(self).tree(), (idx + 1) as nat));
        if pos == fp.last() {
            self.state[idx] = Some(States::Value(value));
            assert(self.tree() =~= wide.update(idx as int, Slot::Leaf(value)));
        } else {
            let taken: Option<States> = self.state[idx].take();
            let mut child: FieldState = match taken {
                Some(States::FieldState(c)) => c,
                _ => FieldState::new(),
            };
            child.set_from(fp, pos + 1, value);
            self.state[idx] = Some(States::FieldState(child));
            assert(self.tree() =~= wide.update(idx as int, Slot::Node(child.tree())));
        }
    }

    /// Clears what is stored at `fp`: the value there, or the container there with all
    /// that it stores. Where `fp` leads to nothing, nothing changes.
    pub fn clear(&mut self, fp: &FieldPath)
        ensures
            final(self).tree() == tree_clear(old(self).tree(), fp@),
    {
        let last: usize = fp.last();
        assert(fp@.skip(0) =~= fp@);
        self.clear_from(fp, 0);
    }

    fn clear_from(&mut self, fp: &FieldPath, pos: usize)
        requires
            pos < fp@.len(),
        ensures
            final(self).tree() == tree_clear(old(self).tree(), fp@.skip(pos as int)),
        decreases fp@.len() - pos,
    {
        let ghost rest = fp@.skip(pos as int);
        let ghost before = self.tree();
        assert(rest[0] == fp@[pos as int]);
        assert(rest.skip(1) =~= fp@.skip(pos + 1));
        let idx: usize = fp.get(pos) as usize;
        if idx >= self.state.len() {
            return;
        }
        if pos == fp.last() {
            self.state[idx] = None;
            assert(self.tree() =~= before.update(idx as int, Slot::Empty));
        } else {
            let taken: Option<States> = self.state[idx].take();
            match taken {
                Some(States::FieldState(below)) => {
                    let mut below: FieldState = below;
                    below.clear_from(fp, pos + 1);
                    self.state[idx] = Some(States::FieldState(below));
                    assert(self.tree() =~= before.update(idx as int, Slot::Node(below.tree())));
                },
                other => {
                    self.state[idx] = other;
                    assert(self.tree() =~= before);
                },
            }
        }
    }

    /// The paths at which the state stores values, in the order of their indices.
    pub fn paths(&self) -> (paths: Vec<FieldPath>)
        ensures
            path_views(paths@) == stored_paths(self.tree(), Seq::empty(), 0),
    {
        let mut cursor: FieldPath = FieldPath::new();
        assert(cursor@.drop_last() =~= Seq::<u8>::empty());
        self.paths_below(&mut cursor)
    }

    /// The paths at which the state stores values, where the state stands below the path
    /// that `fp` holds above its deepest index. `fp` is used as the cursor and is the
    /// same afterwards.
    pub fn paths_below(&self, fp: &mut FieldPath) -> (paths: Vec<FieldPath>)
        ensures
            *final(fp) == *old(fp),
            path_views(paths@) == stored_paths(self.tree(), old(fp)@.drop_last(), 0),
        decreases depth_left(old(fp)@.drop_last()),
    {
        let saved: FieldPath = *fp;
        let len: usize = fp.len();
        let ghost prefix = fp@.drop_last();
        let ghost slots = self.tree();
        let mut paths: Vec<FieldPath> = Vec::new();
        assert(path_views(paths@) =~= Seq::<Seq<u8>>::empty());
        let mut i: usize = 0;
        while i < self.state.len() && i < 256
            invariant
                i <= self.state@.len(),
                i <= 256,
                slots == self.tree(),
                slots.len() == self.state@.len(),
                1 <= len == fp@.len() <= 7,
                fp@.drop_last() == prefix,
                prefix == old(fp)@.drop_last(),
                path_views(paths@) + stored_paths(slots, prefix, i as nat) == stored_paths(
                    slots,
                    prefix,
                    0,
                ),
            decreases self.state@.len() - i,
        {
            assert(slots[i as int] == slot_tree(self.state@[i as int]));
            fp.set(len - 1, i as u8);
            assert(fp@ =~= prefix.push(i as u8));
            let ghost before = paths@;
            match &self.state[i] {
                None => {},
                Some(States::Value(_)) => {
                    paths.push(*fp);
                    assert(path_views(paths@) =~= path_views(before) + seq![prefix.push(i as u8)]);
                },
                Some(States::FieldState(below)) => {
                    if len < 7 {
                        fp.down();
                        assert(fp@.drop_last() =~= prefix.push(i as u8));
                        let mut found: Vec<FieldPath> = below.paths_below(fp);
                        let ghost added = found@;
                        paths.append(&mut found);
                        fp.up(1);
                        assert(fp@ =~= prefix.push(i as u8));
                        assert(path_views(paths@) =~= path_views(before) + path_views(added));
                    } else {
                        assert(stored_paths(below.tree(), prefix.push(i as u8), 0)
                            =~= Seq::<Seq<u8>>::empty());
                    }
                },
            }
            proof {
                assert(path_views(paths@) + stored_paths(slots, prefix, (i + 1) as nat)
                    =~= path_views(before) + stored_paths(slots, prefix, i as nat));
                assert(fp@.drop_last() =~= prefix);
            }
            i += 1;
        }
        assert(path_views(paths@) + Seq::<Seq<u8>>::empty() =~= path_views(paths@));
        *fp = saved;
        paths
    }

    /// A deep copy of the state.
    pub fn duplicate(&self) -> (copy: FieldState)
        ensures
            copy.tree() == self.tree(),
        decreases self,
    {
        let mut slots: Vec<Option<States>> = Vec::new();
        let mut i: usize = 0;
        while i < self.state.len()
            invariant
                i <= self.state@.len(),
                slots@.len() == i,
                forall|j: int| 0 <= j < i ==> slot_tree(slots@[j]) == slot_tree(self.state@[j]),
            decreases self.state@.len() - i,
        {
            let slot: Option<States> = match &self.state[i] {
                None => None,
                Some(States::Value(v)) => Some(States::Value(v.duplicate())),
                Some(States::FieldState(child)) => Some(States::FieldState(child.duplicate())),
            };
            slots.push(slot);
            i += 1;
        }
        let copy = FieldState { state: slots };
        assert(copy.tree() =~= self.tree());
        copy
    }
}

impl Clone for States {
    /// A deep copy of what the slot holds.
    fn clone(&self) -> (copy: States)
        ensures
            slot_tree(Some(copy)) == slot_tree(Some(*self)),
    {
        match self {
            States::Value(v) => States::Value(v.duplicate()),
            States::FieldState(below) => States::FieldState(below.duplicate()),
        }
    }
}

impl Clone for FieldState {
    /// A deep copy of the state.
    fn clone(&self) -> (copy: FieldState)
        ensures
            copy.tree() == self.tree(),
    {
        self.duplicate()
    }
}

} // verus!
