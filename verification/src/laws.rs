//! General laws of the plain document model, proved over its mathematical
//! model. Each law holds for every table, path and value its premises admit.

use vstd::prelude::*;
use crate::value::Node;
use crate::error::TomlerError;
use crate::tree::{
    tab_lookup, tab_get, tab_upsert, tab_set, tab_remove, tab_remove_entry, tab_keys, node_wf,
};

verus! {

/// A looked-up node is one of the table's entries.
proof fn lemma_lookup_in(t: Seq<(Seq<char>, Node)>, k: Seq<char>)
    ensures
        tab_lookup(t, k) matches Some(nd) ==> exists|l: int|
            0 <= l < t.len() && (#[trigger] t[l]) == (k, nd),
    decreases t.len(),
{
    if t.len() > 0 {
        if t[0].0 == k {
            assert(t[0] == (k, t[0].1));
        } else {
            let rest = t.subrange(1, t.len() as int);
            lemma_lookup_in(rest, k);
            if tab_lookup(t, k) is Some {
                let nd = tab_lookup(t, k)->Some_0;
                let l = choose|l: int| 0 <= l < rest.len() && (#[trigger] rest[l]) == (k, nd);
                assert(t[l + 1] == rest[l]);
            }
        }
    }
}

/// Every key of an upsert result is the new key or a key of the old table.
proof fn lemma_upsert_keys(t: Seq<(Seq<char>, Node)>, k: Seq<char>, n: Node)
    ensures
        forall|l: int|
            0 <= l < tab_upsert(t, k, n).len() ==> ((#[trigger] tab_upsert(t, k, n)[l].0) == k
                || exists|m: int| 0 <= m < t.len() && (#[trigger] t[m].0) == tab_upsert(t, k, n)[l].0),
    decreases t.len(),
{
    let u = tab_upsert(t, k, n);
    if t.len() == 0 {
    } else if t[0].0 == k {
        assert forall|l: int| 0 <= l < u.len() implies ((#[trigger] u[l].0) == k || exists|m: int|
            0 <= m < t.len() && (#[trigger] t[m].0) == u[l].0) by {
            if l > 0 {
                assert(u[l] == t[l]);
                assert(t[l].0 == u[l].0);
            }
        }
    } else {
        let rest = t.subrange(1, t.len() as int);
        lemma_upsert_keys(rest, k, n);
        let ur = tab_upsert(rest, k, n);
        assert forall|l: int| 0 <= l < u.len() implies ((#[trigger] u[l].0) == k || exists|m: int|
            0 <= m < t.len() && (#[trigger] t[m].0) == u[l].0) by {
            if l == 0 {
                assert(u[0] == t[0]);
                assert(t[0].0 == u[0].0);
            } else {
                assert(u[l] == ur[l - 1]);
                if ur[l - 1].0 != k {
                    let m = choose|m: int| 0 <= m < rest.len() && (#[trigger] rest[m].0) == ur[l
                        - 1].0;
                    assert(t[m + 1].0 == u[l].0);
                }
            }
        }
    }
}

/// An upsert of a well-formed node into a well-formed table body keeps
/// every table's keys unique and every node well-formed.
proof fn lemma_upsert_wf(t: Seq<(Seq<char>, Node)>, k: Seq<char>, n: Node)
    requires
        node_wf(Node::Tab(t)),
        node_wf(n),
    ensures
        node_wf(Node::Tab(tab_upsert(t, k, n))),
    decreases t.len(),
{
    let u = tab_upsert(t, k, n);
    if t.len() == 0 {
        assert(u =~= seq![(k, n)]);
    } else if t[0].0 == k {
        let rest = t.subrange(1, t.len() as int);
        assert forall|i: int, j: int| 0 <= i < j < u.len() implies (#[trigger] u[i].0)
            != (#[trigger] u[j].0) by {
            assert(u[j] == t[j]);
            if i == 0 {
                assert(t[0].0 != t[j].0);
            } else {
                assert(u[i] == t[i]);
            }
        }
        assert forall|i: int| 0 <= i < u.len() implies node_wf(#[trigger] u[i].1) by {
            if i > 0 {
                assert(u[i] == t[i]);
            }
        }
    } else {
        let rest = t.subrange(1, t.len() as int);
        assert forall|i: int, j: int| 0 <= i < j < rest.len() implies (#[trigger] rest[i].0)
            != (#[trigger] rest[j].0) by {
            assert(rest[i] == t[i + 1] && rest[j] == t[j + 1]);
        }
        assert forall|i: int| 0 <= i < rest.len() implies node_wf(#[trigger] rest[i].1) by {
            assert(rest[i] == t[i + 1]);
        }
        lemma_upsert_wf(rest, k, n);
        lemma_upsert_keys(rest, k, n);
        let ur = tab_upsert(rest, k, n);
        assert forall|i: int, j: int| 0 <= i < j < u.len() implies (#[trigger] u[i].0)
            != (#[trigger] u[j].0) by {
            if i == 0 {
                assert(u[0] == t[0]);
                assert(u[j] == ur[j - 1]);
                if ur[j - 1].0 == k {
                } else {
                    let m = choose|m: int| 0 <= m < rest.len() && (#[trigger] rest[m].0) == ur[j
                        - 1].0;
                    assert(rest[m] == t[m + 1]);
                    assert(t[0].0 != t[m + 1].0);
                }
            } else {
                assert(u[i] == ur[i - 1] && u[j] == ur[j - 1]);
            }
        }
        assert forall|i: int| 0 <= i < u.len() implies node_wf(#[trigger] u[i].1) by {
            if i == 0 {
                assert(u[0] == t[0]);
            } else {
                assert(u[i] == ur[i - 1]);
            }
        }
    }
}

/// A successful `set` of a well-formed value into a well-formed table keeps
/// the whole tree well-formed: keys stay unique in every table.
pub proof fn lemma_set_wf(t: Seq<(Seq<char>, Node)>, segs: Seq<Seq<char>>, n: Node)
    requires
        node_wf(Node::Tab(t)),
        node_wf(n),
        segs.len() > 0,
    ensures
        tab_set(t, segs, n) matches Some(t2) ==> node_wf(Node::Tab(t2)),
    decreases segs.len(),
{
    if segs.len() == 1 {
        lemma_upsert_wf(t, segs[0], n);
    } else if tab_set(t, segs, n) is Some {
        let rest = segs.subrange(1, segs.len() as int);
        let sub = match tab_lookup(t, segs[0]) {
            None => Seq::<(Seq<char>, Node)>::empty(),
            Some(child) => child->Tab_0,
        };
        lemma_lookup_in(t, segs[0]);
        if tab_lookup(t, segs[0]) is Some {
            let child = tab_lookup(t, segs[0])->Some_0;
            let l = choose|l: int| 0 <= l < t.len() && (#[trigger] t[l]) == (segs[0], child);
            assert(node_wf(t[l].1));
        }
        assert(node_wf(Node::Tab(sub)));
        lemma_set_wf(sub, rest, n);
        let subr = tab_set(sub, rest, n)->Some_0;
        lemma_upsert_wf(t, segs[0], Node::Tab(subr));
    }
}

/// Every key of an entry removal's result is a key of the old table.
proof fn lemma_remove_entry_keys(t: Seq<(Seq<char>, Node)>, k: Seq<char>)
    ensures
        forall|l: int|
            #![trigger tab_remove_entry(t, k)[l]]
            0 <= l < tab_remove_entry(t, k).len() ==> exists|m: int|
                0 <= m < t.len() && (#[trigger] t[m].0) == tab_remove_entry(t, k)[l].0,
    decreases t.len(),
{
    let u = tab_remove_entry(t, k);
    if t.len() == 0 {
    } else if t[0].0 == k {
        assert forall|l: int| #![trigger u[l]] 0 <= l < u.len() implies exists|m: int|
            0 <= m < t.len() && (#[trigger] t[m].0) == u[l].0 by {
            assert(t[l + 1].0 == u[l].0);
        }
    } else {
        let rest = t.subrange(1, t.len() as int);
        lemma_remove_entry_keys(rest, k);
        let ur = tab_remove_entry(rest, k);
        assert forall|l: int| #![trigger u[l]] 0 <= l < u.len() implies exists|m: int|
            0 <= m < t.len() && (#[trigger] t[m].0) == u[l].0 by {
            if l == 0 {
                assert(u[0] == t[0]);
                assert(t[0].0 == u[0].0);
            } else {
                assert(u[l] == ur[l - 1]);
                let m = choose|m: int| 0 <= m < rest.len() && (#[trigger] rest[m].0) == ur[l - 1].0;
                assert(t[m + 1].0 == u[l].0);
            }
        }
    }
}

/// Removing an entry from a well-formed table body keeps it well-formed.
proof fn lemma_remove_entry_wf(t: Seq<(Seq<char>, Node)>, k: Seq<char>)
    requires
        node_wf(Node::Tab(t)),
    ensures
        node_wf(Node::Tab(tab_remove_entry(t, k))),
    decreases t.len(),
{
    let u = tab_remove_entry(t, k);
    if t.len() == 0 {
    } else if t[0].0 == k {
        assert forall|i: int, j: int| 0 <= i < j < u.len() implies (#[trigger] u[i].0)
            != (#[trigger] u[j].0) by {
            assert(u[i] == t[i + 1] && u[j] == t[j + 1]);
        }
        assert forall|i: int| 0 <= i < u.len() implies node_wf(#[trigger] u[i].1) by {
            assert(u[i] == t[i + 1]);
        }
    } else {
        let rest = t.subrange(1, t.len() as int);
        assert forall|i: int, j: int| 0 <= i < j < rest.len() implies (#[trigger] rest[i].0)
            != (#[trigger] rest[j].0) by {
            assert(rest[i] == t[i + 1] && rest[j] == t[j + 1]);
        }
        assert forall|i: int| 0 <= i < rest.len() implies node_wf(#[trigger] rest[i].1) by {
            assert(rest[i] == t[i + 1]);
        }
        lemma_remove_entry_wf(rest, k);
        lemma_remove_entry_keys(rest, k);
        let ur = tab_remove_entry(rest, k);
        assert forall|i: int, j: int| 0 <= i < j < u.len() implies (#[trigger] u[i].0)
            != (#[trigger] u[j].0) by {
            if i == 0 {
                assert(u[0] == t[0]);
                assert(u[j] == ur[j - 1]);
                let m = choose|m: int| 0 <= m < rest.len() && (#[trigger] rest[m].0) == ur[j - 1].0;
                assert(rest[m] == t[m + 1]);
                assert(t[0].0 != t[m + 1].0);
            } else {
                assert(u[i] == ur[i - 1] && u[j] == ur[j - 1]);
            }
        }
        assert forall|i: int| 0 <= i < u.len() implies node_wf(#[trigger] u[i].1) by {
            if i == 0 {
                assert(u[0] == t[0]);
            } else {
                assert(u[i] == ur[i - 1]);
            }
        }
    }
}

/// A successful `remove` from a well-formed table keeps the whole tree
/// well-formed: keys stay unique in every table.
pub proof fn lemma_remove_wf(t: Seq<(Seq<char>, Node)>, segs: Seq<Seq<char>>)
    requires
        node_wf(Node::Tab(t)),
        segs.len() > 0,
    ensures
        tab_remove(t, segs) matches Ok(p) ==> node_wf(Node::Tab(p.0)),
    decreases segs.len(),
{
    if segs.len() == 1 {
        lemma_remove_entry_wf(t, segs[0]);
    } else if tab_remove(t, segs) is Ok {
        let rest = segs.subrange(1, segs.len() as int);
        let sub = tab_lookup(t, segs[0])->Some_0->Tab_0;
        lemma_lookup_in(t, segs[0]);
        let child = tab_lookup(t, segs[0])->Some_0;
        let l = choose|l: int| 0 <= l < t.len() && (#[trigger] t[l]) == (segs[0], child);
        assert(node_wf(t[l].1));
        assert(node_wf(Node::Tab(sub)));
        lemma_remove_wf(sub, rest);
        let subr = tab_remove(sub, rest)->Ok_0.0;
        lemma_upsert_wf(t, segs[0], Node::Tab(subr));
    }
}

/// After an upsert, looking the key up yields the new value.
pub proof fn lemma_lookup_upsert(t: Seq<(Seq<char>, Node)>, k: Seq<char>, n: Node)
    ensures
        tab_lookup(tab_upsert(t, k, n), k) == Some(n),
    decreases t.len(),
{
    if t.len() == 0 {
    } else if t[0].0 == k {
        assert(tab_upsert(t, k, n)[0] == (k, n));
    } else {
        let rest = t.subrange(1, t.len() as int);
        lemma_lookup_upsert(rest, k, n);
        let u = tab_upsert(t, k, n);
        assert(u[0] == t[0]);
        assert(u.subrange(1, u.len() as int) =~= tab_upsert(rest, k, n));
    }
}

/// Round trip: a successful `set` makes `get` on the same path return
/// exactly the value that was set, whatever its kind.
pub proof fn lemma_set_then_get(t: Seq<(Seq<char>, Node)>, segs: Seq<Seq<char>>, n: Node)
    requires
        segs.len() > 0,
        tab_set(t, segs, n) is Some,
    ensures
        tab_get(tab_set(t, segs, n)->Some_0, segs) == Some(n),
    decreases segs.len(),
{
    let t2 = tab_set(t, segs, n)->Some_0;
    if segs.len() == 1 {
        lemma_lookup_upsert(t, segs[0], n);
    } else {
        let rest = segs.subrange(1, segs.len() as int);
        let sub = match tab_lookup(t, segs[0]) {
            None => Seq::<(Seq<char>, Node)>::empty(),
            Some(child) => child->Tab_0,
        };
        let subr = tab_set(sub, rest, n)->Some_0;
        lemma_lookup_upsert(t, segs[0], Node::Tab(subr));
        lemma_set_then_get(sub, rest, n);
    }
}

/// Non-table collision: when some key holds a non-table value, a `set`
/// through that key with a longer path fails.
pub proof fn lemma_set_collision(
    t: Seq<(Seq<char>, Node)>,
    segs: Seq<Seq<char>>,
    n: Node,
    child: Node,
)
    requires
        segs.len() >= 2,
        tab_lookup(t, segs[0]) == Some(child),
        !(child is Tab),
    ensures
        tab_set(t, segs, n) is None,
{
}

/// After a successful `set`, `remove` on the same path succeeds and returns
/// exactly the value that was set.
pub proof fn lemma_remove_after_set(t: Seq<(Seq<char>, Node)>, segs: Seq<Seq<char>>, n: Node)
    requires
        segs.len() > 0,
        tab_set(t, segs, n) is Some,
    ensures
        tab_remove(tab_set(t, segs, n)->Some_0, segs) matches Ok(p) && p.1 == Some(n),
    decreases segs.len(),
{
    let t2 = tab_set(t, segs, n)->Some_0;
    if segs.len() == 1 {
        lemma_lookup_upsert(t, segs[0], n);
    } else {
        let rest = segs.subrange(1, segs.len() as int);
        let sub = match tab_lookup(t, segs[0]) {
            None => Seq::<(Seq<char>, Node)>::empty(),
            Some(child) => child->Tab_0,
        };
        let subr = tab_set(sub, rest, n)->Some_0;
        lemma_lookup_upsert(t, segs[0], Node::Tab(subr));
        lemma_remove_after_set(sub, rest, n);
    }
}

/// `remove` with a missing first segment of a longer path reports that the
/// path does not exist at all.
pub proof fn lemma_remove_missing_intermediate(t: Seq<(Seq<char>, Node)>, segs: Seq<Seq<char>>)
    requires
        segs.len() >= 2,
        tab_lookup(t, segs[0]) is None,
    ensures
        tab_remove(t, segs) == Err::<(Seq<(Seq<char>, Node)>, Option<Node>), TomlerError>(
            TomlerError::KeyNotFound,
        ),
{
}

/// With unique keys, removing an entry really makes the key absent, so a
/// second `remove` of the same key finds nothing to remove.
pub proof fn lemma_lookup_after_remove_entry(t: Seq<(Seq<char>, Node)>, k: Seq<char>)
    requires
        crate::tree::tab_unique(t),
    ensures
        tab_lookup(tab_remove_entry(t, k), k) is None,
    decreases t.len(),
{
    if t.len() == 0 {
    } else if t[0].0 == k {
        let rest = t.subrange(1, t.len() as int);
        assert forall|l: int| 0 <= l < rest.len() implies (#[trigger] rest[l].0) != k by {
            assert(rest[l] == t[l + 1]);
        }
        crate::tree::lemma_lookup_none(rest, k);
    } else {
        let rest = t.subrange(1, t.len() as int);
        assert forall|i: int, j: int|
            0 <= i < j < rest.len() implies (#[trigger] rest[i].0) != (#[trigger] rest[j].0) by {
            assert(rest[i] == t[i + 1]);
            assert(rest[j] == t[j + 1]);
        }
        lemma_lookup_after_remove_entry(rest, k);
        let u = tab_remove_entry(t, k);
        assert(u[0] == t[0]);
        assert(u.subrange(1, u.len() as int) =~= tab_remove_entry(rest, k));
    }
}

/// Setting at a non-empty path on an empty table yields a table whose only
/// top-level key is the first segment.
pub proof fn lemma_set_on_empty_keys(segs: Seq<Seq<char>>, n: Node)
    requires
        segs.len() > 0,
    ensures
        tab_set(Seq::<(Seq<char>, Node)>::empty(), segs, n) matches Some(t2) && tab_keys(t2)
            =~= seq![segs[0]],
{
    crate::tree::lemma_set_empty_some(segs, n);
}

} // verus!
