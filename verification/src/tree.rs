//! The plain document model: an owned tree of tables addressed by parsed
//! paths, with get / set / remove / keys operations.
//!
//! The operations are specified over the mathematical model of the tree
//! ([`crate::value::Node`]); the executable [`Document`] methods carry
//! contracts stated in terms of the spec functions below.

use vstd::prelude::*;
use crate::value::{ConfigValue, Node, entries_model, lemma_entries_model};
use crate::error::TomlerError;

verus! {

broadcast use vstd::std_specs::vec::group_vec_axioms, vstd::seq::axiom_seq_index_decreases;

/// The views of a parsed path's segments.
pub open spec fn segs_view(path: Seq<String>) -> Seq<Seq<char>> {
    Seq::new(path.len(), |i: int| path[i]@)
}

/// First-match lookup of a key in a table body.
pub open spec fn tab_lookup(t: Seq<(Seq<char>, Node)>, k: Seq<char>) -> Option<Node>
    decreases t.len(),
{
    if t.len() == 0 {
        None
    } else if t[0].0 == k {
        Some(t[0].1)
    } else {
        tab_lookup(t.subrange(1, t.len() as int), k)
    }
}

/// Walk a non-empty path through nested tables; `None` both for a missing key
/// and for a non-table met before the last segment.
pub open spec fn tab_get(t: Seq<(Seq<char>, Node)>, segs: Seq<Seq<char>>) -> Option<Node>
    decreases segs.len(),
{
    if segs.len() == 0 {
        None
    } else {
        match tab_lookup(t, segs[0]) {
            None => None,
            Some(child) => if segs.len() == 1 {
                Some(child)
            } else {
                match child {
                    Node::Tab(t2) => tab_get(t2, segs.subrange(1, segs.len() as int)),
                    _ => None,
                }
            },
        }
    }
}

/// Replace the first entry with key `k`, or append a new entry at the end.
pub open spec fn tab_upsert(t: Seq<(Seq<char>, Node)>, k: Seq<char>, n: Node) -> Seq<
    (Seq<char>, Node),
>
    decreases t.len(),
{
    if t.len() == 0 {
        seq![(k, n)]
    } else if t[0].0 == k {
        seq![(k, n)] + t.subrange(1, t.len() as int)
    } else {
        seq![t[0]] + tab_upsert(t.subrange(1, t.len() as int), k, n)
    }
}

/// Set a value at a non-empty path, creating intermediate tables for missing
/// segments; `None` when an intermediate segment holds a non-table value.
pub open spec fn tab_set(t: Seq<(Seq<char>, Node)>, segs: Seq<Seq<char>>, n: Node) -> Option<
    Seq<(Seq<char>, Node)>,
>
    decreases segs.len(),
{
    if segs.len() == 0 {
        None
    } else if segs.len() == 1 {
        Some(tab_upsert(t, segs[0], n))
    } else {
        let sub = match tab_lookup(t, segs[0]) {
            None => Some(Seq::<(Seq<char>, Node)>::empty()),
            Some(child) => match child {
                Node::Tab(t2) => Some(t2),
                _ => None,
            },
        };
        match sub {
            None => None,
            Some(t2) => match tab_set(t2, segs.subrange(1, segs.len() as int), n) {
                None => None,
                Some(t2b) => Some(tab_upsert(t, segs[0], Node::Tab(t2b))),
            },
        }
    }
}

/// Drop the first entry with key `k`, if any.
pub open spec fn tab_remove_entry(t: Seq<(Seq<char>, Node)>, k: Seq<char>) -> Seq<
    (Seq<char>, Node),
>
    decreases t.len(),
{
    if t.len() == 0 {
        t
    } else if t[0].0 == k {
        t.subrange(1, t.len() as int)
    } else {
        seq![t[0]] + tab_remove_entry(t.subrange(1, t.len() as int), k)
    }
}

/// Remove the value at a non-empty path. A missing intermediate segment is
/// `KeyNotFound`, a non-table intermediate is `NotATable`; at the parent the
/// entry is dropped and the prior value returned (`None` if it was absent).
pub open spec fn tab_remove(t: Seq<(Seq<char>, Node)>, segs: Seq<Seq<char>>) -> Result<
    (Seq<(Seq<char>, Node)>, Option<Node>),
    TomlerError,
>
    decreases segs.len(),
{
    if segs.len() == 0 {
        Err(TomlerError::EmptyPath)
    } else if segs.len() == 1 {
        Ok((tab_remove_entry(t, segs[0]), tab_lookup(t, segs[0])))
    } else {
        match tab_lookup(t, segs[0]) {
            None => Err(TomlerError::KeyNotFound),
            Some(child) => match child {
                Node::Tab(t2) => match tab_remove(t2, segs.subrange(1, segs.len() as int)) {
                    Err(e) => Err(e),
                    Ok((t2b, removed)) => Ok(
                        (tab_upsert(t, segs[0], Node::Tab(t2b)), removed),
                    ),
                },
                _ => Err(TomlerError::NotATable),
            },
        }
    }
}

/// Keys of a table body, in entry order.
pub open spec fn tab_keys(t: Seq<(Seq<char>, Node)>) -> Seq<Seq<char>> {
    Seq::new(t.len(), |i: int| t[i].0)
}

/// Keys of a table body are pairwise distinct.
pub open spec fn tab_unique(t: Seq<(Seq<char>, Node)>) -> bool {
    forall|i: int, j: int| 0 <= i < j < t.len() ==> (#[trigger] t[i].0) != (#[trigger] t[j].0)
}

/// Well-formedness: within every table of the tree, keys are unique.
pub open spec fn node_wf(n: Node) -> bool
    decreases n,
{
    match n {
        Node::Arr(vs) => forall|i: int| 0 <= i < vs.len() ==> node_wf(#[trigger] vs[i]),
        Node::Tab(t) => tab_unique(t) && (forall|i: int|
            0 <= i < t.len() ==> node_wf(#[trigger] t[i].1)),
        _ => true,
    }
}

/// When `j` is the first index holding key `k`, lookup returns that entry.
pub proof fn lemma_lookup_first(t: Seq<(Seq<char>, Node)>, k: Seq<char>, j: int)
    requires
        0 <= j < t.len(),
        t[j].0 == k,
        forall|l: int| 0 <= l < j ==> (#[trigger] t[l].0) != k,
    ensures
        tab_lookup(t, k) == Some(t[j].1),
    decreases t.len(),
{
    if j > 0 {
        let rest = t.subrange(1, t.len() as int);
        assert forall|l: int| 0 <= l < j - 1 implies (#[trigger] rest[l].0) != k by {
            assert(rest[l] == t[l + 1]);
        }
        lemma_lookup_first(rest, k, j - 1);
    }
}

/// When no entry holds key `k`, lookup returns nothing.
pub proof fn lemma_lookup_none(t: Seq<(Seq<char>, Node)>, k: Seq<char>)
    requires
        forall|l: int| 0 <= l < t.len() ==> (#[trigger] t[l].0) != k,
    ensures
        tab_lookup(t, k) is None,
    decreases t.len(),
{
    if t.len() > 0 {
        lemma_lookup_none(t.subrange(1, t.len() as int), k);
    }
}

/// When `j` is the first index holding key `k`, upsert replaces in place.
pub proof fn lemma_upsert_found(t: Seq<(Seq<char>, Node)>, k: Seq<char>, n: Node, j: int)
    requires
        0 <= j < t.len(),
        t[j].0 == k,
        forall|l: int| 0 <= l < j ==> (#[trigger] t[l].0) != k,
    ensures
        tab_upsert(t, k, n) =~= t.update(j, (k, n)),
    decreases t.len(),
{
    if j == 0 {
        assert(tab_upsert(t, k, n) =~= t.update(0, (k, n)));
    } else {
        let rest = t.subrange(1, t.len() as int);
        assert forall|l: int| 0 <= l < j - 1 implies (#[trigger] rest[l].0) != k by {
            assert(rest[l] == t[l + 1]);
        }
        lemma_upsert_found(rest, k, n, j - 1);
        assert(tab_upsert(t, k, n) =~= t.update(j, (k, n)));
    }
}

/// When no entry holds key `k`, upsert appends at the end.
pub proof fn lemma_upsert_absent(t: Seq<(Seq<char>, Node)>, k: Seq<char>, n: Node)
    requires
        forall|l: int| 0 <= l < t.len() ==> (#[trigger] t[l].0) != k,
    ensures
        tab_upsert(t, k, n) =~= t.push((k, n)),
    decreases t.len(),
{
    if t.len() > 0 {
        lemma_upsert_absent(t.subrange(1, t.len() as int), k, n);
        assert(tab_upsert(t, k, n) =~= t.push((k, n)));
    }
}

/// When `j` is the first index holding key `k`, entry removal drops index `j`.
pub proof fn lemma_remove_entry_found(t: Seq<(Seq<char>, Node)>, k: Seq<char>, j: int)
    requires
        0 <= j < t.len(),
        t[j].0 == k,
        forall|l: int| 0 <= l < j ==> (#[trigger] t[l].0) != k,
    ensures
        tab_remove_entry(t, k) =~= t.remove(j),
    decreases t.len(),
{
    if j == 0 {
        assert(tab_remove_entry(t, k) =~= t.remove(0));
    } else {
        let rest = t.subrange(1, t.len() as int);
        assert forall|l: int| 0 <= l < j - 1 implies (#[trigger] rest[l].0) != k by {
            assert(rest[l] == t[l + 1]);
        }
        lemma_remove_entry_found(rest, k, j - 1);
        assert(tab_remove_entry(t, k) =~= t.remove(j));
    }
}

/// When no entry holds key `k`, entry removal changes nothing.
pub proof fn lemma_remove_entry_absent(t: Seq<(Seq<char>, Node)>, k: Seq<char>)
    requires
        forall|l: int| 0 <= l < t.len() ==> (#[trigger] t[l].0) != k,
    ensures
        tab_remove_entry(t, k) =~= t,
    decreases t.len(),
{
    if t.len() > 0 {
        lemma_remove_entry_absent(t.subrange(1, t.len() as int), k);
        assert(tab_remove_entry(t, k) =~= t);
    }
}

/// Setting along any non-empty path succeeds on an empty table: auto-created
/// intermediate tables can never collide with a non-table value.
pub proof fn lemma_set_empty_some(segs: Seq<Seq<char>>, n: Node)
    requires
        segs.len() > 0,
    ensures
        tab_set(Seq::<(Seq<char>, Node)>::empty(), segs, n) is Some,
    decreases segs.len(),
{
    if segs.len() > 1 {
        lemma_set_empty_some(segs.subrange(1, segs.len() as int), n);
    }
}

/// Replacing one entry of the table replaces one entry of the model.
proof fn lemma_model_update(
    es0: Seq<(String, ConfigValue)>,
    es1: Seq<(String, ConfigValue)>,
    j: int,
    key: Seq<char>,
    n: Node,
)
    requires
        0 <= j < es0.len(),
        es1.len() == es0.len(),
        forall|l: int| 0 <= l < es0.len() && l != j ==> #[trigger] es1[l] == es0[l],
        es1[j].0@ == key,
        es1[j].1.model() == n,
    ensures
        entries_model(es1) =~= entries_model(es0).update(j, (key, n)),
{
    lemma_entries_model(es0);
    lemma_entries_model(es1);
    assert forall|l: int| 0 <= l < es1.len() implies entries_model(es1)[l] == entries_model(
        es0,
    ).update(j, (key, n))[l] by {
        assert(entries_model(es1)[l] == (es1[l].0@, es1[l].1.model()));
        if l != j {
            assert(es1[l] == es0[l]);
            assert(entries_model(es0)[l] == (es0[l].0@, es0[l].1.model()));
        }
    }
}

/// Appending an entry to the table appends one entry to the model.
proof fn lemma_model_push(es0: Seq<(String, ConfigValue)>, es1: Seq<(String, ConfigValue)>, key: Seq<char>, n: Node)
    requires
        es1.len() == es0.len() + 1,
        forall|l: int| 0 <= l < es0.len() ==> #[trigger] es1[l] == es0[l],
        es1[es0.len() as int].0@ == key,
        es1[es0.len() as int].1.model() == n,
    ensures
        entries_model(es1) =~= entries_model(es0).push((key, n)),
{
    lemma_entries_model(es0);
    lemma_entries_model(es1);
    assert forall|l: int| 0 <= l < es1.len() implies entries_model(es1)[l] == entries_model(
        es0,
    ).push((key, n))[l] by {
        assert(entries_model(es1)[l] == (es1[l].0@, es1[l].1.model()));
        if l < es0.len() {
            assert(es1[l] == es0[l]);
            assert(entries_model(es0)[l] == (es0[l].0@, es0[l].1.model()));
        }
    }
}

/// The segment views of the path suffix starting at `i`.
pub open spec fn rest_segs(path: Seq<String>, i: int) -> Seq<Seq<char>> {
    segs_view(path).subrange(i, path.len() as int)
}

/// The root container of the plain model: it owns one table, the root.
///
/// Operations address entries by parsed paths. Within every table built
/// through these operations, keys stay unique ([`node_wf`]).
pub struct Document {
    root: Vec<(String, ConfigValue)>,
}

impl Document {
    /// The mathematical model of the root table.
    pub closed spec fn model(self) -> Seq<(Seq<char>, Node)> {
        entries_model(self.root@)
    }

    /// All tables of the document hold unique keys.
    pub open spec fn wf(self) -> bool {
        node_wf(Node::Tab(self.model()))
    }

    /// Creates an empty document.
    pub fn new() -> (r: Document)
        ensures
            r.model() =~= Seq::<(Seq<char>, Node)>::empty(),
            r.wf(),
    {
        Document { root: Vec::new() }
    }

    /// The top-level keys, in insertion order; empty for a fresh document.
    pub fn keys(&self) -> (r: Vec<String>)
        ensures
            segs_view(r@) =~= tab_keys(self.model()),
    {
        let mut out: Vec<String> = Vec::new();
        let mut i: usize = 0;
        proof {
            lemma_entries_model(self.root@);
        }
        while i < self.root.len()
            invariant
                i <= self.root@.len(),
                out@.len() == i,
                forall|l: int| 0 <= l < i ==> (#[trigger] out@[l]@) == self.root@[l].0@,
            decreases self.root@.len() - i,
        {
            out.push(self.root[i].0.clone());
            i += 1;
        }
        proof {
            assert(segs_view(out@) =~= tab_keys(self.model()));
        }
        out
    }

    /// Sets a value at a parsed path, creating intermediate tables for
    /// missing segments; overwrites whatever was at the last segment.
    ///
    /// Fails with `NotATable` when an intermediate segment holds a non-table
    /// value; the document is then left unchanged.
    pub fn set(&mut self, path: &[String], v: ConfigValue) -> (r: Result<(), TomlerError>)
        requires
            path@.len() > 0,
        ensures
            match r {
                Ok(_) => tab_set(old(self).model(), segs_view(path@), v.model()) == Some(
                    final(self).model(),
                ),
                Err(e) => e == TomlerError::NotATable && tab_set(
                    old(self).model(),
                    segs_view(path@),
                    v.model(),
                ) is None && final(self).model() == old(self).model(),
            },
            old(self).wf() && node_wf(v.model()) ==> final(self).wf(),
    {
        let ghost vm = v.model();
        proof {
            assert(rest_segs(path@, 0) =~= segs_view(path@));
        }
        let r = set_in(&mut self.root, path, 0, v);
        proof {
            if node_wf(Node::Tab(old(self).model())) && node_wf(vm) {
                crate::laws::lemma_set_wf(old(self).model(), segs_view(path@), vm);
            }
        }
        r
    }

    /// Removes the value at a parsed path and returns it (`None` when the
    /// last segment was absent at the parent).
    ///
    /// A missing intermediate segment fails with `KeyNotFound`, a non-table
    /// intermediate with `NotATable`; the document is then left unchanged.
    pub fn remove(&mut self, path: &[String]) -> (r: Result<Option<ConfigValue>, TomlerError>)
        requires
            path@.len() > 0,
        ensures
            ({
                let spec_r = tab_remove(old(self).model(), segs_view(path@));
                match r {
                    Ok(removed) => spec_r matches Ok(p) && p.0 == final(self).model() && p.1
                        == opt_model(removed),
                    Err(e) => spec_r matches Err(e2) && e2 == e && final(self).model()
                        == old(self).model(),
                }
            }),
            old(self).wf() ==> final(self).wf(),
    {
        proof {
            assert(rest_segs(path@, 0) =~= segs_view(path@));
        }
        let r = remove_in(&mut self.root, path, 0);
        proof {
            if node_wf(Node::Tab(old(self).model())) {
                crate::laws::lemma_remove_wf(old(self).model(), segs_view(path@));
            }
        }
        r
    }

    /// Resolves a parsed path; `None` both for a missing key and for a
    /// non-table met before the last segment.
    pub fn get<'a>(&'a self, path: &[String]) -> (r: Option<&'a ConfigValue>)
        requires
            path@.len() > 0,
        ensures
            match r {
                Some(v) => tab_get(self.model(), segs_view(path@)) == Some(v.model()),
                None => tab_get(self.model(), segs_view(path@)) is None,
            },
    {
        proof {
            assert(rest_segs(path@, 0) =~= segs_view(path@));
        }
        get_in(&self.root, path, 0)
    }
}

/// Recursive walk for [`Document::set`], over the path suffix from `i`.
///
/// On failure the table is left unchanged: the walk only mutates after the
/// whole remaining path is known to succeed, so no auto-created intermediate
/// table is left behind by a failing call.
fn set_in(es: &mut Vec<(String, ConfigValue)>, path: &[String], i: usize, v: ConfigValue) -> (r: Result<
    (),
    TomlerError,
>)
    requires
        i < path@.len(),
    ensures
        match r {
            Ok(_) => tab_set(entries_model(old(es)@), rest_segs(path@, i as int), v.model())
                == Some(entries_model(final(es)@)),
            Err(e) => e == TomlerError::NotATable && tab_set(
                entries_model(old(es)@),
                rest_segs(path@, i as int),
                v.model(),
            ) is None && entries_model(final(es)@) == entries_model(old(es)@),
        },
    decreases path@.len() - i,
{
    proof {
        lemma_entries_model(es@);
    }
    let ghost t0 = entries_model(es@);
    let ghost segs = rest_segs(path@, i as int);
    let ghost k = path@[i as int]@;
    let j_opt = find_key(es, &path[i]);
    proof {
        match j_opt {
            Some(j) => {
                assert forall|l: int| 0 <= l < j implies (#[trigger] t0[l].0) != k by {
                    assert(es@[l].0@ != k);
                }
                lemma_lookup_first(t0, k, j as int);
            },
            None => {
                assert forall|l: int| 0 <= l < t0.len() implies (#[trigger] t0[l].0) != k by {
                    assert(es@[l].0@ != k);
                }
                lemma_lookup_none(t0, k);
            },
        }
    }
    if i + 1 == path.len() {
        match j_opt {
            Some(j) => {
                let ghost es0 = es@;
                let old_entry = es.remove(j);
                es.insert(j, (old_entry.0, v));
                proof {
                    assert(es@ =~= es0.update(j as int, (es0[j as int].0, v)));
                    lemma_upsert_found(t0, k, v.model(), j as int);
                    lemma_model_update(es0, es@, j as int, k, v.model());
                }
            },
            None => {
                let ghost es0 = es@;
                es.push((path[i].clone(), v));
                proof {
                    lemma_upsert_absent(t0, k, v.model());
                    lemma_model_push(es0, es@, k, v.model());
                }
            },
        }
        Ok(())
    } else {
        let ghost rest = rest_segs(path@, i as int + 1);
        proof {
            assert(segs.subrange(1, segs.len() as int) =~= rest);
        }
        match j_opt {
            Some(j) => {
                let old_entry = es.remove(j);
                let (key, child) = old_entry;
                match child {
                    ConfigValue::Table(mut sub) => {
                        let ghost sub0 = entries_model(sub@);
                        let r = set_in(&mut sub, path, i + 1, v);
                        match r {
                            Ok(_) => {
                                let ghost subm = entries_model(sub@);
                                es.insert(j, (key, ConfigValue::Table(sub)));
                                proof {
                                    assert forall|l: int|
                                        0 <= l < old(es)@.len() && l != j implies #[trigger] es@[l]
                                        == old(es)@[l] by {}
                                    lemma_upsert_found(t0, k, Node::Tab(subm), j as int);
                                    lemma_model_update(old(es)@, es@, j as int, k, Node::Tab(subm));
                                }
                                Ok(())
                            },
                            Err(e) => {
                                let ghost subm = entries_model(sub@);
                                es.insert(j, (key, ConfigValue::Table(sub)));
                                proof {
                                    assert forall|l: int|
                                        0 <= l < old(es)@.len() && l != j implies #[trigger] es@[l]
                                        == old(es)@[l] by {}
                                    lemma_model_update(old(es)@, es@, j as int, k, Node::Tab(subm));
                                    assert(t0[j as int] == (k, Node::Tab(subm)));
                                    assert(t0.update(j as int, (k, Node::Tab(subm))) =~= t0);
                                }
                                Err(e)
                            },
                        }
                    },
                    other => {
                        es.insert(j, (key, other));
                        proof {
                            assert(es@ =~= old(es)@);
                            assert(!(t0[j as int].1 is Tab));
                        }
                        Err(TomlerError::NotATable)
                    },
                }
            },
            None => {
                let mut sub: Vec<(String, ConfigValue)> = Vec::new();
                let r = set_in(&mut sub, path, i + 1, v);
                match r {
                    Ok(_) => {
                        let ghost subm = entries_model(sub@);
                        es.push((path[i].clone(), ConfigValue::Table(sub)));
                        proof {
                            lemma_upsert_absent(t0, k, Node::Tab(subm));
                            lemma_model_push(old(es)@, es@, k, Node::Tab(subm));
                        }
                        Ok(())
                    },
                    Err(e) => {
                        proof {
                            lemma_set_empty_some(rest, v.model());
                            assert(false);
                        }
                        Err(e)
                    },
                }
            },
        }
    }
}

/// The model of an optional removed value.
pub open spec fn opt_model(o: Option<ConfigValue>) -> Option<Node> {
    match o {
        Some(v) => Some(v.model()),
        None => None,
    }
}

/// Removing one entry of the table removes one entry of the model.
proof fn lemma_model_remove(es0: Seq<(String, ConfigValue)>, es1: Seq<(String, ConfigValue)>, j: int)
    requires
        0 <= j < es0.len(),
        es1 =~= es0.remove(j),
    ensures
        entries_model(es1) =~= entries_model(es0).remove(j),
{
    lemma_entries_model(es0);
    lemma_entries_model(es1);
    assert forall|l: int| 0 <= l < es1.len() implies entries_model(es1)[l] == entries_model(
        es0,
    ).remove(j)[l] by {
        assert(entries_model(es1)[l] == (es1[l].0@, es1[l].1.model()));
        if l < j {
            assert(es1[l] == es0[l]);
            assert(entries_model(es0)[l] == (es0[l].0@, es0[l].1.model()));
        } else {
            assert(es1[l] == es0[l + 1]);
            assert(entries_model(es0)[l + 1] == (es0[l + 1].0@, es0[l + 1].1.model()));
        }
    }
}

/// Recursive walk for [`Document::remove`], over the path suffix from `i`.
fn remove_in(es: &mut Vec<(String, ConfigValue)>, path: &[String], i: usize) -> (r: Result<
    Option<ConfigValue>,
    TomlerError,
>)
    requires
        i < path@.len(),
    ensures
        ({
            let spec_r = tab_remove(entries_model(old(es)@), rest_segs(path@, i as int));
            match r {
                Ok(removed) => spec_r matches Ok(p) && p.0 == entries_model(final(es)@) && p.1
                    == opt_model(removed),
                Err(e) => spec_r matches Err(e2) && e2 == e && entries_model(final(es)@)
                    == entries_model(old(es)@),
            }
        }),
    decreases path@.len() - i,
{
    proof {
        lemma_entries_model(es@);
    }
    let ghost t0 = entries_model(es@);
    let ghost segs = rest_segs(path@, i as int);
    let ghost k = path@[i as int]@;
    let j_opt = find_key(es, &path[i]);
    proof {
        match j_opt {
            Some(j) => {
                assert forall|l: int| 0 <= l < j implies (#[trigger] t0[l].0) != k by {
                    assert(es@[l].0@ != k);
                }
                lemma_lookup_first(t0, k, j as int);
            },
            None => {
                assert forall|l: int| 0 <= l < t0.len() implies (#[trigger] t0[l].0) != k by {
                    assert(es@[l].0@ != k);
                }
                lemma_lookup_none(t0, k);
            },
        }
    }
    if i + 1 == path.len() {
        match j_opt {
            Some(j) => {
                let ghost es0 = es@;
                let entry = es.remove(j);
                proof {
                    lemma_remove_entry_found(t0, k, j as int);
                    lemma_model_remove(es0, es@, j as int);
                }
                Ok(Some(entry.1))
            },
            None => {
                proof {
                    lemma_remove_entry_absent(t0, k);
                }
                Ok(None)
            },
        }
    } else {
        let ghost rest = rest_segs(path@, i as int + 1);
        proof {
            assert(segs.subrange(1, segs.len() as int) =~= rest);
        }
        match j_opt {
            None => Err(TomlerError::KeyNotFound),
            Some(j) => {
                let old_entry = es.remove(j);
                let (key, child) = old_entry;
                match child {
                    ConfigValue::Table(mut sub) => {
                        let r = remove_in(&mut sub, path, i + 1);
                        let ghost subm = entries_model(sub@);
                        es.insert(j, (key, ConfigValue::Table(sub)));
                        proof {
                            assert forall|l: int|
                                0 <= l < old(es)@.len() && l != j implies #[trigger] es@[l]
                                == old(es)@[l] by {}
                            lemma_model_update(old(es)@, es@, j as int, k, Node::Tab(subm));
                            lemma_upsert_found(t0, k, Node::Tab(subm), j as int);
                            if r is Err {
                                assert(t0[j as int] == (k, Node::Tab(subm)));
                                assert(t0.update(j as int, (k, Node::Tab(subm))) =~= t0);
                            }
                        }
                        match r {
                            Ok(removed) => Ok(removed),
                            Err(e) => Err(e),
                        }
                    },
                    other => {
                        es.insert(j, (key, other));
                        proof {
                            assert(es@ =~= old(es)@);
                        }
                        Err(TomlerError::NotATable)
                    },
                }
            },
        }
    }
}

/// Index of the first entry whose key equals `k`, if any.
fn find_key(es: &Vec<(String, ConfigValue)>, k: &String) -> (r: Option<usize>)
    ensures
        match r {
            Some(j) => j < es@.len() && es@[j as int].0@ == k@ && (forall|l: int|
                0 <= l < j ==> (#[trigger] es@[l].0@) != k@),
            None => forall|l: int| 0 <= l < es@.len() ==> (#[trigger] es@[l].0@) != k@,
        },
{
    let mut i: usize = 0;
    while i < es.len()
        invariant
            i <= es@.len(),
            forall|l: int| 0 <= l < i ==> (#[trigger] es@[l].0@) != k@,
        decreases es@.len() - i,
    {
        if es[i].0 == *k {
            return Some(i);
        }
        i += 1;
    }
    None
}

/// Recursive walk for [`Document::get`], over the path suffix from `i`.
fn get_in<'a>(es: &'a Vec<(String, ConfigValue)>, path: &[String], i: usize) -> (r: Option<&'a ConfigValue>)
    requires
        i < path@.len(),
    ensures
        match r {
            Some(v) => tab_get(entries_model(es@), rest_segs(path@, i as int)) == Some(v.model()),
            None => tab_get(entries_model(es@), rest_segs(path@, i as int)) is None,
        },
    decreases path@.len() - i,
{
    proof {
        lemma_entries_model(es@);
    }
    let ghost segs = rest_segs(path@, i as int);
    let ghost t = entries_model(es@);
    match find_key(es, &path[i]) {
        None => {
            proof {
                assert forall|l: int| 0 <= l < t.len() implies (#[trigger] t[l].0)
                    != path@[i as int]@ by {
                    assert(es@[l].0@ != path@[i as int]@);
                }
                lemma_lookup_none(t, path@[i as int]@);
            }
            None
        },
        Some(j) => {
            proof {
                assert forall|l: int| 0 <= l < j implies (#[trigger] t[l].0)
                    != path@[i as int]@ by {
                    assert(es@[l].0@ != path@[i as int]@);
                }
                lemma_lookup_first(t, path@[i as int]@, j as int);
            }
            if i + 1 == path.len() {
                Some(&es[j].1)
            } else {
                match &es[j].1 {
                    ConfigValue::Table(sub) => {
                        proof {
                            assert(segs.subrange(1, segs.len() as int)
                                =~= rest_segs(path@, i as int + 1));
                        }
                        get_in(sub, path, i + 1)
                    },
                    _ => None,
                }
            }
        },
    }
}

} // verus!
