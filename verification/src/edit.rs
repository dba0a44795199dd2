//! The format-preserving editor: resolves and mutates a `toml_edit` document
//! in place, addressed by dot-separated keys, leaving the text of every node
//! off the edited path untouched.
//!
//! Contracts are stated over the document model of [`crate::toml_bridge`]:
//! `get_value` pins the returned token to the model, and
//! `set_nested_in_document` pins the whole resulting model through
//! [`set_shape`].

use vstd::prelude::*;
use vstd::string::StrSliceExecFns;
use crate::path::{split_on, split_char};
use crate::tree::{segs_view, rest_segs};
use crate::toml_bridge::{
    item_nodes, item_tables, doc_nodes, doc_tables, value_info, value_nodes, float_value_text, descend,
    descend_set, preserved_except, doc_item, doc_item_mut, item_get, item_text, item_str,
    item_is_table, item_insert_empty_table, item_child_table_mut, item_set_value, item_remove_entry,
    doc_keys, doc_top_keys, value_elems, value_from_bool,
    value_from_i64, value_from_string, value_array_from_vec, parse_float_value,
};
use crate::value::{ConfigValue, Node, values_model, lemma_values_model};
use crate::infer::{infer, infer_spec, infer_single_spec, int_decimal_token, trim_str, trim_spec};
use vstd::string::StringExecFns;
use crate::error::TomlerError;

verus! {

broadcast use vstd::std_specs::vec::group_vec_axioms;

/// The model of the subtree at the end of a path of keys.
pub open spec fn descend_path(
    m: Map<Seq<Seq<char>>, (Seq<char>, Option<Seq<char>>)>,
    segs: Seq<Seq<char>>,
) -> Map<Seq<Seq<char>>, (Seq<char>, Option<Seq<char>>)>
    decreases segs.len(),
{
    if segs.len() == 0 {
        m
    } else {
        descend_path(descend(m, segs[0]), segs.subrange(1, segs.len() as int))
    }
}

/// Resolving `rest` below the subtree at `pre` is resolving `pre + rest` in
/// the whole model, with the same node.
proof fn lemma_descend_path(
    m: Map<Seq<Seq<char>>, (Seq<char>, Option<Seq<char>>)>,
    pre: Seq<Seq<char>>,
    rest: Seq<Seq<char>>,
)
    ensures
        descend_path(m, pre).dom().contains(rest) <==> m.dom().contains(pre + rest),
        m.dom().contains(pre + rest) ==> descend_path(m, pre)[rest] == m[pre + rest],
    decreases pre.len(),
{
    if pre.len() == 0 {
        assert(pre + rest =~= rest);
    } else {
        let m2 = descend(m, pre[0]);
        let pre2 = pre.subrange(1, pre.len() as int);
        lemma_descend_path(m2, pre2, rest);
        assert(seq![pre[0]] + (pre2 + rest) =~= pre + rest);
    }
}

/// Walk the segments from an item; the resolved item's model is the
/// subtree's model, and failure means the full path resolves nothing.
fn walk<'a>(root: &'a toml_edit::Item, parts: &Vec<String>) -> (r: Option<&'a toml_edit::Item>)
    requires
        item_nodes(*root).dom().contains(Seq::<Seq<char>>::empty()),
    ensures
        match r {
            Some(c) => item_nodes(*root).dom().contains(segs_view(parts@)) && item_nodes(*c)
                == descend_path(item_nodes(*root), segs_view(parts@)) && item_nodes(
                *c,
            ).dom().contains(Seq::<Seq<char>>::empty()),
            None => !item_nodes(*root).dom().contains(segs_view(parts@)),
        },
{
    let ghost m = item_nodes(*root);
    let ghost segs = segs_view(parts@);
    let mut cur: &toml_edit::Item = root;
    let mut i: usize = 0;
    while i < parts.len()
        invariant
            0 <= i <= parts@.len(),
            m == item_nodes(*root),
            segs == segs_view(parts@),
            segs.len() == parts@.len(),
            item_nodes(*cur) == descend_path(m, segs.subrange(0, i as int)),
            item_nodes(*cur).dom().contains(Seq::<Seq<char>>::empty()),
        decreases parts@.len() - i,
    {
        let ghost pre = segs.subrange(0, i as int);
        match item_get(cur, parts[i].as_str()) {
            Some(c) => {
                proof {
                    assert(descend(item_nodes(*cur), segs[i as int]) =~= descend_path(
                        m,
                        segs.subrange(0, i as int + 1),
                    )) by {
                        assert(segs.subrange(0, i as int + 1) =~= pre.push(segs[i as int]));
                        lemma_descend_push(m, pre, segs[i as int]);
                    }
                }
                cur = c;
            },
            None => {
                proof {
                    if m.dom().contains(segs) {
                        let rest = segs.subrange(i as int, segs.len() as int);
                        assert(pre + rest =~= segs);
                        lemma_descend_path(m, pre, rest);
                        assert(item_nodes(*cur).dom().contains(rest));
                        assert(rest.len() >= 1 && rest[0] == segs[i as int]);
                        assert(false);
                    }
                }
                return None;
            },
        }
        i += 1;
    }
    proof {
        assert(segs.subrange(0, segs.len() as int) =~= segs);
        lemma_descend_path(m, segs, Seq::<Seq<char>>::empty());
        assert(segs + Seq::<Seq<char>>::empty() =~= segs);
    }
    Some(cur)
}

/// Descending one more key is descending a one-longer path.
proof fn lemma_descend_push(
    m: Map<Seq<Seq<char>>, (Seq<char>, Option<Seq<char>>)>,
    pre: Seq<Seq<char>>,
    k: Seq<char>,
)
    ensures
        descend_path(m, pre.push(k)) == descend(descend_path(m, pre), k),
    decreases pre.len(),
{
    if pre.len() == 0 {
        assert(pre.push(k).subrange(1, pre.push(k).len() as int) =~= Seq::<Seq<char>>::empty());
        assert(pre.push(k)[0] == k);
        assert(descend_path(m, pre.push(k)) == descend_path(
            descend(m, k),
            Seq::<Seq<char>>::empty(),
        ));
    } else {
        let m2 = descend(m, pre[0]);
        let pre2 = pre.subrange(1, pre.len() as int);
        lemma_descend_push(m2, pre2, k);
        assert(pre.push(k)[0] == pre[0]);
        assert(pre.push(k).subrange(1, pre.push(k).len() as int) =~= pre2.push(k));
    }
}

/// Get a textual representation of a key from a document: the TOML token
/// of the value, surrounding whitespace trimmed (so strings keep their
/// quotes). `Some` exactly when the dot-separated key resolves.
pub fn get_value(doc: &toml_edit::DocumentMut, key: &str) -> (r: Option<String>)
    ensures
        ({
            let segs = split_on(key@, '.');
            let m = doc_nodes(*doc);
            match r {
                Some(s) => m.dom().contains(segs) && s@ == trim_spec(m[segs].0),
                None => !m.dom().contains(segs),
            }
        }),
{
    let parts = split_char(key, '.');
    let root = doc_item(doc);
    proof {
        assert(segs_view(parts@) =~~= split_on(key@, '.'));
    }
    match walk(root, &parts) {
        Some(item) => {
            let s = item_text(item);
            let trimmed = String::from_str(trim_str(s.as_str()));
            proof {
                lemma_descend_path(
                    doc_nodes(*doc),
                    segs_view(parts@),
                    Seq::<Seq<char>>::empty(),
                );
                assert(segs_view(parts@) + Seq::<Seq<char>>::empty() =~= segs_view(parts@));
            }
            Some(trimmed)
        },
        None => None,
    }
}

/// Like [`get_value`], but in raw mode: when the resolved value is a
/// string, its unquoted contents; any other value renders as its trimmed
/// token.
pub fn get_value_raw(doc: &toml_edit::DocumentMut, key: &str) -> (r: Option<String>)
    ensures
        ({
            let segs = split_on(key@, '.');
            let m = doc_nodes(*doc);
            match r {
                Some(s) => m.dom().contains(segs) && s@ == (match m[segs].1 {
                    Some(c) => c,
                    None => trim_spec(m[segs].0),
                }),
                None => !m.dom().contains(segs),
            }
        }),
{
    let parts = split_char(key, '.');
    let root = doc_item(doc);
    proof {
        assert(segs_view(parts@) =~~= split_on(key@, '.'));
    }
    match walk(root, &parts) {
        Some(item) => {
            proof {
                lemma_descend_path(
                    doc_nodes(*doc),
                    segs_view(parts@),
                    Seq::<Seq<char>>::empty(),
                );
                assert(segs_view(parts@) + Seq::<Seq<char>>::empty() =~= segs_view(parts@));
            }
            match item_str(item) {
                Some(s) => Some(s),
                None => {
                    let s = item_text(item);
                    Some(String::from_str(trim_str(s.as_str())))
                },
            }
        },
        None => None,
    }
}

/// What a successful set at `segs` does to a table's model: entries under
/// other keys keep their text, table-ness and resolution exactly
/// ([`preserved_except`], at every level of the walk); an intermediate key
/// keeps its subtree when it holds a table and is freshly created when it
/// was absent (a present non-table makes the set fail instead, see
/// [`set_ok`]); the last segment ends up holding exactly the given value.
///
/// The token of each table along the walk is not pinned (its rendering
/// changes with the edit), only its presence and table-ness are.
pub open spec fn set_shape(
    m0: Map<Seq<Seq<char>>, (Seq<char>, Option<Seq<char>>)>,
    t0: Set<Seq<Seq<char>>>,
    m1: Map<Seq<Seq<char>>, (Seq<char>, Option<Seq<char>>)>,
    t1: Set<Seq<Seq<char>>>,
    segs: Seq<Seq<char>>,
    vnodes: Map<Seq<Seq<char>>, (Seq<char>, Option<Seq<char>>)>,
) -> bool
    decreases segs.len(),
{
    segs.len() > 0 && {
        let k = segs[0];
        preserved_except(m0, t0, m1, t1, k) && m1.dom().contains(Seq::<Seq<char>>::empty())
            && t1.contains(Seq::<Seq<char>>::empty()) && if segs.len() == 1 {
            descend(m1, k) == vnodes && m1.dom().contains(seq![k]) && descend_set(t1, k)
                =~= Set::<Seq<Seq<char>>>::empty()
        } else {
            let rest = segs.subrange(1, segs.len() as int);
            if t0.contains(seq![k]) {
                set_shape(
                    descend(m0, k),
                    descend_set(t0, k),
                    descend(m1, k),
                    descend_set(t1, k),
                    rest,
                    vnodes,
                )
            } else {
                !m0.dom().contains(seq![k]) && exists|info: (Seq<char>, Option<Seq<char>>)|
                    set_shape(
                        Map::<Seq<Seq<char>>, (Seq<char>, Option<Seq<char>>)>::empty().insert(
                            Seq::<Seq<char>>::empty(),
                            info,
                        ),
                        Set::<Seq<Seq<char>>>::empty().insert(Seq::<Seq<char>>::empty()),
                        descend(m1, k),
                        descend_set(t1, k),
                        rest,
                        vnodes,
                    )
            }
        }
    }
}

/// Whether a set at `segs` can proceed: every intermediate segment that is
/// present holds a table (absent ones are auto-created, and the last
/// segment is overwritten whatever it holds).
pub open spec fn set_ok(
    m: Map<Seq<Seq<char>>, (Seq<char>, Option<Seq<char>>)>,
    t: Set<Seq<Seq<char>>>,
    segs: Seq<Seq<char>>,
) -> bool
    decreases segs.len(),
{
    segs.len() <= 1 || {
        let k = segs[0];
        if t.contains(seq![k]) {
            set_ok(descend(m, k), descend_set(t, k), segs.subrange(1, segs.len() as int))
        } else {
            !m.dom().contains(seq![k])
        }
    }
}

/// Read-only walk deciding [`set_ok`]: every present intermediate segment
/// must hold a table.
fn check_path(root: &toml_edit::Item, parts: &Vec<String>) -> (r: bool)
    requires
        parts@.len() >= 1,
        item_nodes(*root).dom().contains(Seq::<Seq<char>>::empty()),
    ensures
        r == set_ok(item_nodes(*root), item_tables(*root), segs_view(parts@)),
{
    let ghost m = item_nodes(*root);
    let ghost t = item_tables(*root);
    let ghost segs = segs_view(parts@);
    let mut cur: &toml_edit::Item = root;
    let n = parts.len();
    let mut i: usize = 0;
    proof {
        assert(segs.subrange(0, segs.len() as int) =~= segs);
    }
    while i < n - 1
        invariant
            parts@.len() == n,
            m == item_nodes(*root),
            t == item_tables(*root),
            segs == segs_view(parts@),
            segs.len() == n,
            0 <= i < n,
            set_ok(m, t, segs) == set_ok(
                item_nodes(*cur),
                item_tables(*cur),
                segs.subrange(i as int, segs.len() as int),
            ),
        decreases n - i,
    {
        let ghost rest = segs.subrange(i as int, segs.len() as int);
        let ghost k = segs[i as int];
        proof {
            assert(segs_view(parts@)[i as int] == parts@[i as int]@);
            assert(k == parts@[i as int]@);
            assert(rest[0] == k);
            assert(rest.len() >= 2);
            assert(rest.subrange(1, rest.len() as int) =~= segs.subrange(
                i as int + 1,
                segs.len() as int,
            ));
            assert(seq![k] + Seq::<Seq<char>>::empty() =~= seq![k]);
        }
        match item_get(cur, parts[i].as_str()) {
            None => {
                proof {
                    assert(seq![k].len() >= 1 && seq![k][0] == k);
                    assert(!item_nodes(*cur).dom().contains(seq![k]));
                    assert(!item_tables(*cur).contains(seq![k]));
                }
                return true;
            },
            Some(c) => {
                if !item_is_table(c) {
                    proof {
                        assert(seq![k].len() >= 1 && seq![k][0] == k);
                        assert(!item_tables(*cur).contains(seq![k]));
                        assert(item_nodes(*cur).dom().contains(seq![k]));
                        assert(!set_ok(
                            item_nodes(*cur),
                            item_tables(*cur),
                            segs.subrange(i as int, segs.len() as int),
                        ));
                    }
                    return false;
                }
                proof {
                    assert(item_tables(*cur).contains(seq![k]));
                }
                cur = c;
            },
        }
        i += 1;
    }
    proof {
        assert(segs.subrange(i as int, segs.len() as int).len() <= 1);
    }
    true
}

/// Round trip through the format-preserving editor: after a set described
/// by [`set_shape`], the edited path resolves, and resolves to the value
/// that was set — so a following `get` returns that value's token.
pub proof fn lemma_set_shape_resolves(
    m0: Map<Seq<Seq<char>>, (Seq<char>, Option<Seq<char>>)>,
    t0: Set<Seq<Seq<char>>>,
    m1: Map<Seq<Seq<char>>, (Seq<char>, Option<Seq<char>>)>,
    t1: Set<Seq<Seq<char>>>,
    segs: Seq<Seq<char>>,
    vnodes: Map<Seq<Seq<char>>, (Seq<char>, Option<Seq<char>>)>,
)
    requires
        set_shape(m0, t0, m1, t1, segs, vnodes),
        vnodes.dom().contains(Seq::<Seq<char>>::empty()),
    ensures
        m1.dom().contains(segs),
        m1[segs] == vnodes[Seq::<Seq<char>>::empty()],
    decreases segs.len(),
{
    let k = segs[0];
    if segs.len() == 1 {
        assert(seq![k] + Seq::<Seq<char>>::empty() =~= seq![k]);
        assert(descend(m1, k)[Seq::<Seq<char>>::empty()] == vnodes[Seq::<Seq<char>>::empty()]);
        assert(segs =~= seq![k]);
    } else {
        let rest = segs.subrange(1, segs.len() as int);
        if t0.contains(seq![k]) {
            lemma_set_shape_resolves(
                descend(m0, k),
                descend_set(t0, k),
                descend(m1, k),
                descend_set(t1, k),
                rest,
                vnodes,
            );
        } else {
            let info = choose|info: (Seq<char>, Option<Seq<char>>)|
                set_shape(
                    Map::<Seq<Seq<char>>, (Seq<char>, Option<Seq<char>>)>::empty().insert(
                        Seq::<Seq<char>>::empty(),
                        info,
                    ),
                    Set::<Seq<Seq<char>>>::empty().insert(Seq::<Seq<char>>::empty()),
                    descend(m1, k),
                    descend_set(t1, k),
                    rest,
                    vnodes,
                );
            lemma_set_shape_resolves(
                Map::<Seq<Seq<char>>, (Seq<char>, Option<Seq<char>>)>::empty().insert(
                    Seq::<Seq<char>>::empty(),
                    info,
                ),
                Set::<Seq<Seq<char>>>::empty().insert(Seq::<Seq<char>>::empty()),
                descend(m1, k),
                descend_set(t1, k),
                rest,
                vnodes,
            );
        }
        assert(descend(m1, k).dom().contains(rest));
        assert(seq![k] + rest =~= segs);
    }
}

/// The recursive walk of [`set_nested_in_document`]: create the table
/// under the current segment when it is absent (a present non-table was
/// ruled out by [`check_path`]), descend, and place the value at the last
/// segment.
fn set_path(it: &mut toml_edit::Item, parts: &Vec<String>, i: usize, v: toml_edit::Value)
    requires
        i < parts@.len(),
        item_nodes(*old(it)).dom().contains(Seq::<Seq<char>>::empty()),
        item_tables(*old(it)).contains(Seq::<Seq<char>>::empty()),
        set_ok(item_nodes(*old(it)), item_tables(*old(it)), rest_segs(parts@, i as int)),
    ensures
        set_shape(
            item_nodes(*old(it)),
            item_tables(*old(it)),
            item_nodes(*final(it)),
            item_tables(*final(it)),
            rest_segs(parts@, i as int),
            value_nodes(v),
        ),
    decreases parts@.len() - i,
{
    let ghost m0 = item_nodes(*it);
    let ghost t0 = item_tables(*it);
    let ghost segs = rest_segs(parts@, i as int);
    let ghost k = parts@[i as int]@;
    proof {
        assert(segs[0] == k);
    }
    let n = parts.len();
    if i + 1 == n {
        item_set_value(it, parts[i].as_str(), v);
    } else {
        let ghost rest = rest_segs(parts@, i as int + 1);
        proof {
            assert(segs.subrange(1, segs.len() as int) =~= rest);
        }
        let had_table = match item_get(it, parts[i].as_str()) {
            Some(c) => {
                let b = item_is_table(c);
                proof {
                    assert(seq![k] + Seq::<Seq<char>>::empty() =~= seq![k]);
                    assert(item_tables(*c) == descend_set(t0, k));
                    assert(b == t0.contains(seq![k]));
                }
                b
            },
            None => {
                proof {
                    assert(seq![k].len() >= 1 && seq![k][0] == k);
                    assert(!t0.contains(seq![k]));
                }
                false
            },
        };
        proof {
            assert(had_table == t0.contains(seq![k]));
        }
        proof {
            if !had_table {
                assert(!m0.dom().contains(seq![k]));
            }
        }
        if !had_table {
            item_insert_empty_table(it, parts[i].as_str());
        }
        let ghost ma = item_nodes(*it);
        let ghost ta = item_tables(*it);
        proof {
            if !had_table {
                assert(descend_set(ta, k).contains(Seq::<Seq<char>>::empty()));
            }
            assert(ta.contains(seq![k]));
        }
        let c = item_child_table_mut(it, parts[i].as_str());
        proof {
            if had_table {
                assert(set_ok(item_nodes(*c), item_tables(*c), rest));
            } else {
                if rest.len() > 1 {
                    let k2 = rest[0];
                    assert(seq![k2] != Seq::<Seq<char>>::empty());
                    assert(!item_tables(*c).contains(seq![k2]));
                    assert(!item_nodes(*c).dom().contains(seq![k2]));
                }
                assert(set_ok(item_nodes(*c), item_tables(*c), rest));
            }
        }
        set_path(c, parts, i + 1, v);
        proof {
            assert(preserved_except(
                m0,
                t0,
                item_nodes(*final(it)),
                item_tables(*final(it)),
                k,
            ));
            if !had_table {
                let fresh_info = ma[seq![k]];
                let fm = Map::<Seq<Seq<char>>, (Seq<char>, Option<Seq<char>>)>::empty().insert(
                    Seq::<Seq<char>>::empty(),
                    fresh_info,
                );
                let ft = Set::<Seq<Seq<char>>>::empty().insert(Seq::<Seq<char>>::empty());
                assert(descend(ma, k) =~= fm) by {
                    assert(seq![k] + Seq::<Seq<char>>::empty() =~= seq![k]);
                }
                assert(descend_set(ta, k) =~= ft) by {
                    assert(seq![k] + Seq::<Seq<char>>::empty() =~= seq![k]);
                }
            }
        }
    }
}

/// Set a nested (dot-notated) key in the document, creating tables for
/// absent intermediate segments; overwrites whatever the last segment held.
///
/// Fails with `NotATable` when an intermediate segment is present and holds
/// a non-table value; the document is then left unchanged. On success,
/// every entry off the walked path keeps its resolution, table-ness and
/// exact token text: the format-preserving contract, stated by
/// [`set_shape`].
pub fn set_nested_in_document(doc: &mut toml_edit::DocumentMut, key: &str, v: toml_edit::Value) -> (r:
    Result<(), TomlerError>)
    ensures
        ({
            let segs = split_on(key@, '.');
            match r {
                Ok(_) => set_ok(doc_nodes(*old(doc)), doc_tables(*old(doc)), segs) && set_shape(
                    doc_nodes(*old(doc)),
                    doc_tables(*old(doc)),
                    doc_nodes(*final(doc)),
                    doc_tables(*final(doc)),
                    segs,
                    value_nodes(v),
                ),
                Err(e) => e == TomlerError::NotATable && !set_ok(
                    doc_nodes(*old(doc)),
                    doc_tables(*old(doc)),
                    segs,
                ) && doc_nodes(*final(doc)) == doc_nodes(*old(doc)) && doc_tables(*final(doc))
                    == doc_tables(*old(doc)),
            }
        }),
{
    let parts = split_char(key, '.');
    proof {
        assert(segs_view(parts@) =~~= split_on(key@, '.'));
        assert(rest_segs(parts@, 0) =~= segs_view(parts@));
    }
    let ok = check_path(doc_item(doc), &parts);
    if !ok {
        return Err(TomlerError::NotATable);
    }
    let it = doc_item_mut(doc);
    set_path(it, &parts, 0, v);
    Ok(())
}

/// The error of a `remove` at `segs`, if it must fail: a missing
/// intermediate segment is `KeyNotFound`, a present non-table intermediate
/// is `NotATable`; the walk reports the first of these it meets.
pub open spec fn remove_err(
    m: Map<Seq<Seq<char>>, (Seq<char>, Option<Seq<char>>)>,
    t: Set<Seq<Seq<char>>>,
    segs: Seq<Seq<char>>,
) -> Option<TomlerError>
    decreases segs.len(),
{
    if segs.len() <= 1 {
        None
    } else {
        let k = segs[0];
        if t.contains(seq![k]) {
            remove_err(descend(m, k), descend_set(t, k), segs.subrange(1, segs.len() as int))
        } else if m.dom().contains(seq![k]) {
            Some(TomlerError::NotATable)
        } else {
            Some(TomlerError::KeyNotFound)
        }
    }
}

/// What a successful remove at `segs` does to a table's model: entries
/// under other keys keep their text, table-ness and resolution exactly at
/// every level of the walk, and nothing resolves under the last segment any
/// more.
pub open spec fn remove_shape(
    m0: Map<Seq<Seq<char>>, (Seq<char>, Option<Seq<char>>)>,
    t0: Set<Seq<Seq<char>>>,
    m1: Map<Seq<Seq<char>>, (Seq<char>, Option<Seq<char>>)>,
    t1: Set<Seq<Seq<char>>>,
    segs: Seq<Seq<char>>,
) -> bool
    decreases segs.len(),
{
    segs.len() > 0 && {
        let k = segs[0];
        preserved_except(m0, t0, m1, t1, k) && m1.dom().contains(Seq::<Seq<char>>::empty())
            && t1.contains(Seq::<Seq<char>>::empty()) && if segs.len() == 1 {
            descend(m1, k).dom() =~= Set::<Seq<Seq<char>>>::empty() && descend_set(t1, k)
                =~= Set::<Seq<Seq<char>>>::empty()
        } else {
            remove_shape(
                descend(m0, k),
                descend_set(t0, k),
                descend(m1, k),
                descend_set(t1, k),
                segs.subrange(1, segs.len() as int),
            )
        }
    }
}

/// Read-only walk deciding [`remove_err`].
fn check_remove(root: &toml_edit::Item, parts: &Vec<String>) -> (r: Option<TomlerError>)
    requires
        parts@.len() >= 1,
        item_nodes(*root).dom().contains(Seq::<Seq<char>>::empty()),
    ensures
        r == remove_err(item_nodes(*root), item_tables(*root), segs_view(parts@)),
{
    let ghost m = item_nodes(*root);
    let ghost t = item_tables(*root);
    let ghost segs = segs_view(parts@);
    let mut cur: &toml_edit::Item = root;
    let n = parts.len();
    let mut i: usize = 0;
    proof {
        assert(segs.subrange(0, segs.len() as int) =~= segs);
    }
    while i < n - 1
        invariant
            parts@.len() == n,
            m == item_nodes(*root),
            t == item_tables(*root),
            segs == segs_view(parts@),
            segs.len() == n,
            0 <= i < n,
            remove_err(m, t, segs) == remove_err(
                item_nodes(*cur),
                item_tables(*cur),
                segs.subrange(i as int, segs.len() as int),
            ),
        decreases n - i,
    {
        let ghost rest = segs.subrange(i as int, segs.len() as int);
        let ghost k = segs[i as int];
        proof {
            assert(segs_view(parts@)[i as int] == parts@[i as int]@);
            assert(k == parts@[i as int]@);
            assert(rest[0] == k);
            assert(rest.len() >= 2);
            assert(rest.subrange(1, rest.len() as int) =~= segs.subrange(
                i as int + 1,
                segs.len() as int,
            ));
            assert(seq![k] + Seq::<Seq<char>>::empty() =~= seq![k]);
        }
        match item_get(cur, parts[i].as_str()) {
            None => {
                proof {
                    assert(seq![k].len() >= 1 && seq![k][0] == k);
                    assert(!item_nodes(*cur).dom().contains(seq![k]));
                    assert(!item_tables(*cur).contains(seq![k]));
                }
                return Some(TomlerError::KeyNotFound);
            },
            Some(c) => {
                if !item_is_table(c) {
                    proof {
                        assert(seq![k].len() >= 1 && seq![k][0] == k);
                        assert(!item_tables(*cur).contains(seq![k]));
                        assert(item_nodes(*cur).dom().contains(seq![k]));
                    }
                    return Some(TomlerError::NotATable);
                }
                proof {
                    assert(item_tables(*cur).contains(seq![k]));
                }
                cur = c;
            },
        }
        i += 1;
    }
    proof {
        assert(segs.subrange(i as int, segs.len() as int).len() <= 1);
    }
    None
}

/// The recursive walk of [`remove_value`]: descend the existing tables and
/// drop the entry at the last segment, returning its trimmed token.
fn remove_path(it: &mut toml_edit::Item, parts: &Vec<String>, i: usize) -> (r: Option<String>)
    requires
        i < parts@.len(),
        item_nodes(*old(it)).dom().contains(Seq::<Seq<char>>::empty()),
        item_tables(*old(it)).contains(Seq::<Seq<char>>::empty()),
        remove_err(
            item_nodes(*old(it)),
            item_tables(*old(it)),
            rest_segs(parts@, i as int),
        ) is None,
    ensures
        remove_shape(
            item_nodes(*old(it)),
            item_tables(*old(it)),
            item_nodes(*final(it)),
            item_tables(*final(it)),
            rest_segs(parts@, i as int),
        ),
        match r {
            Some(tok) => item_nodes(*old(it)).dom().contains(rest_segs(parts@, i as int)) && tok@
                == trim_spec(item_nodes(*old(it))[rest_segs(parts@, i as int)].0),
            None => !item_nodes(*old(it)).dom().contains(rest_segs(parts@, i as int)),
        },
    decreases parts@.len() - i,
{
    let ghost m0 = item_nodes(*it);
    let ghost t0 = item_tables(*it);
    let ghost segs = rest_segs(parts@, i as int);
    let ghost k = parts@[i as int]@;
    proof {
        assert(segs[0] == k);
        assert(seq![k] + Seq::<Seq<char>>::empty() =~= seq![k]);
    }
    let n = parts.len();
    if i + 1 == n {
        proof {
            assert(segs =~= seq![k]);
        }
        let present = match item_get(it, parts[i].as_str()) {
            Some(_) => true,
            None => false,
        };
        proof {
            assert(present == m0.dom().contains(seq![k]));
        }
        let removed = item_remove_entry(it, parts[i].as_str());
        if present {
            match removed {
                Some(c) => {
                    let s = item_text(&c);
                    Some(String::from_str(trim_str(s.as_str())))
                },
                None => {
                    proof {
                        assert(false);
                    }
                    None
                },
            }
        } else {
            None
        }
    } else {
        let ghost rest = rest_segs(parts@, i as int + 1);
        proof {
            assert(segs.subrange(1, segs.len() as int) =~= rest);
            assert(seq![k].len() >= 1 && seq![k][0] == k);
            assert(t0.contains(seq![k]));
        }
        let c = item_child_table_mut(it, parts[i].as_str());
        let r = remove_path(c, parts, i + 1);
        proof {
            assert(seq![k] + rest =~= segs);
        }
        r
    }
}

/// Remove the value at a dot-notated key and return its trimmed token
/// (`None` when the last segment was absent at the parent).
///
/// A missing intermediate segment fails with `KeyNotFound`, a present
/// non-table intermediate with `NotATable`; the document is then left
/// unchanged. On success, every entry off the walked path keeps its
/// resolution, table-ness and exact token text ([`remove_shape`]).
pub fn remove_value(doc: &mut toml_edit::DocumentMut, key: &str) -> (r: Result<
    Option<String>,
    TomlerError,
>)
    ensures
        ({
            let segs = split_on(key@, '.');
            let m = doc_nodes(*old(doc));
            let t = doc_tables(*old(doc));
            match r {
                Ok(removed) => remove_err(m, t, segs) is None && remove_shape(
                    m,
                    t,
                    doc_nodes(*final(doc)),
                    doc_tables(*final(doc)),
                    segs,
                ) && (match removed {
                    Some(tok) => m.dom().contains(segs) && tok@ == trim_spec(m[segs].0),
                    None => !m.dom().contains(segs),
                }),
                Err(e) => remove_err(m, t, segs) == Some(e) && doc_nodes(*final(doc)) == m
                    && doc_tables(*final(doc)) == t,
            }
        }),
{
    let parts = split_char(key, '.');
    proof {
        assert(segs_view(parts@) =~~= split_on(key@, '.'));
        assert(rest_segs(parts@, 0) =~= segs_view(parts@));
    }
    match check_remove(doc_item(doc), &parts) {
        Some(e) => Err(e),
        None => {
            let it = doc_item_mut(doc);
            let removed = remove_path(it, &parts, 0);
            Ok(removed)
        },
    }
}

/// The top-level keys of the document, in entry order: exactly the keys
/// that resolve at the top level, each one once.
pub fn top_level_keys(doc: &toml_edit::DocumentMut) -> (r: Vec<String>)
    ensures
        r@.len() == doc_keys(*doc).len(),
        forall|i: int| 0 <= i < r@.len() ==> (#[trigger] r@[i]@) == doc_keys(*doc)[i],
        forall|i: int|
            0 <= i < r@.len() ==> doc_nodes(*doc).dom().contains(seq![#[trigger] r@[i]@]),
        forall|k: Seq<char>|
            doc_nodes(*doc).dom().contains(seq![k]) ==> exists|i: int|
                0 <= i < r@.len() && (#[trigger] r@[i]@) == k,
{
    doc_top_keys(doc)
}

/// A node is one of the scalar kinds that inference can produce.
pub open spec fn node_is_scalar(n: Node) -> bool {
    n is Bool || n is Int || n is Float || n is Str
}

/// A float node carries a literal that really parses as a TOML float.
pub open spec fn node_float_ok(n: Node) -> bool {
    match n {
        Node::Float(lit) => float_value_text(lit) is Some,
        _ => true,
    }
}

/// How a scalar node of the plain model corresponds to the model of a
/// `toml_edit` value: the token and string contents the value renders to.
pub open spec fn scalar_matches(n: Node, info: (Seq<char>, Option<Seq<char>>)) -> bool {
    match n {
        Node::Bool(b) => info.0 == (if b {
            "true"@
        } else {
            "false"@
        }) && info.1 is None,
        Node::Int(i) => int_decimal_token(info.0, i) && info.1 is None,
        Node::Float(lit) => float_value_text(lit) == Some(info.0) && info.1 is None,
        Node::Str(c) => info.1 == Some(c),
        _ => true,
    }
}

/// How an inferred node corresponds to a `toml_edit` value: exactly for
/// scalars; for an array, element by element, in order.
pub open spec fn toml_matches(n: Node, v: toml_edit::Value) -> bool {
    match n {
        Node::Arr(ns) => value_elems(v) matches Some(es) && es.len() == ns.len() && (forall|i: int|
            0 <= i < ns.len() ==> scalar_matches(#[trigger] ns[i], es[i])),
        _ => scalar_matches(n, value_info(v)),
    }
}

/// Render one scalar of the plain model as a `toml_edit` value.
fn scalar_to_toml(c: &ConfigValue) -> (r: toml_edit::Value)
    requires
        node_is_scalar(c.model()),
        node_float_ok(c.model()),
    ensures
        scalar_matches(c.model(), value_info(r)),
{
    match c {
        ConfigValue::Boolean(b) => value_from_bool(*b),
        ConfigValue::Integer(x) => value_from_i64(*x),
        ConfigValue::Float(lit) => match parse_float_value(lit.as_str()) {
            Some(v) => v,
            None => {
                proof {
                    assert(false);
                }
                vstd::pervasive::unreached()
            },
        },
        ConfigValue::Str(st) => value_from_string(st.as_str()),
        _ => vstd::pervasive::unreached(),
    }
}

/// Infer a `toml_edit` value from a string input, as [`infer`] does for the
/// plain model: booleans, integers (64-bit), floats, simple comma-separated
/// arrays, and strings as the fallback.
///
/// A scalar result corresponds exactly to the inferred node; an array
/// result holds one value for each comma-separated part.
pub fn infer_value(s: &str) -> (r: toml_edit::Value)
    ensures
        toml_matches(infer_spec(s@), r),
{
    let c = infer(s);
    match &c {
        ConfigValue::Array(vs) => {
            let ghost ns = values_model(vs@);
            proof {
                lemma_values_model(vs@);
            }
            let mut elems: Vec<toml_edit::Value> = Vec::new();
            let mut j: usize = 0;
            while j < vs.len()
                invariant
                    c.model() == infer_spec(s@),
                    c matches ConfigValue::Array(vs2) && vs2@ == vs@,
                    ns == values_model(vs@),
                    forall|l: int| 0 <= l < vs@.len() ==> #[trigger] ns[l] == vs@[l].model(),
                    ns.len() == vs@.len(),
                    forall|l: int|
                        0 <= l < vs@.len() ==> node_is_scalar(#[trigger] vs@[l].model())
                            && node_float_ok(vs@[l].model()),
                    0 <= j <= vs@.len(),
                    elems@.len() == j,
                    forall|m: int|
                        0 <= m < j ==> scalar_matches(ns[m], value_info(#[trigger] elems@[m])),
                decreases vs@.len() - j,
            {
                let e = scalar_to_toml(&vs[j]);
                elems.push(e);
                j += 1;
            }
            let out = value_array_from_vec(elems);
            proof {
                let es = value_elems(out)->Some_0;
                assert forall|i: int| 0 <= i < ns.len() implies scalar_matches(
                    #[trigger] ns[i],
                    es[i],
                ) by {
                    assert(es[i] == value_info(elems@[i]));
                    assert(scalar_matches(ns[i], value_info(elems@[i])));
                }
            }
            out
        },
        _ => scalar_to_toml(&c),
    }
}

} // verus!
