//! Trusted boundary around the `toml_edit` crate.
//!
//! The format-preserving editor works on `toml_edit`'s document tree, which
//! Verus cannot look into. Each item and document is given a mathematical
//! model by the uninterpreted functions below:
//!
//! - `item_nodes` maps every path that resolves from an item (the empty path
//!   standing for the item itself) to a pair of its serialized text, exactly
//!   as rendered, and, when the node is a string value, the unquoted string
//!   contents;
//! - `item_tables` is the set of resolving paths whose node is a
//!   non-inline table;
//! - `doc_nodes` and `doc_tables` say the same of a whole document;
//! - `value_nodes` says what a single value resolves once it stands in a
//!   table, and `value_info` reads its own token pair out of it.
//!
//! The wrappers state, over these models, what the `toml_edit` source shows
//! of each call; everything around the calls is verified against them.

use vstd::prelude::*;

verus! {

#[verifier::external_type_specification]
#[verifier::external_body]
pub struct ExDocumentMut(toml_edit::DocumentMut);

#[verifier::external_type_specification]
#[verifier::external_body]
pub struct ExItem(toml_edit::Item);

#[verifier::external_type_specification]
#[verifier::external_body]
pub struct ExValue(toml_edit::Value);

/// What resolves from an item: path, trimmed token text, string contents.
pub uninterp spec fn item_nodes(i: toml_edit::Item) -> Map<
    Seq<Seq<char>>,
    (Seq<char>, Option<Seq<char>>),
>;

/// The resolving paths of an item whose node is a non-inline table.
pub uninterp spec fn item_tables(i: toml_edit::Item) -> Set<Seq<Seq<char>>>;

/// What resolves from a document's root table.
pub uninterp spec fn doc_nodes(d: toml_edit::DocumentMut) -> Map<
    Seq<Seq<char>>,
    (Seq<char>, Option<Seq<char>>),
>;

/// The resolving paths of a document whose node is a non-inline table.
pub uninterp spec fn doc_tables(d: toml_edit::DocumentMut) -> Set<Seq<Seq<char>>>;

/// What resolves from a single value once it stands in a table: for a
/// scalar, only the empty path; for an inline table, its entries too.
pub uninterp spec fn value_nodes(v: toml_edit::Value) -> Map<
    Seq<Seq<char>>,
    (Seq<char>, Option<Seq<char>>),
>;

/// The serialized text of a single value, and its unquoted string contents
/// when it is a string. A value constructed without any decoration renders
/// as its bare literal.
pub open spec fn value_info(v: toml_edit::Value) -> (Seq<char>, Option<Seq<char>>) {
    value_nodes(v)[Seq::<Seq<char>>::empty()]
}

/// The element models of an array value, in order: each element's
/// serialized text, and its unquoted contents when it is a string. Nothing
/// for a non-array value.
pub uninterp spec fn value_elems(v: toml_edit::Value) -> Option<
    Seq<(Seq<char>, Option<Seq<char>>)>,
>;

/// The top-level keys of a document, in entry order.
pub uninterp spec fn doc_keys(d: toml_edit::DocumentMut) -> Seq<Seq<char>>;

/// The token of the TOML float that a piece of text parses as, if it does
/// parse as a TOML float. (A float type cannot be named in this
/// crate, so the acceptance test is the TOML float grammar, not the
/// machine float parser; the value itself is carried as literal text.)
pub uninterp spec fn float_value_text(s: Seq<char>) -> Option<Seq<char>>;

/// The model of the subtree under key `k`: every path of `m` that starts
/// with `k`, with that first segment stripped.
pub open spec fn descend(
    m: Map<Seq<Seq<char>>, (Seq<char>, Option<Seq<char>>)>,
    k: Seq<char>,
) -> Map<Seq<Seq<char>>, (Seq<char>, Option<Seq<char>>)> {
    Map::new(
        |p: Seq<Seq<char>>| m.dom().contains(seq![k] + p),
        |p: Seq<Seq<char>>| m[seq![k] + p],
    )
}

/// The table-path set of the subtree under key `k`.
pub open spec fn descend_set(t: Set<Seq<Seq<char>>>, k: Seq<char>) -> Set<Seq<Seq<char>>> {
    Set::new(|p: Seq<Seq<char>>| t.contains(seq![k] + p))
}

/// Relies on `toml_edit::DocumentMut::as_item`: the returned item is the
/// document's root table, from which every path of the document resolves.
#[verifier::external_body]
pub(crate) fn doc_item<'a>(d: &'a toml_edit::DocumentMut) -> (r: &'a toml_edit::Item)
    ensures
        item_nodes(*r) == doc_nodes(*d),
        item_tables(*r) == doc_tables(*d),
        item_nodes(*r).dom().contains(Seq::<Seq<char>>::empty()),
        item_tables(*r).contains(Seq::<Seq<char>>::empty()),
{
    d.as_item()
}

/// Relies on `toml_edit::Item::get` with a string index: it resolves the key
/// in a table or inline table, and returns nothing exactly when nothing
/// resolves under that key.
#[verifier::external_body]
pub(crate) fn item_get<'a>(i: &'a toml_edit::Item, k: &str) -> (r: Option<&'a toml_edit::Item>)
    ensures
        match r {
            Some(c) => item_nodes(*i).dom().contains(seq![k@]) && item_nodes(*c) == descend(
                item_nodes(*i),
                k@,
            ) && item_tables(*c) == descend_set(item_tables(*i), k@) && item_nodes(
                *c,
            ).dom().contains(Seq::<Seq<char>>::empty()),
            None => forall|p: Seq<Seq<char>>|
                p.len() >= 1 && p[0] == k@ ==> !item_nodes(*i).dom().contains(p) && !item_tables(
                    *i,
                ).contains(p),
        },
{
    i.get(k)
}

/// Relies on `toml_edit::Item`'s `Display`: the serialized text of the
/// item, as the document spells it, surrounding whitespace included.
#[verifier::external_body]
pub(crate) fn item_text(i: &toml_edit::Item) -> (r: String)
    ensures
        item_nodes(*i).dom().contains(Seq::<Seq<char>>::empty()) ==> r@ == item_nodes(
            *i,
        )[Seq::<Seq<char>>::empty()].0,
{
    i.to_string()
}

/// Relies on `toml_edit::Item::as_value` and `toml_edit::Value::as_str`: the
/// unquoted contents when the item is a string value, nothing otherwise.
#[verifier::external_body]
pub(crate) fn item_str(i: &toml_edit::Item) -> (r: Option<String>)
    ensures
        match r {
            Some(s) => item_nodes(*i).dom().contains(Seq::<Seq<char>>::empty()) ==> item_nodes(
                *i,
            )[Seq::<Seq<char>>::empty()].1 == Some(s@),
            None => item_nodes(*i).dom().contains(Seq::<Seq<char>>::empty()) ==> item_nodes(
                *i,
            )[Seq::<Seq<char>>::empty()].1 is None,
        },
{
    match i.as_value() {
        Some(v) => match v.as_str() {
            Some(s) => Some(s.to_string()),
            None => None,
        },
        None => None,
    }
}

/// The parts of two item models that do not lie under key `k` agree: same
/// resolving paths, same tokens, same table paths.
pub open spec fn preserved_except(
    m0: Map<Seq<Seq<char>>, (Seq<char>, Option<Seq<char>>)>,
    t0: Set<Seq<Seq<char>>>,
    m1: Map<Seq<Seq<char>>, (Seq<char>, Option<Seq<char>>)>,
    t1: Set<Seq<Seq<char>>>,
    k: Seq<char>,
) -> bool {
    forall|p: Seq<Seq<char>>|
        p.len() >= 1 && p[0] != k ==> ((m1.dom().contains(p) <==> m0.dom().contains(p)) && (
        m0.dom().contains(p) ==> m1[p] == m0[p]) && (t1.contains(p) <==> t0.contains(p)))
}

/// Relies on `toml_edit::DocumentMut::as_item_mut`: the returned item is the
/// document's root table, and mutating it is mutating the document.
#[verifier::external_body]
pub(crate) fn doc_item_mut<'a>(d: &'a mut toml_edit::DocumentMut) -> (r: &'a mut toml_edit::Item)
    ensures
        item_nodes(*r) == doc_nodes(*old(d)),
        item_tables(*r) == doc_tables(*old(d)),
        item_nodes(*r).dom().contains(Seq::<Seq<char>>::empty()),
        item_tables(*r).contains(Seq::<Seq<char>>::empty()),
        doc_nodes(*final(d)) == item_nodes(*final(r)),
        doc_tables(*final(d)) == item_tables(*final(r)),
{
    d.as_item_mut()
}

/// Relies on `toml_edit::Item::is_table`: true exactly for a non-inline
/// table.
#[verifier::external_body]
pub(crate) fn item_is_table(i: &toml_edit::Item) -> (r: bool)
    ensures
        r == item_tables(*i).contains(Seq::<Seq<char>>::empty()),
{
    i.is_table()
}

/// Relies on `toml_edit::Table::insert` (through `Item::as_table_mut`): the
/// entry under `k` becomes a fresh empty table, replacing whatever was
/// there; entries under other keys keep their text and their order.
#[verifier::external_body]
pub(crate) fn item_insert_empty_table(i: &mut toml_edit::Item, k: &str)
    requires
        item_tables(*old(i)).contains(Seq::<Seq<char>>::empty()),
    ensures
        preserved_except(
            item_nodes(*old(i)),
            item_tables(*old(i)),
            item_nodes(*final(i)),
            item_tables(*final(i)),
            k@,
        ),
        item_nodes(*final(i)).dom().contains(Seq::<Seq<char>>::empty()),
        item_tables(*final(i)).contains(Seq::<Seq<char>>::empty()),
        descend(item_nodes(*final(i)), k@).dom() =~= set![Seq::<Seq<char>>::empty()],
        descend_set(item_tables(*final(i)), k@) =~= set![Seq::<Seq<char>>::empty()],
{
    let t = i.as_table_mut().unwrap();
    t.insert(k, toml_edit::Item::Table(toml_edit::Table::new()));
}

/// Relies on `toml_edit::Table::get_mut` (through `Item::as_table_mut`): a
/// mutable borrow of the table under `k`; what the borrow is mutated to is
/// what the parent then holds under `k`, all other entries untouched.
#[verifier::external_body]
pub(crate) fn item_child_table_mut<'a>(i: &'a mut toml_edit::Item, k: &str) -> (r:
    &'a mut toml_edit::Item)
    requires
        item_tables(*old(i)).contains(Seq::<Seq<char>>::empty()),
        item_tables(*old(i)).contains(seq![k@]),
    ensures
        item_nodes(*r) == descend(item_nodes(*old(i)), k@),
        item_tables(*r) == descend_set(item_tables(*old(i)), k@),
        item_nodes(*r).dom().contains(Seq::<Seq<char>>::empty()),
        item_tables(*r).contains(Seq::<Seq<char>>::empty()),
        preserved_except(
            item_nodes(*old(i)),
            item_tables(*old(i)),
            item_nodes(*final(i)),
            item_tables(*final(i)),
            k@,
        ),
        item_nodes(*final(i)).dom().contains(Seq::<Seq<char>>::empty()),
        item_tables(*final(i)).contains(Seq::<Seq<char>>::empty()),
        descend(item_nodes(*final(i)), k@) == item_nodes(*final(r)),
        descend_set(item_tables(*final(i)), k@) == item_tables(*final(r)),
{
    i.as_table_mut().unwrap().get_mut(k).unwrap()
}

/// Relies on `toml_edit::Table`'s string index (entry-or-insert, through
/// `Item::as_table_mut`): the entry under `k` becomes the given value,
/// replacing whatever was there; an existing key keeps its spelling and
/// decoration, and entries under other keys keep their text and order.
#[verifier::external_body]
pub(crate) fn item_set_value(i: &mut toml_edit::Item, k: &str, v: toml_edit::Value)
    requires
        item_tables(*old(i)).contains(Seq::<Seq<char>>::empty()),
    ensures
        preserved_except(
            item_nodes(*old(i)),
            item_tables(*old(i)),
            item_nodes(*final(i)),
            item_tables(*final(i)),
            k@,
        ),
        item_nodes(*final(i)).dom().contains(Seq::<Seq<char>>::empty()),
        item_tables(*final(i)).contains(Seq::<Seq<char>>::empty()),
        descend(item_nodes(*final(i)), k@) == value_nodes(v),
        item_nodes(*final(i)).dom().contains(seq![k@]),
        descend_set(item_tables(*final(i)), k@) =~= Set::<Seq<Seq<char>>>::empty(),
{
    let t = i.as_table_mut().unwrap();
    t[k] = toml_edit::Item::Value(v);
}

/// Relies on `toml_edit::Value::from(bool)`: the boolean value, rendered as
/// its literal.
#[verifier::external_body]
pub(crate) fn value_from_bool(b: bool) -> (r: toml_edit::Value)
    ensures
        value_nodes(r).dom() =~= set![Seq::<Seq<char>>::empty()],
        value_info(r).0 == (if b {
            "true"@
        } else {
            "false"@
        }),
        value_info(r).1 is None,
{
    toml_edit::Value::from(b)
}

/// Relies on `toml_edit::Value::from(i64)`: the integer value, rendered as
/// the canonical decimal literal of the same value.
#[verifier::external_body]
pub(crate) fn value_from_i64(x: i64) -> (r: toml_edit::Value)
    ensures
        value_nodes(r).dom() =~= set![Seq::<Seq<char>>::empty()],
        crate::infer::int_decimal_token(value_info(r).0, x as int),
        value_info(r).1 is None,
{
    toml_edit::Value::from(x)
}

/// Relies on `toml_edit::Value::from(&str)`: a string value holding exactly
/// the given contents (the token adds quoting and escaping).
#[verifier::external_body]
pub(crate) fn value_from_string(s: &str) -> (r: toml_edit::Value)
    ensures
        value_nodes(r).dom() =~= set![Seq::<Seq<char>>::empty()],
        value_info(r).1 == Some(s@),
{
    toml_edit::Value::from(s)
}

/// Relies on `toml_edit::Array`'s `FromIterator`: an inline array holding
/// the given values in order, each stored as it was handed in.
#[verifier::external_body]
pub(crate) fn value_array_from_vec(elems: Vec<toml_edit::Value>) -> (r: toml_edit::Value)
    ensures
        value_nodes(r).dom() =~= set![Seq::<Seq<char>>::empty()],
        value_info(r).1 is None,
        value_elems(r) is Some,
        value_elems(r)->Some_0.len() == elems@.len(),
        forall|i: int|
            0 <= i < elems@.len() ==> value_elems(r)->Some_0[i] == value_info(
                #[trigger] elems@[i],
            ),
{
    toml_edit::Value::Array(elems.into_iter().collect())
}

/// Relies on `toml_edit::Table::iter` (through `DocumentMut::as_table`):
/// the top-level keys in entry order; they are exactly the keys that
/// resolve at the top level.
#[verifier::external_body]
pub(crate) fn doc_top_keys(d: &toml_edit::DocumentMut) -> (r: Vec<String>)
    ensures
        r@.len() == doc_keys(*d).len(),
        forall|i: int| 0 <= i < r@.len() ==> (#[trigger] r@[i]@) == doc_keys(*d)[i],
        forall|i: int|
            0 <= i < r@.len() ==> doc_nodes(*d).dom().contains(seq![#[trigger] r@[i]@]),
        forall|k: Seq<char>|
            doc_nodes(*d).dom().contains(seq![k]) ==> exists|i: int|
                0 <= i < r@.len() && (#[trigger] r@[i]@) == k,
{
    d.as_table().iter().map(|(k, _)| k.to_string()).collect()
}

/// Relies on `toml_edit::Table::remove` (through `Item::as_table_mut`): the
/// entry under `k` is dropped and handed back; entries under other keys
/// keep their text and their relative order.
#[verifier::external_body]
pub(crate) fn item_remove_entry(i: &mut toml_edit::Item, k: &str) -> (r: Option<toml_edit::Item>)
    requires
        item_tables(*old(i)).contains(Seq::<Seq<char>>::empty()),
    ensures
        preserved_except(
            item_nodes(*old(i)),
            item_tables(*old(i)),
            item_nodes(*final(i)),
            item_tables(*final(i)),
            k@,
        ),
        item_nodes(*final(i)).dom().contains(Seq::<Seq<char>>::empty()),
        item_tables(*final(i)).contains(Seq::<Seq<char>>::empty()),
        descend(item_nodes(*final(i)), k@).dom() =~= Set::<Seq<Seq<char>>>::empty(),
        descend_set(item_tables(*final(i)), k@) =~= Set::<Seq<Seq<char>>>::empty(),
        item_nodes(*old(i)).dom().contains(seq![k@]) ==> (r is Some && item_nodes(r->0) == descend(
            item_nodes(*old(i)),
            k@,
        ) && item_nodes(r->0).dom().contains(Seq::<Seq<char>>::empty())),
{
    let t = i.as_table_mut().unwrap();
    t.remove(k)
}

/// Relies on `toml_edit::Value::from_str`: parsing text as a TOML value,
/// kept only when the result is a float.
#[verifier::external_body]
pub(crate) fn parse_float_value(s: &str) -> (r: Option<toml_edit::Value>)
    ensures
        match r {
            Some(v) => value_nodes(v).dom() =~= set![Seq::<Seq<char>>::empty()] && float_value_text(
                s@,
            ) == Some(value_info(v).0) && value_info(v).1 is None,
            None => float_value_text(s@) is None,
        },
{
    match s.parse::<toml_edit::Value>() {
        Ok(toml_edit::Value::Float(f)) => Some(toml_edit::Value::Float(f)),
        _ => None,
    }
}

} // verus!
