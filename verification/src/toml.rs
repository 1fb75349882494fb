//! Reading and writing values of a TOML document by dotted key paths such
//! as `agents.coder.model`, on `toml_edit` documents, which keep comments
//! and layout.
//!
//! A document is seen through the items reachable from its root by string
//! keys: a map from key paths (the empty path is the item itself) to the
//! kind of the item there and the text that item renders to.

use vstd::prelude::*;
use toml_edit::{DocumentMut, Item};
use crate::text::{char_views, chars_of, split_chars, split_on, string_of, trim, trim_text};

verus! {

#[verifier::external_type_specification]
#[verifier::external_body]
pub struct ExItem(Item);

#[verifier::external_type_specification]
#[verifier::external_body]
pub struct ExDocumentMut(DocumentMut);

/// One step from an item to an item inside it: a string key into a table
/// or inline table, or an index into an array of tables or an array.
pub enum Step {
    Key(Seq<char>),
    Index(nat),
}

/// A path of steps from an item, outermost first.
pub type KeyPath = Seq<Step>;

/// What kind of item a TOML item is.
#[derive(PartialEq, Eq, Structural, Clone, Copy, Debug)]
pub enum ItemKind {
    /// `Item::None`: no item.
    Absent,
    /// A standard table (`[header]` or dotted keys).
    Table,
    /// An inline table value (`{ a = 1 }`).
    InlineTable,
    /// Any other value (string, number, boolean, date, array).
    Value,
    /// An array of tables (`[[header]]`).
    ArrayOfTables,
}

/// One item of a document: its kind, the text it renders to on its own,
/// and the string it holds if it is a string value.
pub struct TomlNode {
    pub kind: ItemKind,
    pub text: Seq<char>,
    pub string: Option<Seq<char>>,
}

/// The items reachable from `item` by following string keys and indices
/// (`Item::get`), by path; the empty path is `item` itself.
pub uninterp spec fn toml_entries(item: Item) -> Map<KeyPath, TomlNode>;

/// The items reachable from the root of `doc`, as `toml_entries` of its root item.
pub uninterp spec fn document_entries(doc: DocumentMut) -> Map<KeyPath, TomlNode>;

/// What parsing `text` as a TOML value (`str::parse::<Value>`) gives, as the
/// entries of the item holding the value; `None` when it does not parse.
pub uninterp spec fn parsed_value(text: Seq<char>) -> Option<Map<KeyPath, TomlNode>>;

/// What parsing `text` as a TOML document (`str::parse::<DocumentMut>`)
/// gives, as the entries of its root; `None` when it does not parse.
pub uninterp spec fn parsed_document(text: Seq<char>) -> Option<Map<KeyPath, TomlNode>>;

/// The text a document renders to (`DocumentMut`'s `Display`).
pub uninterp spec fn document_text(doc: DocumentMut) -> Seq<char>;

/// The entries of `m` below the path `p`, relative to `p`.
pub open spec fn subtree<V>(m: Map<KeyPath, V>, p: KeyPath) -> Map<KeyPath, V> {
    Map::new(|q: KeyPath| m.contains_key(p + q), |q: KeyPath| m[p + q])
}

/// Whether the path `q` lies below (or at) `p`.
pub open spec fn lies_under(q: KeyPath, p: KeyPath) -> bool {
    p.len() <= q.len() && q.subrange(0, p.len() as int) == p
}

/// `m` with everything below the step `k` replaced by `c`.
pub open spec fn graft<V>(m: Map<KeyPath, V>, k: Step, c: Map<KeyPath, V>) -> Map<KeyPath, V> {
    Map::new(
        |q: KeyPath|
            if lies_under(q, seq![k]) {
                c.contains_key(q.skip(1))
            } else {
                m.contains_key(q)
            },
        |q: KeyPath|
            if lies_under(q, seq![k]) {
                c[q.skip(1)]
            } else {
                m[q]
            },
    )
}

/// The kinds of the items of `m`.
pub open spec fn kinds(m: Map<KeyPath, TomlNode>) -> Map<KeyPath, ItemKind> {
    Map::new(|q: KeyPath| m.contains_key(q), |q: KeyPath| m[q].kind)
}

/// `a` and `b` hold the same items, except that the item at the root may
/// render differently (a change below an item changes its text).
pub open spec fn same_below_root(a: Map<KeyPath, TomlNode>, b: Map<KeyPath, TomlNode>) -> bool {
    &&& a.dom() == b.dom()
    &&& forall|q: KeyPath| #[trigger] a.contains_key(q) && q.len() > 0 ==> a[q] == b[q]
    &&& a.contains_key(seq![]) ==> a[seq![]].kind == b[seq![]].kind && a[seq![]].string
        == b[seq![]].string
}

/// The kind of an item (`Item::None`, a table, an inline table, another
/// value, or an array of tables).
#[verifier::external_body]
fn item_kind(item: &Item) -> (k: ItemKind)
    ensures
        k == toml_entries(*item)[seq![]].kind,
{
    match item {
        Item::None => ItemKind::Absent,
        Item::Table(_) => ItemKind::Table,
        Item::Value(toml_edit::Value::InlineTable(_)) => ItemKind::InlineTable,
        Item::Value(_) => ItemKind::Value,
        Item::ArrayOfTables(_) => ItemKind::ArrayOfTables,
    }
}

/// `Item::get` with a string key: the item under `key` in a table or inline
/// table, if there is one that is not `Item::None`.
#[verifier::external_body]
fn item_get<'a>(item: &'a Item, key: &str) -> (r: Option<&'a Item>)
    ensures
        r is Some <==> toml_entries(*item).contains_key(seq![Step::Key(key@)]),
        r matches Some(c) ==> toml_entries(*c) == subtree(toml_entries(*item), seq![Step::Key(key@)])
            && toml_entries(*c)[seq![]].kind != ItemKind::Absent,
{
    item.get(key)
}

/// `Item`'s `Display`: the text the item renders to.
#[verifier::external_body]
fn item_text(item: &Item) -> (s: String)
    ensures
        s@ == toml_entries(*item)[seq![]].text,
{
    item.to_string()
}

/// `DocumentMut::as_item`: the root item of the document. The items reachable
/// from it by `Item::get` hold every prefix of their paths.
#[verifier::external_body]
fn document_root(doc: &DocumentMut) -> (r: &Item)
    ensures
        toml_entries(*r) == document_entries(*doc),
        prefix_closed(toml_entries(*r)),
{
    doc.as_item()
}


/// `str::parse::<Value>`, the value held as an item (`Item::Value`).
#[verifier::external_body]
fn parse_value(text: &str) -> (r: Option<Item>)
    ensures
        match r {
            Some(it) => parsed_value(text@) == Some(toml_entries(it)) && toml_entries(it).contains_key(
                seq![],
            ) && (toml_entries(it)[seq![]].kind
                == ItemKind::Value || toml_entries(it)[seq![]].kind == ItemKind::InlineTable),
            None => parsed_value(text@) is None,
        },
{
    text.parse::<toml_edit::Value>().ok().map(Item::Value)
}

/// A new empty standard table (`Table::new`) as an item.
#[verifier::external_body]
fn new_table() -> (r: Item)
    ensures
        shapes(toml_entries(r)) == map![Seq::<Step>::empty() => (ItemKind::Table, None::<Seq<char>>)],
{
    Item::Table(toml_edit::Table::new())
}

/// Replaces `item` with a new empty standard table.
#[verifier::external_body]
fn make_empty_table(item: &mut Item)
    ensures
        shapes(toml_entries(*final(item))) == map![Seq::<Step>::empty() => (ItemKind::Table, None::<Seq<char>>)],
{
    *item = Item::Table(toml_edit::Table::new());
}

/// `Table::insert`: puts `child` under `key` in the table `item`.
#[verifier::external_body]
fn table_insert(item: &mut Item, key: &str, child: Item)
    requires
        toml_entries(*old(item))[seq![]].kind == ItemKind::Table,
        toml_entries(child)[seq![]].kind != ItemKind::Absent,
    ensures
        same_below_root(
            toml_entries(*final(item)),
            graft(toml_entries(*old(item)), Step::Key(key@), toml_entries(child)),
        ),
{
    item.as_table_mut().unwrap().insert(key, child);
}

/// Takes the item under `key` out of the table `item`, leaving `Item::None`
/// in its slot (so the key keeps its place and formatting).
#[verifier::external_body]
fn take_child(item: &mut Item, key: &str) -> (r: Item)
    requires
        toml_entries(*old(item))[seq![]].kind == ItemKind::Table,
        toml_entries(*old(item)).contains_key(seq![Step::Key(key@)]),
    ensures
        toml_entries(r) == subtree(toml_entries(*old(item)), seq![Step::Key(key@)]),
        same_below_root(
            toml_entries(*final(item)),
            graft(toml_entries(*old(item)), Step::Key(key@), Map::empty()),
        ),
{
    std::mem::take(item.get_mut(key).unwrap())
}

/// Puts `child` into the slot of `key` in the table `item` (`Item::get_mut`
/// and assignment), keeping the key's place and formatting.
#[verifier::external_body]
fn put_child(item: &mut Item, key: &str, child: Item)
    requires
        toml_entries(*old(item))[seq![]].kind == ItemKind::Table,
        toml_entries(child)[seq![]].kind != ItemKind::Absent,
    ensures
        same_below_root(
            toml_entries(*final(item)),
            graft(toml_entries(*old(item)), Step::Key(key@), toml_entries(child)),
        ),
{
    *item.get_mut(key).unwrap() = child;
}

/// `InlineTable::insert`: puts the value `child` under `key` in the inline table `item`.
#[verifier::external_body]
fn inline_insert(item: &mut Item, key: &str, child: Item)
    requires
        toml_entries(*old(item))[seq![]].kind == ItemKind::InlineTable,
        toml_entries(child)[seq![]].kind == ItemKind::Value || toml_entries(child)[seq![]].kind
            == ItemKind::InlineTable,
    ensures
        same_below_root(
            toml_entries(*final(item)),
            graft(toml_entries(*old(item)), Step::Key(key@), toml_entries(child)),
        ),
{
    item.as_inline_table_mut().unwrap().insert(key, child.into_value().unwrap());
}

/// Takes the root item out of `doc` (`DocumentMut::as_item_mut`), leaving `Item::None`.
#[verifier::external_body]
fn take_root(doc: &mut DocumentMut) -> (r: Item)
    ensures
        toml_entries(r) == document_entries(*old(doc)) && toml_entries(r).contains_key(seq![]),
{
    std::mem::take(doc.as_item_mut())
}

/// Puts `root` back as the root item of `doc`.
#[verifier::external_body]
fn put_root(doc: &mut DocumentMut, root: Item)
    ensures
        document_entries(*final(doc)) == toml_entries(root),
{
    *doc.as_item_mut() = root;
}


/// Why a value cannot be read or written at a key path.
#[derive(Debug)]
pub enum TomlPathError {
    /// A key of the path is missing (the first missing one is given).
    KeyNotFound { key: String },
    /// The new value does not parse as a TOML value.
    InvalidValue,
    /// The item that should receive the value is neither a table nor an inline table.
    NotATable,
}

/// The key that a `KeyNotFound` error names.
pub open spec fn missing_key_of(e: TomlPathError) -> Step {
    match e {
        TomlPathError::KeyNotFound { key } => Step::Key(key@),
        _ => Step::Index(0),
    }
}

/// The steps of a sequence of keys.
pub open spec fn keys_of(ks: Seq<Seq<char>>) -> KeyPath {
    Seq::new(ks.len(), |i: int| Step::Key(ks[i]))
}

/// The keys of a dotted path: `path` split at every `.`.
pub open spec fn key_path(path: Seq<char>) -> KeyPath {
    keys_of(split_on(path, '.'))
}

/// The index of the first key of `ks`, from `j` on, whose prefix is missing from `m`
/// (`ks.len()` when none is).
pub open spec fn first_missing<V>(m: Map<KeyPath, V>, ks: KeyPath, j: int) -> int
    decreases ks.len() - j,
{
    if j >= ks.len() || j < 0 {
        ks.len() as int
    } else if !m.contains_key(ks.subrange(0, j + 1)) {
        j
    } else {
        first_missing(m, ks, j + 1)
    }
}

/// What reading `ks` from the entries `m` gives: the trimmed text of the
/// item there, or the first missing key.
pub open spec fn lookup(m: Map<KeyPath, TomlNode>, ks: KeyPath) -> Result<Seq<char>, Step> {
    let j = first_missing(m, ks, 0);
    if j < ks.len() {
        Err(ks[j])
    } else {
        Ok(trim(m[ks].text))
    }
}

proof fn lemma_subtree_step<V>(m: Map<KeyPath, V>, p: KeyPath, k: Step)
    ensures
        subtree(subtree(m, p), seq![k]) == subtree(m, p.push(k)),
{
    assert forall|q: KeyPath| #![trigger (p.push(k) + q)] p + (seq![k] + q) == p.push(k) + q by {
        assert(p + (seq![k] + q) =~= p.push(k) + q);
    }
    assert(subtree(subtree(m, p), seq![k]) =~= subtree(m, p.push(k)));
}

proof fn lemma_subtree_empty<V>(m: Map<KeyPath, V>)
    ensures
        subtree(m, seq![]) == m,
{
    assert forall|q: KeyPath| #![trigger m.contains_key(q)] Seq::<Step>::empty() + q == q by {
        assert(Seq::<Step>::empty() + q =~= q);
    }
    assert(subtree(m, seq![]) =~= m);
}

/// The keys of `path`, split at every `.`.
fn split_keys(path: &str) -> (r: Vec<String>)
    ensures
        crate::server::strs(r@) == split_on(path@, '.'),
{
    let c = chars_of(path);
    let pieces = split_chars(&c, '.');
    let mut r: Vec<String> = Vec::new();
    let mut i: usize = 0;
    while i < pieces.len()
        invariant
            i <= pieces@.len(),
            crate::server::strs(r@) == char_views(pieces@).subrange(0, i as int),
        decreases pieces.len() - i,
    {
        let k = string_of(&pieces[i]);
        assert(char_views(pieces@)[i as int] == pieces@[i as int]@);
        assert(k@ == char_views(pieces@)[i as int]);
        let ghost before = crate::server::strs(r@);
        r.push(k);
        assert(crate::server::strs(r@) =~= before.push(k@));
        assert(char_views(pieces@).subrange(0, i + 1) =~= char_views(pieces@).subrange(0, i as int).push(k@));
        i = i + 1;
    }
    assert(char_views(pieces@).subrange(0, pieces@.len() as int) =~= char_views(pieces@));
    r
}

/// Reads the value at the dotted `path` of `doc`: the text of the item
/// there, trimmed, or the first key of the path that is missing.
pub fn get_value_by_path(doc: &DocumentMut, path: &str) -> (r: Result<String, TomlPathError>)
    ensures
        lookup(document_entries(*doc), key_path(path@)) == match r {
            Ok(s) => Ok::<Seq<char>, Step>(s@),
            Err(e) => Err(missing_key_of(e)),
        },
        r matches Err(e) ==> e is KeyNotFound,
        prefix_closed(document_entries(*doc)),
{
    let keys = split_keys(path);
    let ghost ks = key_path(path@);
    let ghost m = document_entries(*doc);
    let mut current = document_root(doc);
    proof {
        crate::text::lemma_split_on_nonempty(path@, '.');
        lemma_subtree_empty(m);
        assert(ks.subrange(0, 0) =~= Seq::<Step>::empty());
    }
    let mut j: usize = 0;
    while j < keys.len()
        invariant
            j <= keys@.len(),
            ks == keys_of(crate::server::strs(keys@)),
            ks == key_path(path@),
            m == document_entries(*doc),
            prefix_closed(m),
            toml_entries(*current) == subtree(m, ks.subrange(0, j as int)),
            first_missing(m, ks, 0) == first_missing(m, ks, j as int),
            j > 0 ==> m.contains_key(ks.subrange(0, j as int)),
        decreases keys.len() - j,
    {
        let key = &keys[j];
        let ghost st = Step::Key(key@);
        assert(st == ks[j as int]);
        proof {
            lemma_subtree_step(m, ks.subrange(0, j as int), st);
            assert(ks.subrange(0, j as int).push(st) =~= ks.subrange(0, j + 1));
            assert(Seq::<Step>::empty() + seq![st] =~= seq![st]);
            assert(ks.subrange(0, j as int) + seq![st] =~= ks.subrange(0, j + 1));
        }
        match item_get(current, key.as_str()) {
            Some(c) => {
                current = c;
            },
            None => {
                assert(!m.contains_key(ks.subrange(0, j + 1)));
                assert(first_missing(m, ks, j as int) == j);
                let kc = key.clone();
                assert(Step::Key(kc@) == ks[j as int]);
                assert(lookup(m, ks) == Err::<Seq<char>, Step>(Step::Key(kc@)));
                return Err(TomlPathError::KeyNotFound { key: kc });
            },
        }
        j = j + 1;
    }
    assert(ks.subrange(0, ks.len() as int) =~= ks);
    proof {
        assert(Seq::<Step>::empty() + ks =~= ks);
        assert(ks + Seq::<Step>::empty() =~= ks);
    }
    assert(m.contains_key(ks));
    assert(subtree(m, ks)[seq![]] == m[ks]);
    let t = item_text(current);
    Ok(trim_text(t.as_str()))
}


/// A map with a single standard table at its root.
pub open spec fn table_only() -> Map<KeyPath, ItemKind> {
    map![Seq::<Step>::empty() => ItemKind::Table]
}

/// How writing a value by key path ends.
#[derive(PartialEq, Eq, Structural, Clone, Copy, Debug)]
pub enum SetOutcome {
    Done,
    InvalidValue,
    NotATable,
}

/// The outcome of a write, from its result.
pub open spec fn outcome_of(r: Result<(), TomlPathError>) -> SetOutcome {
    match r {
        Ok(()) => SetOutcome::Done,
        Err(TomlPathError::InvalidValue) => SetOutcome::InvalidValue,
        Err(_) => SetOutcome::NotATable,
    }
}

/// The kinds of the items of a parsed value, if it parsed.
pub open spec fn parsed_kinds(text: Seq<char>) -> Option<Map<KeyPath, ItemKind>> {
    match parsed_value(text) {
        Some(pm) => Some(kinds(pm)),
        None => None,
    }
}

/// Writing the value `v` (`None` when it does not parse) at the keys `ks`
/// below an item whose items have the kinds `m`: every item on the way that
/// is not a standard table is replaced by an empty one, missing ones are
/// created as empty tables, then the value parses or not, and goes under
/// the last key if the item holding it is a table or an inline table.
/// Tables created before a failure stay.
pub open spec fn set_model(
    m: Map<KeyPath, ItemKind>,
    ks: KeyPath,
    v: Option<Map<KeyPath, ItemKind>>,
) -> (Map<KeyPath, ItemKind>, SetOutcome)
    decreases ks.len(),
{
    if ks.len() <= 1 {
        match v {
            None => (m, SetOutcome::InvalidValue),
            Some(vm) => if m[seq![]] == ItemKind::Table || m[seq![]] == ItemKind::InlineTable {
                (graft(m, ks[0], vm), SetOutcome::Done)
            } else {
                (m, SetOutcome::NotATable)
            },
        }
    } else {
        let t = if m[seq![]] == ItemKind::Table {
            m
        } else {
            table_only()
        };
        let c = if t.contains_key(seq![ks[0]]) {
            subtree(t, seq![ks[0]])
        } else {
            table_only()
        };
        let (c2, o) = set_model(c, ks.drop_first(), v);
        (graft(t, ks[0], c2), o)
    }
}

proof fn lemma_under_one(q: KeyPath, k: Step)
    ensures
        lies_under(q, seq![k]) ==> seq![k] + q.skip(1) == q,
        lies_under(seq![k] + q, seq![k]),
        (seq![k] + q).skip(1) == q,
        q.len() == 0 ==> !lies_under(q, seq![k]),
{
    if lies_under(q, seq![k]) {
        assert(seq![k] + q.skip(1) =~= q);
    }
    assert((seq![k] + q).subrange(0, 1) =~= seq![k]);
    assert((seq![k] + q).skip(1) =~= q);
}

proof fn lemma_kinds_same(a: Map<KeyPath, TomlNode>, b: Map<KeyPath, TomlNode>)
    requires
        same_below_root(a, b),
    ensures
        kinds(a) == kinds(b),
{
    assert forall|q: KeyPath| #[trigger] kinds(a).contains_key(q) implies kinds(a)[q] == kinds(b)[q] by {
        if q.len() > 0 {
            assert(a[q] == b[q]);
        } else {
            assert(q =~= Seq::<Step>::empty());
        }
    }
    assert(kinds(a) =~= kinds(b));
}

proof fn lemma_kinds_graft(m: Map<KeyPath, TomlNode>, k: Step, c: Map<KeyPath, TomlNode>)
    ensures
        kinds(graft(m, k, c)) == graft(kinds(m), k, kinds(c)),
{
    assert(kinds(graft(m, k, c)) =~= graft(kinds(m), k, kinds(c)));
}

proof fn lemma_kinds_subtree(m: Map<KeyPath, TomlNode>, p: KeyPath)
    ensures
        kinds(subtree(m, p)) == subtree(kinds(m), p),
{
    assert(kinds(subtree(m, p)) =~= subtree(kinds(m), p));
}

proof fn lemma_graft_subtree<V>(m: Map<KeyPath, V>, k: Step, c: Map<KeyPath, V>)
    ensures
        subtree(graft(m, k, c), seq![k]) == c,
{
    assert forall|q: KeyPath| #![trigger c.contains_key(q)] #![trigger (seq![k] + q)]
        lies_under(seq![k] + q, seq![k]) && (seq![k] + q).skip(1) == q by {
        lemma_under_one(q, k);
    }
    assert(subtree(graft(m, k, c), seq![k]) =~= c);
}

proof fn lemma_graft_graft<V>(m: Map<KeyPath, V>, k: Step, c1: Map<KeyPath, V>, c2: Map<KeyPath, V>)
    ensures
        graft(graft(m, k, c1), k, c2) == graft(m, k, c2),
{
    assert(graft(graft(m, k, c1), k, c2) =~= graft(m, k, c2));
}

proof fn lemma_graft_own_subtree<V>(m: Map<KeyPath, V>, k: Step)
    ensures
        graft(m, k, subtree(m, seq![k])) == m,
{
    assert forall|q: KeyPath| #![trigger m.contains_key(q)]
        lies_under(q, seq![k]) ==> seq![k] + q.skip(1) == q by {
        lemma_under_one(q, k);
    }
    assert(graft(m, k, subtree(m, seq![k])) =~= m);
}

proof fn lemma_same_subtree(a: Map<KeyPath, TomlNode>, b: Map<KeyPath, TomlNode>, k: Step)
    requires
        same_below_root(a, b),
    ensures
        subtree(a, seq![k]) == subtree(b, seq![k]),
{
    assert forall|q: KeyPath| #[trigger] subtree(a, seq![k]).contains_key(q) implies subtree(a, seq![k])[q]
        == subtree(b, seq![k])[q] by {
        assert((seq![k] + q).len() > 0);
        assert(a.contains_key(seq![k] + q));
    }
    assert(subtree(a, seq![k]).dom() =~= subtree(b, seq![k]).dom()) by {
        assert forall|q: KeyPath| #[trigger] subtree(b, seq![k]).contains_key(q) implies subtree(a, seq![k]).contains_key(q) by {
            assert(b.dom().contains(seq![k] + q));
        }
    }
    assert(subtree(a, seq![k]) =~= subtree(b, seq![k]));
}

proof fn lemma_subtree_concat<V>(m: Map<KeyPath, V>, p: KeyPath, q: KeyPath)
    ensures
        subtree(subtree(m, p), q) == subtree(m, p + q),
{
    assert forall|r: KeyPath| #![trigger (p + q + r)] p + (q + r) == p + q + r by {
        assert(p + (q + r) =~= p + q + r);
    }
    assert(subtree(subtree(m, p), q) =~= subtree(m, p + q));
}

/// Whether `q` is off the path `ks`: not the root, not on the way to `ks`,
/// and not at or below `ks`.
pub open spec fn off_path(q: KeyPath, ks: KeyPath) -> bool {
    q.len() > 0 && !lies_under(ks, q) && !lies_under(q, ks)
}

/// Every item of `after` off the path `ks` was in `before`, unchanged.
pub open spec fn kept_off_path(before: Map<KeyPath, TomlNode>, after: Map<KeyPath, TomlNode>, ks: KeyPath) -> bool {
    forall|q: KeyPath| #[trigger] after.contains_key(q) && off_path(q, ks) ==> before.contains_key(q) && after[q]
        == before[q]
}

proof fn lemma_kept_off_path_last(m0: Map<KeyPath, TomlNode>, mf: Map<KeyPath, TomlNode>, k: Step, vm: Map<KeyPath, TomlNode>)
    requires
        same_below_root(mf, graft(m0, k, vm)),
    ensures
        kept_off_path(m0, mf, seq![k]),
{
    assert forall|q: KeyPath| #[trigger] mf.contains_key(q) && off_path(q, seq![k]) implies m0.contains_key(q)
        && mf[q] == m0[q] by {
        assert(graft(m0, k, vm).contains_key(q));
    }
}

proof fn lemma_kept_off_path_step(
    m0: Map<KeyPath, TomlNode>,
    m1: Map<KeyPath, TomlNode>,
    m2: Map<KeyPath, TomlNode>,
    nt: Map<KeyPath, TomlNode>,
    m3: Map<KeyPath, TomlNode>,
    m4: Map<KeyPath, TomlNode>,
    ch0: Map<KeyPath, TomlNode>,
    ch1: Map<KeyPath, TomlNode>,
    k: Step,
    rest: KeyPath,
)
    requires
        m1 == m0 || forall|q: KeyPath| #[trigger] m1.contains_key(q) ==> q.len() == 0,
        forall|q: KeyPath| #[trigger] nt.contains_key(q) ==> q.len() == 0,
        m2 == m1 || same_below_root(m2, graft(m1, k, nt)),
        ch0 == subtree(m2, seq![k]),
        same_below_root(m3, graft(m2, k, Map::empty())),
        same_below_root(m4, graft(m3, k, ch1)),
        kept_off_path(ch0, ch1, rest),
    ensures
        kept_off_path(m0, m4, seq![k] + rest),
{
    let ks = seq![k] + rest;
    assert forall|q: KeyPath| #[trigger] m4.contains_key(q) && off_path(q, ks) implies m0.contains_key(q)
        && m4[q] == m0[q] by {
        assert(graft(m3, k, ch1).contains_key(q));
        if lies_under(q, seq![k]) {
            let q1 = q.skip(1);
            lemma_under_one(q, k);
            assert(seq![k] + q1 == q);
            assert(ch1.contains_key(q1));
            if q1.len() == 0 {
                assert(q =~= seq![k]);
                assert(ks.subrange(0, 1) =~= seq![k]);
                assert(lies_under(ks, q));
            }
            assert(!lies_under(rest, q1)) by {
                if lies_under(rest, q1) {
                    assert(ks.subrange(0, q.len() as int) =~= seq![k] + rest.subrange(0, q1.len() as int));
                }
            }
            assert(!lies_under(q1, rest)) by {
                if lies_under(q1, rest) {
                    assert(q.subrange(0, ks.len() as int) =~= seq![k] + q1.subrange(0, rest.len() as int));
                }
            }
            assert(off_path(q1, rest));
            assert(ch0.contains_key(q1) && ch1[q1] == ch0[q1]);
            assert(m2.contains_key(q) && m2[q] == ch0[q1]);
            if m2 != m1 {
                assert(graft(m1, k, nt).contains_key(q));
                assert(nt.contains_key(q1));
            }
            if m1 != m0 {
                assert(m1.contains_key(q));
            }
        } else {
            assert(m3.contains_key(q) && m4[q] == m3[q]);
            assert(graft(m2, k, Map::<KeyPath, TomlNode>::empty()).contains_key(q));
            assert(m2.contains_key(q) && m3[q] == m2[q]);
            if m2 != m1 {
                assert(graft(m1, k, nt).contains_key(q));
            }
            assert(m1.contains_key(q) && m2[q] == m1[q]);
            if m1 != m0 {
                assert(m1.contains_key(q));
            }
        }
    }
}

/// Every item of `after` at or below `ks` was in `before`, unchanged.
pub open spec fn kept_below(before: Map<KeyPath, TomlNode>, after: Map<KeyPath, TomlNode>, ks: KeyPath) -> bool {
    forall|q: KeyPath| #[trigger] after.contains_key(q) && lies_under(q, ks) ==> before.contains_key(q) && after[q]
        == before[q]
}

proof fn lemma_kept_below_step(
    m0: Map<KeyPath, TomlNode>,
    m1: Map<KeyPath, TomlNode>,
    m2: Map<KeyPath, TomlNode>,
    nt: Map<KeyPath, TomlNode>,
    m3: Map<KeyPath, TomlNode>,
    m4: Map<KeyPath, TomlNode>,
    ch0: Map<KeyPath, TomlNode>,
    ch1: Map<KeyPath, TomlNode>,
    k: Step,
    rest: KeyPath,
)
    requires
        rest.len() >= 1,
        m1 == m0 || forall|q: KeyPath| #[trigger] m1.contains_key(q) ==> q.len() == 0,
        forall|q: KeyPath| #[trigger] nt.contains_key(q) ==> q.len() == 0,
        m2 == m1 || same_below_root(m2, graft(m1, k, nt)),
        ch0 == subtree(m2, seq![k]),
        same_below_root(m3, graft(m2, k, Map::empty())),
        same_below_root(m4, graft(m3, k, ch1)),
        kept_below(ch0, ch1, rest),
    ensures
        kept_below(m0, m4, seq![k] + rest),
{
    let ks = seq![k] + rest;
    assert forall|q: KeyPath| #[trigger] m4.contains_key(q) && lies_under(q, ks) implies m0.contains_key(q)
        && m4[q] == m0[q] by {
        assert(q.subrange(0, ks.len() as int)[0] == q[0]);
        assert(ks[0] == k);
        assert(q.subrange(0, 1) =~= seq![k]);
        assert(lies_under(q, seq![k]));
        let q1 = q.skip(1);
        lemma_under_one(q, k);
        assert(seq![k] + q1 == q);
        assert(graft(m3, k, ch1).contains_key(q));
        assert(ch1.contains_key(q1) && m4[q] == ch1[q1]);
        assert(lies_under(q1, rest)) by {
            assert(q1.subrange(0, rest.len() as int) =~= q.subrange(0, ks.len() as int).skip(1));
            assert(ks.skip(1) =~= rest);
        }
        assert(ch0.contains_key(q1) && ch1[q1] == ch0[q1]);
        assert(m2.contains_key(q) && m2[q] == ch0[q1]);
        if m2 != m1 {
            assert(graft(m1, k, nt).contains_key(q));
            assert(nt.contains_key(q1));
        }
        if m1 != m0 {
            assert(m1.contains_key(q));
        }
    }
}

/// Writes the value `value` at the keys `keys[i..]` below `item`.
fn set_in(item: &mut Item, keys: &Vec<String>, i: usize, value: &str) -> (r: Result<(), TomlPathError>)
    requires
        i < keys@.len(),
        toml_entries(*old(item)).contains_key(seq![]),
    ensures
        (kinds(toml_entries(*final(item))), outcome_of(r)) == set_model(
            kinds(toml_entries(*old(item))),
            keys_of(crate::server::strs(keys@)).skip(i as int),
            parsed_kinds(value@),
        ),
        r is Ok ==> subtree(toml_entries(*final(item)), keys_of(crate::server::strs(keys@)).skip(i as int))
            == parsed_value(value@)->0,
        toml_entries(*old(item))[seq![]].kind != ItemKind::Absent ==> toml_entries(
            *final(item),
        )[seq![]].kind != ItemKind::Absent,
        toml_entries(*final(item)).contains_key(seq![]),
        kept_off_path(
            toml_entries(*old(item)),
            toml_entries(*final(item)),
            keys_of(crate::server::strs(keys@)).skip(i as int),
        ),
        r is Err ==> kept_below(
            toml_entries(*old(item)),
            toml_entries(*final(item)),
            keys_of(crate::server::strs(keys@)).skip(i as int),
        ),
    decreases keys@.len() - i,
{
    let ghost ks = keys_of(crate::server::strs(keys@)).skip(i as int);
    let key = &keys[i];
    let ghost k = Step::Key(key@);
    assert(ks[0] == k);
    let ghost m0 = toml_entries(*item);
    if i == keys.len() - 1 {
        assert(ks.len() == 1);
        match parse_value(value) {
            None => Err(TomlPathError::InvalidValue),
            Some(v) => {
                let ghost vm = toml_entries(v);
                let kind = item_kind(item);
                if kind == ItemKind::Table {
                    match item_get(item, key.as_str()) {
                        Some(_) => put_child(item, key.as_str(), v),
                        None => table_insert(item, key.as_str(), v),
                    }
                } else if kind == ItemKind::InlineTable {
                    inline_insert(item, key.as_str(), v);
                } else {
                    return Err(TomlPathError::NotATable);
                }
                proof {
                    let mf = toml_entries(*item);
                    lemma_kinds_same(mf, graft(m0, k, vm));
                    lemma_kept_off_path_last(m0, mf, k, vm);
                    lemma_kinds_graft(m0, k, vm);
                    lemma_same_subtree(mf, graft(m0, k, vm), k);
                    lemma_graft_subtree(m0, k, vm);
                    assert(ks =~= seq![k]);
                    assert(mf.contains_key(seq![]));
                }
                Ok(())
            },
        }
    } else {
        let ghost km0 = kinds(m0);
        let kind = item_kind(item);
        if kind != ItemKind::Table {
            make_empty_table(item);
            proof {
                lemma_single_shape(toml_entries(*item), (ItemKind::Table, None));
                assert(kinds(toml_entries(*item)) =~= table_only());
            }
        }
        let ghost m1 = toml_entries(*item);
        let ghost t = if km0[seq![]] == ItemKind::Table { km0 } else { table_only() };
        assert(kinds(m1) == t);
        assert(m1.contains_key(seq![]));
        let ghost c = if t.contains_key(seq![k]) { subtree(t, seq![k]) } else { table_only() };
        assert(m1 == m0 || forall|q: KeyPath| #[trigger] m1.contains_key(q) ==> q.len() == 0) by {
            if m1 != m0 {
                assert forall|q: KeyPath| #[trigger] m1.contains_key(q) implies q.len() == 0 by {
                    assert(kinds(m1).contains_key(q));
                }
            }
        }
        let ghost mut ntm: Map<KeyPath, TomlNode> = Map::empty();
        match item_get(item, key.as_str()) {
            Some(_) => {
                proof {
                    lemma_graft_own_subtree(t, k);
                }
            },
            None => {
                let nt = new_table();
                proof {
                    lemma_single_shape(toml_entries(nt), (ItemKind::Table, None));
                    assert(kinds(toml_entries(nt)) =~= table_only());
                    ntm = toml_entries(nt);
                    assert forall|q: KeyPath| #[trigger] ntm.contains_key(q) implies q.len() == 0 by {
                        assert(kinds(ntm).contains_key(q));
                    }
                }
                table_insert(item, key.as_str(), nt);
                proof {
                    lemma_kinds_same(toml_entries(*item), graft(m1, k, toml_entries(nt)));
                    lemma_kinds_graft(m1, k, toml_entries(nt));
                }
            },
        }
        let ghost m2 = toml_entries(*item);
        assert(kinds(m2) == graft(t, k, c));
        proof {
            lemma_graft_subtree(t, k, c);
            lemma_kinds_subtree(m2, seq![k]);
            assert(m2.contains_key(seq![k])) by {
                assert(kinds(m2).contains_key(seq![k]) == subtree(kinds(m2), seq![k]).contains_key(seq![]))
                    by {
                    assert(seq![k] + Seq::<Step>::empty() =~= seq![k]);
                }
                assert(c.contains_key(seq![]));
            }
        }
        let mut child = take_child(item, key.as_str());
        let ghost m3 = toml_entries(*item);
        let ghost ch0 = toml_entries(child);
        assert(kinds(ch0) == c);
        assert(ch0.contains_key(seq![])) by {
            assert(kinds(ch0).contains_key(seq![]));
        }
        let r = set_in(&mut child, keys, i + 1, value);
        let ghost ch1 = toml_entries(child);
        proof {
            assert(keys_of(crate::server::strs(keys@)).skip(i + 1) =~= ks.drop_first());
            assert(ch1[seq![]].kind != ItemKind::Absent) by {
                if c == table_only() {
                    assert(ch0[seq![]].kind == ItemKind::Table);
                } else {
                    assert(ch0[seq![]].kind == m2[seq![k]].kind);
                }
                assert(ch0[seq![]].kind != ItemKind::Absent) by {
                    if t.contains_key(seq![k]) {
                        assert(kinds(m1).contains_key(seq![k]));
                    }
                }
            }
        }
        put_child(item, key.as_str(), child);
        proof {
            let m4 = toml_entries(*item);
            lemma_kinds_same(m4, graft(m3, k, ch1));
            lemma_kinds_graft(m3, k, ch1);
            lemma_kinds_same(m3, graft(m2, k, Map::empty()));
            lemma_kinds_graft(m2, k, Map::empty());
            lemma_graft_graft(kinds(m2), k, kinds(Map::<KeyPath, TomlNode>::empty()), kinds(ch1));
            lemma_graft_graft(t, k, c, kinds(ch1));
            assert(kinds(m4) == graft(t, k, kinds(ch1)));
            lemma_same_subtree(m4, graft(m3, k, ch1), k);
            lemma_graft_subtree(m3, k, ch1);
            assert(subtree(m4, seq![k]) == ch1);
            lemma_subtree_concat(m4, seq![k], ks.drop_first());
            assert(seq![k] + ks.drop_first() =~= ks);
            assert(m4.contains_key(seq![]));
            lemma_kept_off_path_step(m0, m1, m2, ntm, m3, m4, ch0, ch1, k, ks.drop_first());
            if r is Err {
                lemma_kept_below_step(m0, m1, m2, ntm, m3, m4, ch0, ch1, k, ks.drop_first());
            }
        }
        r
    }
}

/// Writes `value`, parsed as a TOML value, at the dotted `path` of `doc`.
/// Every item on the way that is not a standard table is replaced by an
/// empty one and missing ones are created; the value then replaces the item
/// under the last key, or is added there, in a table or an inline table.
/// Fails when the value does not parse or when the item that should hold
/// it is neither kind of table; tables created on the way stay, and nothing
/// at or below the path changes. Every other item keeps its place and its
/// text.
pub fn set_value_by_path(doc: &mut DocumentMut, path: &str, value: &str) -> (r: Result<(), TomlPathError>)
    ensures
        (kinds(document_entries(*final(doc))), outcome_of(r)) == set_model(
            kinds(document_entries(*old(doc))),
            key_path(path@),
            parsed_kinds(value@),
        ),
        r is Ok ==> subtree(document_entries(*final(doc)), key_path(path@)) == parsed_value(value@)->0,
        kept_off_path(document_entries(*old(doc)), document_entries(*final(doc)), key_path(path@)),
        r is Err ==> kept_below(document_entries(*old(doc)), document_entries(*final(doc)), key_path(path@)),
{
    let keys = split_keys(path);
    proof {
        crate::text::lemma_split_on_nonempty(path@, '.');
        assert(keys_of(crate::server::strs(keys@)).skip(0) =~= keys_of(crate::server::strs(keys@)));
    }
    let mut root = take_root(doc);
    let r = set_in(&mut root, &keys, 0, value);
    put_root(doc, root);
    r
}


/// Writing by key path keeps a standard table at the root.
proof fn lemma_set_model_root(m: Map<KeyPath, ItemKind>, ks: KeyPath, v: Option<Map<KeyPath, ItemKind>>)
    requires
        m.contains_key(seq![]),
        m[seq![]] == ItemKind::Table,
        ks.len() >= 1,
    ensures
        set_model(m, ks, v).0.contains_key(seq![]),
        set_model(m, ks, v).0[seq![]] == ItemKind::Table,
{
    lemma_under_one(Seq::<Step>::empty(), ks[0]);
}

proof fn lemma_set_model_keeps_path(m: Map<KeyPath, ItemKind>, ks: KeyPath, v: Option<Map<KeyPath, ItemKind>>)
    requires
        m.contains_key(seq![]),
        ks.len() >= 1,
        v matches Some(vm) && vm.contains_key(seq![]),
        set_model(m, ks, v).1 == SetOutcome::Done,
    ensures
        set_model(m, ks, v).0.contains_key(seq![]),
        forall|j: int| 1 <= j <= ks.len() ==> set_model(m, ks, v).0.contains_key(#[trigger] ks.subrange(0, j)),
    decreases ks.len(),
{
    let k = ks[0];
    lemma_under_one(Seq::<Step>::empty(), k);
    if ks.len() == 1 {
        let vm = v->0;
        assert(seq![k] + Seq::<Step>::empty() =~= seq![k]);
        assert forall|j: int| 1 <= j <= ks.len() implies set_model(m, ks, v).0.contains_key(#[trigger] ks.subrange(0, j)) by {
            assert(ks.subrange(0, j) =~= seq![k]);
        }
    } else {
        let t = if m[seq![]] == ItemKind::Table { m } else { table_only() };
        let c = if t.contains_key(seq![k]) { subtree(t, seq![k]) } else { table_only() };
        assert(c.contains_key(seq![])) by {
            if t.contains_key(seq![k]) {
                assert(seq![k] + Seq::<Step>::empty() =~= seq![k]);
            }
        }
        let rest = ks.drop_first();
        lemma_set_model_keeps_path(c, rest, v);
        let c2 = set_model(c, rest, v).0;
        assert forall|j: int| 1 <= j <= ks.len() implies set_model(m, ks, v).0.contains_key(#[trigger] ks.subrange(0, j)) by {
            let q = rest.subrange(0, j - 1);
            assert(ks.subrange(0, j) =~= seq![k] + q);
            lemma_under_one(q, k);
            if j > 1 {
                assert(c2.contains_key(rest.subrange(0, j - 1)));
            } else {
                assert(q =~= Seq::<Step>::empty());
            }
        }
    }
}

proof fn lemma_first_missing_none<V>(m: Map<KeyPath, V>, ks: KeyPath, j: int)
    requires
        0 <= j <= ks.len(),
        forall|i: int| j < i <= ks.len() ==> m.contains_key(#[trigger] ks.subrange(0, i)),
    ensures
        first_missing(m, ks, j) == ks.len(),
    decreases ks.len() - j,
{
    if j < ks.len() {
        assert(m.contains_key(ks.subrange(0, j + 1)));
        lemma_first_missing_none(m, ks, j + 1);
    }
}

/// Whether every path in `m` has all its prefixes in `m` (as the items
/// reachable from a root do).
pub open spec fn prefix_closed<V>(m: Map<KeyPath, V>) -> bool {
    forall|q: KeyPath, j: int| 0 <= j <= q.len() && m.contains_key(q) ==> #[trigger] m.contains_key(q.subrange(0, j))
}

/// Whether every item on the way to `ks` (the root included, `ks` itself
/// excluded) that exists is a standard table.
pub open spec fn tables_on_the_way(m: Map<KeyPath, ItemKind>, ks: KeyPath) -> bool {
    forall|j: int| 0 <= j < ks.len() && #[trigger] m.contains_key(ks.subrange(0, j)) ==> m[ks.subrange(0, j)]
        == ItemKind::Table
}

proof fn lemma_set_model_keeps_others(m: Map<KeyPath, ItemKind>, ks: KeyPath, v: Option<Map<KeyPath, ItemKind>>)
    requires
        ks.len() >= 1,
        m.contains_key(seq![]),
        prefix_closed(m),
        tables_on_the_way(m, ks),
        set_model(m, ks, v).1 == SetOutcome::Done,
    ensures
        forall|q: KeyPath| #[trigger] m.contains_key(q) && !lies_under(q, ks) ==> set_model(m, ks, v).0.contains_key(q),
    decreases ks.len(),
{
    let k = ks[0];
    assert(ks.subrange(0, 0) =~= Seq::<Step>::empty());
    assert(m[seq![]] == ItemKind::Table);
    if ks.len() == 1 {
        assert(ks =~= seq![k]);
    } else {
        let rest = ks.drop_first();
        let present = m.contains_key(seq![k]);
        let c = if present { subtree(m, seq![k]) } else { table_only() };
        assert(ks.subrange(0, 1) =~= seq![k]);
        assert(c.contains_key(seq![])) by {
            assert(seq![k] + Seq::<Step>::empty() =~= seq![k]);
        }
        assert(prefix_closed(c)) by {
            if present {
                assert forall|q: KeyPath, j: int| 0 <= j <= q.len() && c.contains_key(q) implies #[trigger] c.contains_key(
                    q.subrange(0, j),
                ) by {
                    assert(m.contains_key(seq![k] + q));
                    assert((seq![k] + q).subrange(0, j + 1) =~= seq![k] + q.subrange(0, j));
                }
            } else {
                assert forall|q: KeyPath, j: int| 0 <= j <= q.len() && c.contains_key(q) implies #[trigger] c.contains_key(
                    q.subrange(0, j),
                ) by {
                    assert(q =~= Seq::<Step>::empty());
                    assert(q.subrange(0, j) =~= Seq::<Step>::empty());
                }
            }
        }
        assert(tables_on_the_way(c, rest)) by {
            assert forall|j: int| 0 <= j < rest.len() && #[trigger] c.contains_key(rest.subrange(0, j)) implies c[rest.subrange(0, j)]
                == ItemKind::Table by {
                if present {
                    assert(seq![k] + rest.subrange(0, j) =~= ks.subrange(0, j + 1));
                    assert(m.contains_key(ks.subrange(0, j + 1)));
                } else {
                    assert(rest.subrange(0, j) =~= Seq::<Step>::empty());
                }
            }
        }
        lemma_set_model_keeps_others(c, rest, v);
        let c2 = set_model(c, rest, v).0;
        assert forall|q: KeyPath| #[trigger] m.contains_key(q) && !lies_under(q, ks) implies set_model(m, ks, v).0.contains_key(q) by {
            if lies_under(q, seq![k]) {
                let q1 = q.skip(1);
                lemma_under_one(q, k);
                assert(q.subrange(0, 1) =~= seq![k]);
                assert(m.contains_key(q.subrange(0, 1)));
                assert(present);
                assert(c.contains_key(q1));
                assert(!lies_under(q1, rest)) by {
                    if lies_under(q1, rest) {
                        assert(q.subrange(0, ks.len() as int) =~= seq![k] + q1.subrange(0, rest.len() as int));
                        assert(seq![k] + rest =~= ks);
                    }
                }
                assert(c2.contains_key(q1));
            }
        }
    }
}

proof fn lemma_first_missing_bound<V>(m: Map<KeyPath, V>, ks: KeyPath, j: int)
    requires
        0 <= j,
    ensures
        first_missing(m, ks, j) <= ks.len(),
    decreases ks.len() - j,
{
    if j < ks.len() {
        lemma_first_missing_bound(m, ks, j + 1);
    }
}

proof fn lemma_first_missing_all<V>(m: Map<KeyPath, V>, ks: KeyPath, j: int)
    requires
        0 <= j <= ks.len(),
        first_missing(m, ks, j) == ks.len(),
    ensures
        forall|i: int| j < i <= ks.len() ==> m.contains_key(#[trigger] ks.subrange(0, i)),
    decreases ks.len() - j,
{
    if j < ks.len() {
        lemma_first_missing_all(m, ks, j + 1);
    }
}

/// A write leaves every other read alone: after `value` is written at
/// `path`, reading a path `other` that is neither on the way to `path` nor
/// at or below it succeeds exactly when it did before, with the same value.
/// (Items reachable from a root form a prefix-closed map; every item on the
/// way to `path` that exists is a standard table, so none is replaced.)
pub proof fn lemma_write_keeps_other_reads(
    before: Map<KeyPath, TomlNode>,
    after: Map<KeyPath, TomlNode>,
    path: Seq<char>,
    value: Seq<char>,
    other: Seq<char>,
)
    requires
        before.contains_key(seq![]),
        prefix_closed(before),
        tables_on_the_way(kinds(before), key_path(path)),
        set_model(kinds(before), key_path(path), parsed_kinds(value)) == (kinds(after), SetOutcome::Done),
        kept_off_path(before, after, key_path(path)),
        !lies_under(key_path(path), key_path(other)),
        !lies_under(key_path(other), key_path(path)),
    ensures
        lookup(after, key_path(other)) is Ok <==> lookup(before, key_path(other)) is Ok,
        lookup(before, key_path(other)) is Ok ==> lookup(after, key_path(other)) == lookup(before, key_path(other)),
{
    let ks = key_path(path);
    let qs = key_path(other);
    crate::text::lemma_split_on_nonempty(path, '.');
    crate::text::lemma_split_on_nonempty(other, '.');
    assert(qs.subrange(0, qs.len() as int) =~= qs);
    let km = kinds(before);
    assert(prefix_closed(km)) by {
        assert forall|q: KeyPath, j: int| 0 <= j <= q.len() && km.contains_key(q) implies #[trigger] km.contains_key(
            q.subrange(0, j),
        ) by {
            assert(before.contains_key(q.subrange(0, j)));
        }
    }
    lemma_set_model_keeps_others(km, ks, parsed_kinds(value));
    if first_missing(before, qs, 0) == qs.len() {
        lemma_first_missing_all(before, qs, 0);
        assert forall|i: int| 0 < i <= qs.len() implies after.contains_key(#[trigger] qs.subrange(0, i)) by {
            let p = qs.subrange(0, i);
            assert(before.contains_key(p));
            assert(km.contains_key(p));
            assert(!lies_under(p, ks)) by {
                if lies_under(p, ks) {
                    assert(qs.subrange(0, ks.len() as int) =~= p.subrange(0, ks.len() as int));
                }
            }
            assert(kinds(after).contains_key(p));
        }
        lemma_first_missing_none(after, qs, 0);
        assert(after.contains_key(qs));
        assert(off_path(qs, ks));
    }
    if first_missing(after, qs, 0) == qs.len() {
        lemma_first_missing_all(after, qs, 0);
        assert(after.contains_key(qs));
        assert(off_path(qs, ks));
        assert(before.contains_key(qs));
        assert forall|i: int| 0 < i <= qs.len() implies before.contains_key(#[trigger] qs.subrange(0, i)) by {
            assert(before.contains_key(qs.subrange(0, i)));
        }
        lemma_first_missing_none(before, qs, 0);
    }
    lemma_first_missing_bound(before, qs, 0);
    lemma_first_missing_bound(after, qs, 0);
    if first_missing(before, qs, 0) == qs.len() {
        assert(after[qs] == before[qs]);
    }
}

/// A read gives back what a write wrote: after `value` is written at `path`
/// and the write succeeds, reading `path` gives the parsed value's text,
/// trimmed.
pub proof fn lemma_read_after_write(
    before: Map<KeyPath, TomlNode>,
    after: Map<KeyPath, TomlNode>,
    path: Seq<char>,
    value: Seq<char>,
)
    requires
        before.contains_key(seq![]),
        parsed_value(value) matches Some(pm) && pm.contains_key(seq![]),
        set_model(kinds(before), key_path(path), parsed_kinds(value)) == (kinds(after), SetOutcome::Done),
        subtree(after, key_path(path)) == parsed_value(value)->0,
    ensures
        lookup(after, key_path(path)) == Ok::<Seq<char>, Step>(
            trim(parsed_value(value)->0[seq![]].text),
        ),
{
    let ks = key_path(path);
    let pm = parsed_value(value)->0;
    crate::text::lemma_split_on_nonempty(path, '.');
    assert(kinds(pm).contains_key(seq![]));
    assert(kinds(before).contains_key(seq![]));
    lemma_set_model_keeps_path(kinds(before), ks, parsed_kinds(value));
    assert forall|i: int| 0 < i <= ks.len() implies after.contains_key(#[trigger] ks.subrange(0, i)) by {
        assert(kinds(after).contains_key(ks.subrange(0, i)));
    }
    lemma_first_missing_none(after, ks, 0);
    assert(ks.subrange(0, ks.len() as int) =~= ks);
    assert(ks + Seq::<Step>::empty() =~= ks);
    assert(subtree(after, ks)[seq![]] == after[ks]);
}


/// The kind of an item and the string it holds, if it is a string value.
pub type Shape = (ItemKind, Option<Seq<char>>);

/// The kinds and strings of the items of `m` (everything but their texts).
pub open spec fn shapes(m: Map<KeyPath, TomlNode>) -> Map<KeyPath, Shape> {
    Map::new(|q: KeyPath| m.contains_key(q), |q: KeyPath| (m[q].kind, m[q].string))
}

/// `Item::as_str`: the string an item holds, if it is a string value.
#[verifier::external_body]
fn item_as_str(item: &Item) -> (r: Option<String>)
    ensures
        match r {
            Some(s) => toml_entries(*item)[seq![]].string == Some(s@),
            None => toml_entries(*item)[seq![]].string is None,
        },
{
    item.as_str().map(String::from)
}

/// `toml_edit::value` of a string: a string value.
#[verifier::external_body]
fn string_item(s: &str) -> (r: Item)
    ensures
        shapes(toml_entries(r)) == string_shape(s@),
{
    toml_edit::value(s)
}

/// `toml_edit::value` of a boolean: a boolean value, rendered `true` or `false`.
#[verifier::external_body]
fn bool_item(b: bool) -> (r: Item)
    ensures
        toml_entries(r) == map![Seq::<Step>::empty() => TomlNode {
            kind: ItemKind::Value,
            text: if b { "true"@ } else { "false"@ },
            string: None,
        }],
{
    toml_edit::value(b)
}

/// An array value of the two strings `a` and `b` (`Array::from_iter`).
#[verifier::external_body]
fn pair_array_item(a: &str, b: &str) -> (r: Item)
    ensures
        shapes(toml_entries(r)) == map![
            Seq::<Step>::empty() => (ItemKind::Value, None::<Seq<char>>),
            seq![Step::Index(0)] => (ItemKind::Value, Some(a@)),
            seq![Step::Index(1)] => (ItemKind::Value, Some(b@))
        ],
{
    Item::Value(toml_edit::Value::Array(toml_edit::Array::from_iter([a, b])))
}

/// A new empty array of tables (`ArrayOfTables::new`) as an item.
#[verifier::external_body]
fn new_array_of_tables() -> (r: Item)
    ensures
        shapes(toml_entries(r)) == map![Seq::<Step>::empty() => (ItemKind::ArrayOfTables, None::<Seq<char>>)],
{
    Item::ArrayOfTables(toml_edit::ArrayOfTables::new())
}

/// The number of tables in the array of tables `item` (`ArrayOfTables::len`).
#[verifier::external_body]
fn tables_len(item: &Item) -> (n: usize)
    requires
        toml_entries(*item)[seq![]].kind == ItemKind::ArrayOfTables,
    ensures
        forall|i: nat| #![trigger toml_entries(*item).contains_key(seq![Step::Index(i)])]
            toml_entries(*item).contains_key(seq![Step::Index(i)]) <==> i < n,
{
    item.as_array_of_tables().unwrap().len()
}

/// `Item::get` with an index: the item at `idx` in the array of tables `item`.
#[verifier::external_body]
fn tables_get<'a>(item: &'a Item, idx: usize) -> (r: &'a Item)
    requires
        toml_entries(*item)[seq![]].kind == ItemKind::ArrayOfTables,
        toml_entries(*item).contains_key(seq![Step::Index(idx as nat)]),
    ensures
        toml_entries(*r) == subtree(toml_entries(*item), seq![Step::Index(idx as nat)]),
{
    item.get(idx).unwrap()
}

/// Takes the item at `idx` out of the array of tables `item`, leaving an
/// empty table in its place; the other items stay as they were.
#[verifier::external_body]
fn tables_take(item: &mut Item, idx: usize) -> (r: Item)
    requires
        toml_entries(*old(item))[seq![]].kind == ItemKind::ArrayOfTables,
        toml_entries(*old(item)).contains_key(seq![Step::Index(idx as nat)]),
    ensures
        toml_entries(r) == subtree(toml_entries(*old(item)), seq![Step::Index(idx as nat)]),
        shapes(toml_entries(*final(item))) == graft(
            shapes(toml_entries(*old(item))),
            Step::Index(idx as nat),
            map![Seq::<Step>::empty() => (ItemKind::Table, None::<Seq<char>>)],
        ),
        same_below_root(
            toml_entries(*final(item)),
            graft(
                toml_entries(*old(item)),
                Step::Index(idx as nat),
                subtree(toml_entries(*final(item)), seq![Step::Index(idx as nat)]),
            ),
        ),
{
    std::mem::replace(item.get_mut(idx).unwrap(), Item::Table(toml_edit::Table::new()))
}

/// Puts `child` at `idx` in the array of tables `item`.
#[verifier::external_body]
fn tables_put(item: &mut Item, idx: usize, child: Item)
    requires
        toml_entries(*old(item))[seq![]].kind == ItemKind::ArrayOfTables,
        toml_entries(*old(item)).contains_key(seq![Step::Index(idx as nat)]),
    ensures
        same_below_root(
            toml_entries(*final(item)),
            graft(toml_entries(*old(item)), Step::Index(idx as nat), toml_entries(child)),
        ),
{
    *item.get_mut(idx).unwrap() = child;
}

/// `ArrayOfTables::push`: appends the table `table` to the array of tables `item`.
#[verifier::external_body]
fn tables_push(item: &mut Item, table: Item)
    requires
        toml_entries(*old(item))[seq![]].kind == ItemKind::ArrayOfTables,
        toml_entries(table)[seq![]].kind == ItemKind::Table,
    ensures
        exists|n: nat|
            (forall|i: nat| #![trigger toml_entries(*old(item)).contains_key(seq![Step::Index(i)])]
                toml_entries(*old(item)).contains_key(seq![Step::Index(i)]) <==> i < n)
                && same_below_root(
                toml_entries(*final(item)),
                graft(toml_entries(*old(item)), Step::Index(n), toml_entries(table)),
            ),
{
    item.as_array_of_tables_mut().unwrap().push(table.into_table().unwrap());
}

/// Replaces `item` with a new empty array of tables.
#[verifier::external_body]
fn make_empty_array_of_tables(item: &mut Item)
    ensures
        shapes(toml_entries(*final(item))) == map![Seq::<Step>::empty() => (ItemKind::ArrayOfTables, None::<Seq<char>>)],
{
    *item = Item::ArrayOfTables(toml_edit::ArrayOfTables::new());
}


/// A map holding only its root, of shape `sh`.
pub open spec fn shape_only(sh: Shape) -> Map<KeyPath, Shape> {
    map![Seq::<Step>::empty() => sh]
}

/// The shape of a string value.
pub open spec fn string_shape(s: Seq<char>) -> Map<KeyPath, Shape> {
    shape_only((ItemKind::Value, Some(s)))
}

/// The shape of `["--transport", "stdio"]`.
pub open spec fn transport_args_shape() -> Map<KeyPath, Shape> {
    map![
        Seq::<Step>::empty() => (ItemKind::Value, None::<Seq<char>>),
        seq![Step::Index(0)] => (ItemKind::Value, Some("--transport"@)),
        seq![Step::Index(1)] => (ItemKind::Value, Some("stdio"@))
    ]
}

/// The shape of a new coordinator entry: `name = "coordinator"`,
/// `transport = "stdio"`, `command = <exe>`, `args = ["--transport", "stdio"]`.
pub open spec fn new_server_shape(exe: Seq<char>) -> Map<KeyPath, Shape> {
    graft(
        graft(
            graft(
                graft(
                    shape_only((ItemKind::Table, None)),
                    Step::Key("name"@),
                    string_shape("coordinator"@),
                ),
                Step::Key("transport"@),
                string_shape("stdio"@),
            ),
            Step::Key("command"@),
            string_shape(exe),
        ),
        Step::Key("args"@),
        transport_args_shape(),
    )
}

/// The number of items of an array (of tables) whose items are `m`.
pub open spec fn element_count(m: Map<KeyPath, Shape>) -> nat {
    choose|n: nat| #[trigger] has_elements(m, n)
}

/// Whether the items of `m` at indices are exactly those below `n`.
pub open spec fn has_elements<V>(m: Map<KeyPath, V>, n: nat) -> bool {
    forall|i: nat| #![trigger m.contains_key(seq![Step::Index(i)])]
        m.contains_key(seq![Step::Index(i)]) <==> i < n
}

/// Whether the `i`th item of the array of tables `m` is a table whose
/// `name` is the string `coordinator`.
pub open spec fn names_coordinator(m: Map<KeyPath, Shape>, i: nat) -> bool {
    &&& m.contains_key(seq![Step::Index(i)])
    &&& m[seq![Step::Index(i)]].0 == ItemKind::Table
    &&& m.contains_key(seq![Step::Index(i), Step::Key("name"@)])
    &&& m[seq![Step::Index(i), Step::Key("name"@)]].1 == Some("coordinator"@)
}

/// The first index from `i` on, below `n`, of a coordinator entry (`n` when there is none).
pub open spec fn first_coordinator(m: Map<KeyPath, Shape>, i: nat, n: nat) -> nat
    decreases n - i,
{
    if i >= n {
        n
    } else if names_coordinator(m, i) {
        i
    } else {
        first_coordinator(m, i + 1, n)
    }
}

/// The servers after configuration: the first coordinator entry gets the
/// new `command` and `args`; without one, a new entry is appended.
pub open spec fn configured_servers(srv: Map<KeyPath, Shape>, exe: Seq<char>) -> Map<KeyPath, Shape> {
    let n = element_count(srv);
    let i = first_coordinator(srv, 0, n);
    if i < n {
        graft(
            srv,
            Step::Index(i),
            graft(
                graft(subtree(srv, seq![Step::Index(i)]), Step::Key("command"@), string_shape(exe)),
                Step::Key("args"@),
                transport_args_shape(),
            ),
        )
    } else {
        graft(srv, Step::Index(n), new_server_shape(exe))
    }
}

/// A document after the coordinator is registered in it: `[mcp]` is a
/// standard table (replaced by an empty one if it was something else) with
/// `enabled = true`, and `mcp.servers` an array of tables (replaced by an
/// empty one if it was something else) whose servers are configured as
/// `configured_servers` says.
pub open spec fn configured(m: Map<KeyPath, Shape>, exe: Seq<char>) -> Map<KeyPath, Shape> {
    let mcp0 = if m.contains_key(seq![Step::Key("mcp"@)]) && m[seq![Step::Key("mcp"@)]].0
        == ItemKind::Table {
        subtree(m, seq![Step::Key("mcp"@)])
    } else {
        shape_only((ItemKind::Table, None))
    };
    let mcp1 = graft(mcp0, Step::Key("enabled"@), shape_only((ItemKind::Value, None)));
    let srv0 = if mcp1.contains_key(seq![Step::Key("servers"@)]) && mcp1[seq![Step::Key("servers"@)]].0
        == ItemKind::ArrayOfTables {
        subtree(mcp1, seq![Step::Key("servers"@)])
    } else {
        shape_only((ItemKind::ArrayOfTables, None))
    };
    graft(m, Step::Key("mcp"@), graft(mcp1, Step::Key("servers"@), configured_servers(srv0, exe)))
}

proof fn lemma_single_shape(m: Map<KeyPath, TomlNode>, sh: Shape)
    requires
        shapes(m) == shape_only(sh),
    ensures
        m.contains_key(seq![]),
        m[seq![]].kind == sh.0,
        m[seq![]].string == sh.1,
        kinds(m) == map![Seq::<Step>::empty() => sh.0],
{
    assert(shapes(m).contains_key(seq![]));
    assert(shapes(m)[seq![]] == sh);
    assert(kinds(m) =~= map![Seq::<Step>::empty() => sh.0]) by {
        assert forall|q: KeyPath| #[trigger] m.contains_key(q) implies q == Seq::<Step>::empty() by {
            assert(shapes(m).contains_key(q));
        }
    }
}

proof fn lemma_root_shape(m: Map<KeyPath, TomlNode>, sh: Shape)
    requires
        shapes(m).contains_key(seq![]),
        shapes(m)[seq![]] == sh,
    ensures
        m.contains_key(seq![]),
        m[seq![]].kind == sh.0,
        m[seq![]].string == sh.1,
{
}

proof fn lemma_shapes_same(a: Map<KeyPath, TomlNode>, b: Map<KeyPath, TomlNode>)
    requires
        same_below_root(a, b),
    ensures
        shapes(a) == shapes(b),
{
    assert forall|q: KeyPath| #[trigger] shapes(a).contains_key(q) implies shapes(a)[q] == shapes(b)[q] by {
        if q.len() > 0 {
            assert(a[q] == b[q]);
        } else {
            assert(q =~= Seq::<Step>::empty());
        }
    }
    assert(shapes(a) =~= shapes(b));
}

proof fn lemma_shapes_graft(m: Map<KeyPath, TomlNode>, k: Step, c: Map<KeyPath, TomlNode>)
    ensures
        shapes(graft(m, k, c)) == graft(shapes(m), k, shapes(c)),
{
    assert(shapes(graft(m, k, c)) =~= graft(shapes(m), k, shapes(c)));
}

proof fn lemma_shapes_subtree(m: Map<KeyPath, TomlNode>, p: KeyPath)
    ensures
        shapes(subtree(m, p)) == subtree(shapes(m), p),
{
    assert(shapes(subtree(m, p)) =~= subtree(shapes(m), p));
}

/// Whether a string is `coordinator`.
fn is_coordinator_name(s: &str) -> (r: bool)
    ensures
        r == (s@ == "coordinator"@),
{
    let a = chars_of(s);
    let b = chars_of("coordinator");
    crate::path::chars_equal(&a, &b)
}

/// The paths that configuring servers may change, given the index `i` of the
/// coordinator entry among `n` entries: the array itself and, in the
/// coordinator entry, the entry, its `command` and its `args`; all of the
/// entry when it is new (`i == n`).
pub open spec fn server_touched(q: KeyPath, i: nat, n: nat) -> bool {
    ||| q.len() == 0
    ||| lies_under(q, seq![Step::Index(i)]) && (i >= n || q.len() == 1 || lies_under(
        q,
        seq![Step::Index(i), Step::Key("command"@)],
    ) || lies_under(q, seq![Step::Index(i), Step::Key("args"@)]))
}

/// Every item of the servers `after` that configuring may not change was in
/// `before`, unchanged (text included).
pub open spec fn kept_servers(before: Map<KeyPath, TomlNode>, after: Map<KeyPath, TomlNode>, i: nat, n: nat) -> bool {
    forall|q: KeyPath| #[trigger] after.contains_key(q) && !server_touched(q, i, n) ==> before.contains_key(q)
        && after[q] == before[q]
}

/// The paths of a configuration that the setup may change: the root,
/// `[mcp]`, `mcp.enabled`, `mcp.servers` and, below it, what configuring
/// the servers may change.
pub open spec fn config_touched(q: KeyPath, i: nat, n: nat) -> bool {
    let mk = Step::Key("mcp"@);
    ||| q.len() == 0
    ||| q == seq![mk]
    ||| lies_under(q, seq![mk, Step::Key("enabled"@)])
    ||| lies_under(q, seq![mk, Step::Key("servers"@)]) && server_touched(q.skip(2), i, n)
}

/// Every item of `after` that the setup may not change was in `before`,
/// unchanged (text included).
pub open spec fn kept_config(before: Map<KeyPath, TomlNode>, after: Map<KeyPath, TomlNode>, i: nat, n: nat) -> bool {
    forall|q: KeyPath| #[trigger] after.contains_key(q) && !config_touched(q, i, n) ==> before.contains_key(q)
        && after[q] == before[q]
}

/// The number of servers of a configuration.
pub open spec fn server_count(m: Map<KeyPath, Shape>) -> nat {
    element_count(servers_of(m))
}

/// The index of the first coordinator entry among the servers of a
/// configuration (their number when there is none).
pub open spec fn coordinator_index(m: Map<KeyPath, Shape>) -> nat {
    first_coordinator(servers_of(m), 0, server_count(m))
}

proof fn lemma_kept_servers_update(
    m0: Map<KeyPath, TomlNode>,
    mid: Map<KeyPath, TomlNode>,
    e1: Map<KeyPath, TomlNode>,
    e2: Map<KeyPath, TomlNode>,
    mf: Map<KeyPath, TomlNode>,
    cm: Map<KeyPath, TomlNode>,
    am: Map<KeyPath, TomlNode>,
    i: nat,
    n: nat,
)
    requires
        i < n,
        same_below_root(mid, graft(m0, Step::Index(i), subtree(mid, seq![Step::Index(i)]))),
        same_below_root(e1, graft(subtree(m0, seq![Step::Index(i)]), Step::Key("command"@), cm)),
        same_below_root(e2, graft(e1, Step::Key("args"@), am)),
        same_below_root(mf, graft(mid, Step::Index(i), e2)),
    ensures
        kept_servers(m0, mf, i, n),
{
    let ii = Step::Index(i);
    let ck = Step::Key("command"@);
    let ak = Step::Key("args"@);
    let e0 = subtree(m0, seq![ii]);
    assert forall|q: KeyPath| #[trigger] mf.contains_key(q) && !server_touched(q, i, n) implies m0.contains_key(q)
        && mf[q] == m0[q] by {
        assert(graft(mid, ii, e2).contains_key(q));
        if lies_under(q, seq![ii]) {
            let q1 = q.skip(1);
            lemma_under_one(q, ii);
            assert(q1.len() > 0);
            assert(e2.contains_key(q1) && mf[q] == e2[q1]);
            assert(!lies_under(q1, seq![ak])) by {
                if lies_under(q1, seq![ak]) {
                    assert(q.subrange(0, 2) =~= seq![ii] + q1.subrange(0, 1));
                    assert(seq![ii] + seq![ak] =~= seq![ii, ak]);
                }
            }
            assert(!lies_under(q1, seq![ck])) by {
                if lies_under(q1, seq![ck]) {
                    assert(q.subrange(0, 2) =~= seq![ii] + q1.subrange(0, 1));
                    assert(seq![ii] + seq![ck] =~= seq![ii, ck]);
                }
            }
            assert(graft(e1, ak, am).contains_key(q1));
            assert(e1.contains_key(q1) && e2[q1] == e1[q1]);
            assert(graft(e0, ck, cm).contains_key(q1));
            assert(e0.contains_key(q1) && e1[q1] == e0[q1]);
        } else {
            assert(mid.contains_key(q) && mf[q] == mid[q]);
            assert(graft(m0, ii, subtree(mid, seq![ii])).contains_key(q));
        }
    }
}

proof fn lemma_kept_servers_push(m0: Map<KeyPath, TomlNode>, mf: Map<KeyPath, TomlNode>, n: nat, t: Map<KeyPath, TomlNode>)
    requires
        same_below_root(mf, graft(m0, Step::Index(n), t)),
    ensures
        kept_servers(m0, mf, n, n),
{
    assert forall|q: KeyPath| #[trigger] mf.contains_key(q) && !server_touched(q, n, n) implies m0.contains_key(q)
        && mf[q] == m0[q] by {
        assert(graft(m0, Step::Index(n), t).contains_key(q));
    }
}

/// Registers the coordinator in the array of tables `servers`.
fn configure_servers(servers: &mut Item, exe: &str)
    requires
        toml_entries(*old(servers))[seq![]].kind == ItemKind::ArrayOfTables,
        toml_entries(*old(servers)).contains_key(seq![]),
    ensures
        shapes(toml_entries(*final(servers))) == configured_servers(shapes(toml_entries(*old(servers))), exe@),
        toml_entries(*final(servers))[seq![]].kind == ItemKind::ArrayOfTables,
        kept_servers(
            toml_entries(*old(servers)),
            toml_entries(*final(servers)),
            first_coordinator(
                shapes(toml_entries(*old(servers))),
                0,
                element_count(shapes(toml_entries(*old(servers)))),
            ),
            element_count(shapes(toml_entries(*old(servers)))),
        ),
        has_elements(shapes(toml_entries(*old(servers))), element_count(shapes(toml_entries(*old(servers))))),
{
    let ghost m0 = toml_entries(*servers);
    let ghost sh = shapes(m0);
    let n = tables_len(servers);
    assert(element_count(sh) == n) by {
        assert(has_elements(sh, n as nat));
        let c = element_count(sh);
        assert(has_elements(sh, c));
        if c < n {
            assert(sh.contains_key(seq![Step::Index(c)]));
        } else if c > n {
            assert(sh.contains_key(seq![Step::Index(n as nat)]));
        }
    }
    let mut idx: usize = 0;
    while idx < n
        invariant
            idx <= n,
            m0 == toml_entries(*servers),
            m0 == toml_entries(*old(servers)),
            sh == shapes(m0),
            element_count(sh) == n,
            m0[seq![]].kind == ItemKind::ArrayOfTables,
            m0.contains_key(seq![]),
            forall|i: nat| #![trigger m0.contains_key(seq![Step::Index(i)])] m0.contains_key(seq![Step::Index(i)]) <==> i < n,
            first_coordinator(sh, 0, n as nat) == first_coordinator(sh, idx as nat, n as nat),
        decreases n - idx,
    {
        assert(m0.contains_key(seq![Step::Index(idx as nat)]));
        let el = tables_get(servers, idx);
        let ghost em = toml_entries(*el);
        let ghost ip = seq![Step::Index(idx as nat)];
        proof {
            lemma_shapes_subtree(m0, ip);
            assert(ip + Seq::<Step>::empty() =~= ip);
            assert(ip + seq![Step::Key("name"@)] =~= seq![Step::Index(idx as nat), Step::Key("name"@)]);
        }
        let mut matched = false;
        if item_kind(el) == ItemKind::Table {
            match item_get(el, "name") {
                Some(nm) => match item_as_str(nm) {
                    Some(s) => {
                        matched = is_coordinator_name(s.as_str());
                    },
                    None => {},
                },
                None => {},
            }
        }
        assert(matched == names_coordinator(sh, idx as nat)) by {
            assert(sh[ip] == (em[seq![]].kind, em[seq![]].string));
            if em.contains_key(seq![Step::Key("name"@)]) {
                assert(subtree(em, seq![Step::Key("name"@)])[seq![]] == em[seq![Step::Key("name"@)]]) by {
                    assert(seq![Step::Key("name"@)] + Seq::<Step>::empty() =~= seq![Step::Key("name"@)]);
                }
            }
        }
        if matched {
            let mut e = tables_take(servers, idx);
            let ghost e0 = toml_entries(e);
            let ghost mid = toml_entries(*servers);
            let cmd = string_item(exe);
            let ghost cm = toml_entries(cmd);
            proof {
                lemma_single_shape(cm, (ItemKind::Value, Some(exe@)));
                assert(e0.contains_key(seq![]));
            }
            put_child(&mut e, "command", cmd);
            let ghost e1 = toml_entries(e);
            let args = pair_array_item("--transport", "stdio");
            let ghost am = toml_entries(args);
            proof {
                lemma_root_shape(am, (ItemKind::Value, None));
                assert(e1.contains_key(seq![]));
            }
            put_child(&mut e, "args", args);
            let ghost e2 = toml_entries(e);
            proof {
                lemma_under_one(Seq::<Step>::empty(), Step::Index(idx as nat));
                assert(seq![Step::Index(idx as nat)] + Seq::<Step>::empty() =~= ip);
                assert(shapes(mid).contains_key(ip));
                assert(shapes(mid).contains_key(seq![]));
                assert(shapes(mid)[seq![]] == sh[seq![]]);
                lemma_root_shape(mid, sh[seq![]]);
            }
            tables_put(servers, idx, e);
            proof {
                let mf = toml_entries(*servers);
                lemma_shapes_same(mf, graft(mid, Step::Index(idx as nat), e2));
                lemma_shapes_graft(mid, Step::Index(idx as nat), e2);
                lemma_graft_graft(sh, Step::Index(idx as nat), shape_only((ItemKind::Table, None)), shapes(e2));
                lemma_shapes_same(e2, graft(e1, Step::Key("args"@), am));
                lemma_shapes_graft(e1, Step::Key("args"@), am);
                lemma_shapes_same(e1, graft(e0, Step::Key("command"@), cm));
                lemma_shapes_graft(e0, Step::Key("command"@), cm);
                assert(first_coordinator(sh, 0, n as nat) == idx);
                assert(mf.contains_key(seq![]));
                assert(shapes(e0) == subtree(sh, ip));
                lemma_kept_servers_update(m0, mid, e1, e2, mf, cm, am, idx as nat, n as nat);
            }
            return;
        }
        idx = idx + 1;
    }
    let mut t = new_table();
    let ghost t0 = toml_entries(t);
    let nm = string_item("coordinator");
    let ghost nmm = toml_entries(nm);
    proof {
        lemma_single_shape(nmm, (ItemKind::Value, Some("coordinator"@)));
        lemma_single_shape(t0, (ItemKind::Table, None));
    }
    table_insert(&mut t, "name", nm);
    let ghost t1 = toml_entries(t);
    let tr = string_item("stdio");
    let ghost trm = toml_entries(tr);
    proof {
        lemma_single_shape(trm, (ItemKind::Value, Some("stdio"@)));
    }
    table_insert(&mut t, "transport", tr);
    let ghost t2 = toml_entries(t);
    let cmd = string_item(exe);
    let ghost cm = toml_entries(cmd);
    proof {
        lemma_single_shape(cm, (ItemKind::Value, Some(exe@)));
    }
    table_insert(&mut t, "command", cmd);
    let ghost t3 = toml_entries(t);
    let args = pair_array_item("--transport", "stdio");
    let ghost am = toml_entries(args);
    proof {
        lemma_root_shape(am, (ItemKind::Value, None));
    }
    table_insert(&mut t, "args", args);
    let ghost t4 = toml_entries(t);
    proof {
        lemma_shapes_same(t1, graft(t0, Step::Key("name"@), nmm));
        lemma_shapes_graft(t0, Step::Key("name"@), nmm);
        lemma_shapes_same(t2, graft(t1, Step::Key("transport"@), trm));
        lemma_shapes_graft(t1, Step::Key("transport"@), trm);
        lemma_shapes_same(t3, graft(t2, Step::Key("command"@), cm));
        lemma_shapes_graft(t2, Step::Key("command"@), cm);
        lemma_shapes_same(t4, graft(t3, Step::Key("args"@), am));
        lemma_shapes_graft(t3, Step::Key("args"@), am);
        assert(shapes(t4) == new_server_shape(exe@));
        assert(t4.contains_key(seq![]));
    }
    tables_push(servers, t);
    proof {
        let mf = toml_entries(*servers);
        let k = choose|k: nat|
            (forall|i: nat| #![trigger m0.contains_key(seq![Step::Index(i)])]
                m0.contains_key(seq![Step::Index(i)]) <==> i < k)
                && same_below_root(mf, graft(m0, Step::Index(k), t4));
        if k < n {
            assert(m0.contains_key(seq![Step::Index(k)]));
        } else if k > n {
            assert(m0.contains_key(seq![Step::Index(n as nat)]));
        }
        lemma_shapes_same(mf, graft(m0, Step::Index(k), t4));
        lemma_shapes_graft(m0, Step::Index(k), t4);
        assert(first_coordinator(sh, n as nat, n as nat) == n);
        assert(mf.contains_key(seq![]));
        lemma_kept_servers_push(m0, mf, n as nat, t4);
    }
}


/// Whether `m` holds nothing but its root.
pub open spec fn root_only<V>(m: Map<KeyPath, V>) -> bool {
    forall|q: KeyPath| #[trigger] m.contains_key(q) ==> q.len() == 0
}

/// The servers that the setup configures are `servers_of` the configuration.
proof fn lemma_servers_before(m: Map<KeyPath, Shape>)
    ensures
        ({
            let mk = Step::Key("mcp"@);
            let sk = Step::Key("servers"@);
            let mcp0 = if m.contains_key(seq![mk]) && m[seq![mk]].0 == ItemKind::Table {
                subtree(m, seq![mk])
            } else {
                shape_only((ItemKind::Table, None))
            };
            let mcp1 = graft(mcp0, Step::Key("enabled"@), shape_only((ItemKind::Value, None)));
            (if mcp1.contains_key(seq![sk]) && mcp1[seq![sk]].0 == ItemKind::ArrayOfTables {
                subtree(mcp1, seq![sk])
            } else {
                shape_only((ItemKind::ArrayOfTables, None))
            }) == servers_of(m)
        }),
{
    reveal_strlit("mcp");
    lemma_setup_keys_distinct();
    let mk = Step::Key("mcp"@);
    let ek = Step::Key("enabled"@);
    let sk = Step::Key("servers"@);
    let v = shape_only((ItemKind::Value, None));
    let mcp_ok = m.contains_key(seq![mk]) && m[seq![mk]].0 == ItemKind::Table;
    let mcp0 = if mcp_ok {
        subtree(m, seq![mk])
    } else {
        shape_only((ItemKind::Table, None))
    };
    let mcp1 = graft(mcp0, ek, v);
    let srv_ok = mcp1.contains_key(seq![sk]) && mcp1[seq![sk]].0 == ItemKind::ArrayOfTables;
    lemma_short_paths(ek, sk, sk);
    lemma_subtree_graft_other(mcp0, ek, v, sk);
    lemma_subtree_concat(m, seq![mk], seq![sk]);
    assert(seq![mk] + seq![sk] =~= seq![mk, sk]);
    if srv_ok {
        assert(mcp0.contains_key(seq![sk]));
        assert(m.contains_key(seq![mk, sk]));
    } else if mcp_ok && m.contains_key(seq![mk, sk]) && m[seq![mk, sk]].0 == ItemKind::ArrayOfTables {
        assert(mcp0.contains_key(seq![sk]));
        assert(mcp1.contains_key(seq![sk]));
    }
}

proof fn lemma_kept_config(
    r0: Map<KeyPath, TomlNode>,
    r1: Map<KeyPath, TomlNode>,
    nt: Map<KeyPath, TomlNode>,
    r2: Map<KeyPath, TomlNode>,
    p0: Map<KeyPath, TomlNode>,
    tm: Map<KeyPath, TomlNode>,
    p1: Map<KeyPath, TomlNode>,
    nam: Map<KeyPath, TomlNode>,
    p2: Map<KeyPath, TomlNode>,
    p3: Map<KeyPath, TomlNode>,
    s0: Map<KeyPath, TomlNode>,
    s1: Map<KeyPath, TomlNode>,
    p4: Map<KeyPath, TomlNode>,
    r3: Map<KeyPath, TomlNode>,
    i: nat,
    n: nat,
)
    requires
        r1 == r0 || (same_below_root(r1, graft(r0, Step::Key("mcp"@), nt)) && root_only(nt)),
        same_below_root(r2, graft(r1, Step::Key("mcp"@), Map::empty())),
        p0 == subtree(r1, seq![Step::Key("mcp"@)]) || root_only(p0),
        same_below_root(p1, graft(p0, Step::Key("enabled"@), tm)),
        p2 == p1 || (same_below_root(p2, graft(p1, Step::Key("servers"@), nam)) && root_only(nam)),
        same_below_root(p3, graft(p2, Step::Key("servers"@), Map::empty())),
        s0 == subtree(p2, seq![Step::Key("servers"@)]) || root_only(s0),
        kept_servers(s0, s1, i, n),
        same_below_root(p4, graft(p3, Step::Key("servers"@), s1)),
        same_below_root(r3, graft(r2, Step::Key("mcp"@), p4)),
    ensures
        kept_config(r0, r3, i, n),
{
    lemma_setup_keys_distinct();
    let mk = Step::Key("mcp"@);
    let ek = Step::Key("enabled"@);
    let sk = Step::Key("servers"@);
    assert forall|q: KeyPath| #[trigger] r3.contains_key(q) && !config_touched(q, i, n) implies r0.contains_key(q)
        && r3[q] == r0[q] by {
        assert(graft(r2, mk, p4).contains_key(q));
        if lies_under(q, seq![mk]) {
            let q1 = q.skip(1);
            lemma_under_one(q, mk);
            assert(q1.len() > 0) by {
                if q1.len() == 0 {
                    assert(q =~= seq![mk]);
                }
            }
            assert(p4.contains_key(q1) && r3[q] == p4[q1]);
            assert(graft(p3, sk, s1).contains_key(q1));
            if lies_under(q1, seq![sk]) {
                let q2 = q1.skip(1);
                lemma_under_one(q1, sk);
                assert(q.skip(2) =~= q2);
                assert(q.subrange(0, 2) =~= seq![mk, sk]) by {
                    assert(q1.subrange(0, 1) =~= seq![sk]);
                    assert(q =~= seq![mk] + q1);
                }
                assert(lies_under(q, seq![mk, sk]));
                assert(!server_touched(q2, i, n));
                assert(s1.contains_key(q2) && p4[q1] == s1[q2]);
                assert(s0.contains_key(q2) && s1[q2] == s0[q2]);
                assert(q2.len() > 0);
                assert(s0 == subtree(p2, seq![sk]));
                assert(p2.contains_key(q1) && s0[q2] == p2[q1]);
                if p2 != p1 {
                    assert(graft(p1, sk, nam).contains_key(q1));
                    assert(nam.contains_key(q2));
                }
                assert(!lies_under(q1, seq![ek])) by {
                    if lies_under(q1, seq![ek]) {
                        assert(q1.subrange(0, 1)[0] == q1[0]);
                    }
                }
                assert(graft(p0, ek, tm).contains_key(q1));
                assert(p0.contains_key(q1) && p1[q1] == p0[q1]);
                assert(p0 == subtree(r1, seq![mk]));
                assert(r1.contains_key(q) && p0[q1] == r1[q]);
                if r1 != r0 {
                    assert(graft(r0, mk, nt).contains_key(q));
                    assert(nt.contains_key(q1));
                }
            } else {
                assert(p3.contains_key(q1) && p4[q1] == p3[q1]);
                assert(graft(p2, sk, Map::<KeyPath, TomlNode>::empty()).contains_key(q1));
                assert(p2.contains_key(q1) && p3[q1] == p2[q1]);
                if p2 != p1 {
                    assert(graft(p1, sk, nam).contains_key(q1));
                }
                assert(p1.contains_key(q1) && p2[q1] == p1[q1]);
                assert(!lies_under(q1, seq![ek])) by {
                    if lies_under(q1, seq![ek]) {
                        assert(q.subrange(0, 2) =~= seq![mk] + q1.subrange(0, 1));
                        assert(seq![mk] + seq![ek] =~= seq![mk, ek]);
                    }
                }
                assert(graft(p0, ek, tm).contains_key(q1));
                assert(p0.contains_key(q1) && p1[q1] == p0[q1]);
                assert(p0 == subtree(r1, seq![mk]));
                assert(r1.contains_key(q) && p0[q1] == r1[q]);
                if r1 != r0 {
                    assert(graft(r0, mk, nt).contains_key(q));
                    assert(nt.contains_key(q1));
                }
            }
        } else {
            assert(r2.contains_key(q) && r3[q] == r2[q]);
            assert(graft(r1, mk, Map::<KeyPath, TomlNode>::empty()).contains_key(q));
            assert(r1.contains_key(q) && r2[q] == r1[q]);
            if r1 != r0 {
                assert(graft(r0, mk, nt).contains_key(q));
            }
        }
    }
}

/// Registers the coordinator as an MCP server of ZeroClaw in its
/// configuration `doc`: `[mcp]` with `enabled = true`, and in
/// `[[mcp.servers]]` the entry named `coordinator` with `command = exe` and
/// `args = ["--transport", "stdio"]` (added, with `transport = "stdio"`,
/// when no entry has that name; the first such entry is updated otherwise).
/// Every other item keeps its place and its text.
pub fn configure_mcp_server(doc: &mut DocumentMut, exe: &str)
    requires
        document_entries(*old(doc))[seq![]].kind == ItemKind::Table,
    ensures
        shapes(document_entries(*final(doc))) == configured(shapes(document_entries(*old(doc))), exe@),
        document_entries(*final(doc)).contains_key(seq![Step::Key("mcp"@), Step::Key("enabled"@)]),
        document_entries(*final(doc))[seq![Step::Key("mcp"@), Step::Key("enabled"@)]].text == "true"@,
        kept_config(
            document_entries(*old(doc)),
            document_entries(*final(doc)),
            coordinator_index(shapes(document_entries(*old(doc)))),
            server_count(shapes(document_entries(*old(doc)))),
        ),
        servers_indexed(shapes(document_entries(*old(doc)))),
{
    let mut root = take_root(doc);
    let ghost r0 = toml_entries(root);
    let ghost sh = shapes(r0);
    let ghost mk = Step::Key("mcp"@);
    let ghost ek = Step::Key("enabled"@);
    let ghost sk = Step::Key("servers"@);
    let ghost tshape = shape_only((ItemKind::Table, None));
    let ghost ashape = shape_only((ItemKind::ArrayOfTables, None));
    let ghost empty_nodes = Map::<KeyPath, TomlNode>::empty();
    proof {
        lemma_under_one(Seq::<Step>::empty(), mk);
        lemma_under_one(Seq::<Step>::empty(), sk);
        lemma_under_one(Seq::<Step>::empty(), ek);
        assert(seq![mk] + Seq::<Step>::empty() =~= seq![mk]);
        assert(seq![sk] + Seq::<Step>::empty() =~= seq![sk]);
        assert(seq![ek] + Seq::<Step>::empty() =~= seq![ek]);
        assert(shapes(empty_nodes) =~= Map::<KeyPath, Shape>::empty());
        lemma_graft_own_subtree(sh, mk);
    }
    let ghost mcp_present = r0.contains_key(seq![mk]);
    let ghost mut ntm0: Map<KeyPath, TomlNode> = Map::empty();
    match item_get(&root, "mcp") {
        Some(_) => {},
        None => {
            let nt = new_table();
            let ghost ntm = toml_entries(nt);
            proof {
                lemma_single_shape(ntm, (ItemKind::Table, None));
                ntm0 = ntm;
                assert forall|q: KeyPath| #[trigger] ntm0.contains_key(q) implies q.len() == 0 by {
                    assert(kinds(ntm0).contains_key(q));
                }
            }
            table_insert(&mut root, "mcp", nt);
            proof {
                lemma_shapes_same(toml_entries(root), graft(r0, mk, ntm));
                lemma_shapes_graft(r0, mk, ntm);
            }
        },
    }
    let ghost r1 = toml_entries(root);
    assert(shapes(r1) == graft(sh, mk, if mcp_present { subtree(sh, seq![mk]) } else { tshape })) by {
        lemma_shapes_subtree(r0, seq![mk]);
    }
    assert(r1.contains_key(seq![mk])) by {
        assert(shapes(r1).contains_key(seq![mk]));
    }
    assert(r1.contains_key(seq![]) && r1[seq![]].kind == ItemKind::Table);
    let mut mcp = take_child(&mut root, "mcp");
    let ghost r2 = toml_entries(root);
    let ghost pt = toml_entries(mcp);
    proof {
        lemma_shapes_same(r2, graft(r1, mk, empty_nodes));
        lemma_shapes_graft(r1, mk, empty_nodes);
        lemma_shapes_subtree(r1, seq![mk]);
        lemma_graft_subtree(sh, mk, if mcp_present { subtree(sh, seq![mk]) } else { tshape });
        lemma_graft_graft(sh, mk, if mcp_present { subtree(sh, seq![mk]) } else { tshape }, Map::<KeyPath, Shape>::empty());
    }
    assert(shapes(r2) == graft(sh, mk, Map::<KeyPath, Shape>::empty()));
    assert(shapes(pt) == if mcp_present { subtree(sh, seq![mk]) } else { tshape });
    if item_kind(&mcp) != ItemKind::Table {
        make_empty_table(&mut mcp);
    }
    let ghost p0 = toml_entries(mcp);
    let ghost mcp0 = if sh.contains_key(seq![mk]) && sh[seq![mk]].0 == ItemKind::Table {
        subtree(sh, seq![mk])
    } else {
        tshape
    };
    assert(shapes(p0) == mcp0 && p0.contains_key(seq![]) && p0[seq![]].kind == ItemKind::Table) by {
        if mcp_present {
            assert(shapes(pt)[seq![]] == sh[seq![mk]]);
            if sh[seq![mk]].0 == ItemKind::Table {
                lemma_root_shape(pt, sh[seq![mk]]);
            } else {
                lemma_single_shape(p0, (ItemKind::Table, None));
            }
        } else {
            lemma_single_shape(pt, (ItemKind::Table, None));
        }
    }
    assert(p0 == pt || root_only(p0)) by {
        if p0 != pt {
            assert forall|q: KeyPath| #[trigger] p0.contains_key(q) implies q.len() == 0 by {
                assert(shapes(p0).contains_key(q));
            }
        }
    }
    let tv = bool_item(true);
    let ghost tm = toml_entries(tv);
    assert(shapes(tm) =~= shape_only((ItemKind::Value, None)));
    table_insert(&mut mcp, "enabled", tv);
    let ghost p1 = toml_entries(mcp);
    let ghost mcp1 = graft(mcp0, ek, shape_only((ItemKind::Value, None)));
    proof {
        lemma_shapes_same(p1, graft(p0, ek, tm));
        lemma_shapes_graft(p0, ek, tm);
        lemma_graft_own_subtree(mcp1, sk);
        lemma_shapes_subtree(p1, seq![sk]);
    }
    assert(shapes(p1) == mcp1);
    assert(p1.contains_key(seq![]) && p1[seq![]].kind == ItemKind::Table);
    let ghost srv_present = p1.contains_key(seq![sk]);
    let ghost mut nam0: Map<KeyPath, TomlNode> = Map::empty();
    match item_get(&mcp, "servers") {
        Some(_) => {},
        None => {
            let na = new_array_of_tables();
            let ghost nam = toml_entries(na);
            proof {
                lemma_single_shape(nam, (ItemKind::ArrayOfTables, None));
                nam0 = nam;
                assert forall|q: KeyPath| #[trigger] nam0.contains_key(q) implies q.len() == 0 by {
                    assert(kinds(nam0).contains_key(q));
                }
            }
            table_insert(&mut mcp, "servers", na);
            proof {
                lemma_shapes_same(toml_entries(mcp), graft(p1, sk, nam));
                lemma_shapes_graft(p1, sk, nam);
            }
        },
    }
    let ghost p2 = toml_entries(mcp);
    assert(shapes(p2) == graft(mcp1, sk, if srv_present { subtree(mcp1, seq![sk]) } else { ashape }));
    assert(p2.contains_key(seq![sk])) by {
        assert(shapes(p2).contains_key(seq![sk]));
    }
    assert(p2.contains_key(seq![]) && p2[seq![]].kind == ItemKind::Table);
    let mut servers = take_child(&mut mcp, "servers");
    let ghost p3 = toml_entries(mcp);
    let ghost st = toml_entries(servers);
    proof {
        lemma_shapes_same(p3, graft(p2, sk, empty_nodes));
        lemma_shapes_graft(p2, sk, empty_nodes);
        lemma_shapes_subtree(p2, seq![sk]);
        lemma_graft_subtree(mcp1, sk, if srv_present { subtree(mcp1, seq![sk]) } else { ashape });
        lemma_graft_graft(mcp1, sk, if srv_present { subtree(mcp1, seq![sk]) } else { ashape }, Map::<KeyPath, Shape>::empty());
    }
    assert(shapes(p3) == graft(mcp1, sk, Map::<KeyPath, Shape>::empty()));
    assert(shapes(st) == if srv_present { subtree(mcp1, seq![sk]) } else { ashape });
    if item_kind(&servers) != ItemKind::ArrayOfTables {
        make_empty_array_of_tables(&mut servers);
    }
    let ghost s0 = toml_entries(servers);
    let ghost srv0 = if mcp1.contains_key(seq![sk]) && mcp1[seq![sk]].0 == ItemKind::ArrayOfTables {
        subtree(mcp1, seq![sk])
    } else {
        ashape
    };
    assert(shapes(s0) == srv0 && s0.contains_key(seq![]) && s0[seq![]].kind == ItemKind::ArrayOfTables) by {
        if srv_present {
            assert(shapes(st)[seq![]] == mcp1[seq![sk]]);
            if mcp1[seq![sk]].0 == ItemKind::ArrayOfTables {
                lemma_root_shape(st, mcp1[seq![sk]]);
            } else {
                lemma_single_shape(s0, (ItemKind::ArrayOfTables, None));
            }
        } else {
            lemma_single_shape(st, (ItemKind::ArrayOfTables, None));
        }
    }
    assert(s0 == st || root_only(s0)) by {
        if s0 != st {
            assert forall|q: KeyPath| #[trigger] s0.contains_key(q) implies q.len() == 0 by {
                assert(shapes(s0).contains_key(q));
            }
        }
    }
    configure_servers(&mut servers, exe);
    let ghost s1 = toml_entries(servers);
    assert(p3.contains_key(seq![]) && p3[seq![]].kind == ItemKind::Table);
    put_child(&mut mcp, "servers", servers);
    let ghost p4 = toml_entries(mcp);
    proof {
        lemma_shapes_same(p4, graft(p3, sk, s1));
        lemma_shapes_graft(p3, sk, s1);
        lemma_graft_graft(mcp1, sk, Map::<KeyPath, Shape>::empty(), shapes(s1));
    }
    assert(shapes(p4) == graft(mcp1, sk, configured_servers(srv0, exe@)));
    assert(r2.contains_key(seq![]) && r2[seq![]].kind == ItemKind::Table);
    assert(p4.contains_key(seq![]));
    put_child(&mut root, "mcp", mcp);
    let ghost r3 = toml_entries(root);
    proof {
        lemma_shapes_same(r3, graft(r2, mk, p4));
        lemma_shapes_graft(r2, mk, p4);
        lemma_graft_graft(sh, mk, Map::<KeyPath, Shape>::empty(), shapes(p4));
        reveal_strlit("enabled");
        reveal_strlit("servers");
        assert(ek != sk) by {
            assert("enabled"@[0] != "servers"@[0]);
        }
        let q = seq![mk, ek];
        assert(seq![mk] + seq![ek] =~= q);
        lemma_under_one(seq![ek], mk);
        assert(q.skip(1) =~= seq![ek]);
        assert(!lies_under(seq![ek], seq![sk])) by {
            assert(seq![ek].subrange(0, 1) =~= seq![ek]);
        }
        assert(shapes(p1).contains_key(seq![ek]));
        assert(shapes(p2).contains_key(seq![ek]));
        assert(shapes(p3).contains_key(seq![ek]));
        assert(shapes(p4).contains_key(seq![ek]));
        assert(p4.contains_key(seq![ek]));
        assert(p3.contains_key(seq![ek]));
        assert(p2.contains_key(seq![ek]));
        assert(p1.contains_key(seq![ek]));
        assert(shapes(r3).contains_key(q));
        assert(r3.contains_key(q));
        assert(r3[q] == p4[seq![ek]]);
        assert(p4[seq![ek]] == p3[seq![ek]]);
        assert(p3[seq![ek]] == p2[seq![ek]]);
        assert(p2[seq![ek]] == p1[seq![ek]]);
        assert(p1[seq![ek]] == tm[seq![]]);
        lemma_servers_before(sh);
        assert(has_elements(shapes(s0), element_count(shapes(s0))));
        assert(servers_indexed(sh)) by {
            if sh.contains_key(seq![mk]) && sh[seq![mk]].0 == ItemKind::Table && sh.contains_key(seq![mk, sk])
                && sh[seq![mk, sk]].0 == ItemKind::ArrayOfTables {
                assert(servers_of(sh) == subtree(sh, seq![mk, sk]));
                assert(has_elements(subtree(sh, seq![mk, sk]), element_count(shapes(s0))));
            }
        }
        lemma_kept_config(
            r0,
            r1,
            ntm0,
            r2,
            p0,
            tm,
            p1,
            nam0,
            p2,
            p3,
            s0,
            s1,
            p4,
            r3,
            first_coordinator(shapes(s0), 0, element_count(shapes(s0))),
            element_count(shapes(s0)),
        );
    }
    put_root(doc, root);
}


/// `str::parse::<DocumentMut>`: the document that `text` holds, if it
/// parses; its root is a table, and the items reachable from it by
/// `Item::get` hold every prefix of their paths.
#[verifier::external_body]
fn parse_document(text: &str) -> (r: Option<DocumentMut>)
    ensures
        match r {
            Some(d) => parsed_document(text@) == Some(document_entries(d)) && document_entries(d)[seq![]].kind
                == ItemKind::Table && document_entries(d).contains_key(seq![]) && prefix_closed(
                document_entries(d),
            ),
            None => parsed_document(text@) is None,
        },
{
    text.parse::<DocumentMut>().ok()
}

/// `DocumentMut`'s `Display`: the text of the document, comments and layout
/// kept. It reaches the root as a table and panics on any other root.
#[verifier::external_body]
fn render_document(doc: &DocumentMut) -> (r: String)
    requires
        document_entries(*doc).contains_key(seq![]),
        document_entries(*doc)[seq![]].kind == ItemKind::Table,
    ensures
        r@ == document_text(*doc),
{
    doc.to_string()
}

/// Why a configuration text cannot be edited.
#[derive(Debug)]
pub enum ConfigEditError {
    /// The text is not a TOML document.
    Parse,
    /// Writing the value failed.
    Write(TomlPathError),
}

/// The text of the configuration `content` after `value` is written at the
/// dotted `path`, as `set_config_value` saves it.
pub fn set_config_text(content: &str, path: &str, value: &str) -> (r: Result<String, ConfigEditError>)
    ensures
        parsed_document(content@) is None <==> r matches Err(ConfigEditError::Parse),
        parsed_document(content@) matches Some(m) ==> {
            let (km, o) = set_model(kinds(m), key_path(path@), parsed_kinds(value@));
            &&& prefix_closed(m)
            &&& (r is Ok <==> o == SetOutcome::Done)
            &&& (r matches Err(ConfigEditError::Write(e)) ==> o == outcome_of(Err(e)))
            &&& (r matches Ok(t) ==> exists|d: DocumentMut| #![trigger document_text(d)]
                document_text(d) == t@ && kinds(document_entries(d)) == km && subtree(
                    document_entries(d),
                    key_path(path@),
                ) == parsed_value(value@)->0 && kept_off_path(m, document_entries(d), key_path(path@)))
        },
{
    match parse_document(content) {
        None => Err(ConfigEditError::Parse),
        Some(mut doc) => match set_value_by_path(&mut doc, path, value) {
            Ok(()) => {
                proof {
                    crate::text::lemma_split_on_nonempty(path@, '.');
                    lemma_set_model_root(kinds(parsed_document(content@)->0), key_path(path@), parsed_kinds(value@));
                    assert(kinds(document_entries(doc)).contains_key(seq![]));
                }
                let t = render_document(&doc);
                assert(document_text(doc) == t@);
                Ok(t)
            },
            Err(e) => Err(ConfigEditError::Write(e)),
        },
    }
}

/// The text of the ZeroClaw configuration `content` after the coordinator
/// is registered in it with the executable `exe`; `None` when `content` is
/// not a TOML document.
pub fn configure_text(content: &str, exe: &str) -> (r: Option<String>)
    ensures
        parsed_document(content@) is None <==> r is None,
        parsed_document(content@) matches Some(m) ==> r matches Some(t) && servers_indexed(shapes(m)) && exists|d: DocumentMut|
            #![trigger document_text(d)]
            document_text(d) == t@ && shapes(document_entries(d)) == configured(shapes(m), exe@) && kept_config(
                m,
                document_entries(d),
                coordinator_index(shapes(m)),
                server_count(shapes(m)),
            ),
{
    match parse_document(content) {
        None => None,
        Some(mut doc) => {
            let ghost m0 = document_entries(doc);
            configure_mcp_server(&mut doc, exe);
            proof {
                reveal_strlit("mcp");
                lemma_under_one(Seq::<Step>::empty(), Step::Key("mcp"@));
                assert(shapes(m0).contains_key(seq![]));
                assert(shapes(document_entries(doc)).contains_key(seq![]));
                assert(shapes(document_entries(doc))[seq![]] == shapes(m0)[seq![]]);
            }
            let t = render_document(&doc);
            assert(document_text(doc) == t@);
            Some(t)
        },
    }
}


proof fn lemma_graft_commute<V>(m: Map<KeyPath, V>, k1: Step, a: Map<KeyPath, V>, k2: Step, b: Map<KeyPath, V>)
    requires
        k1 != k2,
    ensures
        graft(graft(m, k1, a), k2, b) == graft(graft(m, k2, b), k1, a),
{
    let l = graft(graft(m, k1, a), k2, b);
    let r = graft(graft(m, k2, b), k1, a);
    assert forall|q: KeyPath| #![trigger l.contains_key(q)] #![trigger r.contains_key(q)]
        l.contains_key(q) == r.contains_key(q) && (l.contains_key(q) ==> l[q] == r[q]) by {
        if lies_under(q, seq![k1]) && lies_under(q, seq![k2]) {
            assert(q.subrange(0, 1)[0] == q[0]);
            assert(seq![k1][0] == k1);
            assert(seq![k2][0] == k2);
        }
    }
    assert(l =~= r);
}

proof fn lemma_subtree_graft_other<V>(m: Map<KeyPath, V>, k1: Step, c: Map<KeyPath, V>, k2: Step)
    requires
        k1 != k2,
    ensures
        subtree(graft(m, k1, c), seq![k2]) == subtree(m, seq![k2]),
{
    assert forall|q: KeyPath| #![trigger (seq![k2] + q)] !lies_under(seq![k2] + q, seq![k1]) by {
        assert((seq![k2] + q)[0] == k2);
        if lies_under(seq![k2] + q, seq![k1]) {
            assert((seq![k2] + q).subrange(0, 1)[0] == k1);
        }
    }
    assert(subtree(graft(m, k1, c), seq![k2]) =~= subtree(m, seq![k2]));
}

/// The one-step and two-step paths below a step `k`.
proof fn lemma_short_paths(k: Step, j: Step, x: Step)
    ensures
        lies_under(seq![j], seq![k]) <==> j == k,
        lies_under(seq![j, x], seq![k]) <==> j == k,
        seq![j].skip(1) == Seq::<Step>::empty(),
        seq![j, x].skip(1) == seq![x],
        !lies_under(Seq::<Step>::empty(), seq![k]),
{
    assert(seq![j].subrange(0, 1) =~= seq![j]);
    assert(seq![j, x].subrange(0, 1) =~= seq![j]);
    assert(seq![j].skip(1) =~= Seq::<Step>::empty());
    assert(seq![j, x].skip(1) =~= seq![x]);
    if lies_under(seq![j], seq![k]) {
        assert(seq![j].subrange(0, 1)[0] == k);
    }
    if lies_under(seq![j, x], seq![k]) {
        assert(seq![j, x].subrange(0, 1)[0] == k);
    }
}

proof fn lemma_count_unique(m: Map<KeyPath, Shape>, n: nat)
    requires
        has_elements(m, n),
    ensures
        element_count(m) == n,
{
    let c = element_count(m);
    assert(has_elements(m, c));
    if c < n {
        assert(m.contains_key(seq![Step::Index(c)]));
    } else if c > n {
        assert(m.contains_key(seq![Step::Index(n)]));
    }
}

proof fn lemma_first_coordinator_bounds(m: Map<KeyPath, Shape>, a: nat, n: nat)
    requires
        a <= n,
    ensures
        a <= first_coordinator(m, a, n) <= n,
        first_coordinator(m, a, n) < n ==> names_coordinator(m, first_coordinator(m, a, n)),
        forall|j: nat| a <= j < first_coordinator(m, a, n) ==> !names_coordinator(m, j),
    decreases n - a,
{
    if a < n && !names_coordinator(m, a) {
        lemma_first_coordinator_bounds(m, a + 1, n);
    }
}

proof fn lemma_first_coordinator_at(m: Map<KeyPath, Shape>, a: nat, n: nat, i: nat)
    requires
        a <= i < n,
        names_coordinator(m, i),
        forall|j: nat| a <= j < i ==> !names_coordinator(m, j),
    ensures
        first_coordinator(m, a, n) == i,
    decreases i - a,
{
    if a < i {
        lemma_first_coordinator_at(m, a + 1, n, i);
    }
}

/// Grafting below the index `i` leaves the other entries' names alone.
proof fn lemma_names_elsewhere(m: Map<KeyPath, Shape>, i: nat, t: Map<KeyPath, Shape>, j: nat)
    requires
        i != j,
    ensures
        names_coordinator(graft(m, Step::Index(i), t), j) == names_coordinator(m, j),
{
    reveal_strlit("name");
    lemma_short_paths(Step::Index(i), Step::Index(j), Step::Key("name"@));
}

/// The command and arguments of a coordinator entry, set to run `exe`.
pub open spec fn with_command(entry: Map<KeyPath, Shape>, exe: Seq<char>) -> Map<KeyPath, Shape> {
    graft(graft(entry, Step::Key("command"@), string_shape(exe)), Step::Key("args"@), transport_args_shape())
}

/// The keys the setup touches are distinct.
proof fn lemma_setup_keys_distinct()
    ensures
        Step::Key("command"@) != Step::Key("args"@),
        Step::Key("command"@) != Step::Key("name"@),
        Step::Key("args"@) != Step::Key("name"@),
        Step::Key("transport"@) != Step::Key("name"@),
        Step::Key("servers"@) != Step::Key("enabled"@),
{
    reveal_strlit("command");
    reveal_strlit("args");
    reveal_strlit("name");
    reveal_strlit("transport");
    reveal_strlit("servers");
    reveal_strlit("enabled");
    assert("command"@.len() != "args"@.len());
    assert("command"@.len() != "name"@.len());
    assert("args"@[0] != "name"@[0]);
    assert("transport"@.len() != "name"@.len());
    assert("servers"@[0] != "enabled"@[0]);
}

proof fn lemma_with_command_again(entry: Map<KeyPath, Shape>, e1: Seq<char>, e2: Seq<char>)
    ensures
        with_command(with_command(entry, e1), e2) == with_command(entry, e2),
{
    lemma_setup_keys_distinct();
    reveal_strlit("command");
    reveal_strlit("args");
    let ck = Step::Key("command"@);
    let ak = Step::Key("args"@);
    let a = transport_args_shape();
    let g1 = graft(entry, ck, string_shape(e1));
    lemma_graft_commute(g1, ak, a, ck, string_shape(e2));
    lemma_graft_graft(entry, ck, string_shape(e1), string_shape(e2));
    lemma_graft_graft(graft(entry, ck, string_shape(e2)), ak, a, a);
}

proof fn lemma_with_command_keeps_name(entry: Map<KeyPath, Shape>, exe: Seq<char>)
    ensures
        with_command(entry, exe).contains_key(seq![]) == entry.contains_key(seq![]),
        entry.contains_key(seq![]) ==> with_command(entry, exe)[seq![]] == entry[seq![]],
        with_command(entry, exe).contains_key(seq![Step::Key("name"@)]) == entry.contains_key(
            seq![Step::Key("name"@)],
        ),
        entry.contains_key(seq![Step::Key("name"@)]) ==> with_command(entry, exe)[seq![Step::Key("name"@)]]
            == entry[seq![Step::Key("name"@)]],
{
    lemma_setup_keys_distinct();
    reveal_strlit("command");
    reveal_strlit("args");
    reveal_strlit("name");
    let nk = Step::Key("name"@);
    lemma_short_paths(Step::Key("command"@), nk, nk);
    lemma_short_paths(Step::Key("args"@), nk, nk);
}

/// A new coordinator entry is a coordinator entry that runs `exe`.
proof fn lemma_new_server(exe: Seq<char>)
    ensures
        new_server_shape(exe) == with_command(
            graft(
                graft(shape_only((ItemKind::Table, None)), Step::Key("name"@), string_shape("coordinator"@)),
                Step::Key("transport"@),
                string_shape("stdio"@),
            ),
            exe,
        ),
        new_server_shape(exe).contains_key(seq![]),
        new_server_shape(exe)[seq![]].0 == ItemKind::Table,
        new_server_shape(exe).contains_key(seq![Step::Key("name"@)]),
        new_server_shape(exe)[seq![Step::Key("name"@)]].1 == Some("coordinator"@),
{
    lemma_setup_keys_distinct();
    reveal_strlit("name");
    reveal_strlit("transport");
    let nk = Step::Key("name"@);
    let tk = Step::Key("transport"@);
    let g = graft(shape_only((ItemKind::Table, None)), nk, string_shape("coordinator"@));
    let g2 = graft(g, tk, string_shape("stdio"@));
    lemma_with_command_keeps_name(g2, exe);
    lemma_short_paths(tk, nk, nk);
    lemma_short_paths(nk, nk, nk);
    assert(g2.contains_key(seq![nk]));
    assert(g.contains_key(seq![nk]));
    assert(string_shape("coordinator"@).contains_key(seq![nk].skip(1)));
}

/// What configuring the servers `s` (counted `n`) does: with a coordinator
/// entry at `i`, the count stays and that entry is rewritten; without one, a
/// new entry comes last.
proof fn lemma_configured_servers_facts(s: Map<KeyPath, Shape>, n: nat, e: Seq<char>)
    requires
        has_elements(s, n),
    ensures
        ({
            let i = first_coordinator(s, 0, n);
            let c = configured_servers(s, e);
            &&& i <= n
            &&& i < n ==> has_elements(c, n) && first_coordinator(c, 0, n) == i && subtree(
                c,
                seq![Step::Index(i)],
            ) == with_command(subtree(s, seq![Step::Index(i)]), e) && c == graft(
                s,
                Step::Index(i),
                with_command(subtree(s, seq![Step::Index(i)]), e),
            )
            &&& i == n ==> has_elements(c, n + 1) && first_coordinator(c, 0, n + 1) == n && subtree(
                c,
                seq![Step::Index(n)],
            ) == new_server_shape(e) && c == graft(s, Step::Index(n), new_server_shape(e))
            &&& s.contains_key(seq![]) ==> c.contains_key(seq![]) && c[seq![]] == s[seq![]]
        }),
{
    reveal_strlit("name");
    let nk = Step::Key("name"@);
    lemma_count_unique(s, n);
    lemma_first_coordinator_bounds(s, 0, n);
    let i = first_coordinator(s, 0, n);
    let c = configured_servers(s, e);
    if i < n {
        let t = with_command(subtree(s, seq![Step::Index(i)]), e);
        assert(c == graft(s, Step::Index(i), t));
        lemma_with_command_keeps_name(subtree(s, seq![Step::Index(i)]), e);
        lemma_short_paths(Step::Index(i), Step::Index(i), nk);
        assert(has_elements(c, n)) by {
            assert forall|j: nat| #![trigger c.contains_key(seq![Step::Index(j)])]
                c.contains_key(seq![Step::Index(j)]) <==> j < n by {
                lemma_short_paths(Step::Index(i), Step::Index(j), nk);
                assert(s.contains_key(seq![Step::Index(j)]) <==> j < n);
                if j == i {
                    assert(seq![Step::Index(i)] + Seq::<Step>::empty() =~= seq![Step::Index(i)]);
                }
            }
        }
        assert(names_coordinator(c, i)) by {
            assert(seq![Step::Index(i)] + Seq::<Step>::empty() =~= seq![Step::Index(i)]);
            assert(seq![Step::Index(i)] + seq![nk] =~= seq![Step::Index(i), nk]);
        }
        assert forall|j: nat| 0 <= j < i implies !names_coordinator(c, j) by {
            lemma_names_elsewhere(s, i, t, j);
        }
        lemma_first_coordinator_at(c, 0, n, i);
        lemma_graft_subtree(s, Step::Index(i), t);
    } else {
        let t = new_server_shape(e);
        assert(c == graft(s, Step::Index(n), t));
        lemma_new_server(e);
        lemma_short_paths(Step::Index(n), Step::Index(n), nk);
        assert(has_elements(c, n + 1)) by {
            assert forall|j: nat| #![trigger c.contains_key(seq![Step::Index(j)])]
                c.contains_key(seq![Step::Index(j)]) <==> j < n + 1 by {
                lemma_short_paths(Step::Index(n), Step::Index(j), nk);
                assert(s.contains_key(seq![Step::Index(j)]) <==> j < n);
            }
        }
        assert(names_coordinator(c, n));
        assert forall|j: nat| 0 <= j < n implies !names_coordinator(c, j) by {
            lemma_names_elsewhere(s, n, t, j);
        }
        lemma_first_coordinator_at(c, 0, n + 1, n);
        lemma_graft_subtree(s, Step::Index(n), t);
    }
}

/// Configuring servers twice ends as configuring them once with the latest executable.
proof fn lemma_servers_again(s: Map<KeyPath, Shape>, n: nat, e1: Seq<char>, e2: Seq<char>)
    requires
        has_elements(s, n),
    ensures
        configured_servers(configured_servers(s, e1), e2) == configured_servers(s, e2),
{
    lemma_configured_servers_facts(s, n, e1);
    lemma_configured_servers_facts(s, n, e2);
    let i = first_coordinator(s, 0, n);
    let c1 = configured_servers(s, e1);
    if i < n {
        lemma_configured_servers_facts(c1, n, e2);
        let u = subtree(s, seq![Step::Index(i)]);
        lemma_with_command_again(u, e1, e2);
        lemma_graft_graft(s, Step::Index(i), with_command(u, e1), with_command(u, e2));
    } else {
        lemma_configured_servers_facts(c1, n + 1, e2);
        lemma_new_server(e1);
        lemma_new_server(e2);
        let base = graft(
            graft(shape_only((ItemKind::Table, None)), Step::Key("name"@), string_shape("coordinator"@)),
            Step::Key("transport"@),
            string_shape("stdio"@),
        );
        lemma_with_command_again(base, e1, e2);
        lemma_graft_graft(s, Step::Index(n), new_server_shape(e1), new_server_shape(e2));
    }
}

/// Whether the servers of `m`, when `[mcp]` is a table and `mcp.servers` an
/// array of tables, sit at the indices below some count (as in any TOML document).
pub open spec fn servers_indexed(m: Map<KeyPath, Shape>) -> bool {
    let mk = Step::Key("mcp"@);
    let sk = Step::Key("servers"@);
    m.contains_key(seq![mk]) && m[seq![mk]].0 == ItemKind::Table && m.contains_key(seq![mk, sk])
        && m[seq![mk, sk]].0 == ItemKind::ArrayOfTables ==> exists|n: nat| has_elements(
        subtree(m, seq![mk, sk]),
        n,
    )
}

/// Running the setup again, with the same or another executable, gives what
/// a single run with the latest executable gives: the coordinator entry is
/// updated in place and never added twice.
pub proof fn lemma_setup_again_updates(m: Map<KeyPath, Shape>, e1: Seq<char>, e2: Seq<char>)
    requires
        servers_indexed(m),
    ensures
        configured(configured(m, e1), e2) == configured(m, e2),
{
    lemma_setup_keys_distinct();
    let mk = Step::Key("mcp"@);
    let ek = Step::Key("enabled"@);
    let sk = Step::Key("servers"@);
    let v = shape_only((ItemKind::Value, None));
    let mcp0 = if m.contains_key(seq![mk]) && m[seq![mk]].0 == ItemKind::Table {
        subtree(m, seq![mk])
    } else {
        shape_only((ItemKind::Table, None))
    };
    let mcp1 = graft(mcp0, ek, v);
    let srv_ok = mcp1.contains_key(seq![sk]) && mcp1[seq![sk]].0 == ItemKind::ArrayOfTables;
    let srv0 = if srv_ok {
        subtree(mcp1, seq![sk])
    } else {
        shape_only((ItemKind::ArrayOfTables, None))
    };
    let c1 = configured_servers(srv0, e1);
    let x1 = graft(mcp1, sk, c1);
    let m1 = configured(m, e1);
    assert(m1 == graft(m, mk, x1));
    lemma_short_paths(mk, mk, sk);
    lemma_short_paths(ek, sk, sk);
    lemma_short_paths(ek, ek, sk);
    lemma_short_paths(sk, sk, sk);
    lemma_short_paths(sk, ek, sk);
    // The servers before the first run are counted.
    lemma_servers_before(m);
    lemma_configured_servers_of(m, e1);
    let n = choose|n: nat| has_elements(servers_of(m), n);
    lemma_servers_again(srv0, n, e1, e2);
    lemma_configured_servers_facts(srv0, n, e1);
    // In the second run, `[mcp]` is the table the first run left.
    assert(mcp0.contains_key(seq![]) && mcp0[seq![]].0 == ItemKind::Table) by {
        if m.contains_key(seq![mk]) && m[seq![mk]].0 == ItemKind::Table {
            assert(seq![mk] + Seq::<Step>::empty() =~= seq![mk]);
        }
    }
    assert(srv0.contains_key(seq![]) && srv0[seq![]].0 == ItemKind::ArrayOfTables) by {
        if srv_ok {
            assert(seq![sk] + Seq::<Step>::empty() =~= seq![sk]);
        }
    }
    lemma_graft_subtree(m, mk, x1);
    lemma_graft_subtree(mcp1, sk, c1);
    assert(m1.contains_key(seq![mk]) && m1[seq![mk]].0 == ItemKind::Table);
    lemma_graft_commute(mcp1, sk, c1, ek, v);
    lemma_graft_graft(mcp0, ek, v, v);
    assert(graft(x1, ek, v) == x1);
    assert(x1.contains_key(seq![sk]) && x1[seq![sk]].0 == ItemKind::ArrayOfTables);
    lemma_graft_graft(mcp1, sk, c1, configured_servers(srv0, e2));
    lemma_graft_graft(m, mk, x1, graft(mcp1, sk, configured_servers(srv0, e2)));
}

/// The servers of a configuration: `mcp.servers` when `[mcp]` is a table and
/// `mcp.servers` an array of tables; an empty array of tables otherwise.
pub open spec fn servers_of(m: Map<KeyPath, Shape>) -> Map<KeyPath, Shape> {
    let mk = Step::Key("mcp"@);
    let sk = Step::Key("servers"@);
    if m.contains_key(seq![mk]) && m[seq![mk]].0 == ItemKind::Table && m.contains_key(seq![mk, sk])
        && m[seq![mk, sk]].0 == ItemKind::ArrayOfTables {
        subtree(m, seq![mk, sk])
    } else {
        shape_only((ItemKind::ArrayOfTables, None))
    }
}

/// After the servers `before` (counted `n`) are configured into `after`, the
/// coordinator entry sits at the index of the first one in `before` (or at
/// the end, as one new entry, when there was none) and runs `exe`.
pub open spec fn registers(before: Map<KeyPath, Shape>, after: Map<KeyPath, Shape>, n: nat, exe: Seq<char>) -> bool {
    let i = first_coordinator(before, 0, n);
    let n1 = if i < n { n } else { n + 1 };
    &&& has_elements(after, n1)
    &&& first_coordinator(after, 0, n1) == i
    &&& after.contains_key(seq![Step::Index(i), Step::Key("command"@)])
    &&& after[seq![Step::Index(i), Step::Key("command"@)]] == (ItemKind::Value, Some(exe))
    &&& after.contains_key(seq![Step::Index(i), Step::Key("args"@)])
}

proof fn lemma_with_command_runs(x: Map<KeyPath, Shape>, e: Seq<char>)
    ensures
        with_command(x, e).contains_key(seq![Step::Key("command"@)]),
        with_command(x, e)[seq![Step::Key("command"@)]] == (ItemKind::Value, Some(e)),
        with_command(x, e).contains_key(seq![Step::Key("args"@)]),
{
    lemma_setup_keys_distinct();
    let ck = Step::Key("command"@);
    let ak = Step::Key("args"@);
    lemma_short_paths(ak, ck, ck);
    lemma_short_paths(ck, ck, ck);
    lemma_short_paths(ak, ak, ck);
}

/// The parts of a configuration after the setup: `[mcp]` is a table with
/// `enabled`, and its servers are the configured servers of before.
proof fn lemma_configured_servers_of(m: Map<KeyPath, Shape>, e: Seq<char>)
    requires
        servers_indexed(m),
    ensures
        exists|n: nat| has_elements(servers_of(m), n),
        configured(m, e).contains_key(seq![Step::Key("mcp"@)]),
        configured(m, e)[seq![Step::Key("mcp"@)]].0 == ItemKind::Table,
        configured(m, e).contains_key(seq![Step::Key("mcp"@), Step::Key("enabled"@)]),
        servers_of(configured(m, e)) == configured_servers(servers_of(m), e),
{
    reveal_strlit("mcp");
    lemma_setup_keys_distinct();
    let mk = Step::Key("mcp"@);
    let ek = Step::Key("enabled"@);
    let sk = Step::Key("servers"@);
    assert(mk != sk && mk != ek) by {
        reveal_strlit("servers");
        reveal_strlit("enabled");
        assert("mcp"@.len() != "servers"@.len());
        assert("mcp"@.len() != "enabled"@.len());
    }
    let v = shape_only((ItemKind::Value, None));
    let mcp_ok = m.contains_key(seq![mk]) && m[seq![mk]].0 == ItemKind::Table;
    let mcp0 = if mcp_ok {
        subtree(m, seq![mk])
    } else {
        shape_only((ItemKind::Table, None))
    };
    let mcp1 = graft(mcp0, ek, v);
    let srv_ok = mcp1.contains_key(seq![sk]) && mcp1[seq![sk]].0 == ItemKind::ArrayOfTables;
    let srv0 = if srv_ok {
        subtree(mcp1, seq![sk])
    } else {
        shape_only((ItemKind::ArrayOfTables, None))
    };
    let c = configured(m, e);
    let c1 = configured_servers(srv0, e);
    let x1 = graft(mcp1, sk, c1);
    assert(c == graft(m, mk, x1));
    lemma_short_paths(mk, mk, sk);
    lemma_short_paths(mk, mk, ek);
    lemma_short_paths(ek, sk, sk);
    lemma_short_paths(ek, ek, sk);
    lemma_short_paths(sk, sk, sk);
    lemma_short_paths(sk, ek, sk);
    lemma_subtree_graft_other(mcp0, ek, v, sk);
    lemma_subtree_concat(m, seq![mk], seq![sk]);
    assert(seq![mk] + seq![sk] =~= seq![mk, sk]);
    assert(seq![mk] + seq![ek] =~= seq![mk, ek]);
    assert(seq![mk] + Seq::<Step>::empty() =~= seq![mk]);
    assert(seq![sk] + Seq::<Step>::empty() =~= seq![sk]);
    assert(srv0 == servers_of(m)) by {
        if srv_ok {
            assert(mcp0.contains_key(seq![sk]));
            assert(mcp_ok);
            assert(m.contains_key(seq![mk, sk]));
        } else if mcp_ok && m.contains_key(seq![mk, sk]) && m[seq![mk, sk]].0 == ItemKind::ArrayOfTables {
            assert(mcp0.contains_key(seq![sk]));
            assert(mcp1.contains_key(seq![sk]));
        }
    }
    let n: nat = if srv_ok {
        assert(mcp_ok && m.contains_key(seq![mk, sk]) && m[seq![mk, sk]].0 == ItemKind::ArrayOfTables) by {
            assert(mcp0.contains_key(seq![sk]));
        }
        choose|n: nat| has_elements(subtree(m, seq![mk, sk]), n)
    } else {
        assert(has_elements(srv0, 0)) by {
            assert forall|j: nat| #![trigger srv0.contains_key(seq![Step::Index(j)])]
                !srv0.contains_key(seq![Step::Index(j)]) by {
                assert(seq![Step::Index(j)] != Seq::<Step>::empty());
            }
        }
        0
    };
    assert(has_elements(servers_of(m), n));
    lemma_configured_servers_facts(srv0, n, e);
    assert(mcp0.contains_key(seq![]) && mcp0[seq![]].0 == ItemKind::Table);
    assert(srv0.contains_key(seq![]) && srv0[seq![]].0 == ItemKind::ArrayOfTables);
    lemma_graft_subtree(m, mk, x1);
    lemma_graft_subtree(mcp1, sk, c1);
    lemma_subtree_concat(c, seq![mk], seq![sk]);
    assert(c.contains_key(seq![mk]) && c[seq![mk]].0 == ItemKind::Table);
    assert(x1.contains_key(seq![sk]) && x1[seq![sk]].0 == ItemKind::ArrayOfTables);
    assert(c.contains_key(seq![mk, sk]) && c[seq![mk, sk]].0 == ItemKind::ArrayOfTables);
    assert(x1.contains_key(seq![ek]));
    assert(c.contains_key(seq![mk, ek]));
}

/// The setup registers the coordinator: afterwards `[mcp]` is a table with
/// `enabled`, and among its servers the first entry named `coordinator` runs
/// `exe` with its arguments. That entry is the first coordinator entry there
/// was, rewritten in place; only when there was none is one entry added, at
/// the end.
pub proof fn lemma_setup_registers_coordinator(m: Map<KeyPath, Shape>, e: Seq<char>)
    requires
        servers_indexed(m),
    ensures
        configured(m, e).contains_key(seq![Step::Key("mcp"@)]),
        configured(m, e)[seq![Step::Key("mcp"@)]].0 == ItemKind::Table,
        configured(m, e).contains_key(seq![Step::Key("mcp"@), Step::Key("enabled"@)]),
        forall|n: nat| #[trigger] has_elements(servers_of(m), n) ==> registers(
            servers_of(m),
            servers_of(configured(m, e)),
            n,
            e,
        ),
{
    lemma_configured_servers_of(m, e);
    let s0 = servers_of(m);
    let s1 = servers_of(configured(m, e));
    assert forall|n: nat| #[trigger] has_elements(s0, n) implies registers(s0, s1, n, e) by {
        lemma_configured_servers_facts(s0, n, e);
        let i = first_coordinator(s0, 0, n);
        let ck = Step::Key("command"@);
        let ak = Step::Key("args"@);
        let x = subtree(s1, seq![Step::Index(i)]);
        if i < n {
            lemma_with_command_runs(subtree(s0, seq![Step::Index(i)]), e);
        } else {
            lemma_new_server(e);
            lemma_with_command_runs(
                graft(
                    graft(shape_only((ItemKind::Table, None)), Step::Key("name"@), string_shape("coordinator"@)),
                    Step::Key("transport"@),
                    string_shape("stdio"@),
                ),
                e,
            );
        }
        assert(x.contains_key(seq![ck]) && x.contains_key(seq![ak]));
        assert(seq![Step::Index(i)] + seq![ck] =~= seq![Step::Index(i), ck]);
        assert(seq![Step::Index(i)] + seq![ak] =~= seq![Step::Index(i), ak]);
    }
}

} // verus!
