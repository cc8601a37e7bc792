//! TOML documents as `toml_edit` holds them.
//!
//! An item is described by its nodes: what stands at each path of keys below
//! it, and how it is written. The empty path is the item itself.

use toml_edit::{Decor, DocumentMut, Item};
use vstd::prelude::*;
use vstd::string::*;

verus! {

/// `toml_edit::Item`: a value, a table, an array of tables, or nothing.
#[verifier::external_type_specification]
#[verifier::external_body]
pub struct ExItem(Item);

/// `toml_edit::DocumentMut`: a document that can be edited in place.
#[verifier::external_type_specification]
#[verifier::external_body]
pub struct ExDocumentMut(DocumentMut);

/// `toml_edit::Decor`: the whitespace and comments around a value.
#[verifier::external_type_specification]
#[verifier::external_body]
pub struct ExDecor(Decor);

/// The whitespace and comments around a value, where it has its own.
#[verifier::ext_equal]
pub struct DecorText {
    pub prefix: Option<Seq<char>>,
    pub suffix: Option<Seq<char>>,
}

/// What an item is.
pub enum TomlKind {
    /// A string.
    Text(Seq<char>),
    /// A boolean.
    Flag(bool),
    /// An array with so many values.
    List(nat),
    /// An inline table.
    InlineTable,
    /// A table under a header or of dotted keys.
    Table,
    /// A number, a date, or an array of tables.
    Other,
}

/// How a key is written: its raw form, where it has one, and the whitespace and
/// comments around it, both where it ends a path and where a dot follows it.
#[verifier::ext_equal]
pub struct KeyLayout {
    pub key: Seq<char>,
    pub written: Option<Seq<char>>,
    pub leaf_decor: DecorText,
    pub dotted_decor: DecorText,
}

/// How a table or an inline table is written round the values in it.
#[verifier::ext_equal]
pub struct TableLayout {
    /// The whitespace and comments around the header. An inline table has none.
    pub header: DecorText,
    /// The place of a table among those of its document, where it has one.
    pub position: Option<int>,
    /// It is not written while it is empty.
    pub implicit: bool,
    /// It is written as dotted keys.
    pub dotted: bool,
    /// What stands before the closing brace of an inline table.
    pub trailing: Seq<char>,
    /// A comma follows the last value of an inline table.
    pub trailing_comma: bool,
    /// The keys in their order, those too under which nothing stands.
    pub keys: Seq<KeyLayout>,
}

/// What stands at one path. Values, inline tables among them, have decor, and
/// tables and inline tables have a layout.
pub struct TomlNode {
    pub kind: TomlKind,
    pub decor: Option<DecorText>,
    /// How something else than a table is written between its decor. There is
    /// nothing here where that is left to `toml_edit`.
    pub written: Option<Seq<char>>,
    pub layout: Option<TableLayout>,
}

/// What stands at each path of keys below an item. Nothing stands in an item
/// that is `toml_edit::Item::None`.
pub uninterp spec fn item_nodes(item: Item) -> Map<Seq<Seq<char>>, TomlNode>;

/// What stands at each path of keys of a document.
pub uninterp spec fn document_nodes(document: DocumentMut) -> Map<Seq<Seq<char>>, TomlNode>;

/// The whitespace and comments after the last entry of a document.
pub uninterp spec fn document_trailing(document: DocumentMut) -> Seq<char>;

/// The text of a decor.
pub uninterp spec fn decor_text(decor: Decor) -> DecorText;

/// What `str::parse::<DocumentMut>` makes of a text: what stands at each path
/// of the document, or the message of the error.
pub uninterp spec fn parsed_document(text: Seq<char>) -> Result<
    Map<Seq<Seq<char>>, TomlNode>,
    Seq<char>,
>;

/// The whitespace and comments that `str::parse::<DocumentMut>` finds after the
/// last entry of a text.
pub uninterp spec fn parsed_trailing(text: Seq<char>) -> Seq<char>;

/// The text that `DocumentMut` displays as.
pub uninterp spec fn document_text(document: DocumentMut) -> Seq<char>;

/// The nodes of the entry under the key.
pub open spec fn entry(
    nodes: Map<Seq<Seq<char>>, TomlNode>,
    key: Seq<char>,
) -> Map<Seq<Seq<char>>, TomlNode> {
    Map::new(
        |path: Seq<Seq<char>>| nodes.contains_key(seq![key] + path),
        |path: Seq<Seq<char>>| nodes[seq![key] + path],
    )
}

/// A key that is left to `toml_edit` to write.
pub open spec fn plain_key(key: Seq<char>) -> KeyLayout {
    KeyLayout { key, written: None, leaf_decor: no_decor(), dotted_decor: no_decor() }
}

/// The table lists the key.
pub open spec fn is_listed(table: TomlNode, key: Seq<char>) -> bool {
    table.layout is Some && exists|i: int|
        0 <= i < table.layout->0.keys.len() && (#[trigger] table.layout->0.keys[i]).key == key
}

/// The item is a table that lists the key.
pub open spec fn lists_key(nodes: Map<Seq<Seq<char>>, TomlNode>, key: Seq<char>) -> bool {
    nodes.contains_key(Seq::empty()) && is_listed(nodes[Seq::empty()], key)
}

/// The table with the key behind the others, where it does not list it.
pub open spec fn with_key(table: TomlNode, key: Seq<char>) -> TomlNode {
    if table.layout is None || is_listed(table, key) {
        table
    } else {
        let layout = table.layout->0;
        TomlNode {
            layout: Some(TableLayout { keys: layout.keys.push(plain_key(key)), ..layout }),
            ..table
        }
    }
}

/// The nodes with another entry under the key. A key that is new comes behind
/// the others; else the item itself stays as it is.
pub open spec fn with_entry(
    nodes: Map<Seq<Seq<char>>, TomlNode>,
    key: Seq<char>,
    child: Map<Seq<Seq<char>>, TomlNode>,
) -> Map<Seq<Seq<char>>, TomlNode> {
    Map::new(
        |path: Seq<Seq<char>>|
            if path.len() > 0 && path[0] == key {
                child.contains_key(path.drop_first())
            } else {
                nodes.contains_key(path)
            },
        |path: Seq<Seq<char>>|
            if path.len() > 0 && path[0] == key {
                child[path.drop_first()]
            } else if path.len() == 0 && !has_entry(nodes, key) {
                with_key(nodes[path], key)
            } else {
                nodes[path]
            },
    )
}

/// There is an entry under the key.
pub open spec fn has_entry(nodes: Map<Seq<Seq<char>>, TomlNode>, key: Seq<char>) -> bool {
    entry(nodes, key).contains_key(Seq::empty())
}

/// The item is a table that is not an inline one.
pub open spec fn is_table(nodes: Map<Seq<Seq<char>>, TomlNode>) -> bool {
    nodes.contains_key(Seq::empty()) && nodes[Seq::empty()].kind is Table
}

/// What stands under a key stands in something: where there is a node at a path
/// of keys, there is one at the path without the last key.
pub open spec fn is_rooted(nodes: Map<Seq<Seq<char>>, TomlNode>) -> bool {
    forall|path: Seq<Seq<char>>| #[trigger]
        nodes.contains_key(path) && path.len() > 0 ==> nodes.contains_key(path.drop_last())
}

/// The text of an item that is a string.
pub open spec fn text_of(nodes: Map<Seq<Seq<char>>, TomlNode>) -> Option<Seq<char>> {
    if nodes.contains_key(Seq::empty()) {
        match nodes[Seq::empty()].kind {
            TomlKind::Text(text) => Some(text),
            _ => None,
        }
    } else {
        None
    }
}

/// The value of an item that is a boolean.
pub open spec fn flag_of(nodes: Map<Seq<Seq<char>>, TomlNode>) -> Option<bool> {
    if nodes.contains_key(Seq::empty()) {
        match nodes[Seq::empty()].kind {
            TomlKind::Flag(flag) => Some(flag),
            _ => None,
        }
    } else {
        None
    }
}

/// The length of an item that is an array.
pub open spec fn list_length_of(nodes: Map<Seq<Seq<char>>, TomlNode>) -> Option<nat> {
    if nodes.contains_key(Seq::empty()) {
        match nodes[Seq::empty()].kind {
            TomlKind::List(length) => Some(length),
            _ => None,
        }
    } else {
        None
    }
}

/// The item is a table or an inline table.
pub open spec fn is_table_like(nodes: Map<Seq<Seq<char>>, TomlNode>) -> bool {
    nodes.contains_key(Seq::empty()) && (nodes[Seq::empty()].kind is Table
        || nodes[Seq::empty()].kind is InlineTable)
}

/// The nodes of a string value that is left to `toml_edit` to write.
pub open spec fn text_nodes(text: Seq<char>, decor: DecorText) -> Map<Seq<Seq<char>>, TomlNode> {
    Map::empty().insert(
        Seq::empty(),
        TomlNode {
            kind: TomlKind::Text(text),
            decor: Some(decor),
            written: None,
            layout: None,
        },
    )
}

/// No decor of its own.
pub open spec fn no_decor() -> DecorText {
    DecorText { prefix: None, suffix: None }
}

/// The layout of a table that was not read from a text.
pub open spec fn plain_layout() -> TableLayout {
    TableLayout {
        header: no_decor(),
        position: None,
        implicit: false,
        dotted: false,
        trailing: Seq::empty(),
        trailing_comma: false,
        keys: Seq::empty(),
    }
}

/// The nodes of a table without entries.
pub open spec fn empty_table_nodes() -> Map<Seq<Seq<char>>, TomlNode> {
    Map::empty().insert(
        Seq::empty(),
        TomlNode {
            kind: TomlKind::Table,
            decor: None,
            written: None,
            layout: Some(plain_layout()),
        },
    )
}

/// The nodes of an inline table without entries.
pub open spec fn empty_inline_table_nodes() -> Map<Seq<Seq<char>>, TomlNode> {
    Map::empty().insert(
        Seq::empty(),
        TomlNode {
            kind: TomlKind::InlineTable,
            decor: Some(no_decor()),
            written: None,
            layout: Some(plain_layout()),
        },
    )
}

/// What a table-like item has to start with before a key is set in it: itself,
/// or an inline table where there is nothing.
pub open spec fn table_base(nodes: Map<Seq<Seq<char>>, TomlNode>) -> Map<
    Seq<Seq<char>>,
    TomlNode,
> {
    if nodes == Map::<Seq<Seq<char>>, TomlNode>::empty() {
        empty_inline_table_nodes()
    } else {
        nodes
    }
}

/// `str::parse::<DocumentMut>`: the document that a text writes. The root of a
/// parsed document is a table, and keys stand only in what stands there itself.
/// The outcome depends on the text alone.
#[verifier::external_body]
pub(crate) fn parse_document(text: &str) -> (result: Result<DocumentMut, String>)
    ensures
        match result {
            Ok(document) => parsed_document(text@) == Ok::<
                Map<Seq<Seq<char>>, TomlNode>,
                Seq<char>,
            >(document_nodes(document)) && is_table(document_nodes(document)) && is_rooted(
                document_nodes(document),
            ) && document_trailing(document) == parsed_trailing(text@),
            Err(message) => parsed_document(text@) == Err::<
                Map<Seq<Seq<char>>, TomlNode>,
                Seq<char>,
            >(message@),
        },
{
    text.parse::<DocumentMut>().map_err(|error| error.to_string())
}

/// `DocumentMut::to_string`, by its `Display`: the text of a document whose
/// root is a table, which its formatting decides too.
#[verifier::external_body]
pub(crate) fn print_document(document: &DocumentMut) -> (text: String)
    requires
        is_table(document_nodes(*document)),
    ensures
        text@ == document_text(*document),
{
    document.to_string()
}

/// `DocumentMut::as_item`: the root of the document. In any item keys stand only
/// in what stands there itself.
#[verifier::external_body]
pub(crate) fn document_root(document: &DocumentMut) -> (root: &Item)
    ensures
        item_nodes(*root) == document_nodes(*document),
        is_rooted(item_nodes(*root)),
{
    document.as_item()
}

/// `DocumentMut::as_item_mut`: the root of the document, to be changed. What
/// follows the last entry is not part of the root.
#[verifier::external_body]
pub(crate) fn document_root_mut(document: &mut DocumentMut) -> (root: &mut Item)
    ensures
        item_nodes(*root) == document_nodes(*old(document)),
        document_nodes(*final(document)) == item_nodes(*final(root)),
        document_trailing(*final(document)) == document_trailing(*old(document)),
{
    document.as_item_mut()
}

/// `Item::get` with a string: the entry under the key of a table or an inline
/// table. Where there is none, nothing stands below the key.
#[verifier::external_body]
pub(crate) fn item_child<'a>(item: &'a Item, key: &str) -> (child: Option<&'a Item>)
    ensures
        match child {
            Some(c) => has_entry(item_nodes(*item), key@) && item_nodes(*c) == entry(
                item_nodes(*item),
                key@,
            ) && is_table_like(item_nodes(*item)),
            None => entry(item_nodes(*item), key@) == Map::<Seq<Seq<char>>, TomlNode>::empty(),
        },
{
    item.get(key)
}

/// `Item::get_mut` with a string, on a table, an inline table or nothing: the
/// place of the key, which holds nothing where the key is new. An item that was
/// nothing becomes an inline table. The layout of the item stays, but for a key
/// that it does not list yet: that comes last, without a way of its own to be
/// written.
#[verifier::external_body]
pub(crate) fn item_slot<'a>(item: &'a mut Item, key: &str) -> (slot: &'a mut Item)
    requires
        is_table_like(item_nodes(*old(item))) || item_nodes(*old(item)) == Map::<
            Seq<Seq<char>>,
            TomlNode,
        >::empty(),
    ensures
        item_nodes(*slot) == entry(item_nodes(*old(item)), key@),
        item_nodes(*final(item)) == with_entry(
            table_base(item_nodes(*old(item))),
            key@,
            item_nodes(*final(slot)),
        ),
{
    item.get_mut(key).unwrap()
}

/// `Item::as_str`: the text of a string.
#[verifier::external_body]
pub(crate) fn item_text(item: &Item) -> (text: Option<&str>)
    ensures
        match text {
            Some(t) => text_of(item_nodes(*item)) == Some(t@),
            None => text_of(item_nodes(*item)) is None,
        },
{
    item.as_str()
}

/// `Item::as_bool`: the value of a boolean.
#[verifier::external_body]
pub(crate) fn item_flag(item: &Item) -> (flag: Option<bool>)
    ensures
        flag == flag_of(item_nodes(*item)),
{
    item.as_bool()
}

/// `Item::as_array` and the length of the array.
#[verifier::external_body]
pub(crate) fn item_list_length(item: &Item) -> (length: Option<usize>)
    ensures
        match length {
            Some(n) => list_length_of(item_nodes(*item)) == Some(n as nat),
            None => list_length_of(item_nodes(*item)) is None,
        },
{
    item.as_array().map(|values| values.len())
}

/// `Item::is_table_like`: whether an item is a table or an inline table.
#[verifier::external_body]
pub(crate) fn item_is_table_like(item: &Item) -> (table_like: bool)
    ensures
        table_like == is_table_like(item_nodes(*item)),
{
    item.is_table_like()
}

/// `Item::is_table`: whether an item is a table that is not an inline one.
#[verifier::external_body]
pub(crate) fn item_is_table(item: &Item) -> (table: bool)
    ensures
        table == is_table(item_nodes(*item)),
{
    item.is_table()
}

/// `TableLike::iter`, of which the keys are kept: the keys that a table or an
/// inline table lists and under which something stands, each once. An inline
/// table may give a key under which nothing stands, too.
#[verifier::external_body]
pub(crate) fn item_keys(item: &Item) -> (keys: Vec<String>)
    requires
        is_table_like(item_nodes(*item)),
    ensures
        forall|i: int, j: int|
            0 <= i < j < keys@.len() ==> (#[trigger] keys@[i])@ != (#[trigger] keys@[j])@,
        forall|key: Seq<char>| #[trigger]
            has_entry(item_nodes(*item), key) ==> exists|i: int|
                0 <= i < keys@.len() && (#[trigger] keys@[i])@ == key,
        forall|i: int|
            0 <= i < keys@.len() ==> lists_key(item_nodes(*item), (#[trigger] keys@[i])@),
{
    item.as_table_like().unwrap().iter().map(|(key, _)| key.to_string()).collect()
}

/// `toml_edit::value` of a text: a string value without decor, and without a
/// written form, of its own.
#[verifier::external_body]
pub(crate) fn text_value(text: &str) -> (item: Item)
    ensures
        item_nodes(item) == text_nodes(text@, no_decor()),
{
    toml_edit::value(text)
}

/// `toml_edit::table`: a table without entries and without a layout of its own.
#[verifier::external_body]
pub(crate) fn empty_table() -> (item: Item)
    ensures
        item_nodes(item) == empty_table_nodes(),
{
    toml_edit::table()
}

/// `Item::as_value` and a copy of its `Value::decor`.
#[verifier::external_body]
pub(crate) fn value_decor(item: &Item) -> (decor: Option<Decor>)
    ensures
        match decor {
            Some(d) => item_nodes(*item).contains_key(Seq::empty())
                && item_nodes(*item)[Seq::empty()].decor == Some(decor_text(d)),
            None => item_nodes(*item).contains_key(Seq::empty()) ==> item_nodes(
                *item,
            )[Seq::empty()].decor is None,
        },
{
    item.as_value().map(|value| value.decor().clone())
}

/// `Value::decor_mut` of an item that is a value: sets its decor and nothing
/// else.
#[verifier::external_body]
pub(crate) fn set_value_decor(item: &mut Item, decor: Decor)
    requires
        item_nodes(*old(item)).contains_key(Seq::empty()),
        item_nodes(*old(item))[Seq::empty()].decor is Some,
    ensures
        item_nodes(*final(item)) == item_nodes(*old(item)).insert(
            Seq::empty(),
            TomlNode {
                kind: item_nodes(*old(item))[Seq::empty()].kind,
                decor: Some(decor_text(decor)),
                written: item_nodes(*old(item))[Seq::empty()].written,
                layout: item_nodes(*old(item))[Seq::empty()].layout,
            },
        ),
{
    *item.as_value_mut().unwrap().decor_mut() = decor;
}

/// An entry that was set is read back, and setting it again replaces it.
pub proof fn lemma_entry_set(
    nodes: Map<Seq<Seq<char>>, TomlNode>,
    key: Seq<char>,
    child: Map<Seq<Seq<char>>, TomlNode>,
    other: Map<Seq<Seq<char>>, TomlNode>,
)
    ensures
        entry(with_entry(nodes, key, child), key) == child,
        child.contains_key(Seq::empty()) ==> with_entry(with_entry(nodes, key, child), key, other)
            == with_entry(nodes, key, other),
        has_entry(nodes, key) || lists_key(nodes, key) ==> with_entry(
            nodes,
            key,
            entry(nodes, key),
        ) == nodes,
{
    let set = with_entry(nodes, key, child);
    assert forall|path: Seq<Seq<char>>|
        #![trigger entry(set, key).contains_key(path)]
        entry(set, key).contains_key(path) == child.contains_key(path) && (child.contains_key(path)
            ==> entry(set, key)[path] == child[path]) by {
        assert((seq![key] + path).drop_first() =~= path);
    }
    assert(entry(set, key) =~= child);
    if child.contains_key(Seq::empty()) {
        assert(with_entry(set, key, other) =~= with_entry(nodes, key, other));
    }
    let same = with_entry(nodes, key, entry(nodes, key));
    assert forall|path: Seq<Seq<char>>|
        #![trigger same.contains_key(path)]
        same.contains_key(path) == nodes.contains_key(path) && ((has_entry(nodes, key)
            || lists_key(nodes, key)) && nodes.contains_key(path) ==> same[path] == nodes[path]) by {
        if path.len() > 0 && path[0] == key {
            assert(seq![key] + path.drop_first() =~= path);
        } else if path.len() == 0 {
            assert(path =~= Seq::empty());
        }
    }
    if has_entry(nodes, key) || lists_key(nodes, key) {
        assert(same =~= nodes);
    }
}

/// Nothing has no entries.
pub proof fn lemma_entry_of_nothing(key: Seq<char>)
    ensures
        entry(Map::empty(), key) == Map::<Seq<Seq<char>>, TomlNode>::empty(),
{
    assert(entry(Map::empty(), key) =~= Map::<Seq<Seq<char>>, TomlNode>::empty());
}

/// Setting an entry leaves the others as they are.
pub proof fn lemma_other_entry(
    nodes: Map<Seq<Seq<char>>, TomlNode>,
    key: Seq<char>,
    child: Map<Seq<Seq<char>>, TomlNode>,
    other: Seq<char>,
)
    requires
        other != key,
    ensures
        entry(with_entry(nodes, key, child), other) == entry(nodes, other),
{
    let set = with_entry(nodes, key, child);
    assert forall|path: Seq<Seq<char>>|
        #![trigger entry(set, other).contains_key(path)]
        entry(set, other).contains_key(path) == entry(nodes, other).contains_key(path) && (entry(
            nodes,
            other,
        ).contains_key(path) ==> entry(set, other)[path] == entry(nodes, other)[path]) by {
        assert((seq![other] + path)[0] == other);
    }
    assert(entry(set, other) =~= entry(nodes, other));
}

/// Where nothing stands under a key, nothing stands below it.
proof fn lemma_nothing_below(
    nodes: Map<Seq<Seq<char>>, TomlNode>,
    key: Seq<char>,
    below: Seq<Seq<char>>,
)
    requires
        is_rooted(nodes),
        !has_entry(nodes, key),
    ensures
        !nodes.contains_key(seq![key] + below),
    decreases below.len(),
{
    let path = seq![key] + below;
    if below.len() > 0 {
        lemma_nothing_below(nodes, key, below.drop_last());
        assert(path.drop_last() =~= seq![key] + below.drop_last());
    } else {
        assert(below =~= Seq::empty());
    }
}

/// Where nothing stands under a key, there is no entry at all.
pub proof fn lemma_missing_entry(nodes: Map<Seq<Seq<char>>, TomlNode>, key: Seq<char>)
    requires
        is_rooted(nodes),
        !has_entry(nodes, key),
    ensures
        entry(nodes, key) == Map::<Seq<Seq<char>>, TomlNode>::empty(),
{
    assert forall|below: Seq<Seq<char>>| !(#[trigger] entry(nodes, key).contains_key(below)) by {
        lemma_nothing_below(nodes, key, below);
    }
    assert(entry(nodes, key) =~= Map::empty());
}

/// What stands under a key stands in something too.
pub proof fn lemma_rooted_entry(nodes: Map<Seq<Seq<char>>, TomlNode>, key: Seq<char>)
    requires
        is_rooted(nodes),
    ensures
        is_rooted(entry(nodes, key)),
{
    let child = entry(nodes, key);
    assert forall|below: Seq<Seq<char>>| #[trigger]
        child.contains_key(below) && below.len() > 0 implies child.contains_key(below.drop_last()) by {
        assert((seq![key] + below).drop_last() =~= seq![key] + below.drop_last());
    }
}

/// Whether there is an entry under the key.
pub(crate) fn item_has_child(item: &Item, key: &str) -> (present: bool)
    ensures
        present == has_entry(item_nodes(*item), key@),
        present ==> is_table_like(item_nodes(*item)),
        !present ==> entry(item_nodes(*item), key@) == Map::<Seq<Seq<char>>, TomlNode>::empty(),
{
    match item_child(item, key) {
        Some(_) => true,
        None => false,
    }
}

} // verus!
