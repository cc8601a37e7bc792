//! Rejecting manifests whose top-level table is something else.

use crate::toml;
use crate::toml::{document_root, item_child, item_is_table_like};
use toml_edit::DocumentMut;
use vstd::prelude::*;
use vstd::string::*;

verus! {

/// A manifest whose item under a key is not a table.
#[derive(Debug)]
pub struct NonTableItem {
    pub label: String,
    pub path: String,
    pub key: String,
}

impl NonTableItem {
    /// What to tell the user.
    pub fn message(&self) -> (message: String)
        ensures
            message@ == self.label@ + " "@ + self.path@ + " has a non-table ["@ + self.key@
                + "] item"@,
    {
        let mut message: String = self.label.clone();
        message.append(" ");
        message.append(self.path.as_str());
        message.append(" has a non-table [");
        message.append(self.key.as_str());
        message.append("] item");
        message
    }
}

/// Whether the manifest has an item under `key`, which then has to be a table
/// or an inline table.
pub fn ensure_toml_table_like(document: &DocumentMut, path: &str, key: &str, label: &str) -> (result:
    Result<bool, NonTableItem>)
    ensures
        match result {
            Ok(present) => {
                let nodes = toml::document_nodes(*document);
                &&& present == toml::has_entry(nodes, key@)
                &&& present ==> toml::is_table_like(toml::entry(nodes, key@))
            },
            Err(error) => {
                let nodes = toml::document_nodes(*document);
                &&& toml::has_entry(nodes, key@)
                &&& !toml::is_table_like(toml::entry(nodes, key@))
                &&& error.label@ == label@
                &&& error.path@ == path@
                &&& error.key@ == key@
            },
        },
{
    match item_child(document_root(document), key) {
        Some(item) => if item_is_table_like(item) {
            Ok(true)
        } else {
            Err(
                NonTableItem {
                    label: label.to_string(),
                    path: path.to_string(),
                    key: key.to_string(),
                },
            )
        },
        None => Ok(false),
    }
}

} // verus!
