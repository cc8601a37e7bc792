//! Overwriting a TOML value without losing the trivia around it.

use crate::toml;
use crate::toml::{set_value_decor, text_value, value_decor, DecorText, TomlNode};
use toml_edit::{Decor, Item};
use vstd::prelude::*;

verus! {

/// The decor that a slot passes on to the value that overwrites it.
pub open spec fn kept_decor(nodes: Map<Seq<Seq<char>>, TomlNode>) -> DecorText {
    if nodes.contains_key(Seq::empty()) && nodes[Seq::empty()].decor is Some {
        nodes[Seq::empty()].decor->0
    } else {
        toml::no_decor()
    }
}

/// Overwrites `slot` with the string `new_value` and keeps the whitespace and
/// comments of the previous value. A slot without a value has none to keep.
pub fn assign_preserving_decor(slot: &mut Item, new_value: &str)
    ensures
        toml::item_nodes(*final(slot)) == toml::text_nodes(
            new_value@,
            kept_decor(toml::item_nodes(*old(slot))),
        ),
{
    let previous_decor: Option<Decor> = value_decor(slot);
    *slot = text_value(new_value);
    match previous_decor {
        Some(decor) => {
            set_value_decor(slot, decor);
            proof {
                assert(toml::item_nodes(*slot) =~= toml::text_nodes(
                    new_value@,
                    toml::decor_text(decor),
                ));
            }
        },
        None => {},
    }
}

} // verus!
