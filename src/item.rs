use vstd::prelude::*;

verus! {

/// How rare an item is.
#[derive(Debug, Clone, PartialEq, Eq, Structural)]
pub enum Rarity {
    Common,
    UnCommon,
    Rare,
    Epic,
}

/// A stack of items: how many, and the item's numerical protocol id.
#[derive(Clone, Copy)]
pub struct Item {
    item_count: u32,
    item_id: u32,
}

} // verus!
