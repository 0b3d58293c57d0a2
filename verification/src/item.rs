//! Clothing items and their mathematical model.

use vstd::prelude::*;

use crate::cost::Cost;
use crate::cost::is_number_text;
use crate::date::Date;

verus! {

/// The mathematical content of one clothing item: its name and cost as
/// character sequences, and the dates it was worn, in entry order.
#[verifier::ext_equal]
pub struct ItemModel {
    pub name: Seq<char>,
    pub cost: Seq<char>,
    pub uses: Seq<Date>,
}

/// One tracked wardrobe item: a name, a cost, and the dates it was worn.
pub struct ClothingItem {
    pub name: String,
    pub cost: Cost,
    pub uses: Vec<Date>,
}

impl View for ClothingItem {
    type V = ItemModel;

    open spec fn view(&self) -> ItemModel {
        ItemModel { name: self.name@, cost: self.cost@, uses: self.uses@ }
    }
}

/// The item's cost is a number text and its dates are valid.
pub open spec fn wf_item(m: ItemModel) -> bool {
    &&& is_number_text(m.cost)
    &&& forall|i: int| 0 <= i < m.uses.len() ==> (#[trigger] m.uses[i]).wf()
}

/// The models of a sequence of items, in order.
pub open spec fn doc_of(items: Seq<ClothingItem>) -> Seq<ItemModel> {
    Seq::new(items.len(), |i: int| items[i]@)
}

pub open spec fn wf_doc(ms: Seq<ItemModel>) -> bool {
    forall|i: int| 0 <= i < ms.len() ==> wf_item(#[trigger] ms[i])
}

impl ClothingItem {
    /// A copy with the same name, cost and uses.
    pub fn duplicate(&self) -> (r: ClothingItem)
        ensures
            r@ == self@,
    {
        let mut uses: Vec<Date> = Vec::new();
        let mut i: usize = 0;
        while i < self.uses.len()
            invariant
                i <= self.uses@.len(),
                uses@ =~= self.uses@.take(i as int),
            decreases self.uses@.len() - i,
        {
            uses.push(self.uses[i]);
            assert(uses@ =~= self.uses@.take(i + 1));
            i += 1;
        }
        assert(uses@ =~= self.uses@);
        let r = ClothingItem { name: self.name.clone(), cost: self.cost.duplicate(), uses };
        assert(r@ =~= self@);
        r
    }
}

} // verus!
