//! The store: an ordered sequence of clothing items and its operations.
//!
//! The store offers the three operations the application exposes: reading
//! the items back, adding an item, and recording a use of an item on a
//! calendar date.  Recording a use is a silent no-op when the date text is
//! malformed or no item bears the name.

use vstd::prelude::*;

use crate::cost::Cost;
use crate::date::Date;
use crate::date::date_of_str;
use crate::date::parse_date_str;
use crate::item::ClothingItem;
use crate::item::ItemModel;
use crate::item::doc_of;
use crate::item::wf_doc;
use crate::item::wf_item;
use crate::codec::lemma_doc_round_trip;
use crate::codec::lemma_parse_doc_wf;
use crate::codec::parse_doc;
use crate::codec::print_doc;
use crate::codec::read_doc;
use crate::codec::write_doc;
use crate::text::chars_to_string;
use crate::text::str_eq;

verus! {

/// The model of an item freshly added: the given name and cost, no uses.
pub open spec fn item_of_add(name: Seq<char>, cost: Seq<char>) -> ItemModel {
    ItemModel { name: name, cost: cost, uses: Seq::empty() }
}

/// The first index at or after `i` whose item bears `name`.
pub open spec fn first_match(ms: Seq<ItemModel>, name: Seq<char>, i: int) -> Option<int>
    decreases ms.len() - i,
{
    if i < 0 || i >= ms.len() {
        None
    } else if ms[i].name == name {
        Some(i)
    } else {
        first_match(ms, name, i + 1)
    }
}

/// A found index lies in range and its item bears the name.
pub proof fn lemma_first_match_in_range(ms: Seq<ItemModel>, name: Seq<char>, i: int)
    ensures
        first_match(ms, name, i) matches Some(k) ==> i <= k < ms.len() && ms[k].name == name,
    decreases ms.len() - i,
{
    if 0 <= i < ms.len() && ms[i].name != name {
        lemma_first_match_in_range(ms, name, i + 1);
    }
}

/// The model of an item after one more use on `d`.
pub open spec fn with_use(m: ItemModel, d: Date) -> ItemModel {
    ItemModel { uses: m.uses.push(d), ..m }
}

/// What recording a use does to the store: appends the date to the first
/// item bearing the name, if the date text is a valid date and some item
/// bears the name; otherwise changes nothing.
pub open spec fn add_use_result(ms: Seq<ItemModel>, name: Seq<char>, date: Seq<char>) -> Seq<
    ItemModel,
> {
    match date_of_str(date) {
        None => ms,
        Some(d) => match first_match(ms, name, 0) {
            None => ms,
            Some(i) => ms.update(i, with_use(ms[i], d)),
        },
    }
}

/// The in-memory store: an ordered sequence of clothing items.
pub struct Store {
    items: Vec<ClothingItem>,
}

impl View for Store {
    type V = Seq<ItemModel>;

    closed spec fn view(&self) -> Seq<ItemModel> {
        doc_of(self.items@)
    }
}

impl Store {
    #[verifier::type_invariant]
    spec fn inv(self) -> bool {
        wf_doc(doc_of(self.items@))
    }

    /// An empty store.
    pub fn new() -> (r: Store)
        ensures
            r@ =~= Seq::<ItemModel>::empty(),
    {
        Store { items: Vec::new() }
    }

    /// A store holding exactly the given items.
    pub(crate) fn from_items(items: Vec<ClothingItem>) -> (r: Store)
        requires
            wf_doc(doc_of(items@)),
        ensures
            r@ =~= doc_of(items@),
    {
        Store { items }
    }

    /// How many items the store holds.
    pub fn len(&self) -> (r: usize)
        ensures
            r == self@.len(),
    {
        self.items.len()
    }

    /// A copy of the current sequence of items, in order.
    pub fn list(&self) -> (r: Vec<ClothingItem>)
        ensures
            doc_of(r@) =~= self@,
    {
        let mut out: Vec<ClothingItem> = Vec::new();
        let mut i: usize = 0;
        while i < self.items.len()
            invariant
                i <= self.items@.len(),
                out@.len() == i,
                forall|j: int|
                    0 <= j < i ==> #[trigger] doc_of(out@)[j] == doc_of(self.items@)[j],
            decreases self.items@.len() - i,
        {
            let ghost prev = out@;
            let it = self.items[i].duplicate();
            out.push(it);
            assert forall|j: int| 0 <= j < i + 1 implies #[trigger] doc_of(out@)[j] == doc_of(
                self.items@,
            )[j] by {
                if j < i {
                    assert(out@[j] == prev[j]);
                    assert(doc_of(prev)[j] == doc_of(self.items@)[j]);
                } else {
                    assert(out@[j] == it);
                }
            }
            i += 1;
        }
        assert(doc_of(out@) =~= doc_of(self.items@));
        out
    }

    /// Appends a new item with the given name and cost and no uses.  No
    /// uniqueness check: a name may repeat.
    pub fn add_item(&mut self, name: String, cost: Cost)
        ensures
            final(self)@ =~= old(self)@.push(item_of_add(name@, cost@)),
    {
        proof {
            use_type_invariant(&*self);
            use_type_invariant(&cost);
        }
        let ghost before = self.items@;
        let item = ClothingItem { name, cost, uses: Vec::new() };
        assert(wf_item(item@));
        let mut items: Vec<ClothingItem> = Vec::new();
        core::mem::swap(&mut items, &mut self.items);
        items.push(item);
        proof {
            let cur = doc_of(items@);
            assert forall|j: int| 0 <= j < cur.len() implies wf_item(#[trigger] cur[j]) by {
                if j < before.len() {
                    assert(cur[j] == doc_of(before)[j]);
                    assert(wf_item(doc_of(before)[j]));
                } else {
                    assert(cur[j] == item@);
                }
            }
        }
        core::mem::swap(&mut items, &mut self.items);
        assert(doc_of(self.items@) =~= doc_of(before).push(item@));
    }

    /// Records a use of the first item bearing `name` on the date written
    /// in `date`, as `add_use_result` says; reports whether the store
    /// changed.  A malformed date or an unknown name changes nothing.
    pub fn add_use(&mut self, name: &str, date: &str) -> (changed: bool)
        ensures
            final(self)@ =~= add_use_result(old(self)@, name@, date@),
            changed == (date_of_str(date@) is Some && first_match(old(self)@, name@, 0) is Some),
    {
        proof {
            use_type_invariant(&*self);
        }
        let parsed = parse_date_str(date);
        let d = match parsed {
            None => {
                return false;
            },
            Some(d) => d,
        };
        let mut items: Vec<ClothingItem> = Vec::new();
        core::mem::swap(&mut items, &mut self.items);
        let ghost ms = doc_of(items@);
        let mut changed: bool = false;
        let mut i: usize = 0;
        loop
            invariant_except_break
                i <= items@.len(),
                ms == doc_of(items@),
                !changed,
                first_match(ms, name@, 0) == first_match(ms, name@, i as int),
            invariant
                d.wf(),
                wf_doc(ms),
            ensures
                doc_of(items@) =~= (match first_match(ms, name@, 0) {
                    None => ms,
                    Some(j) => ms.update(j, with_use(ms[j], d)),
                }),
                changed == (first_match(ms, name@, 0) is Some),
            decreases items@.len() - i,
        {
            if i >= items.len() {
                assert(first_match(ms, name@, i as int) is None);
                break;
            }
            if str_eq(items[i].name.as_str(), name) {
                assert(ms[i as int].name == name@);
                assert(first_match(ms, name@, i as int) == Some(i as int));
                items[i].uses.push(d);
                changed = true;
                proof {
                    assert(doc_of(items@) =~= ms.update(i as int, with_use(ms[i as int], d)));
                }
                break;
            }
            proof {
                assert(ms[i as int].name != name@);
                assert(first_match(ms, name@, i as int) == first_match(ms, name@, i + 1));
            }
            i += 1;
        }
        proof {
            let cur = doc_of(items@);
            assert forall|j: int| 0 <= j < cur.len() implies wf_item(#[trigger] cur[j]) by {
                match first_match(ms, name@, 0) {
                    None => {
                        assert(cur[j] == ms[j]);
                        assert(wf_item(ms[j]));
                    },
                    Some(k) => {
                        lemma_first_match_in_range(ms, name@, 0);
                        if j == k {
                            assert(wf_item(ms[k]));
                            assert(cur[j] == with_use(ms[k], d));
                            let u = with_use(ms[k], d).uses;
                            assert forall|t: int| 0 <= t < u.len() implies (#[trigger] u[t]).wf()
                            by {
                                if t < ms[k].uses.len() {
                                    assert(u[t] == ms[k].uses[t]);
                                }
                            }
                        } else {
                            assert(cur[j] == ms[j]);
                            assert(wf_item(ms[j]));
                        }
                    },
                }
            }
        }
        core::mem::swap(&mut items, &mut self.items);
        changed
    }
}

impl Store {
    /// The JSON document for the current items.  Parsing the document back
    /// yields exactly the current items: saving loses nothing.
    pub fn save(&self) -> (r: String)
        ensures
            r@ == print_doc(self@),
            parse_doc(r@) == Some(self@),
    {
        proof {
            use_type_invariant(&*self);
            lemma_doc_round_trip(doc_of(self.items@));
        }
        let chars = write_doc(&self.items);
        chars_to_string(&chars)
    }

    /// Rebuilds the store a document describes.  `None` stands for the
    /// missing file of a first run and yields the empty store; a malformed
    /// document yields `None`.
    pub fn load(content: Option<&str>) -> (r: Option<Store>)
        ensures
            match content {
                None => r matches Some(st) && st@ =~= Seq::<ItemModel>::empty(),
                Some(text) => match parse_doc(text@) {
                    None => r is None,
                    Some(ms) => r matches Some(st) && st@ == ms,
                },
            },
    {
        match content {
            None => Some(Store::new()),
            Some(text) => match read_doc(text) {
                None => None,
                Some(items) => {
                    proof {
                        lemma_parse_doc_wf(text@);
                    }
                    Some(Store::from_items(items))
                },
            },
        }
    }
}

/// Listing is idempotent: without a mutation in between, any two results
/// of `list` on one store model the same sequence, since each call's
/// result models the store's view and `list` takes the store immutably.
pub proof fn lemma_list_idempotent(a: Vec<ClothingItem>, b: Vec<ClothingItem>, st: Seq<ItemModel>)
    requires
        doc_of(a@) =~= st,
        doc_of(b@) =~= st,
    ensures
        doc_of(a@) == doc_of(b@),
{
}

/// Running a sequence of additions from some starting store.
pub open spec fn run_adds(init: Seq<ItemModel>, calls: Seq<(Seq<char>, Seq<char>)>) -> Seq<
    ItemModel,
>
    decreases calls.len(),
{
    if calls.len() == 0 {
        init
    } else {
        run_adds(init.push(item_of_add(calls[0].0, calls[0].1)), calls.drop_first())
    }
}

/// After any sequence of additions, the store holds its earlier items
/// followed by exactly the added ones, in call order, each with no uses.
pub proof fn lemma_adds_in_order(init: Seq<ItemModel>, calls: Seq<(Seq<char>, Seq<char>)>)
    ensures
        run_adds(init, calls) =~= init + calls.map_values(
            |c: (Seq<char>, Seq<char>)| item_of_add(c.0, c.1),
        ),
    decreases calls.len(),
{
    let f = |c: (Seq<char>, Seq<char>)| item_of_add(c.0, c.1);
    if calls.len() == 0 {
        assert(run_adds(init, calls) =~= init + calls.map_values(f));
    } else {
        let init2 = init.push(item_of_add(calls[0].0, calls[0].1));
        lemma_adds_in_order(init2, calls.drop_first());
        assert(run_adds(init, calls) == run_adds(init2, calls.drop_first()));
        assert forall|j: int| 0 <= j < calls.len() - 1 implies calls.drop_first().map_values(f)[j]
            == calls.map_values(f)[j + 1] by {
            assert(calls.drop_first()[j] == calls[j + 1]);
        }
        assert(run_adds(init, calls) =~= init + calls.map_values(f));
    }
}

} // verus!
