//! The restaurant: a map from table numbers to the orders placed at each
//! table, in the order in which they were placed.

use crate::item::Item;
use std::collections::HashMap;
use vstd::prelude::*;

verus! {

broadcast use vstd::std_specs::hash::group_hash_axioms;

/// What a successful operation on the restaurant reports.
#[derive(Debug)]
pub enum Action {
    Inserted,
    Deleted,
    Updated,
    Data(Vec<Item>),
}

/// The orders of every table that has been opened, by table number.
pub struct Restaurant {
    pub tables: HashMap<u8, Vec<Item>>,
}

impl View for Restaurant {
    type V = Map<u8, Seq<Item>>;

    /// Each open table with the orders placed at it, in order.
    open spec fn view(&self) -> Map<u8, Seq<Item>> {
        self.tables@.map_values(|v: Vec<Item>| v@)
    }
}

/// The error that an operation on a table that was never opened reports.
pub open spec fn table_empty_message() -> Seq<char> {
    "Table is empty"@
}

/// The error that an update of a table with no orders reports.
pub open spec fn nothing_to_update_message() -> Seq<char> {
    "Nothing to update"@
}

/// Whether an order is not the one with identifier `id`.
pub open spec fn other_than(id: u128) -> spec_fn(Item) -> bool {
    |x: Item| x._id != id
}

/// The orders of `s` but those with identifier `id`, in their order.
pub open spec fn without_id(s: Seq<Item>, id: u128) -> Seq<Item> {
    s.filter(other_than(id))
}

/// The orders of `s`, each one with identifier `id` replaced by `item`.
pub open spec fn with_replaced(s: Seq<Item>, id: u128, item: Item) -> Seq<Item> {
    s.map_values(|x: Item| if x._id == id { item } else { x })
}

/// The orders of `table` after `items` were added: those it had, if it was
/// open, followed by `items`.
pub open spec fn table_after_add(m: Map<u8, Seq<Item>>, table: u8, items: Seq<Item>) -> Seq<Item> {
    if m.contains_key(table) {
        m[table] + items
    } else {
        items
    }
}

/// The restaurant after `items` were added to `table`: only that table
/// changes, and it is open afterwards.
pub open spec fn after_add(m: Map<u8, Seq<Item>>, table: u8, items: Seq<Item>) -> Map<
    u8,
    Seq<Item>,
> {
    m.insert(table, table_after_add(m, table, items))
}

/// The restaurant after the orders with identifier `id` left the open
/// table `table`.
pub open spec fn after_remove(m: Map<u8, Seq<Item>>, table: u8, id: u128) -> Map<u8, Seq<Item>> {
    m.insert(table, without_id(m[table], id))
}

/// The restaurant after the orders of the open table `table` with
/// identifier `id` were replaced by `item`.
pub open spec fn after_update(m: Map<u8, Seq<Item>>, table: u8, id: u128, item: Item) -> Map<
    u8,
    Seq<Item>,
> {
    m.insert(table, with_replaced(m[table], id, item))
}

/// A call that changes the restaurant, with its arguments.
pub enum Call {
    AddItems(u8, Seq<Item>),
    RemoveItem(u8, u128),
    UpdateItem(u8, u128, Item),
}

/// The restaurant after `call`, whether the call succeeds or fails: a
/// refused removal or update leaves it as it was.
pub open spec fn state_after(m: Map<u8, Seq<Item>>, call: Call) -> Map<u8, Seq<Item>> {
    match call {
        Call::AddItems(table, items) => after_add(m, table, items),
        Call::RemoveItem(table, id) => if m.contains_key(table) {
            after_remove(m, table, id)
        } else {
            m
        },
        Call::UpdateItem(table, id, item) => if m.contains_key(table) && m[table].len() > 0 {
            after_update(m, table, id, item)
        } else {
            m
        },
    }
}

/// The value of the decimal digits `d` (ASCII bytes `0` to `9`).
pub open spec fn digits_value(d: Seq<u8>) -> int
    decreases d.len(),
{
    if d.len() == 0 {
        0
    } else {
        digits_value(d.drop_last()) * 10 + (d.last() - 48)
    }
}

/// Whether every byte of `d` is an ASCII decimal digit.
pub open spec fn all_digits(d: Seq<u8>) -> bool {
    forall|i: int| 0 <= i < d.len() ==> 48 <= #[trigger] d[i] <= 57
}

/// The bytes of a number after its optional leading `+`.
pub open spec fn unsigned_digits(b: Seq<u8>) -> Seq<u8> {
    if b.len() > 0 && b[0] == 43 {
        b.drop_first()
    } else {
        b
    }
}

/// The table number that the UTF-8 bytes `b` write, as std's `u8::from_str`
/// reads one: an optional `+`, then one or more decimal digits whose value
/// is at most 255; `None` for anything else.
pub open spec fn table_number(b: Seq<u8>) -> Option<u8> {
    let d = unsigned_digits(b);
    if d.len() > 0 && all_digits(d) && digits_value(d) <= 255 {
        Some(digits_value(d) as u8)
    } else {
        None
    }
}

/// The table number written in `text`, or `None` where `text` writes none.
pub fn parse_table(text: &str) -> (r: Option<u8>)
    ensures
        r == table_number(vstd::utf8::encode_utf8(text@)),
{
    let b = text.as_bytes();
    let start: usize = if b.len() > 0 && b[0] == 43 {
        1
    } else {
        0
    };
    let ghost d = unsigned_digits(b@);
    assert(d =~= b@.subrange(start as int, b@.len() as int));
    if start == b.len() {
        return None;
    }
    // The value read so far, held at 256 once it passes 255.
    let mut acc: u32 = 0;
    let mut i: usize = start;
    while i < b.len()
        invariant
            start <= i <= b.len(),
            b@ == vstd::utf8::encode_utf8(text@),
            d == unsigned_digits(b@),
            d == b@.subrange(start as int, b@.len() as int),
            all_digits(d.subrange(0, i - start)),
            acc == if digits_value(d.subrange(0, i - start)) >= 256 {
                256
            } else {
                digits_value(d.subrange(0, i - start))
            },
        decreases b.len() - i,
    {
        let c = b[i];
        if c < 48 || c > 57 {
            assert(d[i - start] == c);
            assert(!all_digits(d));
            return None;
        }
        let ghost prefix = d.subrange(0, i - start);
        let ghost next = d.subrange(0, i + 1 - start);
        assert(next.drop_last() =~= prefix);
        assert(next.last() == c);
        let digit = (c - 48) as u32;
        if acc >= 256 {
            acc = 256;
        } else {
            let n = acc * 10 + digit;
            acc = if n > 256 {
                256
            } else {
                n
            };
        }
        i += 1;
        assert(all_digits(next)) by {
            assert forall|k: int| 0 <= k < next.len() implies 48 <= #[trigger] next[k] <= 57 by {
                if k < prefix.len() {
                    assert(next[k] == prefix[k]);
                }
            }
        }
    }
    assert(d.subrange(0, i - start) =~= d);
    if acc <= 255 {
        Some(acc as u8)
    } else {
        None
    }
}

/// A copy of `items`, item by item.
fn copy_items(items: &Vec<Item>) -> (r: Vec<Item>)
    ensures
        r@ == items@,
{
    let mut out: Vec<Item> = Vec::new();
    let mut i: usize = 0;
    while i < items.len()
        invariant
            i <= items.len(),
            out@ == items@.subrange(0, i as int),
        decreases items.len() - i,
    {
        out.push(items[i].clone());
        i += 1;
        assert(out@ =~= items@.subrange(0, i as int));
    }
    out
}

/// Copies of the orders of `first` followed by copies of those of `second`.
fn concat_items(first: &Vec<Item>, second: &Vec<Item>) -> (r: Vec<Item>)
    ensures
        r@ == first@ + second@,
{
    let mut out = copy_items(first);
    let mut i: usize = 0;
    while i < second.len()
        invariant
            i <= second.len(),
            out@ == first@ + second@.subrange(0, i as int),
        decreases second.len() - i,
    {
        out.push(second[i].clone());
        i += 1;
        assert(out@ =~= first@ + second@.subrange(0, i as int));
    }
    assert(second@.subrange(0, second@.len() as int) =~= second@);
    out
}

/// Copies of the orders of `items`, each one with identifier `id` replaced
/// by a copy of `item`.
fn replace_matching(items: &Vec<Item>, id: u128, item: &Item) -> (r: Vec<Item>)
    ensures
        r@ == with_replaced(items@, id, *item),
{
    let mut out: Vec<Item> = Vec::new();
    let mut i: usize = 0;
    while i < items.len()
        invariant
            i <= items.len(),
            out@.len() == i,
            forall|j: int|
                0 <= j < i ==> out@[j] == (if items@[j]._id == id {
                    *item
                } else {
                    items@[j]
                }),
        decreases items.len() - i,
    {
        if items[i]._id == id {
            out.push(item.clone());
        } else {
            out.push(items[i].clone());
        }
        i += 1;
    }
    assert(out@ =~= with_replaced(items@, id, *item));
    out
}

/// Copies of the orders of `items` but those with identifier `id`.
fn keep_other_ids(items: &Vec<Item>, id: u128) -> (r: Vec<Item>)
    ensures
        r@ == without_id(items@, id),
{
    let mut out: Vec<Item> = Vec::new();
    let mut i: usize = 0;
    while i < items.len()
        invariant
            i <= items.len(),
            out@ == without_id(items@.subrange(0, i as int), id),
        decreases items.len() - i,
    {
        proof {
            assert(items@.subrange(0, i + 1) =~= items@.subrange(0, i as int).push(items@[i as int]));
            items@.subrange(0, i as int).lemma_filter_push(items@[i as int], other_than(id));
        }
        if items[i]._id != id {
            out.push(items[i].clone());
        }
        i += 1;
    }
    assert(items@.subrange(0, items@.len() as int) =~= items@);
    out
}

impl Restaurant {
    /// A restaurant with no table open.
    pub fn new() -> (r: Restaurant)
        ensures
            r@ == Map::<u8, Seq<Item>>::empty(),
    {
        let r = Restaurant { tables: HashMap::new() };
        assert(r@ =~= Map::<u8, Seq<Item>>::empty());
        r
    }

    /// The orders of `table`, or the error that the table was never opened.
    fn table_items(&self, table: u8) -> (r: Result<&Vec<Item>, String>)
        ensures
            match r {
                Ok(items) => self@.contains_key(table) && items@ == self@[table],
                Err(e) => !self@.contains_key(table) && e@ == table_empty_message(),
            },
    {
        match self.tables.get(&table) {
            Some(items) => Ok(items),
            None => Err("Table is empty".to_owned()),
        }
    }

    /// Puts `items` in place of the orders of `table`, opening it if need be,
    /// and reports `action`.
    fn replace_whole(&mut self, table: u8, items: Vec<Item>, action: Action) -> (r: Result<
        Action,
        String,
    >)
        ensures
            r == Ok::<Action, String>(action),
            final(self)@ == old(self)@.insert(table, items@),
    {
        let ghost expected = self@.insert(table, items@);
        self.tables.insert(table, items);
        assert(self@ =~= expected);
        Ok(action)
    }

    /// A copy of the orders of `table`.
    pub fn items_from_table(&self, table: u8) -> (r: Result<Action, String>)
        ensures
            match r {
                Ok(Action::Data(items)) => self@.contains_key(table) && items@ == self@[table],
                Ok(_) => false,
                Err(e) => !self@.contains_key(table) && e@ == table_empty_message(),
            },
    {
        match self.table_items(table) {
            Ok(items) => Ok(Action::Data(copy_items(items))),
            Err(e) => Err(e),
        }
    }

    /// Adds `items`, in their order, after the orders of `table`, opening the
    /// table if it was not open.
    pub fn add_items(&mut self, table: u8, items: Vec<Item>) -> (r: Result<Action, String>)
        ensures
            r == Ok::<Action, String>(Action::Inserted),
            final(self)@ == after_add(old(self)@, table, items@),
            final(self)@ == state_after(old(self)@, Call::AddItems(table, items@)),
            final(self)@.dom() == old(self)@.dom().insert(table),
    {
        let combined = match self.table_items(table) {
            Ok(old_items) => concat_items(old_items, &items),
            Err(_) => items,
        };
        self.replace_whole(table, combined, Action::Inserted)
    }

    /// Removes from `table` every order with identifier `item_id`; the other
    /// orders keep their order. A table that was never opened is an error.
    pub fn remove_item(&mut self, table: u8, item_id: u128) -> (r: Result<Action, String>)
        ensures
            final(self)@ == state_after(old(self)@, Call::RemoveItem(table, item_id)),
            final(self)@.dom() == old(self)@.dom(),
            match r {
                Ok(action) => {
                    &&& action is Deleted
                    &&& old(self)@.contains_key(table)
                    &&& final(self)@ == after_remove(old(self)@, table, item_id)
                },
                Err(e) => {
                    &&& !old(self)@.contains_key(table)
                    &&& e@ == table_empty_message()
                    &&& final(self)@ == old(self)@
                },
            },
    {
        let kept = match self.table_items(table) {
            Ok(items) => keep_other_ids(items, item_id),
            Err(e) => {
                return Err(e);
            },
        };
        self.replace_whole(table, kept, Action::Deleted)
    }

    /// Replaces every order of `table` with identifier `item_id` by `item`;
    /// the other orders stay as they were. A table that was never opened, or
    /// that has no orders, is an error, and then nothing changes.
    pub fn update_item(&mut self, table: u8, item_id: u128, item: Item) -> (r: Result<
        Action,
        String,
    >)
        ensures
            final(self)@ == state_after(old(self)@, Call::UpdateItem(table, item_id, item)),
            final(self)@.dom() == old(self)@.dom(),
            match r {
                Ok(action) => {
                    &&& action is Updated
                    &&& old(self)@.contains_key(table)
                    &&& old(self)@[table].len() > 0
                    &&& final(self)@ == after_update(old(self)@, table, item_id, item)
                },
                Err(e) => {
                    &&& final(self)@ == old(self)@
                    &&& !old(self)@.contains_key(table) ==> e@ == table_empty_message()
                    &&& old(self)@.contains_key(table) ==> old(self)@[table].len() == 0
                        && e@ == nothing_to_update_message()
                },
            },
    {
        let replaced = match self.table_items(table) {
            Ok(items) => replace_matching(items, item_id, &item),
            Err(e) => {
                return Err(e);
            },
        };
        if replaced.len() == 0 {
            Err("Nothing to update".to_owned())
        } else {
            self.replace_whole(table, replaced, Action::Updated)
        }
    }
}

} // verus!
