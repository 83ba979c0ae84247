//! A dish ordered at a table, and the payload from which one is made.

use rand::Rng;
use vstd::prelude::*;

verus! {

/// A dish ordered at a table. Two items are the same order exactly when
/// their identifiers agree, whatever their names and cook times.
#[derive(Debug)]
pub struct Item {
    pub name: String,
    pub cook_time: u32,
    pub _id: u128,
}

/// What a client sends to order a dish: everything but the identifier,
/// which the restaurant draws itself.
#[derive(Debug)]
pub struct ItemPayload {
    pub name: String,
    pub cook_time: u32,
}

/// Shortest cook time that `Item::new` draws.
pub const MIN_COOK_TIME: u32 = 5;

/// `Item::new` draws cook times strictly below this bound.
pub const COOK_TIME_BOUND: u32 = 16;

/// The bits of a version 4 (random) UUID in its RFC 4122 layout: the
/// version nibble reads 4 and the two variant bits read `10`.
pub open spec fn is_random_uuid(id: u128) -> bool {
    &&& (id >> 76u128) & 0xfu128 == 4u128
    &&& (id >> 62u128) & 0x3u128 == 2u128
}

/// Calls `uuid::Uuid::new_v4` and hands back the UUID's 128 bits through
/// `Uuid::as_u128`. The bits come from the operating system's random source,
/// so nothing is claimed of them but what `new_v4` writes into every UUID it
/// builds: version 4 and the RFC 4122 variant. (`new_v4` panics when the
/// operating system gives no random bytes; no contract can rule that out.)
#[verifier::external_body]
fn new_v4_id() -> (id: u128)
    ensures
        is_random_uuid(id),
{
    uuid::Uuid::new_v4().as_u128()
}

/// Calls `rand::Rng::gen_range` on `rand::thread_rng()`: a random number in
/// `[low, high)`, as rand documents it. `gen_range` panics when
/// `low >= high`, which the `requires` leaves out.
#[verifier::external_body]
fn random_in_range(low: u32, high: u32) -> (r: u32)
    requires
        low < high,
    ensures
        low <= r < high,
{
    rand::thread_rng().gen_range(low, high)
}

/// The 128 bits of the UUID that `uuid::Uuid::parse_str` reads from `text`,
/// or `None` where it refuses the text. (The parser accepts several layouts,
/// hyphenated, simple and URN among them; they are not restated here.)
pub uninterp spec fn spec_parse_uuid(text: Seq<char>) -> Option<u128>;

/// Calls `uuid::Uuid::parse_str` on `text` and hands back `Uuid::as_u128` of
/// what it read, or `None` where it returned an error. The contract only
/// names the result: it depends on the text alone.
#[verifier::external_body]
fn uuid_parse_str(text: &str) -> (r: Option<u128>)
    ensures
        r == spec_parse_uuid(text@),
{
    match uuid::Uuid::parse_str(text) {
        Ok(id) => Some(id.as_u128()),
        Err(_) => None,
    }
}

/// The identifier of an order as a client writes it: the bits of the UUID
/// in `text`, or `None` where `text` is no UUID.
pub fn parse_item_id(text: &str) -> (r: Option<u128>)
    ensures
        r == spec_parse_uuid(text@),
{
    uuid_parse_str(text)
}

impl Item {
    /// Builds an item from all of its parts.
    pub fn with_id(name: String, cook_time: u32, _id: u128) -> (r: Item)
        ensures
            r.name == name,
            r.cook_time == cook_time,
            r._id == _id,
    {
        Item { name, cook_time, _id }
    }

    /// A new order of the dish `name`, with a random cook time in
    /// `[MIN_COOK_TIME, COOK_TIME_BOUND)` and a fresh random identifier.
    pub fn new(name: &str) -> (r: Item)
        ensures
            r.name@ == name@,
            MIN_COOK_TIME <= r.cook_time < COOK_TIME_BOUND,
            5 <= r.cook_time < 16,
            is_random_uuid(r._id),
    {
        let cook_time = random_in_range(MIN_COOK_TIME, COOK_TIME_BOUND);
        let id = new_v4_id();
        Item::with_id(name.to_owned(), cook_time, id)
    }

    /// The item that a payload describes, under a fresh random identifier.
    pub fn from_payload(json: ItemPayload) -> (r: Item)
        ensures
            r.name == json.name,
            r.cook_time == json.cook_time,
            is_random_uuid(r._id),
    {
        let id = new_v4_id();
        Item::with_id(json.name, json.cook_time, id)
    }
}

impl PartialEq for Item {
    fn eq(&self, other: &Self) -> (r: bool)
        ensures
            r == (self._id == other._id),
    {
        self._id == other._id
    }
}

impl vstd::std_specs::cmp::PartialEqSpecImpl for Item {
    open spec fn obeys_eq_spec() -> bool {
        true
    }

    open spec fn eq_spec(&self, other: &Self) -> bool {
        self._id == other._id
    }
}

/// Law: two items are the same order exactly when their identifiers agree,
/// whatever their names and cook times; so `==` on items is reflexive,
/// symmetric and transitive.
pub proof fn law_items_equal_by_id(a: Item, b: Item, c: Item)
    ensures
        vstd::std_specs::cmp::PartialEqSpec::eq_spec(&a, &b) <==> a._id == b._id,
        vstd::std_specs::cmp::PartialEqSpec::eq_spec(&a, &a),
        vstd::std_specs::cmp::PartialEqSpec::eq_spec(&a, &b)
            ==> vstd::std_specs::cmp::PartialEqSpec::eq_spec(&b, &a),
        vstd::std_specs::cmp::PartialEqSpec::eq_spec(&a, &b)
            && vstd::std_specs::cmp::PartialEqSpec::eq_spec(&b, &c)
            ==> vstd::std_specs::cmp::PartialEqSpec::eq_spec(&a, &c),
{
}

impl Clone for Item {
    fn clone(&self) -> (r: Self)
        ensures
            r == *self,
    {
        Item { name: self.name.clone(), cook_time: self.cook_time, _id: self._id }
    }
}

} // verus!
