//! What holds of the restaurant across its operations: how a read answers a
//! write, which operation undoes another, and which repeat without effect.

use crate::database::{
    after_add, after_remove, after_update, all_digits, digits_value, other_than, state_after,
    table_number, unsigned_digits, with_replaced, without_id, Call,
};
use vstd::utf8::{
    char_is_scalar, encode_scalar, encode_utf8, is_ascii_chars, is_ascii_chars_encode_utf8,
};
use crate::item::Item;
use vstd::prelude::*;

verus! {

/// No two orders of `s` share an identifier.
pub open spec fn ids_distinct(s: Seq<Item>) -> bool {
    forall|i: int, j: int| 0 <= i < j < s.len() ==> s[i]._id != s[j]._id
}

/// Some order of `s` has identifier `id`.
pub open spec fn has_id(s: Seq<Item>, id: u128) -> bool {
    exists|i: int| 0 <= i < s.len() && s[i]._id == id
}

/// Dropping the orders with identifier `id` from orders none of which has it
/// changes nothing.
proof fn lemma_without_absent_id(s: Seq<Item>, id: u128)
    requires
        !has_id(s, id),
    ensures
        without_id(s, id) == s,
    decreases s.len(),
{
    reveal(Seq::filter);
    if s.len() > 0 {
        let p = s.drop_last();
        assert(!has_id(p, id)) by {
            if has_id(p, id) {
                let i = choose|i: int| 0 <= i < p.len() && p[i]._id == id;
                assert(s[i] == p[i]);
            }
        }
        lemma_without_absent_id(p, id);
        assert(s.last()._id != id);
        assert(s =~= p.push(s.last()));
    }
}

/// No order that is left after dropping identifier `id` has it.
proof fn lemma_without_has_no_id(s: Seq<Item>, id: u128)
    ensures
        !has_id(without_id(s, id), id),
{
    broadcast use Seq::lemma_filter_pred;

    let f = without_id(s, id);
    if has_id(f, id) {
        let i = choose|i: int| 0 <= i < f.len() && f[i]._id == id;
        assert((other_than(id))(f[i]));
    }
}

/// Dropping an identifier from no orders leaves no orders.
proof fn lemma_without_empty(id: u128)
    ensures
        without_id(Seq::<Item>::empty(), id) == Seq::<Item>::empty(),
{
    reveal(Seq::filter);
}

/// Law: reading a table after items were added to it gives the orders it
/// had (none, if it was not open) followed by the added items, in their
/// order; every other table is left as it was.
pub proof fn law_read_after_add(m: Map<u8, Seq<Item>>, table: u8, items: Seq<Item>)
    ensures
        after_add(m, table, items).contains_key(table),
        m.contains_key(table) ==> after_add(m, table, items)[table] == m[table] + items,
        !m.contains_key(table) ==> after_add(m, table, items)[table] == items,
        forall|other: u8|
            other != table ==> {
                &&& after_add(m, table, items).contains_key(other) == m.contains_key(other)
                &&& #[trigger] after_add(m, table, items)[other] == m[other]
            },
{
}

/// Law: adding `first` and then `second` to a table leaves the restaurant
/// as adding `first` followed by `second` at once does.
pub proof fn law_add_twice(
    m: Map<u8, Seq<Item>>,
    table: u8,
    first: Seq<Item>,
    second: Seq<Item>,
)
    ensures
        after_add(after_add(m, table, first), table, second) == after_add(m, table, first + second),
{
    if m.contains_key(table) {
        assert(m[table] + first + second =~= m[table] + (first + second));
    }
    assert(after_add(after_add(m, table, first), table, second) =~= after_add(
        m,
        table,
        first + second,
    ));
}

/// Law: removing an order that was just added to an open table, under an
/// identifier that no order of the table had, gives back the restaurant as
/// it was before the order was added.
pub proof fn law_remove_undoes_add(m: Map<u8, Seq<Item>>, table: u8, item: Item)
    requires
        m.contains_key(table),
        !has_id(m[table], item._id),
    ensures
        after_remove(after_add(m, table, seq![item]), table, item._id) == m,
{
    let s = m[table];
    let id = item._id;
    Seq::filter_distributes_over_add(s, seq![item], other_than(id));
    lemma_without_absent_id(s, id);
    lemma_without_empty(id);
    Seq::<Item>::empty().lemma_filter_push(item, other_than(id));
    assert(seq![item] =~= Seq::<Item>::empty().push(item));
    assert(without_id(s + seq![item], id) =~= s);
    assert(after_remove(after_add(m, table, seq![item]), table, id) =~= m);
}

/// Law: after a removal no order of the table has the removed identifier,
/// and removing it once more changes nothing.
pub proof fn law_remove_idempotent(m: Map<u8, Seq<Item>>, table: u8, id: u128)
    requires
        m.contains_key(table),
    ensures
        !has_id(after_remove(m, table, id)[table], id),
        after_remove(after_remove(m, table, id), table, id) == after_remove(m, table, id),
{
    lemma_without_has_no_id(m[table], id);
    lemma_without_absent_id(without_id(m[table], id), id);
    assert(after_remove(after_remove(m, table, id), table, id) =~= after_remove(m, table, id));
}

/// Dropping two identifiers in either order gives the same orders.
proof fn lemma_without_commutes(s: Seq<Item>, a: u128, b: u128)
    ensures
        without_id(without_id(s, a), b) == without_id(without_id(s, b), a),
    decreases s.len(),
{
    reveal(Seq::filter);
    if s.len() > 0 {
        let p = s.drop_last();
        let x = s.last();
        lemma_without_commutes(p, a, b);
        assert(s =~= p.push(x));
        p.lemma_filter_push(x, other_than(a));
        p.lemma_filter_push(x, other_than(b));
        without_id(p, a).lemma_filter_push(x, other_than(b));
        without_id(p, b).lemma_filter_push(x, other_than(a));
    }
}

/// Law: removing two identifiers from a table gives the same restaurant in
/// either order.
pub proof fn law_removals_commute(m: Map<u8, Seq<Item>>, table: u8, a: u128, b: u128)
    requires
        m.contains_key(table),
    ensures
        after_remove(after_remove(m, table, a), table, b) == after_remove(
            after_remove(m, table, b),
            table,
            a,
        ),
{
    lemma_without_commutes(m[table], a, b);
    assert(after_remove(after_remove(m, table, a), table, b) =~= after_remove(
        after_remove(m, table, b),
        table,
        a,
    ));
}

/// Law: where the orders of a table have distinct identifiers, removing the
/// identifier of the order at `index` removes that one order and no other,
/// even where other orders are of the same dish.
pub proof fn law_remove_single_order(m: Map<u8, Seq<Item>>, table: u8, index: int)
    requires
        m.contains_key(table),
        ids_distinct(m[table]),
        0 <= index < m[table].len(),
    ensures
        after_remove(m, table, m[table][index]._id)[table] == m[table].remove(index),
        after_remove(m, table, m[table][index]._id)[table].len() == m[table].len() - 1,
{
    let s = m[table];
    let id = s[index]._id;
    let before = s.subrange(0, index);
    let after = s.subrange(index + 1, s.len() as int);
    assert(s =~= before + seq![s[index]] + after);
    Seq::filter_distributes_over_add(before + seq![s[index]], after, other_than(id));
    Seq::filter_distributes_over_add(before, seq![s[index]], other_than(id));
    assert(!has_id(before, id)) by {
        if has_id(before, id) {
            let i = choose|i: int| 0 <= i < before.len() && before[i]._id == id;
            assert(s[i] == before[i]);
        }
    }
    assert(!has_id(after, id)) by {
        if has_id(after, id) {
            let i = choose|i: int| 0 <= i < after.len() && after[i]._id == id;
            assert(s[index + 1 + i] == after[i]);
        }
    }
    lemma_without_absent_id(before, id);
    lemma_without_absent_id(after, id);
    lemma_without_empty(id);
    Seq::<Item>::empty().lemma_filter_push(s[index], other_than(id));
    assert(seq![s[index]] =~= Seq::<Item>::empty().push(s[index]));
    assert(without_id(s, id) =~= s.remove(index));
}

/// Law: an update keeps the open tables and the number of orders of the
/// updated table; an order whose identifier differs from the updated one is
/// left as it was, and one whose identifier matches becomes `item`.
pub proof fn law_update_shape(m: Map<u8, Seq<Item>>, table: u8, id: u128, item: Item)
    requires
        m.contains_key(table),
    ensures
        after_update(m, table, id, item).dom() == m.dom(),
        after_update(m, table, id, item)[table].len() == m[table].len(),
        forall|i: int|
            0 <= i < m[table].len() ==> #[trigger] after_update(m, table, id, item)[table][i] == (
            if m[table][i]._id == id {
                item
            } else {
                m[table][i]
            }),
{
    assert(after_update(m, table, id, item).dom() =~= m.dom());
}

/// Law: updating an identifier that no order of the table has leaves the
/// restaurant as it was.
pub proof fn law_update_absent_id(m: Map<u8, Seq<Item>>, table: u8, id: u128, item: Item)
    requires
        m.contains_key(table),
        !has_id(m[table], id),
    ensures
        after_update(m, table, id, item) == m,
{
    assert(with_replaced(m[table], id, item) =~= m[table]);
    assert(after_update(m, table, id, item) =~= m);
}

/// Law: repeating an update changes nothing more.
pub proof fn law_update_idempotent(m: Map<u8, Seq<Item>>, table: u8, id: u128, item: Item)
    requires
        m.contains_key(table),
    ensures
        after_update(after_update(m, table, id, item), table, id, item) == after_update(
            m,
            table,
            id,
            item,
        ),
{
    let once = with_replaced(m[table], id, item);
    assert(with_replaced(once, id, item) =~= once);
    assert(after_update(after_update(m, table, id, item), table, id, item) =~= after_update(
        m,
        table,
        id,
        item,
    ));
}

/// Law: where the orders of a table have distinct identifiers, updating the
/// identifier of the order at `index` replaces that one order and no other.
pub proof fn law_update_single_order(m: Map<u8, Seq<Item>>, table: u8, index: int, item: Item)
    requires
        m.contains_key(table),
        ids_distinct(m[table]),
        0 <= index < m[table].len(),
    ensures
        after_update(m, table, m[table][index]._id, item)[table] == m[table].update(index, item),
{
    let s = m[table];
    assert(with_replaced(s, s[index]._id, item) =~= s.update(index, item));
}

/// The restaurant after `calls`, made in order on a new restaurant.
pub open spec fn state_after_calls(calls: Seq<Call>) -> Map<u8, Seq<Item>>
    decreases calls.len(),
{
    if calls.len() == 0 {
        Map::empty()
    } else {
        state_after(state_after_calls(calls.drop_last()), calls.last())
    }
}

/// Whether `call` adds items to `table`.
pub open spec fn adds_to(call: Call, table: u8) -> bool {
    call matches Call::AddItems(t, _) && t == table
}

/// Law: a removal or an update keeps the set of open tables; adding items
/// opens the table it adds to and no other.
pub proof fn law_open_tables(m: Map<u8, Seq<Item>>, call: Call)
    ensures
        state_after(m, call).dom() == match call {
            Call::AddItems(table, _) => m.dom().insert(table),
            _ => m.dom(),
        },
{
    assert(state_after(m, call).dom() =~= match call {
        Call::AddItems(table, _) => m.dom().insert(table),
        _ => m.dom(),
    });
}

/// Law: after any calls made on a new restaurant, a table is open (so that
/// reading it succeeds) exactly when one of the calls added items to it; a
/// table that removals empty stays open.
pub proof fn law_only_adding_opens(calls: Seq<Call>, table: u8)
    ensures
        state_after_calls(calls).contains_key(table) <==> exists|i: int|
            0 <= i < calls.len() && #[trigger] adds_to(calls[i], table),
    decreases calls.len(),
{
    if calls.len() > 0 {
        let prefix = calls.drop_last();
        law_only_adding_opens(prefix, table);
        law_open_tables(state_after_calls(prefix), calls.last());
        let last = calls.len() - 1;
        if adds_to(calls[last], table) {
            assert(state_after_calls(calls).contains_key(table));
        }
        if exists|i: int| 0 <= i < prefix.len() && #[trigger] adds_to(prefix[i], table) {
            let i = choose|i: int| 0 <= i < prefix.len() && #[trigger] adds_to(prefix[i], table);
            assert(calls[i] == prefix[i]);
        }
        if exists|i: int| 0 <= i < calls.len() && #[trigger] adds_to(calls[i], table) {
            let i = choose|i: int| 0 <= i < calls.len() && #[trigger] adds_to(calls[i], table);
            if i < prefix.len() {
                assert(prefix[i] == calls[i]);
            }
        }
    }
}

/// The decimal digit `d` (below ten) as a character.
pub open spec fn digit_char(d: nat) -> char {
    if d == 0 {
        '0'
    } else if d == 1 {
        '1'
    } else if d == 2 {
        '2'
    } else if d == 3 {
        '3'
    } else if d == 4 {
        '4'
    } else if d == 5 {
        '5'
    } else if d == 6 {
        '6'
    } else if d == 7 {
        '7'
    } else if d == 8 {
        '8'
    } else {
        '9'
    }
}

/// The decimal numeral of `n`, without leading zeros.
pub open spec fn decimal_numeral(n: nat) -> Seq<char>
    decreases n,
{
    if n < 10 {
        seq![digit_char(n)]
    } else {
        decimal_numeral(n / 10).push(digit_char(n % 10))
    }
}

/// Whether `c` is one of the characters `0` to `9`.
pub open spec fn is_decimal_digit(c: char) -> bool {
    '0' <= c && c <= '9'
}

/// Every character of a numeral is a digit, whose byte is the digit's
/// value above that of `0`.
proof fn lemma_numeral_chars(n: nat)
    ensures
        decimal_numeral(n).len() > 0,
        forall|i: int|
            0 <= i < decimal_numeral(n).len() ==> is_decimal_digit(#[trigger] decimal_numeral(n)[i])
                && 48 <= (decimal_numeral(n)[i] as u8) <= 57,
        (decimal_numeral(n).last() as u8) == 48 + n % 10,
    decreases n,
{
    if n >= 10 {
        lemma_numeral_chars(n / 10);
    }
}

/// The UTF-8 bytes of a numeral are decimal digits whose value is the
/// numeral's number.
proof fn lemma_numeral_bytes(n: nat)
    ensures
        is_ascii_chars(decimal_numeral(n)),
        encode_utf8(decimal_numeral(n)).len() == decimal_numeral(n).len(),
        forall|i: int|
            0 <= i < decimal_numeral(n).len() ==> #[trigger] encode_utf8(decimal_numeral(n))[i]
                == (decimal_numeral(n)[i] as u8),
        all_digits(encode_utf8(decimal_numeral(n))),
        digits_value(encode_utf8(decimal_numeral(n))) == n,
    decreases n,
{
    let c = decimal_numeral(n);
    lemma_numeral_chars(n);
    assert(is_ascii_chars(c));
    is_ascii_chars_encode_utf8(c);
    let b = encode_utf8(c);
    if n >= 10 {
        lemma_numeral_bytes(n / 10);
        let p = decimal_numeral(n / 10);
        assert(c.drop_last() =~= p);
        assert(b.drop_last() =~= encode_utf8(p)) by {
            assert forall|i: int| 0 <= i < p.len() implies b.drop_last()[i] == encode_utf8(p)[i] by {
                assert(b[i] == (c[i] as u8));
                assert(c[i] == p[i]);
            }
        }
        assert(b.last() == (c.last() as u8));
        assert(digits_value(b) == digits_value(b.drop_last()) * 10 + (b.last() - 48));
        assert(n == (n / 10) * 10 + n % 10);
    } else {
        assert(b.drop_last() =~= Seq::<u8>::empty());
        assert(b.last() == (c.last() as u8));
        assert(digits_value(b.drop_last()) == 0);
        assert(digits_value(b) == digits_value(b.drop_last()) * 10 + (b.last() - 48));
    }
}

/// Law: the table number read from the decimal numeral of any `n` in
/// `0..=255` is `n`, with or without a leading `+`; so `parse_table`
/// (whose result is `table_number` of the text's bytes) reads every table
/// number that a client can write.
pub proof fn law_table_numerals_read_back(n: u8)
    ensures
        table_number(encode_utf8(decimal_numeral(n as nat))) == Some(n),
        table_number(encode_utf8(seq!['+'] + decimal_numeral(n as nat))) == Some(n),
{
    let c = decimal_numeral(n as nat);
    lemma_numeral_bytes(n as nat);
    lemma_numeral_chars(n as nat);
    let b = encode_utf8(c);
    assert(unsigned_digits(b) == b) by {
        assert(b[0] == (c[0] as u8));
    }
    let pc = seq!['+'] + c;
    assert(is_ascii_chars(pc)) by {
        assert forall|i: int| 0 <= i < pc.len() implies '\0' <= #[trigger] pc[i] <= '\u{7f}' by {
            if i > 0 {
                assert(pc[i] == c[i - 1]);
            }
        }
    }
    is_ascii_chars_encode_utf8(pc);
    let pb = encode_utf8(pc);
    assert(pb[0] == ('+' as u8));
    assert(unsigned_digits(pb) =~= b) by {
        assert forall|i: int| 0 <= i < b.len() implies pb[i + 1] == b[i] by {
            assert(pb[i + 1] == (pc[i + 1] as u8));
            assert(pc[i + 1] == c[i]);
        }
    }
}

/// Law: a numeral of a number above 255 names no table.
pub proof fn law_large_numerals_refused(n: nat)
    requires
        n > 255,
    ensures
        table_number(encode_utf8(decimal_numeral(n))) is None,
        table_number(encode_utf8(seq!['+'] + decimal_numeral(n))) is None,
{
    let c = decimal_numeral(n);
    lemma_numeral_bytes(n);
    lemma_numeral_chars(n);
    let b = encode_utf8(c);
    assert(unsigned_digits(b) == b) by {
        assert(b[0] == (c[0] as u8));
    }
    let pc = seq!['+'] + c;
    assert(is_ascii_chars(pc)) by {
        assert forall|i: int| 0 <= i < pc.len() implies '\0' <= #[trigger] pc[i] <= '\u{7f}' by {
            if i > 0 {
                assert(pc[i] == c[i - 1]);
            }
        }
    }
    is_ascii_chars_encode_utf8(pc);
    let pb = encode_utf8(pc);
    assert(pb[0] == ('+' as u8));
    assert(unsigned_digits(pb) =~= b) by {
        assert forall|i: int| 0 <= i < b.len() implies pb[i + 1] == b[i] by {
            assert(pb[i + 1] == (pc[i + 1] as u8));
            assert(pc[i + 1] == c[i]);
        }
    }
}

/// A character is ASCII exactly when its code is at most 127.
proof fn lemma_char_code(c: char)
    ensures
        ('\0' <= c <= '\u{7f}') <==> (c as u32) <= 0x7f,
{
}

/// Some character of a text that is not ASCII is encoded with a byte of
/// 128 or more.
proof fn lemma_non_ascii_high_byte(chars: Seq<char>)
    requires
        !is_ascii_chars(chars),
    ensures
        exists|j: int| 0 <= j < encode_utf8(chars).len() && #[trigger] encode_utf8(chars)[j] >= 128,
    decreases chars.len(),
{
    assert(exists|i: int| 0 <= i < chars.len() && !('\0' <= #[trigger] chars[i] <= '\u{7f}'));
    let i = choose|i: int| 0 <= i < chars.len() && !('\0' <= #[trigger] chars[i] <= '\u{7f}');
    assert(chars.len() > 0);
    let ch = chars[0];
    let c0 = ch as u32;
    let rest = chars.drop_first();
    let e0 = encode_scalar(c0);
    let b = encode_utf8(chars);
    assert(b == e0 + encode_utf8(rest));
    char_is_scalar(ch);
    lemma_char_code(ch);
    if c0 > 0x7f {
        assert(e0[0] >= 128) by {
            assert(0xC0u8 | (((c0 >> 6u32) & 0x1Fu32) as u8) >= 128u8) by (bit_vector);
            assert(0xE0u8 | (((c0 >> 12u32) & 0x0Fu32) as u8) >= 128u8) by (bit_vector);
            assert(0xF0u8 | (((c0 >> 18u32) & 0x7u32) as u8) >= 128u8) by (bit_vector);
        }
        assert(b[0] == e0[0]);
    } else {
        assert(i > 0);
        assert(rest[i - 1] == chars[i]);
        assert(!is_ascii_chars(rest));
        lemma_non_ascii_high_byte(rest);
        let j = choose|j: int| 0 <= j < encode_utf8(rest).len() && #[trigger] encode_utf8(rest)[j] >= 128;
        assert(b[e0.len() + j] == encode_utf8(rest)[j]);
    }
}

/// Law: a text that holds a character other than `0` to `9`, but for a
/// leading `+`, names no table; nor does the empty text or a lone `+`.
pub proof fn law_non_digits_refused(text: Seq<char>, i: int)
    requires
        0 <= i < text.len(),
        !is_decimal_digit(text[i]),
        !(i == 0 && text[i] == '+'),
    ensures
        table_number(encode_utf8(text)) is None,
        table_number(encode_utf8(Seq::<char>::empty())) is None,
        table_number(encode_utf8(seq!['+'])) is None,
{
    let b = encode_utf8(text);
    let d = unsigned_digits(b);
    if is_ascii_chars(text) {
        is_ascii_chars_encode_utf8(text);
        assert(b[i] == (text[i] as u8));
        if b.len() > 0 && b[0] == 43 {
            assert(text[0] == '+') by {
                assert(b[0] == (text[0] as u8));
            }
            assert(d[i - 1] == b[i]);
        } else {
            assert(d[i] == b[i]);
        }
    } else {
        lemma_non_ascii_high_byte(text);
        let j = choose|j: int| 0 <= j < b.len() && #[trigger] b[j] >= 128;
        if b.len() > 0 && b[0] == 43 {
            assert(d[j - 1] == b[j]);
        } else {
            assert(d[j] == b[j]);
        }
    }
    assert(!all_digits(d));
    assert(encode_utf8(Seq::<char>::empty()) =~= Seq::<u8>::empty());
    let plus = seq!['+'];
    assert(is_ascii_chars(plus));
    is_ascii_chars_encode_utf8(plus);
    assert(unsigned_digits(encode_utf8(plus)).len() == 0);
}

} // verus!
