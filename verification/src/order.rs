//! The order of keys: by the bytes of their UTF-8 encoding.

use vstd::prelude::*;
use vstd::string::*;
use vstd::utf8::*;

use crate::table::{Key, Table};
use crate::period::{granularity_of, key_text, lemma_key_chars, valid_period, year_of};
use crate::text::{
    ascii_bytes, digits_value, is_digit, lemma_ascii_encoding, lemma_decimal_len,
    lemma_encode_injective, lemma_padded_parses, padded, str_eq,
};
use crate::types::Period;

verus! {

/// Whether `a` comes before `b`, byte by byte.
pub open spec fn bytes_before(a: Seq<u8>, b: Seq<u8>) -> bool
    decreases a.len(),
{
    if b.len() == 0 {
        false
    } else if a.len() == 0 {
        true
    } else if a[0] != b[0] {
        a[0] < b[0]
    } else {
        bytes_before(a.drop_first(), b.drop_first())
    }
}

proof fn lemma_bytes_total(a: Seq<u8>, b: Seq<u8>)
    ensures
        bytes_before(a, b) || bytes_before(b, a) || a == b,
        !(bytes_before(a, b) && bytes_before(b, a)),
        a == b ==> !bytes_before(a, b),
    decreases a.len(),
{
    if a.len() > 0 && b.len() > 0 && a[0] == b[0] {
        lemma_bytes_total(a.drop_first(), b.drop_first());
        if a.drop_first() == b.drop_first() {
            assert(a =~= seq![a[0]] + a.drop_first());
            assert(b =~= seq![b[0]] + b.drop_first());
        }
    } else if a.len() == 0 && b.len() == 0 {
        assert(a =~= b);
    }
}

proof fn lemma_bytes_transitive(a: Seq<u8>, b: Seq<u8>, c: Seq<u8>)
    requires
        bytes_before(a, b),
        bytes_before(b, c),
    ensures
        bytes_before(a, c),
    decreases a.len(),
{
    if a.len() > 0 && a[0] == b[0] && b[0] == c[0] {
        lemma_bytes_transitive(a.drop_first(), b.drop_first(), c.drop_first());
    }
}

/// Whether key `a` comes before key `b`.
pub open spec fn before(a: Seq<char>, b: Seq<char>) -> bool {
    bytes_before(encode_utf8(a), encode_utf8(b))
}

/// Of two different keys exactly one comes before the other.
pub proof fn law_order_total(a: Seq<char>, b: Seq<char>)
    ensures
        before(a, b) || before(b, a) || a == b,
        !(before(a, b) && before(b, a)),
        !before(a, a),
{
    lemma_bytes_total(encode_utf8(a), encode_utf8(b));
    lemma_bytes_total(encode_utf8(a), encode_utf8(a));
    if encode_utf8(a) == encode_utf8(b) {
        lemma_encode_injective(a, b);
    }
}

/// The order of keys is transitive.
pub proof fn law_order_transitive(a: Seq<char>, b: Seq<char>, c: Seq<char>)
    requires
        before(a, b),
        before(b, c),
    ensures
        before(a, c),
{
    lemma_bytes_transitive(encode_utf8(a), encode_utf8(b), encode_utf8(c));
}

fn str_before(a: &str, b: &str) -> (r: bool)
    ensures
        r == before(a@, b@),
{
    let x = a.as_bytes();
    let y = b.as_bytes();
    let mut i: usize = 0;
    assert(x@.subrange(0, x@.len() as int) =~= x@);
    assert(y@.subrange(0, y@.len() as int) =~= y@);
    while i < x.len() && i < y.len() && x[i] == y[i]
        invariant
            i <= x@.len(),
            i <= y@.len(),
            bytes_before(x@, y@) == bytes_before(
                x@.subrange(i as int, x@.len() as int),
                y@.subrange(i as int, y@.len() as int),
            ),
        decreases x@.len() - i,
    {
        proof {
            let p = x@.subrange(i as int, x@.len() as int);
            let q = y@.subrange(i as int, y@.len() as int);
            assert(p.drop_first() =~= x@.subrange(i + 1, x@.len() as int));
            assert(q.drop_first() =~= y@.subrange(i + 1, y@.len() as int));
        }
        i = i + 1;
    }
    if i >= y.len() {
        false
    } else if i >= x.len() {
        true
    } else {
        x[i] < y[i]
    }
}

/// Whether keys ascend strictly.
pub open spec fn ascending(keys: Seq<Seq<char>>) -> bool {
    forall|i: int, j: int| 0 <= i < j < keys.len() ==> #[trigger] before(keys[i], keys[j])
}

/// Whether `text` starts with `prefix`.
pub open spec fn has_prefix(text: Seq<char>, prefix: Seq<char>) -> bool {
    text.len() >= prefix.len() && text.subrange(0, prefix.len() as int) == prefix
}

/// Whether `keys` lists the keys of a set that start with `prefix`, in order.
pub open spec fn lists(keys: Seq<Seq<char>>, set: Set<Seq<char>>, prefix: Seq<char>) -> bool {
    &&& ascending(keys)
    &&& forall|k: Seq<char>| #[trigger]
        keys.contains(k) <==> set.contains(k) && has_prefix(k, prefix)
}

/// The keys of a set that start with `prefix`, in order.
pub open spec fn listing(set: Set<Seq<char>>, prefix: Seq<char>) -> Seq<Seq<char>> {
    choose|keys: Seq<Seq<char>>| lists(keys, set, prefix)
}

proof fn lemma_ascending_unique(a: Seq<Seq<char>>, b: Seq<Seq<char>>)
    requires
        ascending(a),
        ascending(b),
        forall|k: Seq<char>| #[trigger] a.contains(k) <==> b.contains(k),
    ensures
        a == b,
    decreases a.len(),
{
    if a.len() == 0 {
        if b.len() > 0 {
            assert(b.contains(b[0]));
            assert(a.contains(b[0]));
        }
        assert(a =~= b);
    } else {
        let x = a.last();
        assert(a.contains(a[a.len() - 1]));
        assert(b.contains(x));
        let y = b.last();
        assert(b.contains(b[b.len() - 1]));
        assert(a.contains(y));
        let i = choose|i: int| 0 <= i < b.len() && b[i] == x;
        let j = choose|j: int| 0 <= j < a.len() && a[j] == y;
        law_order_total(x, y);
        if i < b.len() - 1 {
            assert(before(b[i], b[b.len() - 1]));
        }
        if j < a.len() - 1 {
            assert(before(a[j], a[a.len() - 1]));
        }
        assert(x == y);
        let a0 = a.drop_last();
        let b0 = b.drop_last();
        assert forall|m: int, n: int| 0 <= m < n < a0.len() implies #[trigger] before(
            a0[m],
            a0[n],
        ) by {
            assert(before(a[m], a[n]));
        }
        assert forall|m: int, n: int| 0 <= m < n < b0.len() implies #[trigger] before(
            b0[m],
            b0[n],
        ) by {
            assert(before(b[m], b[n]));
        }
        assert forall|k: Seq<char>| #[trigger] a0.contains(k) implies b0.contains(k) by {
            let m = choose|m: int| 0 <= m < a0.len() && a0[m] == k;
            assert(before(a[m], a[a.len() - 1]));
            law_order_total(k, x);
            assert(a.contains(a[m]));
            let n = choose|n: int| 0 <= n < b.len() && b[n] == k;
            assert(b0[n] == k);
        }
        assert forall|k: Seq<char>| #[trigger] b0.contains(k) implies a0.contains(k) by {
            let m = choose|m: int| 0 <= m < b0.len() && b0[m] == k;
            assert(before(b[m], b[b.len() - 1]));
            law_order_total(k, x);
            assert(b.contains(b[m]));
            assert(a.contains(k));
            let n = choose|n: int| 0 <= n < a.len() && a[n] == k;
            assert(a0[n] == k);
        }
        lemma_ascending_unique(a0, b0);
        assert(a =~= a0.push(x));
        assert(b =~= b0.push(y));
    }
}

/// There is only one listing.
pub proof fn law_listing_unique(keys: Seq<Seq<char>>, set: Set<Seq<char>>, prefix: Seq<char>)
    requires
        lists(keys, set, prefix),
    ensures
        keys == listing(set, prefix),
{
    let other = listing(set, prefix);
    assert(lists(other, set, prefix));
    lemma_ascending_unique(keys, other);
}

spec fn placed(keys: Seq<Seq<char>>, key: Seq<char>) -> Seq<Seq<char>>
    decreases keys.len(),
{
    if keys.len() == 0 || before(keys.last(), key) {
        keys.push(key)
    } else {
        placed(keys.drop_last(), key).push(keys.last())
    }
}

proof fn lemma_placed(keys: Seq<Seq<char>>, key: Seq<char>)
    requires
        ascending(keys),
        !keys.contains(key),
    ensures
        ascending(placed(keys, key)),
        forall|k: Seq<char>| #[trigger]
            placed(keys, key).contains(k) <==> keys.contains(k) || k == key,
    decreases keys.len(),
{
    let all = placed(keys, key);
    let n = all.len() - 1;
    let init = if keys.len() == 0 || before(keys.last(), key) {
        keys
    } else {
        placed(keys.drop_last(), key)
    };
    let last = all.last();
    if keys.len() > 0 && !before(keys.last(), key) {
        let front = keys.drop_last();
        assert(ascending(front)) by {
            assert forall|i: int, j: int| 0 <= i < j < front.len() implies #[trigger] before(
                front[i],
                front[j],
            ) by {
                assert(before(keys[i], keys[j]));
            }
        }
        assert(!front.contains(key)) by {
            if front.contains(key) {
                let m = choose|m: int| 0 <= m < front.len() && front[m] == key;
                assert(keys[m] == key);
            }
        }
        lemma_placed(front, key);
        assert(keys[keys.len() - 1] == last);
        assert(last != key);
        law_order_total(last, key);
        assert forall|i: int| 0 <= i < n implies before(#[trigger] all[i], last) by {
            assert(init[i] == all[i]);
            assert(init.contains(init[i]));
            if all[i] != key {
                assert(front.contains(all[i]));
                let m = choose|m: int| 0 <= m < front.len() && front[m] == all[i];
                assert(before(keys[m], keys[keys.len() - 1]));
            }
        }
    } else {
        assert forall|i: int| 0 <= i < n implies before(#[trigger] all[i], last) by {
            assert(all[i] == keys[i]);
            if i < keys.len() - 1 {
                assert(before(keys[i], keys[keys.len() - 1]));
                law_order_transitive(keys[i], keys.last(), key);
            }
        }
    }
    assert(all =~= init.push(last));
    assert forall|i: int, j: int| 0 <= i < j < all.len() implies #[trigger] before(
        all[i],
        all[j],
    ) by {
        if j < n {
            assert(all[i] == init[i] && all[j] == init[j]);
            assert(before(init[i], init[j]));
        }
    }
    assert forall|k: Seq<char>| #[trigger] all.contains(k) <==> keys.contains(k) || k == key by {
        if all.contains(k) {
            let m = choose|m: int| 0 <= m < all.len() && all[m] == k;
            if m < n {
                assert(init[m] == k);
                assert(init.contains(k));
                if keys.drop_last().contains(k) {
                    let q = choose|q: int|
                        0 <= q < keys.drop_last().len() && keys.drop_last()[q] == k;
                    assert(keys[q] == k);
                }
            } else if keys.len() > 0 && !before(keys.last(), key) {
                assert(keys[keys.len() - 1] == k);
            }
        }
        if keys.contains(k) {
            let m = choose|m: int| 0 <= m < keys.len() && keys[m] == k;
            if keys.len() > 0 && !before(keys.last(), key) {
                if m < keys.len() - 1 {
                    assert(keys.drop_last()[m] == k);
                    assert(keys.drop_last().contains(k));
                    assert(init.contains(k));
                    let q = choose|q: int| 0 <= q < init.len() && init[q] == k;
                    assert(all[q] == k);
                } else {
                    assert(all[n] == k);
                }
            } else {
                assert(all[m] == k);
            }
        }
        if k == key {
            if keys.len() > 0 && !before(keys.last(), key) {
                assert(init.contains(k));
                let q = choose|q: int| 0 <= q < init.len() && init[q] == k;
                assert(all[q] == k);
            } else {
                assert(all[n] == k);
            }
        }
    }
}

proof fn lemma_in_order(set: Set<Seq<char>>) -> (keys: Seq<Seq<char>>)
    requires
        set.finite(),
    ensures
        ascending(keys),
        forall|k: Seq<char>| #[trigger] keys.contains(k) <==> set.contains(k),
    decreases set.len(),
{
    if set.len() == 0 {
        assert(set =~= Set::empty());
        let none: Seq<Seq<char>> = Seq::empty();
        assert forall|k: Seq<char>| #[trigger] none.contains(k) <==> set.contains(k) by {}
        none
    } else {
        let key = set.choose();
        let rest = lemma_in_order(set.remove(key));
        assert(!rest.contains(key));
        lemma_placed(rest, key);
        placed(rest, key)
    }
}

/// Every finite set of keys has a listing.
pub proof fn law_listing_exists(set: Set<Seq<char>>, prefix: Seq<char>)
    requires
        set.finite(),
    ensures
        lists(listing(set, prefix), set, prefix),
{
    let own = set.filter(|k: Seq<char>| has_prefix(k, prefix));
    let keys = lemma_in_order(own);
    assert forall|k: Seq<char>| #[trigger] keys.contains(k) <==> set.contains(k) && has_prefix(
        k,
        prefix,
    ) by {
        assert(keys.contains(k) <==> own.contains(k));
    }
    assert(lists(keys, set, prefix));
}

/// Strings as texts.
pub open spec fn texts(v: Seq<String>) -> Seq<Seq<char>> {
    Seq::new(v.len(), |i: int| v[i]@)
}

/// Puts a key into its place in an ordered list, unless it is there.
fn insert_key(keys: &mut Vec<String>, key: &str)
    requires
        ascending(texts(old(keys)@)),
    ensures
        ascending(texts(final(keys)@)),
        forall|k: Seq<char>| #[trigger]
            texts(final(keys)@).contains(k) <==> texts(old(keys)@).contains(k) || k == key@,
{
    let mut i: usize = 0;
    let ghost all = texts(keys@);
    while i < keys.len() && str_before(keys[i].as_str(), key)
        invariant
            i <= keys@.len(),
            all == texts(keys@),
            forall|k: int| 0 <= k < i ==> before(#[trigger] all[k], key@),
        decreases keys@.len() - i,
    {
        assert(all[i as int] == keys@[i as int]@);
        i = i + 1;
    }
    if i < keys.len() && str_eq(keys[i].as_str(), key) {
        proof {
            assert(all[i as int] == key@);
        }
        return;
    }
    proof {
        if i < keys@.len() {
            assert(all[i as int] == keys@[i as int]@);
            law_order_total(all[i as int], key@);
        }
    }
    keys.insert(i, key.to_owned());
    proof {
        let now = texts(keys@);
        assert(now =~= all.insert(i as int, key@));
        assert forall|m: int, n: int| 0 <= m < n < now.len() implies #[trigger] before(
            now[m],
            now[n],
        ) by {
            if m < i && n < i {
                assert(before(all[m], all[n]));
            } else if m < i && n == i {
                assert(before(all[m], key@));
            } else if m < i {
                assert(before(all[m], all[n - 1]));
            } else if m == i {
                if n - 1 > i {
                    assert(before(all[i as int], all[n - 1]));
                    law_order_transitive(key@, all[i as int], all[n - 1]);
                }
            } else {
                assert(before(all[m - 1], all[n - 1]));
            }
        }
        assert forall|k: Seq<char>| #[trigger] now.contains(k) <==> all.contains(k) || k
            == key@ by {
            if all.contains(k) {
                let m = choose|m: int| 0 <= m < all.len() && all[m] == k;
                assert(now[if m < i { m } else { m + 1 }] == k);
            }
            if k == key@ {
                assert(now[i as int] == k);
            }
            if now.contains(k) {
                let m = choose|m: int| 0 <= m < now.len() && now[m] == k;
                if m < i {
                    assert(all[m] == k);
                } else if m > i {
                    assert(all[m - 1] == k);
                }
            }
        }
    }
}

fn starts_with(text: &str, prefix: &str) -> (r: bool)
    ensures
        r == has_prefix(text@, prefix@),
{
    let n: usize = prefix.unicode_len();
    text.unicode_len() >= n && str_eq(text.substring_char(0, n), prefix)
}

/// Adds the keys of a table that start with `prefix` to an ordered list.
fn add_keys<V>(keys: &mut Vec<String>, table: &Table<String, V>, prefix: &str)
    requires
        table.wf(),
        ascending(texts(old(keys)@)),
    ensures
        ascending(texts(final(keys)@)),
        forall|k: Seq<char>| #[trigger]
            texts(final(keys)@).contains(k) <==> texts(old(keys)@).contains(k) || (
            table@.dom().contains(k) && has_prefix(k, prefix@)),
{
    let n: usize = table.len();
    let mut i: usize = 0;
    while i < n
        invariant
            i <= n,
            n == table.rows().len(),
            ascending(texts(keys@)),
            forall|k: Seq<char>| #[trigger]
                texts(keys@).contains(k) <==> texts(old(keys)@).contains(k) || (has_prefix(
                    k,
                    prefix@,
                ) && exists|m: int| 0 <= m < i && #[trigger] table.rows()[m].0@ == k),
        decreases n - i,
    {
        let ghost previous = texts(keys@);
        let row = table.row(i);
        if starts_with(row.0.as_str(), prefix) {
            insert_key(keys, row.0.as_str());
        }
        proof {
            let here = table.rows()[i as int].0@;
            assert forall|k: Seq<char>| #[trigger]
                texts(keys@).contains(k) <==> texts(old(keys)@).contains(k) || (has_prefix(
                    k,
                    prefix@,
                ) && exists|m: int| 0 <= m < i + 1 && #[trigger] table.rows()[m].0@ == k) by {
                assert(previous.contains(k) <==> texts(old(keys)@).contains(k) || (has_prefix(
                    k,
                    prefix@,
                ) && exists|m: int| 0 <= m < i && #[trigger] table.rows()[m].0@ == k));
                if exists|m: int| 0 <= m < i + 1 && #[trigger] table.rows()[m].0@ == k {
                    let m = choose|m: int| 0 <= m < i + 1 && #[trigger] table.rows()[m].0@ == k;
                    if m < i {
                        assert(table.rows()[m].0@ == k);
                    }
                }
                if k == here {
                    assert(table.rows()[i as int].0@ == k);
                }
            }
        }
        i = i + 1;
    }
    proof {
        assert forall|k: Seq<char>| table@.dom().contains(k) <==> exists|m: int|
            0 <= m < n && #[trigger] table.rows()[m].0@ == k by {
            crate::table::lemma_rows_map_dom(table.rows(), k);
            if table@.dom().contains(k) {
                let m = choose|m: int|
                    0 <= m < table.rows().len() && #[trigger] table.rows()[m].0.model() == k;
                assert(table.rows()[m].0@ == k);
            }
            if exists|m: int| 0 <= m < n && #[trigger] table.rows()[m].0@ == k {
                let m = choose|m: int| 0 <= m < n && #[trigger] table.rows()[m].0@ == k;
                assert(table.rows()[m].0.model() == k);
            }
        }
    }
}

/// Returns the keys of a table that start with `prefix`, in order.
pub fn keys_with_prefix<V>(table: &Table<String, V>, prefix: &str) -> (r: Vec<String>)
    requires
        table.wf(),
    ensures
        lists(texts(r@), table@.dom(), prefix@),
        texts(r@) == listing(table@.dom(), prefix@),
{
    let mut keys: Vec<String> = Vec::new();
    add_keys(&mut keys, table, prefix);
    proof {
        law_listing_unique(texts(keys@), table@.dom(), prefix@);
    }
    keys
}

/// Returns the keys of two tables that start with `prefix`, in order.
pub fn keys_of_both<V>(a: &Table<String, V>, b: &Table<String, V>, prefix: &str) -> (r: Vec<String>)
    requires
        a.wf(),
        b.wf(),
    ensures
        lists(texts(r@), a@.dom().union(b@.dom()), prefix@),
        texts(r@) == listing(a@.dom().union(b@.dom()), prefix@),
{
    let mut keys: Vec<String> = Vec::new();
    add_keys(&mut keys, a, prefix);
    add_keys(&mut keys, b, prefix);
    proof {
        law_listing_unique(texts(keys@), a@.dom().union(b@.dom()), prefix@);
    }
    keys
}

// ---------------------------------------------------------------------------
// Period keys
// ---------------------------------------------------------------------------

/// Byte by byte, a common front of one length decides first.
proof fn lemma_before_concat(a: Seq<u8>, x: Seq<u8>, b: Seq<u8>, y: Seq<u8>)
    requires
        a.len() == b.len(),
    ensures
        bytes_before(a + x, b + y) <==> bytes_before(a, b) || (a == b && bytes_before(x, y)),
    decreases a.len(),
{
    if a.len() == 0 {
        assert(a =~= b);
        assert(a + x =~= x);
        assert(b + y =~= y);
    } else {
        assert((a + x)[0] == a[0]);
        assert((b + y)[0] == b[0]);
        if a[0] == b[0] {
            assert((a + x).drop_first() =~= a.drop_first() + x);
            assert((b + y).drop_first() =~= b.drop_first() + y);
            lemma_before_concat(a.drop_first(), x, b.drop_first(), y);
            if a.drop_first() == b.drop_first() {
                assert(a =~= seq![a[0]] + a.drop_first());
                assert(b =~= seq![b[0]] + b.drop_first());
            }
        }
    }
}

/// Of two digit strings of one length, the one with the smaller number comes
/// first.
proof fn lemma_digits_order(a: Seq<u8>, b: Seq<u8>)
    requires
        a.len() == b.len(),
        forall|i: int| 0 <= i < a.len() ==> is_digit(#[trigger] a[i]),
        forall|i: int| 0 <= i < b.len() ==> is_digit(#[trigger] b[i]),
    ensures
        bytes_before(a, b) <==> digits_value(a) < digits_value(b),
        a == b <==> digits_value(a) == digits_value(b),
    decreases a.len(),
{
    if a.len() == 0 {
        assert(a =~= b);
    } else {
        let a0 = a.drop_last();
        let b0 = b.drop_last();
        assert forall|i: int| 0 <= i < a0.len() implies is_digit(#[trigger] a0[i]) by {
            assert(a0[i] == a[i]);
        }
        assert forall|i: int| 0 <= i < b0.len() implies is_digit(#[trigger] b0[i]) by {
            assert(b0[i] == b[i]);
        }
        lemma_digits_order(a0, b0);
        let x = seq![a.last()];
        let y = seq![b.last()];
        assert(a =~= a0 + x);
        assert(b =~= b0 + y);
        lemma_before_concat(a0, x, b0, y);
        assert(is_digit(a[a.len() - 1]) && is_digit(b[b.len() - 1]));
        assert(bytes_before(x, y) <==> a.last() < b.last()) by {
            assert(x.drop_first() =~= Seq::<u8>::empty());
            assert(y.drop_first() =~= Seq::<u8>::empty());
            reveal_with_fuel(bytes_before, 2);
        }
        if digits_value(a) == digits_value(b) {
            assert(digits_value(a0) == digits_value(b0));
        }
    }
}

/// Padded numbers of one width are ordered as the numbers are.
proof fn lemma_padded_order(m: nat, n: nat, width: nat)
    requires
        padded(m, width).len() == width,
        padded(n, width).len() == width,
    ensures
        bytes_before(ascii_bytes(padded(m, width)), ascii_bytes(padded(n, width))) <==> m < n,
        ascii_bytes(padded(m, width)) == ascii_bytes(padded(n, width)) <==> m == n,
{
    lemma_padded_parses(m, width, m);
    lemma_padded_parses(n, width, n);
    lemma_digits_order(ascii_bytes(padded(m, width)), ascii_bytes(padded(n, width)));
}

/// A front, a separator and a padded number behind it are compared in this
/// order.
proof fn lemma_component_order(
    a: Seq<u8>,
    m: nat,
    b: Seq<u8>,
    n: nat,
    sep: u8,
    width: nat,
)
    requires
        a.len() == b.len(),
        padded(m, width).len() == width,
        padded(n, width).len() == width,
    ensures
        ({
            let x = a + seq![sep] + ascii_bytes(padded(m, width));
            let y = b + seq![sep] + ascii_bytes(padded(n, width));
            &&& x.len() == y.len()
            &&& bytes_before(x, y) <==> bytes_before(a, b) || (a == b && m < n)
            &&& x == y <==> a == b && m == n
        }),
{
    let p = ascii_bytes(padded(m, width));
    let q = ascii_bytes(padded(n, width));
    let x = a + seq![sep] + p;
    let y = b + seq![sep] + q;
    lemma_padded_order(m, n, width);
    lemma_before_concat(a + seq![sep], p, b + seq![sep], q);
    lemma_before_concat(a, seq![sep], b, seq![sep]);
    lemma_bytes_total(seq![sep], seq![sep]);
    assert(x.subrange(0, a.len() as int) =~= a);
    assert(y.subrange(0, b.len() as int) =~= b);
    assert(x.subrange(a.len() as int + 1, x.len() as int) =~= p);
    assert(y.subrange(b.len() as int + 1, y.len() as int) =~= q);
    assert((a + seq![sep] == b + seq![sep]) <==> a == b) by {
        assert((a + seq![sep]).subrange(0, a.len() as int) =~= a);
        assert((b + seq![sep]).subrange(0, b.len() as int) =~= b);
    }
}

/// The bytes of a key, component by component.
spec fn key_bytes(p: Period) -> Seq<u8> {
    match p {
        Period::Static => Seq::empty(),
        Period::Year(y) => ascii_bytes(padded(y as nat, 4)),
        Period::Month(y, m) => ascii_bytes(padded(y as nat, 4)) + seq![45u8] + ascii_bytes(
            padded(m as nat, 2),
        ),
        Period::Day(y, m, d) => ascii_bytes(padded(y as nat, 4)) + seq![45u8] + ascii_bytes(
            padded(m as nat, 2),
        ) + seq![45u8] + ascii_bytes(padded(d as nat, 2)),
        Period::Hour(y, m, d, h) => ascii_bytes(padded(y as nat, 4)) + seq![45u8] + ascii_bytes(
            padded(m as nat, 2),
        ) + seq![45u8] + ascii_bytes(padded(d as nat, 2)) + seq![84u8] + ascii_bytes(
            padded(h as nat, 2),
        ),
    }
}

proof fn lemma_key_bytes(p: Period)
    requires
        p != Period::Static,
    ensures
        encode_utf8(key_text(p)) == key_bytes(p),
{
    lemma_key_chars(p);
    lemma_ascii_encoding(key_text(p));
    lemma_separators();
    match p {
        Period::Static => {},
        Period::Year(y) => {},
        Period::Month(y, m) => {
            lemma_month_bytes(y, m);
        },
        Period::Day(y, m, d) => {
            lemma_day_bytes(y, m, d);
        },
        Period::Hour(y, m, d, h) => {
            lemma_day_bytes(y, m, d);
            let day = key_text(Period::Day(y, m, d));
            lemma_ascii_concat(day + "T"@, padded(h as nat, 2));
            lemma_ascii_concat(day, "T"@);
        },
    }
}

proof fn lemma_separators()
    ensures
        ascii_bytes("-"@) == seq![45u8],
        ascii_bytes("T"@) == seq![84u8],
{
    reveal_strlit("-");
    reveal_strlit("T");
    assert(ascii_bytes("-"@) =~= seq![45u8]);
    assert(ascii_bytes("T"@) =~= seq![84u8]);
}

proof fn lemma_ascii_concat(a: Seq<char>, b: Seq<char>)
    ensures
        ascii_bytes(a + b) == ascii_bytes(a) + ascii_bytes(b),
{
    assert(ascii_bytes(a + b) =~= ascii_bytes(a) + ascii_bytes(b));
}

proof fn lemma_month_bytes(y: u16, m: u8)
    ensures
        ascii_bytes(key_text(Period::Month(y, m))) == key_bytes(Period::Month(y, m)),
{
    lemma_separators();
    let year = padded(y as nat, 4);
    lemma_ascii_concat(year + "-"@, padded(m as nat, 2));
    lemma_ascii_concat(year, "-"@);
}

proof fn lemma_day_bytes(y: u16, m: u8, d: u8)
    ensures
        ascii_bytes(key_text(Period::Day(y, m, d))) == key_bytes(Period::Day(y, m, d)),
{
    lemma_separators();
    lemma_month_bytes(y, m);
    let month = key_text(Period::Month(y, m));
    lemma_ascii_concat(month + "-"@, padded(d as nat, 2));
    lemma_ascii_concat(month, "-"@);
}

proof fn lemma_short_width(n: nat)
    ensures
        n <= 99 ==> padded(n, 2).len() == 2,
        n <= 9999 ==> padded(n, 4).len() == 4,
{
    lemma_decimal_len(n);
}

/// Byte order of keys is time order, among valid periods of one granularity
/// with a year of four digits.
pub proof fn law_key_order(a: Period, b: Period)
    requires
        valid_period(a),
        valid_period(b),
        granularity_of(a) == granularity_of(b),
        year_of(a) <= 9999,
        year_of(b) <= 9999,
    ensures
        a.earlier(b) <==> before(key_text(a), key_text(b)),
{
    match (a, b) {
        (Period::Static, Period::Static) => {
            law_order_total(key_text(a), key_text(b));
        },
        (Period::Year(y), Period::Year(y2)) => {
            lemma_short_width(y as nat);
            lemma_short_width(y2 as nat);
            lemma_padded_order(y as nat, y2 as nat, 4);
        },
        (Period::Month(y, m), Period::Month(y2, m2)) => {
            lemma_month_order(y, m, y2, m2);
        },
        (Period::Day(y, m, d), Period::Day(y2, m2, d2)) => {
            lemma_day_order(y, m, d, y2, m2, d2);
        },
        (Period::Hour(y, m, d, h), Period::Hour(y2, m2, d2, h2)) => {
            lemma_day_order(y, m, d, y2, m2, d2);
            lemma_short_width(h as nat);
            lemma_short_width(h2 as nat);
            lemma_component_order(
                key_bytes(Period::Day(y, m, d)),
                h as nat,
                key_bytes(Period::Day(y2, m2, d2)),
                h2 as nat,
                84,
                2,
            );
        },
        _ => {},
    }
    if a != Period::Static {
        lemma_key_bytes(a);
        lemma_key_bytes(b);
    }
}

proof fn lemma_month_order(y: u16, m: u8, y2: u16, m2: u8)
    requires
        y <= 9999,
        y2 <= 9999,
        m <= 12,
        m2 <= 12,
    ensures
        ({
            let a = key_bytes(Period::Month(y, m));
            let b = key_bytes(Period::Month(y2, m2));
            &&& a.len() == b.len()
            &&& bytes_before(a, b) <==> Period::Month(y, m).earlier(Period::Month(y2, m2))
            &&& a == b <==> y == y2 && m == m2
        }),
{
    lemma_short_width(y as nat);
    lemma_short_width(y2 as nat);
    lemma_short_width(m as nat);
    lemma_short_width(m2 as nat);
    lemma_padded_order(y as nat, y2 as nat, 4);
    lemma_component_order(
        ascii_bytes(padded(y as nat, 4)),
        m as nat,
        ascii_bytes(padded(y2 as nat, 4)),
        m2 as nat,
        45,
        2,
    );
}

proof fn lemma_day_order(y: u16, m: u8, d: u8, y2: u16, m2: u8, d2: u8)
    requires
        y <= 9999,
        y2 <= 9999,
        m <= 12,
        m2 <= 12,
        d <= 31,
        d2 <= 31,
    ensures
        ({
            let a = key_bytes(Period::Day(y, m, d));
            let b = key_bytes(Period::Day(y2, m2, d2));
            &&& a.len() == b.len()
            &&& bytes_before(a, b) <==> Period::Day(y, m, d).earlier(Period::Day(y2, m2, d2))
            &&& a == b <==> y == y2 && m == m2 && d == d2
        }),
{
    lemma_month_order(y, m, y2, m2);
    lemma_short_width(d as nat);
    lemma_short_width(d2 as nat);
    lemma_component_order(
        key_bytes(Period::Month(y, m)),
        d as nat,
        key_bytes(Period::Month(y2, m2)),
        d2 as nat,
        45,
        2,
    );
}

// ---------------------------------------------------------------------------
// Laws
// ---------------------------------------------------------------------------

/// A text starts with a prefix exactly if it is the prefix and some rest.
pub proof fn law_has_prefix(text: Seq<char>, prefix: Seq<char>, rest: Seq<char>)
    ensures
        has_prefix(prefix + rest, prefix),
        has_prefix(text, prefix) ==> text == prefix + text.subrange(
            prefix.len() as int,
            text.len() as int,
        ),
        text == prefix + rest ==> has_prefix(text, prefix),
{
    assert((prefix + rest).subrange(0, prefix.len() as int) =~= prefix);
    if has_prefix(text, prefix) {
        assert(text =~= text.subrange(0, prefix.len() as int) + text.subrange(
            prefix.len() as int,
            text.len() as int,
        ));
    }
}

/// A key starts with a name and a slash exactly if the name stands in front and a
/// slash behind it.
pub proof fn law_prefix_with_slash(key: Seq<char>, name: Seq<char>)
    ensures
        has_prefix(key, name + "/"@) <==> key.len() > name.len() && key.subrange(
            0,
            name.len() as int,
        ) == name && key[name.len() as int] == '/',
{
    reveal_strlit("/");
    let prefix = name + "/"@;
    if has_prefix(key, prefix) {
        let head = key.subrange(0, prefix.len() as int);
        assert(head == prefix);
        assert(head[name.len() as int] == '/');
        assert(key.subrange(0, name.len() as int) =~= head.subrange(0, name.len() as int));
        assert(head.subrange(0, name.len() as int) =~= name);
    }
    if key.len() > name.len() && key.subrange(0, name.len() as int) == name && key[name.len() as int]
        == '/' {
        assert forall|i: int| 0 <= i < name.len() implies key[i] == name[i] by {
            assert(key.subrange(0, name.len() as int)[i] == name[i]);
        }
        assert(key.subrange(0, prefix.len() as int) =~= prefix);
    }
}

/// Byte strings are ordered by the first byte in which they differ; one that the
/// other continues comes first.
pub proof fn law_byte_order(a: Seq<u8>, b: Seq<u8>, n: int)
    requires
        0 <= n <= a.len(),
        n <= b.len(),
        forall|i: int| 0 <= i < n ==> a[i] == b[i],
    ensures
        n < a.len() && n < b.len() && a[n] != b[n] ==> (bytes_before(a, b) <==> a[n] < b[n]),
        n == a.len() && n < b.len() ==> bytes_before(a, b),
        n == b.len() ==> !bytes_before(a, b),
    decreases n,
{
    if n > 0 {
        assert(a[0] == b[0]);
        assert forall|i: int| 0 <= i < n - 1 implies a.drop_first()[i] == b.drop_first()[i] by {
            assert(a[i + 1] == b[i + 1]);
        }
        law_byte_order(a.drop_first(), b.drop_first(), n - 1);
    }
}

/// Keys are ordered by their bytes.
pub proof fn law_key_byte_order(a: Seq<char>, b: Seq<char>)
    ensures
        before(a, b) <==> bytes_before(encode_utf8(a), encode_utf8(b)),
{
}

/// Strings are seen place by place.
pub proof fn law_texts(v: Seq<String>, i: int)
    ensures
        texts(v).len() == v.len(),
        0 <= i < v.len() ==> texts(v)[i] == v[i]@,
{
}

/// A list of keys is that of a set and a prefix exactly if it holds each key of the
/// set with the prefix, holds no other, and ascends.
pub proof fn law_lists(keys: Seq<Seq<char>>, set: Set<Seq<char>>, prefix: Seq<char>)
    ensures
        lists(keys, set, prefix) <==> (forall|i: int, j: int|
            0 <= i < j < keys.len() ==> bytes_before(
                encode_utf8(#[trigger] keys[i]),
                encode_utf8(#[trigger] keys[j]),
            )) && (forall|k: Seq<char>| #[trigger]
            keys.contains(k) <==> set.contains(k) && has_prefix(k, prefix)),
        ascending(keys) <==> forall|i: int, j: int|
            0 <= i < j < keys.len() ==> before(#[trigger] keys[i], #[trigger] keys[j]),
{
    if ascending(keys) {
        assert forall|i: int, j: int| 0 <= i < j < keys.len() implies bytes_before(
            encode_utf8(#[trigger] keys[i]),
            encode_utf8(#[trigger] keys[j]),
        ) by {
            assert(before(keys[i], keys[j]));
        }
        assert forall|i: int, j: int| 0 <= i < j < keys.len() implies before(
            #[trigger] keys[i],
            #[trigger] keys[j],
        ) by {
            assert(before(keys[i], keys[j]));
        }
    }
}

} // verus!
