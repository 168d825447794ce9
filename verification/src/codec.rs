//! The byte encodings of catalog rows.
//!
//! Every value starts with a version byte, so that a row written by another
//! version is refused rather than misread.

use vstd::prelude::*;
use vstd::arithmetic::power::pow;
use vstd::string::*;
use vstd::utf8::*;

use crate::error::{ErrorView, InoxSetError};
use crate::text::{decimal, push_decimal, push_decimal_wide};
use crate::types::{
    effective_rollup, EventConfig, Granularity, Part, PartKind, PartView, Period, Rollup,
};

verus! {

// ---------------------------------------------------------------------------
// Little-endian numbers
// ---------------------------------------------------------------------------

/// `n` as `len` bytes, least significant first.
pub open spec fn le_bytes(n: nat, len: nat) -> Seq<u8>
    decreases len,
{
    if len == 0 {
        Seq::empty()
    } else {
        seq![(n % 256) as u8] + le_bytes(n / 256, (len - 1) as nat)
    }
}

/// The number that bytes write, least significant first.
pub open spec fn le_value(bytes: Seq<u8>) -> nat
    decreases bytes.len(),
{
    if bytes.len() == 0 {
        0
    } else {
        bytes[0] as nat + 256 * le_value(bytes.drop_first())
    }
}

/// 256 to the power of `len`.
pub open spec fn pow256(len: nat) -> nat
    decreases len,
{
    if len == 0 {
        1
    } else {
        256 * pow256((len - 1) as nat)
    }
}

pub proof fn lemma_le_bytes(n: nat, len: nat)
    ensures
        le_bytes(n, len).len() == len,
        n < pow256(len) ==> le_value(le_bytes(n, len)) == n,
    decreases len,
{
    if len > 0 {
        lemma_le_bytes(n / 256, (len - 1) as nat);
        let rest = le_bytes(n / 256, (len - 1) as nat);
        assert(le_bytes(n, len).drop_first() =~= rest);
        if n < pow256(len) {
            assert(n / 256 < pow256((len - 1) as nat));
        }
    }
}

proof fn lemma_le_value(bytes: Seq<u8>)
    ensures
        le_bytes(le_value(bytes), bytes.len()) == bytes,
    decreases bytes.len(),
{
    if bytes.len() > 0 {
        let rest = bytes.drop_first();
        lemma_le_value(rest);
        let n = le_value(bytes);
        assert(n % 256 == bytes[0] && n / 256 == le_value(rest)) by (nonlinear_arith)
            requires
                n == bytes[0] as nat + 256 * le_value(rest),
                bytes[0] < 256,
        ;
        assert(le_bytes(n, bytes.len()) =~= seq![bytes[0]] + rest);
        assert(seq![bytes[0]] + rest =~= bytes);
    } else {
        assert(le_bytes(0, 0) =~= bytes);
    }
}

pub proof fn lemma_le_value_bound(bytes: Seq<u8>)
    ensures
        le_value(bytes) < pow256(bytes.len()),
    decreases bytes.len(),
{
    if bytes.len() > 0 {
        lemma_le_value_bound(bytes.drop_first());
    }
}

pub proof fn lemma_pow256()
    ensures
        pow256(2) == 0x1_0000,
        pow256(4) == 0x1_0000_0000,
        pow256(8) == 0x1_0000_0000_0000_0000,
{
    reveal_with_fuel(pow256, 9);
}

/// Appends `n` as `len` bytes, least significant first.
pub fn push_le(buf: &mut Vec<u8>, n: u64, len: usize)
    ensures
        final(buf)@ == old(buf)@ + le_bytes(n as nat, len as nat),
    decreases len,
{
    if len > 0 {
        buf.push((n % 256) as u8);
        push_le(buf, n / 256, len - 1);
    }
    assert(buf@ =~= old(buf)@ + le_bytes(n as nat, len as nat));
}

/// Reads the number of `len` bytes at `at`.
pub fn read_le(data: &[u8], at: usize, len: usize) -> (r: u64)
    requires
        at + len <= data.len(),
        len <= 8,
    ensures
        r == le_value(data@.subrange(at as int, at + len)),
        len <= 2 ==> r <= 65535,
        len <= 4 ==> r <= 0xffff_ffff,
    decreases len,
{
    let ghost part = data@.subrange(at as int, at + len);
    proof {
        lemma_le_value_bound(part);
        reveal_with_fuel(pow256, 9);
    }
    if len == 0 {
        return 0;
    }
    assert(part.drop_first() =~= data@.subrange(at + 1, at + len));
    proof {
        lemma_le_value_bound(part.drop_first());
    }
    let rest: u64 = read_le(data, at + 1, len - 1);
    data[at] as u64 + 256 * rest
}

/// `core::str::from_utf8`: the text that bytes encode, or `None` if they are
/// not valid UTF-8.
#[verifier::external_body]
pub(crate) fn utf8_text(bytes: &[u8]) -> (r: Option<&str>)
    ensures
        match r {
            Some(s) => valid_utf8(bytes@) && encode_utf8(s@) == bytes@,
            None => !valid_utf8(bytes@),
        },
{
    core::str::from_utf8(bytes).ok()
}

fn push_bytes(buf: &mut Vec<u8>, bytes: &[u8])
    ensures
        final(buf)@ == old(buf)@ + bytes@,
{
    let mut i: usize = 0;
    assert(buf@ =~= old(buf)@ + bytes@.subrange(0, 0));
    while i < bytes.len()
        invariant
            i <= bytes@.len(),
            buf@ == old(buf)@ + bytes@.subrange(0, i as int),
        decreases bytes@.len() - i,
    {
        buf.push(bytes[i]);
        i = i + 1;
        assert(buf@ =~= old(buf)@ + bytes@.subrange(0, i as int));
    }
    assert(bytes@.subrange(0, i as int) =~= bytes@);
}

// ---------------------------------------------------------------------------
// Messages
// ---------------------------------------------------------------------------

/// The error for a row that cannot be interpreted.
pub open spec fn corrupt(context: Seq<char>) -> ErrorView {
    ErrorView::CatalogCorrupted { context }
}

/// Whether an outcome is the one that is specified: the value, or the error
/// with the message.
pub open spec fn decodes_as<T, V>(
    r: Result<T, InoxSetError>,
    value: spec_fn(T) -> V,
    expected: Result<V, Seq<char>>,
) -> bool {
    match (r, expected) {
        (Ok(v), Ok(w)) => value(v) == w,
        (Err(e), Err(m)) => e@ == corrupt(m),
        _ => false,
    }
}

/// Builds the error for a message of three texts with a number between the
/// second and the third.
fn numbered(head: &str, mid: &str, n: u128, tail: &str) -> (r: InoxSetError)
    ensures
        r@ == corrupt(head@ + mid@ + decimal(n as nat) + tail@),
{
    let mut context = head.to_owned();
    context.append(mid);
    push_decimal_wide(&mut context, n);
    context.append(tail);
    InoxSetError::CatalogCorrupted { context }
}

/// Builds the error for a message that ends with a number.
fn ending(head: &str, mid: &str, n: u128) -> (r: InoxSetError)
    ensures
        r@ == corrupt(head@ + mid@ + decimal(n as nat)),
{
    let mut context = head.to_owned();
    context.append(mid);
    push_decimal_wide(&mut context, n);
    InoxSetError::CatalogCorrupted { context }
}

fn plain(head: &str, tail: &str) -> (r: InoxSetError)
    ensures
        r@ == corrupt(head@ + tail@),
{
    let mut context = head.to_owned();
    context.append(tail);
    InoxSetError::CatalogCorrupted { context }
}

// ---------------------------------------------------------------------------
// Event configurations
// ---------------------------------------------------------------------------

/// The byte of a rollup strategy.
pub open spec fn rollup_code(r: Rollup) -> u8 {
    match r {
        Rollup::Auto => 0,
        Rollup::Off => 1,
    }
}

/// The row of an event: version, granularity, rollup.
pub open spec fn event_bytes(g: Granularity, r: Rollup) -> Seq<u8> {
    seq![1u8, g.code(), rollup_code(r)]
}

/// The granularity and rollup that the row of an event holds.
pub open spec fn event_in(name: Seq<char>, data: Seq<u8>) -> Result<
    (Granularity, Rollup),
    Seq<char>,
> {
    let head = "event '"@ + name;
    if data.len() < 3 {
        Err(head + "': expected at least 3 bytes, got "@ + decimal(data.len()))
    } else if data[0] != 1 {
        Err(head + "': unsupported version byte "@ + decimal(data[0] as nat) + " (expected 1)"@)
    } else if data[1] > 4 {
        Err(head + "': unknown granularity byte "@ + decimal(data[1] as nat))
    } else if data[2] > 1 {
        Err(head + "': unknown rollup byte "@ + decimal(data[2] as nat))
    } else {
        let g = granularity_with(data[1]);
        let r = if data[2] == 0 {
            Rollup::Auto
        } else {
            Rollup::Off
        };
        Ok((g, effective_rollup(g, r)))
    }
}

/// The granularity with a byte.
pub open spec fn granularity_with(code: u8) -> Granularity {
    if code == 0 {
        Granularity::Static
    } else if code == 1 {
        Granularity::Hour
    } else if code == 2 {
        Granularity::Day
    } else if code == 3 {
        Granularity::Month
    } else {
        Granularity::Year
    }
}

/// Encodes the configuration of an event; its name is the key of the row.
pub fn serialize_event_config(ec: &EventConfig) -> (r: Vec<u8>)
    ensures
        r@ == event_bytes(ec.finest_granularity, ec.rollup),
{
    let rollup: u8 = match ec.rollup {
        Rollup::Auto => 0,
        Rollup::Off => 1,
    };
    let r = vec![1u8, ec.finest_granularity.as_u8(), rollup];
    assert(r@ =~= event_bytes(ec.finest_granularity, ec.rollup));
    r
}

/// Decodes the configuration of event `name`.
pub fn deserialize_event_config(name: &str, data: &[u8]) -> (r: Result<EventConfig, InoxSetError>)
    ensures
        r matches Ok(c) ==> c.name@ == name@ && c.wf(),
        decodes_as(
            r,
            |c: EventConfig| (c.finest_granularity, c.rollup),
            event_in(name@, data@),
        ),
{
    let mut head = String::new();
    head.append("event '");
    head.append(name);
    assert(head@ =~= "event '"@ + name@);
    if data.len() < 3 {
        return Err(ending(head.as_str(), "': expected at least 3 bytes, got ", data.len() as u128));
    }
    if data[0] != 1 {
        return Err(
            numbered(head.as_str(), "': unsupported version byte ", data[0] as u128, " (expected 1)"),
        );
    }
    let gran = match Granularity::from_u8(data[1]) {
        Some(g) => g,
        None => {
            return Err(ending(head.as_str(), "': unknown granularity byte ", data[1] as u128));
        },
    };
    assert(gran == granularity_with(data@[1]));
    let rollup = match data[2] {
        0 => Rollup::Auto,
        1 => Rollup::Off,
        other => {
            return Err(ending(head.as_str(), "': unknown rollup byte ", other as u128));
        },
    };
    Ok(EventConfig::new(name.to_owned(), gran, rollup))
}

/// A registered configuration is read back as it was.
pub proof fn law_event_round_trip(name: Seq<char>, config: EventConfig)
    requires
        config.wf(),
    ensures
        event_in(name, event_bytes(config.finest_granularity, config.rollup)) == Ok::<
            (Granularity, Rollup),
            Seq<char>,
        >((config.finest_granularity, config.rollup)),
{
}

/// Bytes behind the row of an event do not matter, and a row cut short is
/// refused.
pub proof fn law_event_row_ends(name: Seq<char>, g: Granularity, r: Rollup, extra: Seq<u8>, n: int)
    requires
        0 <= n < event_bytes(g, r).len(),
    ensures
        event_in(name, event_bytes(g, r) + extra) == event_in(name, event_bytes(g, r)),
        event_in(name, event_bytes(g, r).subrange(0, n)) is Err,
{
    let data = event_bytes(g, r) + extra;
    assert(data[0] == event_bytes(g, r)[0]);
    assert(data[1] == event_bytes(g, r)[1]);
    assert(data[2] == event_bytes(g, r)[2]);
}

// ---------------------------------------------------------------------------
// Periods
// ---------------------------------------------------------------------------

/// The bytes of a period: a tag, the year, and the components it has.
pub open spec fn period_bytes(p: Period) -> Seq<u8> {
    match p {
        Period::Static => seq![0u8],
        Period::Hour(y, m, d, h) => seq![1u8] + le_bytes(y as nat, 2) + seq![m, d, h],
        Period::Day(y, m, d) => seq![2u8] + le_bytes(y as nat, 2) + seq![m, d],
        Period::Month(y, m) => seq![3u8] + le_bytes(y as nat, 2) + seq![m],
        Period::Year(y) => seq![4u8] + le_bytes(y as nat, 2),
    }
}

/// The number of bytes behind a period tag.
pub open spec fn period_payload(tag: u8) -> nat {
    match tag {
        1 => 5,
        2 => 4,
        3 => 3,
        4 => 2,
        _ => 0,
    }
}

/// The name of a period tag in messages.
pub open spec fn tag_name(tag: u8) -> Seq<char> {
    match tag {
        1 => ": truncated Hour period (need "@,
        2 => ": truncated Day period (need "@,
        3 => ": truncated Month period (need "@,
        _ => ": truncated Year period (need "@,
    }
}

/// The period at a position, and the number of bytes it takes.
pub open spec fn period_at(ctx: Seq<char>, data: Seq<u8>, at: int) -> Result<
    (Period, nat),
    Seq<char>,
> {
    if at >= data.len() {
        Err(
            ctx + ": period tag missing (offset "@ + decimal(at as nat) + ", len "@ + decimal(
                data.len(),
            ) + ")"@,
        )
    } else {
        let tag = data[at];
        let need = at + 1 + period_payload(tag);
        if tag > 4 {
            Err(ctx + ": unknown period tag "@ + decimal(tag as nat))
        } else if data.len() < need {
            Err(
                ctx + tag_name(tag) + decimal(need as nat) + ", have "@ + decimal(data.len())
                    + ")"@,
            )
        } else {
            let y = le_value(data.subrange(at + 1, at + 3)) as u16;
            let p = match tag {
                0 => Period::Static,
                1 => Period::Hour(y, data[at + 3], data[at + 4], data[at + 5]),
                2 => Period::Day(y, data[at + 3], data[at + 4]),
                3 => Period::Month(y, data[at + 3]),
                _ => Period::Year(y),
            };
            Ok((p, 1 + period_payload(tag)))
        }
    }
}

/// Appends the bytes of a period.
pub fn serialize_period_into(buf: &mut Vec<u8>, period: &Period)
    ensures
        final(buf)@ == old(buf)@ + period_bytes(*period),
{
    match *period {
        Period::Static => {
            buf.push(0);
        },
        Period::Hour(y, m, d, h) => {
            buf.push(1);
            push_le(buf, y as u64, 2);
            buf.push(m);
            buf.push(d);
            buf.push(h);
        },
        Period::Day(y, m, d) => {
            buf.push(2);
            push_le(buf, y as u64, 2);
            buf.push(m);
            buf.push(d);
        },
        Period::Month(y, m) => {
            buf.push(3);
            push_le(buf, y as u64, 2);
            buf.push(m);
        },
        Period::Year(y) => {
            buf.push(4);
            push_le(buf, y as u64, 2);
        },
    }
    assert(buf@ =~= old(buf)@ + period_bytes(*period));
}

/// Builds the error for a message with two numbers.
fn two_numbers(head: &str, mid: &str, a: u128, sep: &str, b: u128) -> (r: InoxSetError)
    ensures
        r@ == corrupt(
            head@ + mid@ + decimal(a as nat) + sep@ + decimal(b as nat) + ")"@,
        ),
{
    let mut context = head.to_owned();
    context.append(mid);
    push_decimal_wide(&mut context, a);
    context.append(sep);
    push_decimal_wide(&mut context, b);
    context.append(")");
    InoxSetError::CatalogCorrupted { context }
}

/// Decodes the period at `offset` and returns it with the number of bytes it
/// takes.
pub fn deserialize_period(ctx: &str, data: &[u8], offset: usize) -> (r: Result<
    (Period, usize),
    InoxSetError,
>)
    ensures
        decodes_as(
            r,
            |v: (Period, usize)| (v.0, v.1 as nat),
            period_at(ctx@, data@, offset as int),
        ),
        r matches Ok(v) ==> offset + v.1 <= data.len() && 1 <= v.1 <= 6,
{
    let n: usize = data.len();
    if offset >= n {
        return Err(
            two_numbers(ctx, ": period tag missing (offset ", offset as u128, ", len ", n as u128),
        );
    }
    let tag: u8 = data[offset];
    let (payload, name): (usize, &str) = match tag {
        0 => (0, ""),
        1 => (5, ": truncated Hour period (need "),
        2 => (4, ": truncated Day period (need "),
        3 => (3, ": truncated Month period (need "),
        4 => (2, ": truncated Year period (need "),
        other => {
            return Err(ending(ctx, ": unknown period tag ", other as u128));
        },
    };
    if n - offset - 1 < payload {
        return Err(
            two_numbers(ctx, name, offset as u128 + 1 + payload as u128, ", have ", n as u128),
        );
    }
    if tag == 0 {
        return Ok((Period::Static, 1));
    }
    let y: u16 = read_le(data, offset + 1, 2) as u16;
    let period = if tag == 1 {
        Period::Hour(y, data[offset + 3], data[offset + 4], data[offset + 5])
    } else if tag == 2 {
        Period::Day(y, data[offset + 3], data[offset + 4])
    } else if tag == 3 {
        Period::Month(y, data[offset + 3])
    } else {
        Period::Year(y)
    };
    Ok((period, 1 + payload))
}

/// A period is read back from its bytes, wherever they stand.
pub proof fn law_period_round_trip(ctx: Seq<char>, before: Seq<u8>, p: Period, after: Seq<u8>)
    ensures
        period_at(ctx, before + period_bytes(p) + after, before.len() as int) == Ok::<
            (Period, nat),
            Seq<char>,
        >((p, period_bytes(p).len())),
{
    let data = before + period_bytes(p) + after;
    let at = before.len() as int;
    lemma_pow256();
    match p {
        Period::Static => {},
        Period::Hour(y, _, _, _) => {
            lemma_le_bytes(y as nat, 2);
            assert(data.subrange(at + 1, at + 3) =~= le_bytes(y as nat, 2));
        },
        Period::Day(y, _, _) => {
            lemma_le_bytes(y as nat, 2);
            assert(data.subrange(at + 1, at + 3) =~= le_bytes(y as nat, 2));
        },
        Period::Month(y, _) => {
            lemma_le_bytes(y as nat, 2);
            assert(data.subrange(at + 1, at + 3) =~= le_bytes(y as nat, 2));
        },
        Period::Year(y) => {
            lemma_le_bytes(y as nat, 2);
            assert(data.subrange(at + 1, at + 3) =~= le_bytes(y as nat, 2));
        },
    }
}

/// Bytes that are read as a period are the bytes of that period.
pub proof fn law_period_bytes_unique(ctx: Seq<char>, data: Seq<u8>, at: int)
    requires
        0 <= at,
    ensures
        period_at(ctx, data, at) matches Ok(r) ==> at + r.1 <= data.len() && data.subrange(
            at,
            at + r.1,
        ) == period_bytes(r.0),
{
    if let Ok((p, n)) = period_at(ctx, data, at) {
        lemma_pow256();
        if n > 1 {
            let year = data.subrange(at + 1, at + 3);
            lemma_le_value(year);
            lemma_le_value_bound(year);
        }
        assert(data.subrange(at, at + n) =~= period_bytes(p));
    }
}

// ---------------------------------------------------------------------------
// Lists of part identifiers
// ---------------------------------------------------------------------------

/// The packed words of a list.
pub open spec fn packed(ids: Seq<u64>) -> Seq<u8>
    decreases ids.len(),
{
    if ids.len() == 0 {
        Seq::empty()
    } else {
        packed(ids.drop_last()) + le_bytes(ids.last() as nat, 8)
    }
}

/// The row of a list: version, then eight bytes for each identifier.
pub open spec fn list_bytes(ids: Seq<u64>) -> Seq<u8> {
    seq![1u8] + packed(ids)
}

/// The identifiers that a row holds.
pub open spec fn list_in(ctx: Seq<char>, data: Seq<u8>) -> Result<Seq<u64>, Seq<char>> {
    if data.len() == 0 {
        Err(ctx + ": u64 list missing version byte"@)
    } else if data[0] != 1 {
        Err(
            ctx + ": u64 list unsupported version byte "@ + decimal(data[0] as nat)
                + " (expected 1)"@,
        )
    } else if (data.len() - 1) % 8 != 0 {
        Err(
            ctx + ": u64 list payload length "@ + decimal((data.len() - 1) as nat)
                + " is not a multiple of 8"@,
        )
    } else {
        Ok(
            Seq::new(
                ((data.len() - 1) / 8) as nat,
                |i: int| le_value(data.subrange(1 + 8 * i, 9 + 8 * i)) as u64,
            ),
        )
    }
}

/// Encodes a list of part identifiers.
pub fn serialize_u64_vec(ids: &[u64]) -> (r: Vec<u8>)
    ensures
        r@ == list_bytes(ids@),
{
    let mut buf: Vec<u8> = Vec::new();
    buf.push(1);
    let mut i: usize = 0;
    assert(ids@.subrange(0, 0) =~= Seq::empty());
    assert(buf@ =~= list_bytes(ids@.subrange(0, 0)));
    while i < ids.len()
        invariant
            i <= ids@.len(),
            buf@ == list_bytes(ids@.subrange(0, i as int)),
        decreases ids@.len() - i,
    {
        push_le(&mut buf, ids[i], 8);
        proof {
            let upto = ids@.subrange(0, i + 1);
            assert(upto.drop_last() =~= ids@.subrange(0, i as int));
            assert(buf@ =~= list_bytes(upto));
        }
        i = i + 1;
    }
    assert(ids@.subrange(0, i as int) =~= ids@);
    buf
}

/// Decodes a list of part identifiers.
pub fn deserialize_u64_vec(ctx: &str, data: &[u8]) -> (r: Result<Vec<u64>, InoxSetError>)
    ensures
        decodes_as(r, |v: Vec<u64>| v@, list_in(ctx@, data@)),
{
    if data.len() == 0 {
        return Err(plain(ctx, ": u64 list missing version byte"));
    }
    if data[0] != 1 {
        return Err(
            numbered(ctx, ": u64 list unsupported version byte ", data[0] as u128, " (expected 1)"),
        );
    }
    let payload: usize = data.len() - 1;
    if payload % 8 != 0 {
        return Err(
            numbered(
                ctx,
                ": u64 list payload length ",
                payload as u128,
                " is not a multiple of 8",
            ),
        );
    }
    let mut out: Vec<u64> = Vec::new();
    let count: usize = payload / 8;
    let ghost all = list_in(ctx@, data@)->Ok_0;
    let mut i: usize = 0;
    while i < count
        invariant
            i <= count,
            data@.len() == 1 + payload,
            payload == 8 * count,
            all.len() == count,
            forall|k: int|
                0 <= k < count ==> #[trigger] all[k] == le_value(
                    data@.subrange(1 + 8 * k, 9 + 8 * k),
                ) as u64,
            out@ =~= all.subrange(0, i as int),
        decreases count - i,
    {
        out.push(read_le(data, 1 + 8 * i, 8));
        i = i + 1;
    }
    assert(out@ =~= all);
    Ok(out)
}

proof fn lemma_packed(ids: Seq<u64>, i: int)
    ensures
        packed(ids).len() == 8 * ids.len(),
        0 <= i < ids.len() ==> packed(ids).subrange(8 * i, 8 * i + 8) == le_bytes(
            ids[i] as nat,
            8,
        ),
    decreases ids.len(),
{
    if ids.len() > 0 {
        let init = ids.drop_last();
        lemma_packed(init, i);
        lemma_le_bytes(ids.last() as nat, 8);
        if 0 <= i < init.len() {
            assert(packed(ids).subrange(8 * i, 8 * i + 8) =~= packed(init).subrange(
                8 * i,
                8 * i + 8,
            ));
        } else if i == init.len() {
            assert(packed(ids).subrange(8 * i, 8 * i + 8) =~= le_bytes(ids.last() as nat, 8));
        }
    }
}

/// A list is read back as it was.
pub proof fn law_list_round_trip(ctx: Seq<char>, ids: Seq<u64>)
    ensures
        list_in(ctx, list_bytes(ids)) == Ok::<Seq<u64>, Seq<char>>(ids),
{
    let data = list_bytes(ids);
    lemma_packed(ids, 0);
    lemma_pow256();
    let read = list_in(ctx, data)->Ok_0;
    assert forall|i: int| 0 <= i < ids.len() implies read[i] == ids[i] by {
        lemma_packed(ids, i);
        lemma_le_bytes(ids[i] as nat, 8);
        assert(data.subrange(1 + 8 * i, 9 + 8 * i) =~= packed(ids).subrange(8 * i, 8 * i + 8));
    }
    assert(read =~= ids);
}

/// A row that is read as a list is the row of that list.
pub proof fn law_list_row_unique(ctx: Seq<char>, data: Seq<u8>, ids: Seq<u64>)
    ensures
        list_in(ctx, data) == Ok::<Seq<u64>, Seq<char>>(ids) <==> data == list_bytes(ids),
{
    if list_in(ctx, data) == Ok::<Seq<u64>, Seq<char>>(ids) {
        let row = list_bytes(ids);
        lemma_packed(ids, 0);
        lemma_pow256();
        assert(row.len() == data.len());
        assert forall|k: int| 0 <= k < data.len() implies data[k] == row[k] by {
            if k > 0 {
                let i = (k - 1) / 8;
                let word = data.subrange(1 + 8 * i, 9 + 8 * i);
                lemma_packed(ids, i);
                lemma_le_value(word);
                lemma_le_value_bound(word);
                assert(le_bytes(ids[i] as nat, 8) == word);
                assert(word[k - 1 - 8 * i] == data[k]);
                assert(packed(ids).subrange(8 * i, 8 * i + 8)[k - 1 - 8 * i] == packed(ids)[k - 1]);
            }
        }
        assert(data =~= row);
    } else if data == list_bytes(ids) {
        law_list_round_trip(ctx, ids);
    }
}

// ---------------------------------------------------------------------------
// Parts
// ---------------------------------------------------------------------------

/// The byte of a part kind.
pub open spec fn kind_code(kind: PartKind) -> u8 {
    match kind {
        PartKind::Data => 0,
        PartKind::Delta => 1,
    }
}

/// The fixed-size front of the row of a part.
pub open spec fn part_front(p: PartView) -> Seq<u8> {
    seq![1u8] + le_bytes(p.part_id as nat, 8) + seq![kind_code(p.kind)] + le_bytes(
        p.size_bytes as nat,
        8,
    ) + le_bytes(p.cardinality as nat, 8) + le_bytes(p.created_at as nat, 8) + seq![p.level]
}

/// A text behind its length in two bytes.
pub open spec fn text_bytes(text: Seq<char>) -> Seq<u8> {
    le_bytes(encode_utf8(text).len(), 2) + encode_utf8(text)
}

/// The row of a part; an error where a text is too long for its length prefix.
pub open spec fn part_bytes(p: PartView) -> Result<Seq<u8>, Seq<char>> {
    let head = "part_id="@ + decimal(p.part_id as nat);
    if encode_utf8(p.event).len() > 65535 {
        Err(
            head + ": event name length "@ + decimal(encode_utf8(p.event).len())
                + " exceeds u16::MAX"@,
        )
    } else if encode_utf8(p.file_path).len() > 65535 {
        Err(
            head + ": file path length "@ + decimal(encode_utf8(p.file_path).len())
                + " exceeds u16::MAX"@,
        )
    } else {
        Ok(
            part_front(p) + period_bytes(p.period) + text_bytes(p.event) + text_bytes(p.file_path),
        )
    }
}

/// The text at a position behind its length, and the number of bytes it takes.
pub open spec fn text_at(ctx: Seq<char>, what: Seq<char>, data: Seq<u8>, at: int) -> Result<
    (Seq<char>, nat),
    Seq<char>,
> {
    if data.len() < at + 2 {
        Err(ctx + ": truncated "@ + what + " length"@)
    } else {
        let n = le_value(data.subrange(at, at + 2));
        if data.len() < at + 2 + n {
            Err(ctx + ": truncated "@ + what + " (need "@ + decimal(n) + " bytes)"@)
        } else if !valid_utf8(data.subrange(at + 2, at + 2 + n)) {
            Err(ctx + ": "@ + what + " is not valid UTF-8"@)
        } else {
            Ok((decode_utf8(data.subrange(at + 2, at + 2 + n)), 2 + n))
        }
    }
}

/// The part that a row holds.
pub open spec fn part_in(ctx: Seq<char>, data: Seq<u8>) -> Result<PartView, Seq<char>> {
    if data.len() < 40 {
        Err(
            ctx + ": part data too short (need at least 40, got "@ + decimal(data.len()) + ")"@,
        )
    } else if data[0] != 1 {
        Err(
            ctx + ": unsupported part version byte "@ + decimal(data[0] as nat)
                + " (expected 1)"@,
        )
    } else if data[9] > 1 {
        Err(ctx + ": unknown part kind byte "@ + decimal(data[9] as nat))
    } else {
        match period_at(ctx, data, 35) {
            Err(m) => Err(m),
            Ok((period, n)) => match text_at(ctx, "event name"@, data, 35 + n as int) {
                Err(m) => Err(m),
                Ok((event, k)) => match text_at(ctx, "file path"@, data, 35 + n + k as int) {
                    Err(m) => Err(m),
                    Ok((file_path, _)) => Ok(
                        PartView {
                            part_id: le_value(data.subrange(1, 9)) as u64,
                            kind: if data[9] == 0 {
                                PartKind::Data
                            } else {
                                PartKind::Delta
                            },
                            event,
                            period,
                            file_path,
                            size_bytes: le_value(data.subrange(10, 18)) as u64,
                            cardinality: le_value(data.subrange(18, 26)) as u64,
                            created_at: le_value(data.subrange(26, 34)) as u64,
                            level: data[34],
                        },
                    ),
                },
            },
        }
    }
}

/// Encodes a part. An event name or file path of more than 65535 bytes is
/// refused.
pub fn serialize_part(part: &Part) -> (r: Result<Vec<u8>, InoxSetError>)
    ensures
        decodes_as(r, |v: Vec<u8>| v@, part_bytes(part@)),
{
    let mut buf: Vec<u8> = Vec::new();
    buf.push(1);
    push_le(&mut buf, part.part_id, 8);
    let kind: u8 = match part.kind {
        PartKind::Data => 0,
        PartKind::Delta => 1,
    };
    buf.push(kind);
    push_le(&mut buf, part.size_bytes, 8);
    push_le(&mut buf, part.cardinality, 8);
    push_le(&mut buf, part.created_at, 8);
    buf.push(part.level);
    assert(buf@ =~= part_front(part@));
    serialize_period_into(&mut buf, &part.period);
    let mut head = String::new();
    head.append("part_id=");
    push_decimal(&mut head, part.part_id);
    assert(head@ =~= "part_id="@ + decimal(part.part_id as nat));
    let event = part.event.as_str().as_bytes();
    if event.len() > 65535 {
        return Err(
            numbered(head.as_str(), ": event name length ", event.len() as u128, " exceeds u16::MAX"),
        );
    }
    push_le(&mut buf, event.len() as u64, 2);
    push_bytes(&mut buf, event);
    let path = part.file_path.as_str().as_bytes();
    if path.len() > 65535 {
        return Err(
            numbered(head.as_str(), ": file path length ", path.len() as u128, " exceeds u16::MAX"),
        );
    }
    push_le(&mut buf, path.len() as u64, 2);
    push_bytes(&mut buf, path);
    assert(buf@ =~= part_front(part@) + period_bytes(part.period) + text_bytes(part.event@)
        + text_bytes(part.file_path@));
    Ok(buf)
}

fn around(head: &str, mid: &str, what: &str, tail: &str) -> (r: InoxSetError)
    ensures
        r@ == corrupt(head@ + mid@ + what@ + tail@),
{
    let mut context = head.to_owned();
    context.append(mid);
    context.append(what);
    context.append(tail);
    InoxSetError::CatalogCorrupted { context }
}

/// Decodes the text at `at`, and returns it with the position behind it.
fn read_text(ctx: &str, what: &str, data: &[u8], at: usize) -> (r: Result<
    (String, usize),
    InoxSetError,
>)
    requires
        at <= data.len(),
    ensures
        decodes_as(
            r,
            |v: (String, usize)| (v.0@, (v.1 - at) as nat),
            text_at(ctx@, what@, data@, at as int),
        ),
        r matches Ok(v) ==> at <= v.1 <= data.len(),
{
    if data.len() - at < 2 {
        return Err(around(ctx, ": truncated ", what, " length"));
    }
    let n: usize = read_le(data, at, 2) as usize;
    if data.len() - at - 2 < n {
        let mut context = ctx.to_owned();
        context.append(": truncated ");
        context.append(what);
        context.append(" (need ");
        push_decimal(&mut context, n as u64);
        context.append(" bytes)");
        return Err(InoxSetError::CatalogCorrupted { context });
    }
    match utf8_text(vstd::slice::slice_subrange(data, at + 2, at + 2 + n)) {
        Some(s) => {
            proof {
                encode_utf8_decode_utf8(s@);
            }
            Ok((s.to_owned(), at + 2 + n))
        },
        None => Err(around(ctx, ": ", what, " is not valid UTF-8")),
    }
}

/// Decodes a part.
pub fn deserialize_part(ctx: &str, data: &[u8]) -> (r: Result<Part, InoxSetError>)
    ensures
        decodes_as(r, |p: Part| p@, part_in(ctx@, data@)),
{
    if data.len() < 40 {
        return Err(
            numbered(
                ctx,
                ": part data too short (need at least 40, got ",
                data.len() as u128,
                ")",
            ),
        );
    }
    if data[0] != 1 {
        return Err(
            numbered(ctx, ": unsupported part version byte ", data[0] as u128, " (expected 1)"),
        );
    }
    let kind = match data[9] {
        0 => PartKind::Data,
        1 => PartKind::Delta,
        other => {
            return Err(ending(ctx, ": unknown part kind byte ", other as u128));
        },
    };
    let (period, taken) = match deserialize_period(ctx, data, 35) {
        Ok(v) => v,
        Err(e) => {
            return Err(e);
        },
    };
    let (event, behind) = match read_text(ctx, "event name", data, 35 + taken) {
        Ok(v) => v,
        Err(e) => {
            return Err(e);
        },
    };
    let (file_path, _) = match read_text(ctx, "file path", data, behind) {
        Ok(v) => v,
        Err(e) => {
            return Err(e);
        },
    };
    Ok(
        Part {
            part_id: read_le(data, 1, 8),
            kind,
            event,
            period,
            file_path,
            size_bytes: read_le(data, 10, 8),
            cardinality: read_le(data, 18, 8),
            created_at: read_le(data, 26, 8),
            level: data[34],
        },
    )
}

proof fn lemma_text_round_trip(
    ctx: Seq<char>,
    what: Seq<char>,
    before: Seq<u8>,
    text: Seq<char>,
    after: Seq<u8>,
)
    requires
        encode_utf8(text).len() <= 65535,
    ensures
        text_at(ctx, what, before + text_bytes(text) + after, before.len() as int) == Ok::<
            (Seq<char>, nat),
            Seq<char>,
        >((text, text_bytes(text).len())),
{
    let bytes = encode_utf8(text);
    let data = before + text_bytes(text) + after;
    let at = before.len() as int;
    lemma_pow256();
    lemma_le_bytes(bytes.len(), 2);
    encode_utf8_valid_utf8(text);
    encode_utf8_decode_utf8(text);
    assert(data.subrange(at, at + 2) =~= le_bytes(bytes.len(), 2));
    assert(data.subrange(at + 2, at + 2 + bytes.len()) =~= bytes);
}

/// A registered part is read back as it was, also from a longer row that starts
/// with its bytes.
pub proof fn law_part_round_trip(ctx: Seq<char>, p: PartView, extra: Seq<u8>)
    requires
        part_bytes(p) is Ok,
    ensures
        part_in(ctx, part_bytes(p)->Ok_0) == Ok::<PartView, Seq<char>>(p),
        part_in(ctx, part_bytes(p)->Ok_0 + extra) == Ok::<PartView, Seq<char>>(p),
{
    lemma_part_in(ctx, p, Seq::empty());
    lemma_part_in(ctx, p, extra);
    assert(part_bytes(p)->Ok_0 + Seq::<u8>::empty() =~= part_bytes(p)->Ok_0);
}

proof fn lemma_part_in(ctx: Seq<char>, p: PartView, extra: Seq<u8>)
    requires
        part_bytes(p) is Ok,
    ensures
        part_in(ctx, part_bytes(p)->Ok_0 + extra) == Ok::<PartView, Seq<char>>(p),
{
    let front = part_front(p);
    let period = period_bytes(p.period);
    let event = text_bytes(p.event);
    let path = text_bytes(p.file_path);
    let data = front + period + event + path + extra;
    lemma_pow256();
    lemma_le_bytes(p.part_id as nat, 8);
    lemma_le_bytes(p.size_bytes as nat, 8);
    lemma_le_bytes(p.cardinality as nat, 8);
    lemma_le_bytes(p.created_at as nat, 8);
    lemma_le_bytes(encode_utf8(p.event).len(), 2);
    lemma_le_bytes(encode_utf8(p.file_path).len(), 2);
    assert(front.len() == 35);
    assert(data.subrange(1, 9) =~= le_bytes(p.part_id as nat, 8));
    assert(data.subrange(10, 18) =~= le_bytes(p.size_bytes as nat, 8));
    assert(data.subrange(18, 26) =~= le_bytes(p.cardinality as nat, 8));
    assert(data.subrange(26, 34) =~= le_bytes(p.created_at as nat, 8));
    law_period_round_trip(ctx, front, p.period, event + path + extra);
    assert(data =~= front + period + (event + path + extra));
    lemma_text_round_trip(ctx, "event name"@, front + period, p.event, path + extra);
    assert(data =~= (front + period) + event + (path + extra));
    lemma_text_round_trip(ctx, "file path"@, front + period + event, p.file_path, extra);
}

/// The row of a part that was cut short is refused.
pub proof fn law_part_prefix_is_refused(ctx: Seq<char>, p: PartView, n: int)
    requires
        part_bytes(p) is Ok,
        0 <= n < part_bytes(p)->Ok_0.len(),
    ensures
        part_in(ctx, part_bytes(p)->Ok_0.subrange(0, n)) is Err,
{
    let front = part_front(p);
    let period = period_bytes(p.period);
    let event = text_bytes(p.event);
    let path = text_bytes(p.file_path);
    let whole = front + period + event + path;
    let data = whole.subrange(0, n);
    let a = front.len() + period.len() as int;
    let b = a + event.len();
    lemma_pow256();
    lemma_le_bytes(p.part_id as nat, 8);
    lemma_le_bytes(p.size_bytes as nat, 8);
    lemma_le_bytes(p.cardinality as nat, 8);
    lemma_le_bytes(p.created_at as nat, 8);
    lemma_le_bytes(encode_utf8(p.event).len(), 2);
    lemma_le_bytes(encode_utf8(p.file_path).len(), 2);
    assert(front.len() == 35);
    if part_in(ctx, data) is Ok {
        assert(data[35] == period[0]);
        lemma_period_len(p.period);
        assert(period_at(ctx, data, 35) is Ok);
        assert(n >= a);
        assert(text_at(ctx, "event name"@, data, a) is Ok);
        assert(data.subrange(a, a + 2) =~= le_bytes(encode_utf8(p.event).len(), 2));
        assert(text_at(ctx, "file path"@, data, b) is Ok);
        assert(data.subrange(b, b + 2) =~= le_bytes(encode_utf8(p.file_path).len(), 2));
    }
}

proof fn lemma_period_len(p: Period)
    ensures
        period_bytes(p).len() == 1 + period_payload(period_bytes(p)[0]),
        period_bytes(p)[0] <= 4,
{
    match p {
        Period::Static => {},
        Period::Hour(y, _, _, _) => lemma_le_bytes(y as nat, 2),
        Period::Day(y, _, _) => lemma_le_bytes(y as nat, 2),
        Period::Month(y, _) => lemma_le_bytes(y as nat, 2),
        Period::Year(y) => lemma_le_bytes(y as nat, 2),
    }
}

// ---------------------------------------------------------------------------
// Compaction records
// ---------------------------------------------------------------------------

/// The record of a compaction run.
pub open spec fn compaction_bytes(
    timestamp: u64,
    periods_compacted: u32,
    parts_merged: u32,
    deltas_applied: u32,
    bytes_reclaimed: u64,
) -> Seq<u8> {
    seq![1u8] + le_bytes(timestamp as nat, 8) + le_bytes(periods_compacted as nat, 4) + le_bytes(
        parts_merged as nat,
        4,
    ) + le_bytes(deltas_applied as nat, 4) + le_bytes(bytes_reclaimed as nat, 8)
}

/// Encodes the record of a compaction run.
pub fn serialize_compaction(
    timestamp: u64,
    periods_compacted: u32,
    parts_merged: u32,
    deltas_applied: u32,
    bytes_reclaimed: u64,
) -> (r: Vec<u8>)
    ensures
        r@ == compaction_bytes(
            timestamp,
            periods_compacted,
            parts_merged,
            deltas_applied,
            bytes_reclaimed,
        ),
{
    let mut buf: Vec<u8> = Vec::new();
    buf.push(1);
    push_le(&mut buf, timestamp, 8);
    push_le(&mut buf, periods_compacted as u64, 4);
    push_le(&mut buf, parts_merged as u64, 4);
    push_le(&mut buf, deltas_applied as u64, 4);
    push_le(&mut buf, bytes_reclaimed, 8);
    assert(buf@ =~= compaction_bytes(
        timestamp,
        periods_compacted,
        parts_merged,
        deltas_applied,
        bytes_reclaimed,
    ));
    buf
}

/// A record of a compaction run holds its numbers one after the other, least
/// significant byte first, behind a version byte.
pub proof fn law_compaction_row(
    timestamp: u64,
    periods_compacted: u32,
    parts_merged: u32,
    deltas_applied: u32,
    bytes_reclaimed: u64,
)
    ensures
        ({
            let row = compaction_bytes(
                timestamp,
                periods_compacted,
                parts_merged,
                deltas_applied,
                bytes_reclaimed,
            );
            &&& row.len() == 29
            &&& row[0] == 1
            &&& le_value(row.subrange(1, 9)) == timestamp
            &&& le_value(row.subrange(9, 13)) == periods_compacted
            &&& le_value(row.subrange(13, 17)) == parts_merged
            &&& le_value(row.subrange(17, 21)) == deltas_applied
            &&& le_value(row.subrange(21, 29)) == bytes_reclaimed
        }),
{
    let row = compaction_bytes(
        timestamp,
        periods_compacted,
        parts_merged,
        deltas_applied,
        bytes_reclaimed,
    );
    lemma_pow256();
    reveal_with_fuel(pow256, 5);
    lemma_le_bytes(timestamp as nat, 8);
    lemma_le_bytes(periods_compacted as nat, 4);
    lemma_le_bytes(parts_merged as nat, 4);
    lemma_le_bytes(deltas_applied as nat, 4);
    lemma_le_bytes(bytes_reclaimed as nat, 8);
    assert(row.subrange(1, 9) =~= le_bytes(timestamp as nat, 8));
    assert(row.subrange(9, 13) =~= le_bytes(periods_compacted as nat, 4));
    assert(row.subrange(13, 17) =~= le_bytes(parts_merged as nat, 4));
    assert(row.subrange(17, 21) =~= le_bytes(deltas_applied as nat, 4));
    assert(row.subrange(21, 29) =~= le_bytes(bytes_reclaimed as nat, 8));
}

/// A number is written with its least significant byte first, and every byte
/// string is what its number is written as.
pub proof fn law_little_endian(n: nat, len: nat, i: nat, bytes: Seq<u8>)
    ensures
        le_bytes(n, len).len() == len,
        i < len ==> le_bytes(n, len)[i as int] == (n as int / pow(256, i)) % 256,
        le_bytes(le_value(bytes), bytes.len()) == bytes,
        n < pow(256, len) ==> le_value(le_bytes(n, len)) == n,
{
    lemma_le_bytes(n, len);
    lemma_le_value(bytes);
    lemma_pow256_is_pow(len);
    lemma_le_digit(n, len, i);
}

proof fn lemma_pow256_is_pow(len: nat)
    ensures
        pow256(len) == pow(256, len),
    decreases len,
{
    reveal(pow);
    if len > 0 {
        lemma_pow256_is_pow((len - 1) as nat);
    }
}

proof fn lemma_le_digit(n: nat, len: nat, i: nat)
    ensures
        i < len ==> le_bytes(n, len)[i as int] == (n as int / pow(256, i)) % 256,
    decreases len,
{
    reveal(pow);
    vstd::arithmetic::power::lemma_pow0(256);
    if i < len && i > 0 {
        let below = pow(256, (i - 1) as nat);
        lemma_le_digit(n / 256, (len - 1) as nat, (i - 1) as nat);
        vstd::arithmetic::power::lemma_pow_positive(256, (i - 1) as nat);
        assert(pow(256, i) == 256 * below);
        vstd::arithmetic::div_mod::lemma_div_denominator(n as int, 256, below);
        lemma_le_bytes(n / 256, (len - 1) as nat);
        assert(le_bytes(n, len)[i as int] == le_bytes(n / 256, (len - 1) as nat)[i - 1]);
    }
}

/// The row of an event is three bytes: the version, the granularity and whether
/// rollup is off. It is read from any row that starts with three such bytes, and
/// from no other.
pub proof fn law_event_row(name: Seq<char>, g: Granularity, r: Rollup, data: Seq<u8>)
    ensures
        event_bytes(g, r).len() == 3,
        event_bytes(g, r)[0] == 1,
        event_bytes(g, r)[1] == g.code(),
        event_bytes(g, r)[2] == if r == Rollup::Auto {
            0u8
        } else {
            1u8
        },
        event_in(name, data) is Ok <==> data.len() >= 3 && data[0] == 1 && data[1] <= 4 && data[2]
            <= 1,
        event_in(name, data) == Ok::<(Granularity, Rollup), Seq<char>>((g, r)) <==> data.len() >= 3
            && data[0] == 1 && data[1] == g.code() && data[2] <= 1 && r == if data[2] == 0
            && data[1] != 0 {
            Rollup::Auto
        } else {
            Rollup::Off
        },
{
    if data.len() >= 3 && data[1] <= 4 {
        assert(granularity_with(data[1]).code() == data[1]);
    }
}

/// The bytes of a period: a tag that counts up from the static period through the
/// hour to the year, then the year in two bytes and one byte for each further
/// component.
pub proof fn law_period_row(p: Period, i: int)
    ensures
        p == Period::Static ==> period_bytes(p) == seq![0u8],
        p != Period::Static ==> {
            let parts = crate::period::components(p);
            &&& period_bytes(p).len() == parts.len() + 2
            &&& period_bytes(p)[0] == 5 - parts.len()
            &&& le_value(period_bytes(p).subrange(1, 3)) == parts[0]
            &&& 1 <= i < parts.len() ==> period_bytes(p)[i + 2] == parts[i]
        },
{
    lemma_pow256();
    match p {
        Period::Static => {},
        Period::Hour(y, _, _, _) => {
            lemma_le_bytes(y as nat, 2);
            assert(period_bytes(p).subrange(1, 3) =~= le_bytes(y as nat, 2));
        },
        Period::Day(y, _, _) => {
            lemma_le_bytes(y as nat, 2);
            assert(period_bytes(p).subrange(1, 3) =~= le_bytes(y as nat, 2));
        },
        Period::Month(y, _) => {
            lemma_le_bytes(y as nat, 2);
            assert(period_bytes(p).subrange(1, 3) =~= le_bytes(y as nat, 2));
        },
        Period::Year(y) => {
            lemma_le_bytes(y as nat, 2);
            assert(period_bytes(p).subrange(1, 3) =~= le_bytes(y as nat, 2));
        },
    }
}

/// A period is read exactly where its bytes stand.
pub proof fn law_period_is_read_from_its_bytes(
    ctx: Seq<char>,
    data: Seq<u8>,
    at: int,
    p: Period,
    n: nat,
)
    requires
        0 <= at,
    ensures
        period_at(ctx, data, at) == Ok::<(Period, nat), Seq<char>>((p, n)) <==> n
            == period_bytes(p).len() && at + n <= data.len() && data.subrange(at, at + n)
            == period_bytes(p),
{
    law_period_bytes_unique(ctx, data, at);
    if period_at(ctx, data, at) is Ok {
        let (q, m) = period_at(ctx, data, at)->Ok_0;
        assert(data.subrange(at, at + m).len() == m);
    }
    if n == period_bytes(p).len() && at + n <= data.len() && data.subrange(at, at + n)
        == period_bytes(p) {
        let front = data.subrange(0, at);
        let back = data.subrange(at + n, data.len() as int);
        law_period_round_trip(ctx, front, p, back);
        assert(data =~= front + period_bytes(p) + back);
    }
}

/// The row of a list: a version byte, then eight bytes for each identifier in
/// order, least significant first.
pub proof fn law_list_row(ids: Seq<u64>, i: int)
    ensures
        list_bytes(ids).len() == 1 + 8 * ids.len(),
        list_bytes(ids)[0] == 1,
        0 <= i < ids.len() ==> le_value(list_bytes(ids).subrange(1 + 8 * i, 9 + 8 * i)) == ids[i],
{
    lemma_packed(ids, i);
    lemma_pow256();
    if 0 <= i < ids.len() {
        lemma_le_bytes(ids[i] as nat, 8);
        assert(list_bytes(ids).subrange(1 + 8 * i, 9 + 8 * i) =~= packed(ids).subrange(
            8 * i,
            8 * i + 8,
        ));
    }
}

/// The row of a part: version, identifier, kind, size, cardinality, time and level
/// at fixed places, then the bytes of the period, and event and path, each behind
/// its length. It can be written exactly if both texts fit their lengths.
pub proof fn law_part_row(p: PartView)
    ensures
        part_bytes(p) is Ok <==> encode_utf8(p.event).len() < 65536 && encode_utf8(
            p.file_path,
        ).len() < 65536,
        part_bytes(p) matches Ok(row) ==> {
            let period = period_bytes(p.period);
            let event = encode_utf8(p.event);
            let path = encode_utf8(p.file_path);
            let a = 35 + period.len() as int;
            let b = a + 2 + event.len();
            &&& row.len() == b + 2 + path.len()
            &&& row[0] == 1
            &&& le_value(row.subrange(1, 9)) == p.part_id
            &&& row[9] == 0 <==> p.kind == PartKind::Data
            &&& row[9] <= 1
            &&& le_value(row.subrange(10, 18)) == p.size_bytes
            &&& le_value(row.subrange(18, 26)) == p.cardinality
            &&& le_value(row.subrange(26, 34)) == p.created_at
            &&& row[34] == p.level
            &&& row.subrange(35, a) == period
            &&& le_value(row.subrange(a, a + 2)) == event.len()
            &&& row.subrange(a + 2, b) == event
            &&& le_value(row.subrange(b, b + 2)) == path.len()
            &&& row.subrange(b + 2, row.len() as int) == path
        },
{
    if let Ok(row) = part_bytes(p) {
        let period = period_bytes(p.period);
        let event = encode_utf8(p.event);
        let path = encode_utf8(p.file_path);
        let a = 35 + period.len() as int;
        let b = a + 2 + event.len();
        lemma_pow256();
        lemma_le_bytes(p.part_id as nat, 8);
        lemma_le_bytes(p.size_bytes as nat, 8);
        lemma_le_bytes(p.cardinality as nat, 8);
        lemma_le_bytes(p.created_at as nat, 8);
        lemma_le_bytes(event.len(), 2);
        lemma_le_bytes(path.len(), 2);
        assert(row.subrange(1, 9) =~= le_bytes(p.part_id as nat, 8));
        assert(row.subrange(10, 18) =~= le_bytes(p.size_bytes as nat, 8));
        assert(row.subrange(18, 26) =~= le_bytes(p.cardinality as nat, 8));
        assert(row.subrange(26, 34) =~= le_bytes(p.created_at as nat, 8));
        assert(row.subrange(35, a) =~= period);
        assert(row.subrange(a, a + 2) =~= le_bytes(event.len(), 2));
        assert(row.subrange(a + 2, b) =~= event);
        assert(row.subrange(b, b + 2) =~= le_bytes(path.len(), 2));
        assert(row.subrange(b + 2, row.len() as int) =~= path);
    }
}

/// A row is read as a part exactly if it starts with the row of that part.
pub proof fn law_part_row_unique(ctx: Seq<char>, data: Seq<u8>, p: PartView)
    ensures
        part_in(ctx, data) == Ok::<PartView, Seq<char>>(p) <==> (part_bytes(p) matches Ok(row)
            && row.len() <= data.len() && data.subrange(0, row.len() as int) == row),
{
    if part_bytes(p) matches Ok(row) && row.len() <= data.len() && data.subrange(
        0,
        row.len() as int,
    ) == row {
        let row = part_bytes(p)->Ok_0;
        let extra = data.subrange(row.len() as int, data.len() as int);
        law_part_round_trip(ctx, p, extra);
        assert(data =~= row + extra);
    }
    if part_in(ctx, data) == Ok::<PartView, Seq<char>>(p) {
        lemma_part_pieces(ctx, data, p);
    }
}

proof fn lemma_part_pieces(ctx: Seq<char>, data: Seq<u8>, p: PartView)
    requires
        part_in(ctx, data) == Ok::<PartView, Seq<char>>(p),
    ensures
        part_bytes(p) matches Ok(row) && row.len() <= data.len() && data.subrange(
            0,
            row.len() as int,
        ) == row,
{
    let (period, n) = period_at(ctx, data, 35)->Ok_0;
    let a = 35 + n as int;
    let (event, k) = text_at(ctx, "event name"@, data, a)->Ok_0;
    let b = a + k as int;
    let (path, m) = text_at(ctx, "file path"@, data, b)->Ok_0;
    let end = b + m as int;
    law_period_bytes_unique(ctx, data, 35);
    lemma_text_bytes(ctx, "event name"@, data, a);
    lemma_text_bytes(ctx, "file path"@, data, b);
    lemma_front(data, p);
    let row = part_front(p) + period_bytes(p.period) + text_bytes(p.event) + text_bytes(
        p.file_path,
    );
    assert(data.subrange(0, 35) + data.subrange(35, a) =~= data.subrange(0, a));
    assert(data.subrange(0, a) + data.subrange(a, b) =~= data.subrange(0, b));
    assert(data.subrange(0, b) + data.subrange(b, end) =~= data.subrange(0, end));
    assert(row == data.subrange(0, end));
}

/// The fields at the front of a row are written as they stand there.
proof fn lemma_front(data: Seq<u8>, p: PartView)
    requires
        data.len() >= 35,
        data[0] == 1,
        data[9] <= 1,
        p.part_id == le_value(data.subrange(1, 9)) as u64,
        p.kind == (if data[9] == 0 {
            PartKind::Data
        } else {
            PartKind::Delta
        }),
        p.size_bytes == le_value(data.subrange(10, 18)) as u64,
        p.cardinality == le_value(data.subrange(18, 26)) as u64,
        p.created_at == le_value(data.subrange(26, 34)) as u64,
        p.level == data[34],
    ensures
        part_front(p) == data.subrange(0, 35),
{
    lemma_word(data, 1);
    lemma_word(data, 10);
    lemma_word(data, 18);
    lemma_word(data, 26);
    assert(seq![1u8] + data.subrange(1, 9) =~= data.subrange(0, 9));
    assert(data.subrange(0, 9) + seq![kind_code(p.kind)] =~= data.subrange(0, 10));
    assert(data.subrange(0, 10) + data.subrange(10, 18) =~= data.subrange(0, 18));
    assert(data.subrange(0, 18) + data.subrange(18, 26) =~= data.subrange(0, 26));
    assert(data.subrange(0, 26) + data.subrange(26, 34) =~= data.subrange(0, 34));
    assert(data.subrange(0, 34) + seq![p.level] =~= data.subrange(0, 35));
}

proof fn lemma_word(data: Seq<u8>, at: int)
    requires
        0 <= at,
        at + 8 <= data.len(),
    ensures
        le_bytes((le_value(data.subrange(at, at + 8)) as u64) as nat, 8) == data.subrange(
            at,
            at + 8,
        ),
{
    lemma_pow256();
    lemma_le_value(data.subrange(at, at + 8));
    lemma_le_value_bound(data.subrange(at, at + 8));
}

proof fn lemma_text_bytes(ctx: Seq<char>, what: Seq<char>, data: Seq<u8>, at: int)
    requires
        0 <= at,
        text_at(ctx, what, data, at) is Ok,
    ensures
        ({
            let (text, n) = text_at(ctx, what, data, at)->Ok_0;
            &&& at + n <= data.len()
            &&& encode_utf8(text).len() <= 65535
            &&& data.subrange(at, at + n) == text_bytes(text)
        }),
{
    let (text, n) = text_at(ctx, what, data, at)->Ok_0;
    let length = data.subrange(at, at + 2);
    lemma_pow256();
    lemma_le_value(length);
    lemma_le_value_bound(length);
    let body = data.subrange(at + 2, at + 2 + le_value(length));
    decode_utf8_encode_utf8(body);
    assert(data.subrange(at, at + n) =~= length + body);
}

/// What is said of decoding: where a value is specified it was returned, and where
/// a message is, the row was refused as corrupted with it.
pub proof fn law_decode_outcome<T, V>(
    r: Result<T, InoxSetError>,
    value: spec_fn(T) -> V,
    expected: Result<V, Seq<char>>,
)
    requires
        decodes_as(r, value, expected),
    ensures
        r is Ok <==> expected is Ok,
        expected matches Ok(w) ==> value(r->Ok_0) == w,
        expected matches Err(m) ==> r->Err_0@ == (ErrorView::CatalogCorrupted { context: m }),
{
}

/// What is said of the row of an event that cannot be read.
pub proof fn law_event_messages(name: Seq<char>, data: Seq<u8>)
    ensures
        ({
            let head = "event '"@ + name;
            let r = event_in(name, data);
            &&& data.len() < 3 ==> r == Err::<(Granularity, Rollup), Seq<char>>(
                head + "': expected at least 3 bytes, got "@ + decimal(data.len()),
            )
            &&& data.len() >= 3 && data[0] != 1 ==> r == Err::<(Granularity, Rollup), Seq<char>>(
                head + "': unsupported version byte "@ + decimal(data[0] as nat) + " (expected 1)"@,
            )
            &&& data.len() >= 3 && data[0] == 1 && data[1] > 4 ==> r == Err::<
                (Granularity, Rollup),
                Seq<char>,
            >(head + "': unknown granularity byte "@ + decimal(data[1] as nat))
            &&& data.len() >= 3 && data[0] == 1 && data[1] <= 4 && data[2] > 1 ==> r == Err::<
                (Granularity, Rollup),
                Seq<char>,
            >(head + "': unknown rollup byte "@ + decimal(data[2] as nat))
        }),
{
}

/// A list is read exactly from a version byte and whole words behind it; what is
/// said of any other row.
pub proof fn law_list_messages(ctx: Seq<char>, data: Seq<u8>)
    ensures
        list_in(ctx, data) is Ok <==> data.len() > 0 && data[0] == 1 && (data.len() - 1) % 8 == 0,
        data.len() == 0 ==> list_in(ctx, data) == Err::<Seq<u64>, Seq<char>>(
            ctx + ": u64 list missing version byte"@,
        ),
        data.len() > 0 && data[0] != 1 ==> list_in(ctx, data) == Err::<Seq<u64>, Seq<char>>(
            ctx + ": u64 list unsupported version byte "@ + decimal(data[0] as nat)
                + " (expected 1)"@,
        ),
        data.len() > 0 && data[0] == 1 && (data.len() - 1) % 8 != 0 ==> list_in(ctx, data) == Err::<
            Seq<u64>,
            Seq<char>,
        >(
            ctx + ": u64 list payload length "@ + decimal((data.len() - 1) as nat)
                + " is not a multiple of 8"@,
        ),
{
}

/// What is said of a period that cannot be read.
pub proof fn law_period_messages(ctx: Seq<char>, data: Seq<u8>, at: int)
    requires
        0 <= at,
    ensures
        at >= data.len() ==> period_at(ctx, data, at) == Err::<(Period, nat), Seq<char>>(
            ctx + ": period tag missing (offset "@ + decimal(at as nat) + ", len "@ + decimal(
                data.len(),
            ) + ")"@,
        ),
        at < data.len() && data[at] > 4 ==> period_at(ctx, data, at) == Err::<
            (Period, nat),
            Seq<char>,
        >(ctx + ": unknown period tag "@ + decimal(data[at] as nat)),
        at < data.len() && 1 <= data[at] <= 4 && data.len() < at + 7 - data[at] ==> period_at(
            ctx,
            data,
            at,
        ) == Err::<(Period, nat), Seq<char>>(
            ctx + ": truncated "@ + (if data[at] == 1 {
                "Hour"@
            } else if data[at] == 2 {
                "Day"@
            } else if data[at] == 3 {
                "Month"@
            } else {
                "Year"@
            }) + " period (need "@ + decimal((at + 7 - data[at]) as nat) + ", have "@ + decimal(
                data.len(),
            ) + ")"@,
        ),
{
    if at < data.len() && 1 <= data[at] <= 4 {
        reveal_strlit(": truncated ");
        reveal_strlit(" period (need ");
        reveal_strlit("Hour");
        reveal_strlit("Day");
        reveal_strlit("Month");
        reveal_strlit("Year");
        reveal_strlit(": truncated Hour period (need ");
        reveal_strlit(": truncated Day period (need ");
        reveal_strlit(": truncated Month period (need ");
        reveal_strlit(": truncated Year period (need ");
        let tag = data[at];
        let need = at + 7 - tag;
        let name = if tag == 1 {
            "Hour"@
        } else if tag == 2 {
            "Day"@
        } else if tag == 3 {
            "Month"@
        } else {
            "Year"@
        };
        assert(need == at + 1 + period_payload(tag));
        assert(tag_name(tag) =~= ": truncated "@ + name + " period (need "@);
        assert(ctx + tag_name(tag) =~= ctx + ": truncated "@ + name + " period (need "@);
    }
}

/// What is said of a part that cannot be written or read.
pub proof fn law_part_messages(ctx: Seq<char>, data: Seq<u8>, p: PartView)
    ensures
        encode_utf8(p.event).len() > 65535 ==> part_bytes(p) == Err::<Seq<u8>, Seq<char>>(
            "part_id="@ + decimal(p.part_id as nat) + ": event name length "@ + decimal(
                encode_utf8(p.event).len(),
            ) + " exceeds u16::MAX"@,
        ),
        encode_utf8(p.event).len() <= 65535 && encode_utf8(p.file_path).len() > 65535
            ==> part_bytes(p) == Err::<Seq<u8>, Seq<char>>(
            "part_id="@ + decimal(p.part_id as nat) + ": file path length "@ + decimal(
                encode_utf8(p.file_path).len(),
            ) + " exceeds u16::MAX"@,
        ),
        data.len() < 40 ==> part_in(ctx, data) == Err::<PartView, Seq<char>>(
            ctx + ": part data too short (need at least 40, got "@ + decimal(data.len()) + ")"@,
        ),
        data.len() >= 40 && data[0] != 1 ==> part_in(ctx, data) == Err::<PartView, Seq<char>>(
            ctx + ": unsupported part version byte "@ + decimal(data[0] as nat) + " (expected 1)"@,
        ),
        data.len() >= 40 && data[0] == 1 && data[9] > 1 ==> part_in(ctx, data) == Err::<
            PartView,
            Seq<char>,
        >(ctx + ": unknown part kind byte "@ + decimal(data[9] as nat)),
        data.len() >= 40 && data[0] == 1 && data[9] <= 1 && period_at(ctx, data, 35) is Err
            ==> part_in(ctx, data) == Err::<PartView, Seq<char>>(
            period_at(ctx, data, 35)->Err_0,
        ),
{
}

/// What is said of a text that cannot be read behind its length.
pub proof fn law_text_messages(ctx: Seq<char>, what: Seq<char>, data: Seq<u8>, at: int)
    requires
        0 <= at,
    ensures
        data.len() < at + 2 ==> text_at(ctx, what, data, at) == Err::<(Seq<char>, nat), Seq<char>>(
            ctx + ": truncated "@ + what + " length"@,
        ),
        data.len() >= at + 2 ==> ({
            let n = data[at] + 256 * data[at + 1];
            &&& data.len() < at + 2 + n ==> text_at(ctx, what, data, at) == Err::<
                (Seq<char>, nat),
                Seq<char>,
            >(ctx + ": truncated "@ + what + " (need "@ + decimal(n as nat) + " bytes)"@)
            &&& data.len() >= at + 2 + n && !valid_utf8(data.subrange(at + 2, at + 2 + n))
                ==> text_at(ctx, what, data, at) == Err::<(Seq<char>, nat), Seq<char>>(
                ctx + ": "@ + what + " is not valid UTF-8"@,
            )
        }),
{
    if data.len() >= at + 2 {
        let two = data.subrange(at, at + 2);
        reveal_with_fuel(le_value, 3);
        assert(two.drop_first().drop_first() =~= Seq::empty());
        assert(le_value(two) == data[at] + 256 * data[at + 1]);
    }
}

} // verus!
