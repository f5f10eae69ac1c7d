//! The protobuf wire format, as far as descriptors need it.

use vstd::prelude::*;
use vstd::slice::*;

verus! {

/// 128 to the power of `k`.
pub open spec fn pow128(k: nat) -> int
    decreases k,
{
    if k == 0 {
        1
    } else {
        128 * pow128((k - 1) as nat)
    }
}

/// The number whose base-128 digits, least significant first, are the low
/// seven bits of each byte.
pub open spec fn digits(s: Seq<u8>) -> int
    decreases s.len(),
{
    if s.len() == 0 {
        0
    } else {
        digits(s.drop_last()) + (s.last() as int % 128) * pow128((s.len() - 1) as nat)
    }
}

/// A varint of `n` bytes stands in `s` at `pos`: at most ten bytes, all but the
/// last with the top bit set, whose number fits 64 bits.
pub open spec fn is_varint(s: Seq<u8>, pos: int, n: int) -> bool {
    &&& 1 <= n <= 10
    &&& 0 <= pos
    &&& pos + n <= s.len()
    &&& forall|i: int| pos <= i < pos + n - 1 ==> #[trigger] s[i] >= 128
    &&& s[pos + n - 1] < 128
    &&& digits(s.subrange(pos, pos + n)) <= u64::MAX
}

/// The varint at `pos`: its number, and how many bytes it takes.
pub open spec fn varint(s: Seq<u8>, pos: int) -> Option<(u64, int)> {
    if exists|n: int| is_varint(s, pos, n) {
        let n = choose|n: int| is_varint(s, pos, n);
        Some((digits(s.subrange(pos, pos + n)) as u64, n))
    } else {
        None
    }
}

/// A place holds one varint at most.
pub proof fn lemma_varint(s: Seq<u8>, pos: int, n: int)
    requires
        is_varint(s, pos, n),
    ensures
        varint(s, pos) == Some((digits(s.subrange(pos, pos + n)) as u64, n)),
{
    let m = choose|m: int| is_varint(s, pos, m);
    assert(is_varint(s, pos, m));
    if m < n {
        assert(s[pos + m - 1] >= 128);
    } else if n < m {
        assert(s[pos + n - 1] >= 128);
    }
}

proof fn lemma_pow128(k: nat)
    requires
        k <= 9,
    ensures
        1 <= pow128(k) <= pow128(9),
        pow128(9) == 0x8000_0000_0000_0000,
{
    assert(pow128(9) == 0x8000_0000_0000_0000) by {
        reveal_with_fuel(pow128, 10);
    }
    lemma_pow128_up(k, 9);
}

proof fn lemma_pow128_up(k: nat, m: nat)
    requires
        k <= m,
    ensures
        1 <= pow128(k) <= pow128(m),
    decreases m,
{
    if k < m {
        lemma_pow128_up(k, (m - 1) as nat);
    } else if k > 0 {
        lemma_pow128_up((k - 1) as nat, (k - 1) as nat);
    }
}

proof fn lemma_digits_bound(s: Seq<u8>)
    ensures
        0 <= digits(s) < pow128(s.len()),
    decreases s.len(),
{
    if s.len() > 0 {
        lemma_digits_bound(s.drop_last());
        let p = pow128((s.len() - 1) as nat);
        let c = s.last() as int % 128;
        assert(0 <= c * p <= 127 * p) by (nonlinear_arith)
            requires
                0 <= c <= 127,
                0 <= p,
        ;
    }
}

/// Reads the varint at `pos`: its number, and how many bytes it takes.
pub fn read_varint(buf: &[u8], pos: usize) -> (value: Option<(u64, usize)>)
    ensures
        match value {
            Some((v, n)) => varint(buf@, pos as int) == Some((v, n as int)),
            None => varint(buf@, pos as int) is None,
        },
{
    let size: usize = buf.len();
    let mut val: u64 = 0;
    let mut scale: u64 = 1;
    let mut k: usize = 0;
    while k < 10
        invariant
            size == buf@.len(),
            k <= 10,
            k > 0 ==> pos + k <= size,
            forall|i: int| pos <= i < pos + k ==> #[trigger] buf@[i] >= 128,
            k > 0 ==> val == digits(buf@.subrange(pos as int, pos + k)),
            k == 0 ==> val == 0,
            k < 10 ==> scale == pow128(k as nat),
        decreases 10 - k,
    {
        if pos >= size || k >= size - pos {
            assert(forall|n: int| !is_varint(buf@, pos as int, n)) by {
                assert forall|n: int| !is_varint(buf@, pos as int, n) by {
                    if is_varint(buf@, pos as int, n) {
                        assert(buf@[pos + n - 1] < 128);
                    }
                }
            }
            return None;
        }
        let b: u8 = buf[pos + k];
        let chunk: u64 = (b % 128) as u64;
        let ghost run = buf@.subrange(pos as int, pos + k);
        let ghost longer = buf@.subrange(pos as int, pos + k + 1);
        proof {
            assert(longer.drop_last() =~= run);
            assert(longer.last() == b);
            assert(digits(run) == val) by {
                if k == 0 {
                    assert(run.len() == 0);
                }
            }
            lemma_digits_bound(run);
            lemma_pow128(k as nat);
            assert(digits(longer) == val + chunk * scale);
        }
        if k == 9 && chunk > 1 {
            assert(forall|n: int| !is_varint(buf@, pos as int, n)) by {
                assert forall|n: int| !is_varint(buf@, pos as int, n) by {
                    if is_varint(buf@, pos as int, n) {
                        assert(buf@[pos + n - 1] < 128);
                        assert(n == 10);
                        assert(chunk * scale >= 2 * scale) by (nonlinear_arith)
                            requires
                                chunk >= 2,
                                scale >= 0,
                        ;
                    }
                }
            }
            return None;
        }
        proof {
            assert(chunk * scale <= 127 * scale) by (nonlinear_arith)
                requires
                    chunk <= 127,
                    scale >= 0,
            ;
            if k < 9 {
                lemma_pow128((k + 1) as nat);
            } else {
                assert(chunk * scale <= scale) by (nonlinear_arith)
                    requires
                        chunk <= 1,
                        scale >= 0,
                ;
            }
            assert(0 <= chunk * scale) by (nonlinear_arith);
        }
        val = val + chunk * scale;
        k = k + 1;
        if b < 128 {
            proof {
                assert(is_varint(buf@, pos as int, k as int));
                lemma_varint(buf@, pos as int, k as int);
            }
            return Some((val, k));
        }
        if k < 10 {
            scale = scale * 128;
        }
    }
    assert(forall|n: int| !is_varint(buf@, pos as int, n)) by {
        assert forall|n: int| !is_varint(buf@, pos as int, n) by {
            if is_varint(buf@, pos as int, n) {
                assert(buf@[pos + n - 1] < 128);
            }
        }
    }
    None
}

/// The shortest varint that holds `value`.
pub open spec fn varint_bytes(value: nat) -> Seq<u8>
    decreases value,
{
    if value < 128 {
        seq![value as u8]
    } else {
        seq![(value % 128 + 128) as u8] + varint_bytes(value / 128)
    }
}

proof fn lemma_digits_front(s: Seq<u8>)
    requires
        s.len() > 0,
    ensures
        digits(s) == s[0] as int % 128 + 128 * digits(s.drop_first()),
    decreases s.len(),
{
    let rest = s.drop_first();
    if s.len() == 1 {
        assert(s.drop_last() =~= Seq::<u8>::empty());
        assert(rest =~= Seq::<u8>::empty());
        assert(digits(s.drop_last()) == 0);
        assert(pow128(0) == 1);
    } else {
        lemma_digits_front(s.drop_last());
        assert(s.drop_last().drop_first() =~= rest.drop_last());
        let c = s.last() as int % 128;
        let p = pow128((rest.len() - 1) as nat);
        assert(c * (128 * p) == 128 * (c * p)) by (nonlinear_arith);
    }
}

proof fn lemma_varint_bytes(value: nat, limit: nat)
    requires
        value < pow128(limit),
        limit > 0,
    ensures
        1 <= varint_bytes(value).len() <= limit,
        digits(varint_bytes(value)) == value,
        varint_bytes(value).last() < 128,
        forall|i: int|
            0 <= i < varint_bytes(value).len() - 1 ==> #[trigger] varint_bytes(value)[i] >= 128,
    decreases value,
{
    let s = varint_bytes(value);
    if value < 128 {
        lemma_digits_front(s);
        assert(s.drop_first() =~= Seq::<u8>::empty());
    } else {
        let rest = varint_bytes(value / 128);
        if limit == 1 {
            assert(pow128(1) == 128) by {
                reveal_with_fuel(pow128, 2);
            }
        }
        lemma_varint_bytes(value / 128, (limit - 1) as nat);
        assert(s.drop_first() =~= rest);
        lemma_digits_front(s);
        assert(s.last() == rest.last());
        assert forall|i: int| 0 <= i < s.len() - 1 implies #[trigger] s[i] >= 128 by {
            if i > 0 {
                assert(s[i] == rest[i - 1]);
            }
        }
    }
}

/// Every 64-bit number comes back from its varint, whatever stands around it.
pub proof fn lemma_varint_round_trip(before: Seq<u8>, value: u64, after: Seq<u8>)
    ensures
        varint(before + varint_bytes(value as nat) + after, before.len() as int) == Some(
            (value, varint_bytes(value as nat).len() as int),
        ),
{
    let v = varint_bytes(value as nat);
    assert(u64::MAX < pow128(10)) by {
        reveal_with_fuel(pow128, 11);
    }
    lemma_varint_bytes(value as nat, 10);
    let s = before + v + after;
    let pos = before.len() as int;
    assert(s.subrange(pos, pos + v.len()) =~= v);
    assert(s[pos + v.len() - 1] == v.last());
    assert forall|i: int| pos <= i < pos + v.len() - 1 implies #[trigger] s[i] >= 128 by {
        assert(s[i] == v[i - pos]);
    }
    assert(is_varint(s, pos, v.len() as int));
    lemma_varint(s, pos, v.len() as int);
}

/// One field of a message as it stands on the wire.
pub struct WireItem {
    pub number: u64,
    pub wire: u64,
    pub payload: Seq<u8>,
}

/// The complete field at `pos`, and where it ends. A varint's payload is its
/// bytes, that of a length-delimited field what stands behind its length.
pub open spec fn wire_item(s: Seq<u8>, pos: int) -> Option<(WireItem, int)> {
    match varint(s, pos) {
        None => None,
        Some((tag, n)) => {
            let at = pos + n;
            let number = tag / 8;
            let wire = tag % 8;
            let width = if wire == 0 {
                match varint(s, at) {
                    Some((_, m)) => Some((0, m)),
                    None => None,
                }
            } else if wire == 2 {
                match varint(s, at) {
                    Some((len, m)) => Some((m, len as int)),
                    None => None,
                }
            } else if wire == 1 {
                Some((0, 8))
            } else if wire == 5 {
                Some((0, 4))
            } else {
                None
            };
            match width {
                None => None,
                Some((skip, len)) => {
                    let from = at + skip;
                    if from + len <= s.len() {
                        Some(
                            (
                                WireItem { number, wire, payload: s.subrange(from, from + len) },
                                from + len,
                            ),
                        )
                    } else {
                        None
                    }
                },
            }
        },
    }
}

/// The complete fields from `pos` on, in order, up to the first place where
/// none stands.
pub open spec fn wire_items(s: Seq<u8>, pos: int) -> Seq<WireItem>
    decreases s.len() - pos,
{
    if pos >= s.len() {
        Seq::empty()
    } else {
        match wire_item(s, pos) {
            Some((item, next)) => if pos < next {
                seq![item] + wire_items(s, next)
            } else {
                Seq::empty()
            },
            None => Seq::empty(),
        }
    }
}

/// A field that can be written: its number and wire type fit a tag, and its
/// payload is what its wire type demands.
pub open spec fn is_item(item: WireItem) -> bool {
    &&& item.number < 0x2000_0000_0000_0000
    &&& if item.wire == 0 {
        is_varint(item.payload, 0, item.payload.len() as int)
    } else if item.wire == 1 {
        item.payload.len() == 8
    } else if item.wire == 5 {
        item.payload.len() == 4
    } else {
        item.wire == 2 && item.payload.len() <= usize::MAX
    }
}

/// A field as it is written.
pub open spec fn item_bytes(item: WireItem) -> Seq<u8> {
    let tag = varint_bytes((item.number * 8 + item.wire) as nat);
    if item.wire == 2 {
        tag + varint_bytes(item.payload.len()) + item.payload
    } else {
        tag + item.payload
    }
}

/// A message as it is written.
pub open spec fn message_bytes(items: Seq<WireItem>) -> Seq<u8>
    decreases items.len(),
{
    if items.len() == 0 {
        Seq::empty()
    } else {
        item_bytes(items[0]) + message_bytes(items.drop_first())
    }
}

/// A field comes back from its bytes, whatever stands around it.
proof fn lemma_item_round_trip(before: Seq<u8>, item: WireItem, after: Seq<u8>)
    requires
        is_item(item),
    ensures
        wire_item(before + item_bytes(item) + after, before.len() as int) == Some(
            (item, (before.len() + item_bytes(item).len()) as int),
        ),
        item_bytes(item).len() > 0,
{
    let tag = (item.number * 8 + item.wire) as u64;
    let head = varint_bytes(tag as nat);
    let s = before + item_bytes(item) + after;
    let at = (before.len() + head.len()) as int;
    lemma_varint_round_trip(before, tag, s.subrange(at, s.len() as int));
    assert(before + head + s.subrange(at, s.len() as int) =~= s);
    assert(head.len() > 0);
    assert(tag / 8 == item.number && tag % 8 == item.wire);
    if item.wire == 2 {
        let len = varint_bytes(item.payload.len());
        let from = at + len.len();
        lemma_varint_round_trip(
            before + head,
            item.payload.len() as u64,
            s.subrange(from, s.len() as int),
        );
        assert((before + head) + len + s.subrange(from, s.len() as int) =~= s);
        assert(s.subrange(from, from + item.payload.len()) =~= item.payload);
    } else {
        let n = item.payload.len() as int;
        assert(s.subrange(at, at + n) =~= item.payload);
        if item.wire == 0 {
            assert forall|i: int| at <= i < at + n - 1 implies #[trigger] s[i] >= 128 by {
                assert(s[i] == item.payload[i - at]);
            }
            assert(s[at + n - 1] == item.payload[n - 1]);
            assert(item.payload.subrange(0, n) =~= item.payload);
            assert(is_varint(s, at, n));
            lemma_varint(s, at, n);
        }
    }
}

proof fn lemma_message_from(before: Seq<u8>, items: Seq<WireItem>)
    requires
        forall|i: int| 0 <= i < items.len() ==> is_item(#[trigger] items[i]),
    ensures
        wire_items(before + message_bytes(items), before.len() as int) == items,
    decreases items.len(),
{
    let s = before + message_bytes(items);
    if items.len() == 0 {
        assert(wire_items(s, before.len() as int) =~= items);
    } else {
        let first = items[0];
        let rest = items.drop_first();
        let more = before + item_bytes(first);
        lemma_item_round_trip(before, first, message_bytes(rest));
        assert(before + item_bytes(first) + message_bytes(rest) =~= s);
        assert(more + message_bytes(rest) =~= s);
        lemma_message_from(more, rest);
        assert(seq![first] + rest =~= items);
    }
}

/// The fields of a message come back from its bytes, all of them and in order.
pub proof fn lemma_message_round_trip(items: Seq<WireItem>)
    requires
        forall|i: int| 0 <= i < items.len() ==> is_item(#[trigger] items[i]),
    ensures
        wire_items(message_bytes(items), 0) == items,
{
    lemma_message_from(Seq::empty(), items);
    assert(Seq::<u8>::empty() + message_bytes(items) =~= message_bytes(items));
}

/// A field on the wire, borrowed from the message.
#[derive(Debug)]
pub struct WireField<'a> {
    pub number: u64,
    pub wire: u64,
    pub payload: &'a [u8],
}

impl<'a> WireField<'a> {
    pub open spec fn item(&self) -> WireItem {
        WireItem { number: self.number, wire: self.wire, payload: self.payload@ }
    }
}

/// The items of a list of borrowed fields.
pub open spec fn items_of(fields: Seq<WireField<'_>>) -> Seq<WireItem> {
    Seq::new(fields.len(), |i: int| fields[i].item())
}

/// Reads the complete field at `pos`, and where it ends.
fn read_field<'a>(buf: &'a [u8], pos: usize) -> (field: Option<(WireField<'a>, usize)>)
    requires
        pos < buf@.len(),
    ensures
        match field {
            Some((f, next)) => {
                &&& wire_item(buf@, pos as int) == Some((f.item(), next as int))
                &&& pos < next <= buf@.len()
            },
            None => wire_item(buf@, pos as int) is None,
        },
{
    let size: usize = buf.len();
    let (tag, n) = match read_varint(buf, pos) {
        Some(v) => v,
        None => {
            return None;
        },
    };
    assert(pos + n <= size && n >= 1);
    let at: usize = pos + n;
    let number: u64 = tag / 8;
    let wire: u64 = tag % 8;
    let mut from: usize = at;
    let len: u64;
    if wire == 0 {
        match read_varint(buf, at) {
            Some((_, m)) => {
                len = m as u64;
            },
            None => {
                return None;
            },
        }
    } else if wire == 2 {
        match read_varint(buf, at) {
            Some((l, m)) => {
                assert(at + m <= size);
                from = at + m;
                len = l;
            },
            None => {
                return None;
            },
        }
    } else if wire == 1 {
        len = 8;
    } else if wire == 5 {
        len = 4;
    } else {
        return None;
    }
    if len > (size - from) as u64 {
        return None;
    }
    let end: usize = from + len as usize;
    Some((WireField { number, wire, payload: slice_subrange(buf, from, end) }, end))
}

/// The fields of a message, in order. A field that is cut short ends the list.
pub fn for_each_field<'a>(buf: &'a [u8]) -> (fields: Vec<WireField<'a>>)
    ensures
        items_of(fields@) == wire_items(buf@, 0),
{
    let mut out: Vec<WireField<'a>> = Vec::new();
    let mut pos: usize = 0;
    assert(items_of(out@) + wire_items(buf@, 0) =~= wire_items(buf@, 0));
    while pos < buf.len()
        invariant
            pos <= buf@.len(),
            items_of(out@) + wire_items(buf@, pos as int) == wire_items(buf@, 0),
        decreases buf@.len() - pos,
    {
        match read_field(buf, pos) {
            Some((field, next)) => {
                let ghost done = items_of(out@);
                let ghost item = field.item();
                out.push(field);
                proof {
                    assert(items_of(out@) =~= done.push(item));
                    assert(done.push(item) + wire_items(buf@, next as int) =~= done + (seq![item]
                        + wire_items(buf@, next as int)));
                }
                pos = next;
            },
            None => {
                assert(items_of(out@) + wire_items(buf@, pos as int) =~= items_of(out@));
                return out;
            },
        }
    }
    assert(items_of(out@) + wire_items(buf@, pos as int) =~= items_of(out@));
    out
}

/// A 64-bit number read as two's complement.
pub open spec fn signed64(x: int) -> int {
    if x < 0x8000_0000_0000_0000 {
        x
    } else {
        x - 0x1_0000_0000_0000_0000
    }
}

/// The number that a varint payload holds; zero where it holds none.
pub open spec fn varint_value(payload: Seq<u8>) -> i64 {
    match varint(payload, 0) {
        Some((v, _)) => signed64(v as int) as i64,
        None => 0,
    }
}

pub fn varint_of(payload: &[u8]) -> (value: i64)
    ensures
        value == varint_value(payload@),
{
    match read_varint(payload, 0) {
        Some((v, _)) => if v < 0x8000_0000_0000_0000 {
            v as i64
        } else {
            (v - 0x8000_0000_0000_0000) as i64 + i64::MIN
        },
        None => 0,
    }
}

/// The payload of the last field with this number and wire type.
pub open spec fn last_payload(items: Seq<WireItem>, number: u64, wire: u64) -> Option<Seq<u8>>
    decreases items.len(),
{
    if items.len() == 0 {
        None
    } else if items.last().number == number && items.last().wire == wire {
        Some(items.last().payload)
    } else {
        last_payload(items.drop_last(), number, wire)
    }
}

/// The last field with this number and wire type: where a message repeats a
/// field that is not a list, the last one counts.
pub fn last_field<'a>(fields: &Vec<WireField<'a>>, number: u64, wire: u64) -> (payload: Option<
    &'a [u8],
>)
    ensures
        match payload {
            Some(p) => last_payload(items_of(fields@), number, wire) == Some(p@),
            None => last_payload(items_of(fields@), number, wire) is None,
        },
{
    let ghost items = items_of(fields@);
    let mut i: usize = fields.len();
    assert(items.subrange(0, i as int) =~= items);
    while i > 0
        invariant
            i <= fields@.len(),
            items == items_of(fields@),
            last_payload(items, number, wire) == last_payload(
                items.subrange(0, i as int),
                number,
                wire,
            ),
        decreases i,
    {
        i = i - 1;
        let ghost head = items.subrange(0, i + 1);
        assert(head.last() == items[i as int]);
        assert(head.drop_last() =~= items.subrange(0, i as int));
        if fields[i].number == number && fields[i].wire == wire {
            return Some(fields[i].payload);
        }
    }
    None
}

/// The payloads of the fields with this number and wire type, in order.
pub open spec fn payloads(items: Seq<WireItem>, number: u64, wire: u64) -> Seq<Seq<u8>>
    decreases items.len(),
{
    if items.len() == 0 {
        Seq::empty()
    } else {
        let before = payloads(items.drop_last(), number, wire);
        if items.last().number == number && items.last().wire == wire {
            before.push(items.last().payload)
        } else {
            before
        }
    }
}

/// The contents of a list of slices.
pub open spec fn contents(list: Seq<&[u8]>) -> Seq<Seq<u8>> {
    Seq::new(list.len(), |i: int| list[i]@)
}

/// The payloads of the fields with this number and wire type, in order.
pub fn fields_with<'a>(fields: &Vec<WireField<'a>>, number: u64, wire: u64) -> (list: Vec<
    &'a [u8],
>)
    ensures
        contents(list@) == payloads(items_of(fields@), number, wire),
{
    let ghost items = items_of(fields@);
    let mut out: Vec<&'a [u8]> = Vec::new();
    let mut i: usize = 0;
    assert(items.subrange(0, 0) =~= Seq::<WireItem>::empty());
    assert(contents(out@) =~= Seq::<Seq<u8>>::empty());
    while i < fields.len()
        invariant
            i <= fields@.len(),
            items == items_of(fields@),
            contents(out@) == payloads(items.subrange(0, i as int), number, wire),
        decreases fields@.len() - i,
    {
        let ghost head = items.subrange(0, i + 1);
        assert(head.last() == items[i as int]);
        assert(head.drop_last() =~= items.subrange(0, i as int));
        if fields[i].number == number && fields[i].wire == wire {
            let ghost before = contents(out@);
            out.push(fields[i].payload);
            assert(contents(out@) =~= before.push(items[i as int].payload));
        }
        i = i + 1;
    }
    assert(items.subrange(0, i as int) =~= items);
    out
}

/// Field `i` is the last of a message with this number and wire type.
pub open spec fn stands_last(items: Seq<WireItem>, number: u64, wire: u64, i: int) -> bool {
    &&& 0 <= i < items.len()
    &&& items[i].number == number
    &&& items[i].wire == wire
    &&& forall|j: int|
        i < j < items.len() ==> (#[trigger] items[j]).number != number || items[j].wire != wire
}

/// No field of a message has this number and wire type.
pub open spec fn is_absent(items: Seq<WireItem>, number: u64, wire: u64) -> bool {
    forall|j: int|
        0 <= j < items.len() ==> (#[trigger] items[j]).number != number || items[j].wire != wire
}

/// Where a message repeats a field, the last one counts.
pub proof fn lemma_last_counts(items: Seq<WireItem>, number: u64, wire: u64, i: int)
    requires
        stands_last(items, number, wire, i),
    ensures
        last_payload(items, number, wire) == Some(items[i].payload),
    decreases items.len(),
{
    if i < items.len() - 1 {
        assert(items.last() == items[items.len() - 1]);
        lemma_last_counts(items.drop_last(), number, wire, i);
    }
}

/// A field that a message lacks has no payload.
pub proof fn lemma_absent(items: Seq<WireItem>, number: u64, wire: u64)
    requires
        is_absent(items, number, wire),
    ensures
        last_payload(items, number, wire) is None,
        payloads(items, number, wire).len() == 0,
    decreases items.len(),
{
    if items.len() > 0 {
        assert(items.last() == items[items.len() - 1]);
        lemma_absent(items.drop_last(), number, wire);
    }
}

/// The payloads of a repeated field are those of all its occurrences, in the
/// order of the message.
pub proof fn lemma_payloads(items: Seq<WireItem>, number: u64, wire: u64)
    ensures
        payloads(items, number, wire) == items.filter(
            |item: WireItem| item.number == number && item.wire == wire,
        ).map_values(|item: WireItem| item.payload),
    decreases items.len(),
{
    let is = |item: WireItem| item.number == number && item.wire == wire;
    let payload = |item: WireItem| item.payload;
    reveal(Seq::filter);
    if items.len() > 0 {
        lemma_payloads(items.drop_last(), number, wire);
        let before = items.drop_last().filter(is);
        assert(before.push(items.last()).map_values(payload) =~= before.map_values(payload).push(
            items.last().payload,
        ));
    } else {
        assert(items.filter(is).map_values(payload) =~= Seq::<Seq<u8>>::empty());
    }
}

/// A signed number comes back from the varint of its two's complement.
pub proof fn lemma_number_read_back(value: i64)
    ensures
        varint_value(
            varint_bytes(
                if value < 0 {
                    (value + 0x1_0000_0000_0000_0000) as nat
                } else {
                    value as nat
                },
            ),
        ) == value,
{
    let raw = if value < 0 {
        (value + 0x1_0000_0000_0000_0000) as u64
    } else {
        value as u64
    };
    let bytes = varint_bytes(raw as nat);
    lemma_varint_round_trip(Seq::empty(), raw, Seq::empty());
    assert(Seq::<u8>::empty() + bytes + Seq::<u8>::empty() =~= bytes);
}

proof fn lemma_fields_before(before: Seq<u8>, items: Seq<WireItem>, after: Seq<u8>)
    requires
        forall|i: int| 0 <= i < items.len() ==> is_item(#[trigger] items[i]),
    ensures
        wire_items(before + message_bytes(items) + after, before.len() as int) == items
            + wire_items(
            before + message_bytes(items) + after,
            (before.len() + message_bytes(items).len()) as int,
        ),
    decreases items.len(),
{
    let s = before + message_bytes(items) + after;
    if items.len() == 0 {
        assert(items + wire_items(s, before.len() as int) =~= wire_items(s, before.len() as int));
    } else {
        let first = items[0];
        let rest = items.drop_first();
        let more = before + item_bytes(first);
        lemma_item_round_trip(before, first, message_bytes(rest) + after);
        assert(before + item_bytes(first) + (message_bytes(rest) + after) =~= s);
        assert(more + message_bytes(rest) + after =~= s);
        lemma_fields_before(more, rest, after);
        let tail = wire_items(s, (before.len() + message_bytes(items).len()) as int);
        assert(seq![first] + (rest + tail) =~= items + tail);
    }
}

/// A message with what cannot be read behind its fields, be it a tag whose wire type
/// is none or a field that is cut off, gives the fields that stand before it.
pub proof fn lemma_broken_end(items: Seq<WireItem>, number: u64, wire: u64, after: Seq<u8>)
    requires
        forall|i: int| 0 <= i < items.len() ==> is_item(#[trigger] items[i]),
        number < 0x2000_0000_0000_0000,
        wire == 1 && after.len() < 8 || wire == 5 && after.len() < 4 || wire == 3 || wire == 4
            || wire == 6 || wire == 7,
    ensures
        wire_items(
            message_bytes(items) + varint_bytes((number * 8 + wire) as nat) + after,
            0,
        ) == items,
{
    let tag = (number * 8 + wire) as u64;
    let head = varint_bytes(tag as nat);
    let front = message_bytes(items);
    let s = front + head + after;
    lemma_fields_before(Seq::empty(), items, head + after);
    assert(Seq::<u8>::empty() + front + (head + after) =~= s);
    lemma_varint_round_trip(front, tag, after);
    assert(tag / 8 == number && tag % 8 == wire);
    assert(wire_item(s, front.len() as int) is None);
    assert(items + Seq::<WireItem>::empty() =~= items);
}

/// A length-delimited field whose length is more than what stands behind it ends the
/// message too.
pub proof fn lemma_cut_short(items: Seq<WireItem>, number: u64, len: u64, after: Seq<u8>)
    requires
        forall|i: int| 0 <= i < items.len() ==> is_item(#[trigger] items[i]),
        number < 0x2000_0000_0000_0000,
        after.len() < len,
    ensures
        wire_items(
            message_bytes(items) + varint_bytes((number * 8 + 2) as nat) + varint_bytes(len as nat)
                + after,
            0,
        ) == items,
{
    let tag = (number * 8 + 2) as u64;
    let head = varint_bytes(tag as nat);
    let size = varint_bytes(len as nat);
    let front = message_bytes(items);
    let s = front + head + size + after;
    lemma_fields_before(Seq::empty(), items, head + size + after);
    assert(Seq::<u8>::empty() + front + (head + size + after) =~= s);
    lemma_varint_round_trip(front, tag, size + after);
    assert(front + head + (size + after) =~= s);
    lemma_varint_round_trip(front + head, len, after);
    assert(tag / 8 == number && tag % 8 == 2);
    assert(wire_item(s, front.len() as int) is None);
    assert(items + Seq::<WireItem>::empty() =~= items);
}

} // verus!
