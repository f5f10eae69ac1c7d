//! Numbers and texts that stand in memory, and what reads of them give back.
//!
//! The statements here speak of the bytes at each address alone, so that a
//! layout can be laid out in memory independently of the reader that walks it.

use crate::analysis::global_anchor::{head16, head32, head64, head8};
use crate::analysis::read::{ld16, ld32, ld64, ld8, le2, le4, le8, text_in};
use crate::memory::{copies, raw, readable};
use crate::memory::fake::{bytes2, bytes4, bytes8, lemma_bytes_round_trip};
use crate::text::{lemma_lossy_text, lemma_until_nul, until_nul};
use vstd::prelude::*;
use vstd::utf8::*;

verus! {

/// The byte `x` stands at `at`.
pub open spec fn stands8(mem: Map<int, u8>, at: int, x: int) -> bool {
    mem.contains_key(at) && mem[at] == x
}

/// The 16-bit number `x` stands at `at`, low byte first.
#[verifier::opaque]
pub open spec fn stands16(mem: Map<int, u8>, at: int, x: int) -> bool {
    0 <= x < 0x1_0000 && copies(mem, at, bytes2(x))
}

/// The 32-bit number `x` stands at `at`, low byte first.
#[verifier::opaque]
pub open spec fn stands32(mem: Map<int, u8>, at: int, x: int) -> bool {
    0 <= x < 0x1_0000_0000 && copies(mem, at, bytes4(x))
}

/// The 64-bit number `x` stands at `at`, low byte first.
#[verifier::opaque]
pub open spec fn stands64(mem: Map<int, u8>, at: int, x: int) -> bool {
    0 <= x < 0x1_0000_0000_0000_0000 && copies(mem, at, bytes8(x))
}

/// A text without terminators in it stands at `at`, with one behind it.
#[verifier::opaque]
pub open spec fn stands_text(mem: Map<int, u8>, at: int, text: Seq<char>) -> bool {
    &&& copies(mem, at, encode_utf8(text).push(0u8))
    &&& forall|i: int| 0 <= i < encode_utf8(text).len() ==> #[trigger] encode_utf8(text)[i] != 0
}

/// The bytes of a run that is mapped as a whole.
pub proof fn lemma_raw(mem: Map<int, u8>, at: int, n: nat, off: int, data: Seq<u8>)
    requires
        readable(mem, at, off + data.len()),
        0 <= off,
        off + data.len() <= n,
        copies(mem, at + off, data),
    ensures
        forall|i: int| 0 <= i < data.len() ==> raw(mem, at, n)[#[trigger] (off + i)] == data[i],
{
    assert forall|i: int| 0 <= i < data.len() implies raw(mem, at, n)[#[trigger] (off + i)]
        == data[i] by {
        assert(readable(mem, at, off + i + 1));
        assert(mem.contains_key(at + off + i));
    }
}

/// A read of what stands somewhere gives it back.
pub proof fn lemma_copied(mem: Map<int, u8>, at: int, data: Seq<u8>)
    requires
        copies(mem, at, data),
    ensures
        raw(mem, at, data.len()) == data,
{
    assert(readable(mem, at, data.len() as int));
    lemma_raw(mem, at, data.len(), 0, data);
    assert forall|i: int| 0 <= i < data.len() implies raw(mem, at, data.len())[i] == data[i] by {
        assert(raw(mem, at, data.len())[0 + i] == data[i]);
    }
    assert(raw(mem, at, data.len()) =~= data);
}

/// A load gives the number that stands there.
pub proof fn lemma_loads(mem: Map<int, u8>, at: int, x: int)
    ensures
        stands8(mem, at, x) ==> ld8(mem, at) == x,
        stands16(mem, at, x) ==> ld16(mem, at) == x,
        stands32(mem, at, x) ==> ld32(mem, at) == x,
        stands64(mem, at, x) ==> ld64(mem, at) == x,
        stands16(mem, at, x) ==> 0 <= x < 0x1_0000,
        stands32(mem, at, x) ==> 0 <= x < 0x1_0000_0000,
        stands64(mem, at, x) ==> 0 <= x < 0x1_0000_0000_0000_0000,
{
    reveal(stands16);
    reveal(stands32);
    reveal(stands64);
    lemma_bytes_round_trip(x);
    if stands8(mem, at, x) {
        assert(readable(mem, at, 1));
    }
    if stands16(mem, at, x) {
        lemma_copied(mem, at, bytes2(x));
    }
    if stands32(mem, at, x) {
        lemma_copied(mem, at, bytes4(x));
    }
    if stands64(mem, at, x) {
        lemma_copied(mem, at, bytes8(x));
    }
}

/// A field of a record that is read as a whole is the number that stands at its
/// place.
pub proof fn lemma_heads(mem: Map<int, u8>, at: int, span: nat, off: int, x: int)
    requires
        readable(mem, at, span as int),
        0 <= off,
    ensures
        stands8(mem, at + off, x) && off + 1 <= span ==> head8(raw(mem, at, span), off) == x,
        stands16(mem, at + off, x) && off + 2 <= span ==> head16(raw(mem, at, span), off) == x,
        stands32(mem, at + off, x) && off + 4 <= span ==> head32(raw(mem, at, span), off) == x,
        stands64(mem, at + off, x) && off + 8 <= span ==> head64(raw(mem, at, span), off) == x,
{
    reveal(stands16);
    reveal(stands32);
    reveal(stands64);
    lemma_bytes_round_trip(x);
    let r = raw(mem, at, span);
    if stands8(mem, at + off, x) && off + 1 <= span {
        assert(readable(mem, at, off + 1));
    }
    if stands16(mem, at + off, x) && off + 2 <= span {
        let b = bytes2(x);
        lemma_raw(mem, at, span, off, b);
        assert(r[off + 0] == b[0] && r[off + 1] == b[1]);
        assert(le2(r, off) == le2(b, 0));
    }
    if stands32(mem, at + off, x) && off + 4 <= span {
        let b = bytes4(x);
        lemma_raw(mem, at, span, off, b);
        assert(r[off + 0] == b[0] && r[off + 1] == b[1] && r[off + 2] == b[2] && r[off + 3]
            == b[3]);
        assert(le4(r, off) == le4(b, 0));
    }
    if stands64(mem, at + off, x) && off + 8 <= span {
        let b = bytes8(x);
        lemma_raw(mem, at, span, off, b);
        assert(r[off + 0] == b[0] && r[off + 1] == b[1] && r[off + 2] == b[2] && r[off + 3]
            == b[3]);
        assert(r[off + 4] == b[4] && r[off + 5] == b[5] && r[off + 6] == b[6] && r[off + 7]
            == b[7]);
        assert(le8(r, off) == le8(b, 0));
    }
}

/// A number in a longer read is the one that stands at its place, whatever is
/// mapped behind it.
pub proof fn lemma_slot(mem: Map<int, u8>, at: int, n: nat, off: int, x: int)
    requires
        0 <= off,
        off + 8 <= n,
        readable(mem, at, off + 8),
        stands64(mem, at + off, x),
    ensures
        le8(raw(mem, at, n), off) == x,
        0 <= x < 0x1_0000_0000_0000_0000,
{
    reveal(stands64);
    lemma_bytes_round_trip(x);
    let r = raw(mem, at, n);
    let b = bytes8(x);
    lemma_raw(mem, at, n, off, b);
    assert(r[off + 0] == b[0] && r[off + 1] == b[1] && r[off + 2] == b[2] && r[off + 3] == b[3]);
    assert(r[off + 4] == b[4] && r[off + 5] == b[5] && r[off + 6] == b[6] && r[off + 7] == b[7]);
    assert(le8(r, off) == le8(b, 0));
}

/// A text that fits a read is read in full.
pub proof fn lemma_text(mem: Map<int, u8>, at: int, text: Seq<char>, max: nat)
    requires
        stands_text(mem, at, text),
        encode_utf8(text).len() <= max,
    ensures
        text_in(mem, at, max) == text,
        until_nul(raw(mem, at, max)) == encode_utf8(text),
{
    reveal(stands_text);
    let b = encode_utf8(text);
    let r = raw(mem, at, max);
    let n = b.len() as int;
    assert forall|i: int| 0 <= i < n implies r[i] == b[i] by {
        assert(readable(mem, at, i + 1));
        assert(mem.contains_key(at + i));
        assert(b.push(0u8)[i] == b[i]);
    }
    if n < r.len() {
        assert(readable(mem, at, n + 1));
        assert(mem.contains_key(at + n));
        assert(b.push(0u8)[n] == 0);
    }
    lemma_until_nul(r, n);
    assert(r.subrange(0, n) =~= b);
    lemma_lossy_text(text);
}

/// A longer text is read up to where the read ends.
pub proof fn lemma_text_cut(mem: Map<int, u8>, at: int, text: Seq<char>, max: nat)
    requires
        stands_text(mem, at, text),
        max <= encode_utf8(text).len(),
    ensures
        until_nul(raw(mem, at, max)) == encode_utf8(text).subrange(0, max as int),
{
    reveal(stands_text);
    let b = encode_utf8(text);
    let r = raw(mem, at, max);
    assert forall|i: int| 0 <= i < max implies r[i] == b[i] by {
        assert(readable(mem, at, i + 1));
        assert(mem.contains_key(at + i));
        assert(b.push(0u8)[i] == b[i]);
    }
    lemma_until_nul(r, max as int);
    assert(r.subrange(0, max as int) =~= b.subrange(0, max as int));
}

/// A part of what stands somewhere stands at its own place.
pub proof fn lemma_part(mem: Map<int, u8>, at: int, data: Seq<u8>, from: int, to: int)
    requires
        copies(mem, at, data),
        0 <= from <= to <= data.len(),
    ensures
        copies(mem, at + from, data.subrange(from, to)),
{
    let part = data.subrange(from, to);
    assert forall|a: int| at + from <= a < at + from + part.len() implies #[trigger] mem.contains_key(
        a,
    ) && mem[a] == part[a - (at + from)] by {
        assert(part.len() == to - from);
        assert(at <= a < at + data.len());
        assert(mem.contains_key(a));
        assert(mem[a] == data[a - at]);
        assert(part[a - (at + from)] == data[a - at]);
    }
}

} // verus!
