//! Reads of another address space, page by page.
//!
//! A read that crosses into an unreadable page must keep what the other pages
//! hold, so a read is split at page borders. The operating system makes the
//! single reads; what is asked of it, and what its answers mean, is decided
//! here.

use vstd::prelude::*;

verus! {

pub const PAGE: u64 = 0x1000;

/// How much of a read of `left` bytes stays in the page of `current`.
pub open spec fn chunk_length(current: int, left: int) -> int {
    let rest = PAGE - current % PAGE as int;
    if rest < left {
        rest
    } else {
        left
    }
}

/// The single reads of a read of `len` bytes at `addr` from offset `off` on, as
/// address and length. It ends where the address space does.
pub open spec fn chunks(addr: u64, len: int, off: int) -> Seq<(u64, usize)>
    decreases len - off,
{
    if off >= len || addr + off > u64::MAX {
        Seq::empty()
    } else {
        let n = chunk_length(addr + off, len - off);
        seq![((addr + off) as u64, n as usize)] + chunks(addr, len, off + n)
    }
}

/// The single reads of a read of `len` bytes at `addr`.
pub fn read_plan(addr: u64, len: usize) -> (plan: Vec<(u64, usize)>)
    ensures
        plan@ == chunks(addr, len as int, 0),
{
    let mut plan: Vec<(u64, usize)> = Vec::new();
    let mut off: usize = 0;
    assert(plan@ + chunks(addr, len as int, 0) =~= chunks(addr, len as int, 0));
    while off < len
        invariant
            off <= len,
            plan@ + chunks(addr, len as int, off as int) == chunks(addr, len as int, 0),
        ensures
            plan@ =~= chunks(addr, len as int, 0),
        decreases len - off,
    {
        match addr.checked_add(off as u64) {
            None => {
                break ;
            },
            Some(current) => {
                let rest: u64 = PAGE - current % PAGE;
                let n: usize = if rest < (len - off) as u64 {
                    rest as usize
                } else {
                    len - off
                };
                let ghost was = plan@;
                plan.push((current, n));
                off = off + n;
                assert(was + (seq![(current, n)] + chunks(addr, len as int, off as int)) =~= plan@
                    + chunks(addr, len as int, off as int));
            },
        }
    }
    plan
}

/// Each single read stays in one page and is not empty, and they follow one
/// another without a gap.
pub proof fn lemma_plan_covers(addr: u64, len: int, off: int, i: int)
    requires
        0 <= off <= len <= usize::MAX,
        0 <= i < chunks(addr, len, off).len(),
    ensures
        0 < chunks(addr, len, off)[i].1 <= PAGE,
        chunks(addr, len, off)[i].0 as int / PAGE as int == (chunks(addr, len, off)[i].0
            + chunks(addr, len, off)[i].1 - 1) / PAGE as int,
        i == 0 ==> chunks(addr, len, off)[i].0 == addr + off,
        i > 0 ==> chunks(addr, len, off)[i].0 == chunks(addr, len, off)[i - 1].0 + chunks(
            addr,
            len,
            off,
        )[i - 1].1,
    decreases len - off,
{
    let n = chunk_length(addr + off, len - off);
    let rest = chunks(addr, len, off + n);
    let all = chunks(addr, len, off);
    let current = addr + off;
    if i == 0 {
        assert(all[0].0 == current && all[0].1 == n);
        assert(current % 0x1000 + n <= 0x1000);
        assert(current / 0x1000 == (current + n - 1) / 0x1000);
    } else {
        lemma_plan_covers(addr, len, off + n, i - 1);
        assert(all[i] == rest[i - 1]);
        if i > 1 {
            assert(all[i - 1] == rest[i - 2]);
        }
    }
}

/// What a single read gave: how much was asked for, the bytes that came, and
/// whether the system called it a success.
#[derive(Debug)]
pub struct ChunkRead {
    pub want: usize,
    pub bytes: Vec<u8>,
    pub ok: bool,
}

/// The read succeeded in full.
pub open spec fn chunk_complete(read: ChunkRead) -> bool {
    read.ok && read.bytes@.len() >= read.want
}

/// What a single read adds to the buffer: the bytes that came, then zeros.
pub open spec fn chunk_bytes(read: ChunkRead) -> Seq<u8> {
    Seq::new(
        read.want as nat,
        |i: int|
            if i < read.bytes@.len() {
                read.bytes@[i]
            } else {
                0
            },
    )
}

/// The buffer after the first `n` single reads.
pub open spec fn gathered(reads: Seq<ChunkRead>, n: nat) -> Seq<u8>
    decreases n,
{
    if n == 0 {
        Seq::empty()
    } else {
        gathered(reads, (n - 1) as nat) + chunk_bytes(reads[n - 1])
    }
}

/// `bytes` cut or filled up with zeros to a length.
pub open spec fn fitted(bytes: Seq<u8>, len: int) -> Seq<u8> {
    Seq::new(
        len as nat,
        |i: int|
            if i < bytes.len() {
                bytes[i]
            } else {
                0
            },
    )
}

/// Puts the single reads together to a buffer of `len` bytes, and says whether
/// all of it was read.
pub fn assemble(len: usize, reads: &Vec<ChunkRead>) -> (result: (Vec<u8>, bool))
    ensures
        result.0@ == fitted(gathered(reads@, reads@.len()), len as int),
        result.1 == (gathered(reads@, reads@.len()).len() >= len && forall|i: int|
            0 <= i < reads@.len() ==> chunk_complete(#[trigger] reads@[i])),
{
    let mut buffer: Vec<u8> = Vec::new();
    let mut complete: bool = true;
    let mut long: bool = false;
    let ghost mut all: Seq<u8> = Seq::empty();
    let mut i: usize = 0;
    assert(fitted(all, 0) =~= all);
    while i < reads.len()
        invariant
            i <= reads@.len(),
            all == gathered(reads@, i as nat),
            long == (all.len() > len),
            if long {
                buffer@ == all.subrange(0, len as int)
            } else {
                buffer@ == all
            },
            complete == (forall|k: int| 0 <= k < i ==> chunk_complete(#[trigger] reads@[k])),
        decreases reads@.len() - i,
    {
        let read = &reads[i];
        if !(read.ok && read.bytes.len() >= read.want) {
            complete = false;
            assert(!chunk_complete(reads@[i as int]));
        }
        let ghost was = all;
        let ghost part = chunk_bytes(*read);
        let mut k: usize = 0;
        while k < read.want
            invariant
                i < reads@.len(),
                *read == reads@[i as int],
                k <= read.want,
                part == chunk_bytes(*read),
                all == was + part.subrange(0, k as int),
                long == (all.len() > len),
                if long {
                    buffer@ == all.subrange(0, len as int)
                } else {
                    buffer@ == all
                },
            decreases read.want - k,
        {
            let byte: u8 = if k < read.bytes.len() {
                read.bytes[k]
            } else {
                0
            };
            assert(byte == part[k as int]);
            let ghost before = all;
            proof {
                all = was + part.subrange(0, k + 1);
                assert(all =~= before.push(byte));
            }
            if !long && buffer.len() < len {
                buffer.push(byte);
            } else {
                long = true;
                assert(buffer@ =~= all.subrange(0, len as int));
            }
            k = k + 1;
        }
        assert(part.subrange(0, k as int) =~= part);
        i = i + 1;
    }
    let enough = long || buffer.len() == len;
    let ghost got = buffer@;
    assert(got.len() <= len);
    assert(forall|k: int| 0 <= k < got.len() ==> got[k] == all[k]);
    assert(got.len() < len ==> all.len() == got.len());
    while buffer.len() < len
        invariant
            got.len() <= len,
            got.len() <= buffer@.len() <= len,
            forall|k: int| 0 <= k < got.len() ==> buffer@[k] == got[k],
            forall|k: int| got.len() <= k < buffer@.len() ==> buffer@[k] == 0,
        decreases len - buffer@.len(),
    {
        buffer.push(0);
    }
    proof {
        let want = fitted(all, len as int);
        assert forall|k: int| 0 <= k < len implies buffer@[k] == want[k] by {
            if k < got.len() {
                assert(buffer@[k] == got[k]);
                assert(got[k] == all[k]);
            } else {
                assert(all.len() == got.len());
            }
        }
        assert(buffer@ =~= want);
    }
    (buffer, complete && enough)
}

/// The single reads are cut at the borders of pages of 4096 bytes and nowhere
/// else: all but the first begin at one, and all but the last end at one.
pub proof fn lemma_plan_pages(addr: u64, len: int, off: int, i: int)
    requires
        0 <= off <= len <= usize::MAX,
        0 <= i < chunks(addr, len, off).len(),
        addr + len <= u64::MAX,
    ensures
        i > 0 ==> chunks(addr, len, off)[i].0 % 4096 == 0,
        i + 1 < chunks(addr, len, off).len() ==> (chunks(addr, len, off)[i].0 + chunks(
            addr,
            len,
            off,
        )[i].1) % 4096 == 0,
        i + 1 == chunks(addr, len, off).len() ==> chunks(addr, len, off)[i].0 + chunks(
            addr,
            len,
            off,
        )[i].1 == addr + len,
    decreases len - off,
{
    let n = chunk_length(addr + off, len - off);
    let rest = chunks(addr, len, off + n);
    let all = chunks(addr, len, off);
    let current = addr + off;
    assert(all[0].0 == current && all[0].1 == n);
    assert(n < len - off ==> (current + n) % 4096 == 0);
    if rest.len() > 0 {
        assert(rest[0].0 == addr + (off + n));
        assert(all[1] == rest[0]);
    }
    if i > 0 {
        lemma_plan_pages(addr, len, off + n, i - 1);
        assert(all[i] == rest[i - 1]);
    }
}

/// The bytes of the first `n` single reads that were asked for.
pub open spec fn asked(reads: Seq<ChunkRead>, n: nat) -> int
    decreases n,
{
    if n == 0 {
        0
    } else {
        asked(reads, (n - 1) as nat) + reads[n - 1].want
    }
}

/// Each single read fills its own part of the buffer: what came of it, and zeros
/// for what did not.
pub proof fn lemma_part_of_buffer(reads: Seq<ChunkRead>, n: nat, k: int, i: int)
    requires
        0 <= k < n <= reads.len(),
        0 <= i < reads[k].want,
    ensures
        0 <= asked(reads, k as nat),
        asked(reads, k as nat) + i < gathered(reads, n).len(),
        gathered(reads, n)[asked(reads, k as nat) + i] == (if i < reads[k].bytes@.len() {
            reads[k].bytes@[i]
        } else {
            0
        }),
    decreases n,
{
    lemma_asked(reads, (n - 1) as nat);
    if k < n - 1 {
        lemma_part_of_buffer(reads, (n - 1) as nat, k, i);
    }
}

proof fn lemma_asked(reads: Seq<ChunkRead>, n: nat)
    ensures
        gathered(reads, n).len() == asked(reads, n),
    decreases n,
{
    if n > 0 {
        lemma_asked(reads, (n - 1) as nat);
    }
}

/// The single reads of a plan all succeeded, each with the bytes that stand at its place.
pub open spec fn answers(plan: Seq<(u64, usize)>, mem: Map<int, u8>, reads: Seq<ChunkRead>) -> bool {
    &&& reads.len() == plan.len()
    &&& forall|k: int|
        0 <= k < plan.len() ==> (#[trigger] reads[k]).ok && reads[k].want == plan[k].1
            && reads[k].bytes@ == Seq::new(plan[k].1 as nat, |i: int| mem[plan[k].0 + i])
}

proof fn lemma_plan_ends(addr: u64, len: int, off: int)
    requires
        0 <= off < len <= usize::MAX,
        addr + len <= u64::MAX + 1,
    ensures
        chunks(addr, len, off).len() > 0,
        chunks(addr, len, off).last().0 + chunks(addr, len, off).last().1 == addr + len,
    decreases len - off,
{
    let n = chunk_length(addr + off, len - off);
    let rest = chunks(addr, len, off + n);
    let all = chunks(addr, len, off);
    assert(all[0].1 == n);
    if off + n < len {
        lemma_plan_ends(addr, len, off + n);
        assert(all.last() == rest.last());
    } else {
        assert(rest.len() == 0);
    }
}

proof fn lemma_gathered(addr: u64, len: int, mem: Map<int, u8>, reads: Seq<ChunkRead>, n: nat)
    requires
        0 <= len <= usize::MAX,
        answers(chunks(addr, len, 0), mem, reads),
        n <= reads.len(),
    ensures
        n == 0 ==> gathered(reads, n).len() == 0,
        n > 0 ==> addr + gathered(reads, n).len() == chunks(addr, len, 0)[n - 1].0 + chunks(
            addr,
            len,
            0,
        )[n - 1].1,
        forall|j: int|
            0 <= j < gathered(reads, n).len() ==> #[trigger] gathered(reads, n)[j] == mem[addr + j],
    decreases n,
{
    if n > 0 {
        let plan = chunks(addr, len, 0);
        let before = gathered(reads, (n - 1) as nat);
        let all = gathered(reads, n);
        lemma_gathered(addr, len, mem, reads, (n - 1) as nat);
        lemma_plan_covers(addr, len, 0, n - 1);
        let (at, size) = plan[n - 1];
        assert(at == addr + before.len());
        let part = chunk_bytes(reads[n - 1]);
        assert(part.len() == size);
        assert forall|j: int| 0 <= j < all.len() implies #[trigger] all[j] == mem[addr + j] by {
            if j >= before.len() {
                let i = j - before.len();
                assert(all[j] == part[i]);
                assert(part[i] == reads[n - 1].bytes@[i]);
                assert(at + i == addr + j);
            } else {
                assert(all[j] == before[j]);
            }
        }
    }
}

/// Where all single reads of a plan succeed, what is put together is complete and is what
/// stands in memory, byte by byte.
pub proof fn lemma_read_whole(addr: u64, len: int, mem: Map<int, u8>, reads: Seq<ChunkRead>)
    requires
        0 <= len <= usize::MAX,
        addr + len <= u64::MAX + 1,
        answers(chunks(addr, len, 0), mem, reads),
    ensures
        fitted(gathered(reads, reads.len()), len) == Seq::new(len as nat, |j: int| mem[addr + j]),
        gathered(reads, reads.len()).len() == len,
        forall|k: int| 0 <= k < reads.len() ==> chunk_complete(#[trigger] reads[k]),
{
    let all = gathered(reads, reads.len());
    lemma_gathered(addr, len, mem, reads, reads.len());
    if len > 0 {
        lemma_plan_ends(addr, len, 0);
    }
    assert forall|j: int| 0 <= j < len implies #[trigger] all[j] == mem[addr + j] by {}
    assert(fitted(all, len) =~= Seq::new(len as nat, |j: int| mem[addr + j]));
}

} // verus!
