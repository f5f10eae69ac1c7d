//! The memory that the walkers read.

use vstd::prelude::*;

pub mod address;
pub mod fake;
pub mod local;
pub mod shade;
pub mod snapshot;
pub mod stored;
pub mod syscall;
pub mod win;

verus! {

/// A run of mapped bytes.
#[derive(Debug)]
pub struct Region {
    pub base: u64,
    pub bytes: Vec<u8>,
}

impl Region {
    /// The address behind the last byte.
    pub open spec fn end(&self) -> int {
        self.base + self.bytes@.len()
    }

    pub open spec fn holds(&self, address: int) -> bool {
        self.base <= address < self.end()
    }
}

/// A sparse image of a process's address space: what is mapped, and the bytes
/// that stand there.
#[derive(Debug)]
pub struct Memory {
    pub regions: Vec<Region>,
}

/// No region is empty or runs past the address space, and they stand in
/// ascending order without overlap.
pub open spec fn regions_wf(regions: Seq<Region>) -> bool {
    &&& forall|i: int|
        0 <= i < regions.len() ==> 0 < (#[trigger] regions[i]).bytes@.len() && regions[i].end()
            <= 0x1_0000_0000_0000_0000
    &&& forall|i: int, j: int|
        0 <= i < j < regions.len() ==> (#[trigger] regions[i]).end() <= (#[trigger] regions[j]).base
}

/// Region `i` holds `address`.
pub open spec fn holds_at(regions: Seq<Region>, address: int, i: int) -> bool {
    0 <= i < regions.len() && regions[i].holds(address)
}

/// Every address of `va..va + n` is mapped.
pub open spec fn readable(mem: Map<int, u8>, va: int, n: int) -> bool {
    forall|a: int| va <= a < va + n ==> #[trigger] mem.contains_key(a)
}

/// What a read of `n` bytes at `va` gives: the bytes of the mapped run that
/// begins there, then zeros.
pub open spec fn raw(mem: Map<int, u8>, va: int, n: nat) -> Seq<u8> {
    Seq::new(
        n,
        |i: int|
            if readable(mem, va, i + 1) {
                mem[va + i]
            } else {
                0
            },
    )
}

/// `mem` with `data` mapped at `addr`, over whatever was there.
pub open spec fn overlay(mem: Map<int, u8>, addr: int, data: Seq<u8>) -> Map<int, u8> {
    Map::new(
        |a: int| mem.contains_key(a) || addr <= a < addr + data.len(),
        |a: int|
            if addr <= a < addr + data.len() {
                data[a - addr]
            } else {
                mem[a]
            },
    )
}

/// `out` holds the mapped bytes that begin at `va`.
pub open spec fn copies(mem: Map<int, u8>, va: int, out: Seq<u8>) -> bool {
    forall|a: int|
        va <= a < va + out.len() ==> #[trigger] mem.contains_key(a) && mem[a] == out[a - va]
}

proof fn lemma_copies_push(mem: Map<int, u8>, va: int, out: Seq<u8>, byte: u8)
    requires
        copies(mem, va, out),
        mem.contains_key(va + out.len()),
        mem[va + out.len()] == byte,
    ensures
        copies(mem, va, out.push(byte)),
{
}

impl View for Memory {
    type V = Map<int, u8>;

    /// The bytes by address.
    open spec fn view(&self) -> Map<int, u8> {
        Map::new(
            |a: int| exists|i: int| holds_at(self.regions@, a, i),
            |a: int|
                {
                    let i = choose|i: int| holds_at(self.regions@, a, i);
                    self.regions@[i].bytes@[a - self.regions@[i].base]
                },
        )
    }
}

impl Memory {
    pub open spec fn wf(&self) -> bool {
        regions_wf(self.regions@)
    }

    /// The byte at an address is that of the one region that holds it.
    pub proof fn lemma_byte(&self, a: int, i: int)
        requires
            self.wf(),
            holds_at(self.regions@, a, i),
        ensures
            self@.contains_key(a),
            self@[a] == self.regions@[i].bytes@[a - self.regions@[i].base],
    {
        let j = choose|j: int| holds_at(self.regions@, a, j);
        assert(holds_at(self.regions@, a, j));
        if i < j {
            assert(self.regions@[i].end() <= self.regions@[j].base);
        } else if j < i {
            assert(self.regions@[j].end() <= self.regions@[i].base);
        }
    }

    /// Nothing is mapped.
    pub fn new() -> (mem: Self)
        ensures
            mem.wf(),
            mem@ == Map::<int, u8>::empty(),
    {
        let mem = Memory { regions: Vec::new() };
        assert(mem@ =~= Map::<int, u8>::empty());
        mem
    }

    /// Maps a run of bytes where nothing is mapped yet, and says whether it did:
    /// an empty run, one that leaves the address space and one that overlaps what
    /// is mapped are left out.
    pub fn map_run(&mut self, base: u64, bytes: Vec<u8>) -> (added: bool)
        requires
            old(self).wf(),
        ensures
            final(self).wf(),
            added == (bytes@.len() > 0 && base + bytes@.len() <= 0x1_0000_0000_0000_0000
                && forall|a: int|
                base <= a < base + bytes@.len() ==> !#[trigger] old(self)@.contains_key(a)),
            final(self)@ == (if added {
                overlay(old(self)@, base as int, bytes@)
            } else {
                old(self)@
            }),
    {
        let ghost was = *self;
        let ghost rs = was.regions@;
        let ghost data = bytes@;
        let size: usize = bytes.len();
        let end: u128 = base as u128 + size as u128;
        if size == 0 || end > 0x1_0000_0000_0000_0000 {
            return false;
        }
        let at: usize = self.region_index(base);
        if at < self.regions.len() && (self.regions[at].base as u128) < end {
            proof {
                let next = rs[at as int];
                let a = if next.base > base {
                    next.base as int
                } else {
                    base as int
                };
                assert(holds_at(rs, a, at as int));
                was.lemma_byte(a, at as int);
            }
            return false;
        }
        self.regions.insert(at, Region { base, bytes });
        proof {
            let now = self.regions@;
            let run = now[at as int];
            assert(now =~= rs.insert(at as int, run));
            assert forall|i: int| 0 <= i < now.len() implies 0 < (#[trigger] now[i]).bytes@.len()
                && now[i].end() <= 0x1_0000_0000_0000_0000 by {
                if i < at {
                    assert(now[i] == rs[i]);
                } else if i > at {
                    assert(now[i] == rs[i - 1]);
                }
            }
            assert forall|i: int, j: int| 0 <= i < j < now.len() implies (#[trigger] now[i]).end()
                <= (#[trigger] now[j]).base by {
                let oi = if i <= at {
                    i
                } else {
                    i - 1
                };
                let oj = if j <= at {
                    j
                } else {
                    j - 1
                };
                if i != at && j != at {
                    assert(now[i] == rs[oi] && now[j] == rs[oj]);
                    assert(rs[oi].end() <= rs[oj].base);
                } else if j == at {
                    assert(now[i] == rs[i]);
                } else {
                    assert(now[j] == rs[j - 1]);
                    if j - 1 > at {
                        assert(rs[at as int].end() <= rs[j - 1].base);
                    }
                }
            }
            lemma_inserted(was, *self, at as int);
            assert forall|a: int| base <= a < base + data.len() implies !#[trigger] was@.contains_key(
                a,
            ) by {
                if was@.contains_key(a) {
                    let i = choose|i: int| holds_at(rs, a, i);
                    assert(rs[i].holds(a));
                    if i > at {
                        assert(rs[at as int].end() <= rs[i].base);
                    }
                }
            }
        }
        true
    }

    /// The number of regions that end at or before `address`. The region at
    /// that place is the only one that can hold it.
    pub fn region_index(&self, address: u64) -> (at: usize)
        requires
            self.wf(),
        ensures
            at <= self.regions@.len(),
            forall|i: int| 0 <= i < at ==> (#[trigger] self.regions@[i]).end() <= address,
            forall|i: int|
                at <= i < self.regions@.len() ==> address < (#[trigger] self.regions@[i]).end(),
    {
        let mut lo: usize = 0;
        let mut hi: usize = self.regions.len();
        while lo < hi
            invariant
                self.wf(),
                lo <= hi <= self.regions@.len(),
                forall|i: int| 0 <= i < lo ==> (#[trigger] self.regions@[i]).end() <= address,
                forall|i: int|
                    hi <= i < self.regions@.len() ==> address < (#[trigger] self.regions@[i]).end(),
            decreases hi - lo,
        {
            let mid: usize = lo + (hi - lo) / 2;
            let base: u64 = self.regions[mid].base;
            let ghost m = self.regions@[mid as int];
            if base <= address && address - base >= self.regions[mid].bytes.len() as u64 {
                assert(m.end() <= address);
                assert forall|i: int| 0 <= i < mid + 1 implies (#[trigger] self.regions@[i]).end()
                    <= address by {
                    if i < mid {
                        assert(self.regions@[i].end() <= m.base);
                    }
                }
                lo = mid + 1;
            } else {
                assert(address < m.end());
                assert forall|i: int| mid <= i < self.regions@.len() implies address < (
                #[trigger] self.regions@[i]).end() by {
                    if mid < i {
                        assert(m.end() <= self.regions@[i].base);
                    }
                }
                hi = mid;
            }
        }
        lo
    }

    /// Whether `address` is mapped.
    pub fn is_mapped(&self, address: u64) -> (mapped: bool)
        requires
            self.wf(),
        ensures
            mapped == self@.contains_key(address as int),
    {
        let at: usize = self.region_index(address);
        if at < self.regions.len() && self.regions[at].base <= address {
            proof {
                self.lemma_byte(address as int, at as int);
            }
            true
        } else {
            proof {
                self.lemma_unmapped(address as int, at as int);
            }
            false
        }
    }

    proof fn lemma_unmapped(&self, address: int, at: int)
        requires
            self.wf(),
            0 <= at <= self.regions@.len(),
            forall|i: int| 0 <= i < at ==> (#[trigger] self.regions@[i]).end() <= address,
            at < self.regions@.len() ==> address < self.regions@[at].base,
        ensures
            !self@.contains_key(address),
    {
        if self@.contains_key(address) {
            let i = choose|i: int| holds_at(self.regions@, address, i);
            if at < i {
                assert(self.regions@[at].end() <= self.regions@[i].base);
            }
        }
    }

    /// Reads `len` bytes at `va`: the bytes of the mapped run that begins
    /// there, then zeros for what cannot be read.
    pub fn read_raw(&self, va: u64, len: usize) -> (bytes: Vec<u8>)
        requires
            self.wf(),
        ensures
            bytes@ == raw(self@, va as int, len as nat),
    {
        let mut out: Vec<u8> = Vec::with_capacity(len);
        let mut at: usize = self.region_index(va);
        let ghost mem = self@;
        let mut open: bool = true;
        while out.len() < len && open
            invariant
                self.wf(),
                out@.len() <= len,
                at <= self.regions@.len(),
                open && out@.len() < len ==> forall|i: int|
                    0 <= i < at ==> (#[trigger] self.regions@[i]).end() <= va + out@.len(),
                open && out@.len() < len ==> forall|i: int|
                    at <= i < self.regions@.len() ==> va + out@.len() < (
                    #[trigger] self.regions@[i]).end(),
                !open ==> !mem.contains_key(va + out@.len()),
                mem == self@,
                copies(mem, va as int, out@),
            decreases
                len - out@.len(),
                if open {
                    1int
                } else {
                    0int
                },
        {
            let done: usize = out.len();
            if at >= self.regions.len() {
                proof {
                    self.lemma_unmapped(va + done, at as int);
                }
                open = false;
                continue ;
            }
            let base: u64 = self.regions[at].base;
            if base > va && base - va > done as u64 {
                proof {
                    self.lemma_unmapped(va + done, at as int);
                }
                open = false;
                continue ;
            }
            let ghost region = self.regions@[at as int];
            let size: usize = self.regions[at].bytes.len();
            assert(region.base <= va + done < region.end());
            let first: usize = if base > va {
                done - (base - va) as usize
            } else {
                (va - base) as usize + done
            };
            let mut k: usize = first;
            while k < size && out.len() < len
                invariant
                    self.wf(),
                    at < self.regions@.len(),
                    region == self.regions@[at as int],
                    size == region.bytes@.len(),
                    first <= k <= size,
                    region.base + k == va + out@.len(),
                    out@.len() <= len,
                    done <= out@.len(),
                    k - first == out@.len() - done,
                    mem == self@,
                    copies(mem, va as int, out@),
                decreases size - k,
            {
                let ghost a = va + out@.len();
                proof {
                    assert(holds_at(self.regions@, a, at as int));
                    self.lemma_byte(a, at as int);
                }
                let byte: u8 = self.regions[at].bytes[k];
                proof {
                    lemma_copies_push(mem, va as int, out@, byte);
                }
                out.push(byte);
                k = k + 1;
            }
            proof {
                if out@.len() < len {
                    assert forall|i: int| at + 1 <= i < self.regions@.len() implies va + out@.len()
                        < (#[trigger] self.regions@[i]).end() by {
                        assert(region.end() <= self.regions@[i].base);
                    }
                    assert forall|i: int| 0 <= i < at + 1 implies (
                    #[trigger] self.regions@[i]).end() <= va + out@.len() by {
                        if i < at {
                            assert(self.regions@[i].end() <= region.base);
                        }
                    }
                }
            }
            at = at + 1;
        }
        let ghost got = out@;
        while out.len() < len
            invariant
                got.len() <= out@.len() <= len,
                forall|i: int| 0 <= i < got.len() ==> out@[i] == got[i],
                forall|i: int| got.len() <= i < out@.len() ==> out@[i] == 0,
            decreases len - out@.len(),
        {
            out.push(0);
        }
        proof {
            let want = raw(mem, va as int, len as nat);
            assert forall|i: int| 0 <= i < len implies out@[i] == want[i] by {
                if i < got.len() {
                    assert(readable(mem, va as int, i + 1)) by {
                        assert forall|a: int| va <= a < va + i + 1 implies #[trigger] mem.contains_key(
                            a,
                        ) by {}
                    }
                    assert(mem.contains_key(va + i));
                } else {
                    assert(!mem.contains_key(va + got.len()));
                    assert(!readable(mem, va as int, i + 1));
                }
            }
            assert(out@ =~= want);
        }
        out
    }
}

/// A region that was put between others maps its bytes, and the others theirs.
proof fn lemma_inserted(was: Memory, now: Memory, at: int)
    requires
        was.wf(),
        now.wf(),
        0 <= at <= was.regions@.len(),
        now.regions@.len() == was.regions@.len() + 1,
        now.regions@ == was.regions@.insert(at, now.regions@[at]),
    ensures
        now@ == overlay(was@, now.regions@[at].base as int, now.regions@[at].bytes@),
{
    let run = now.regions@[at];
    let want = overlay(was@, run.base as int, run.bytes@);
    assert forall|x: int| #[trigger] now@.contains_key(x) == want.contains_key(x) && (
    now@.contains_key(x) ==> now@[x] == want[x]) by {
        if now@.contains_key(x) {
            let i = choose|i: int| holds_at(now.regions@, x, i);
            now.lemma_byte(x, i);
            if i == at {
                assert(run.holds(x));
            } else {
                let o = if i < at {
                    i
                } else {
                    i - 1
                };
                assert(was.regions@[o] == now.regions@[i]);
                assert(holds_at(was.regions@, x, o));
                was.lemma_byte(x, o);
                if run.holds(x) {
                    assert(holds_at(now.regions@, x, at));
                    now.lemma_byte(x, at);
                }
            }
        }
        if want.contains_key(x) {
            if run.holds(x) {
                assert(holds_at(now.regions@, x, at));
                now.lemma_byte(x, at);
            } else {
                let o = choose|o: int| holds_at(was.regions@, x, o);
                let i = if o < at {
                    o
                } else {
                    o + 1
                };
                assert(now.regions@[i] == was.regions@[o]);
                assert(holds_at(now.regions@, x, i));
                now.lemma_byte(x, i);
            }
        }
    }
    assert(now@ =~= want);
}

} // verus!
