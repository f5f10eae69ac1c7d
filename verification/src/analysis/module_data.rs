//! Module images, and where in them mutable globals live.

use crate::analysis::pe::{file_headers, pe_file_headers, pe_sections, view_sections, Section};
use crate::memory::snapshot::ModuleInfo;
use crate::strmap::StrMap;
use crate::text::{ascii_lower, eq_ignore_case, lower_text};
use vstd::prelude::*;

verus! {

/// A copy of a module as it is mapped in memory.
#[derive(Debug)]
pub struct ModuleImage {
    pub name: String,
    pub base: u64,
    pub bytes: Vec<u8>,
}

/// The first image with this name, whatever its case, stands at `i`.
pub open spec fn image_at(images: Seq<ModuleImage>, name: Seq<char>, i: int) -> bool {
    &&& 0 <= i < images.len()
    &&& lower_text(images[i].name@) == lower_text(name)
    &&& forall|j: int| 0 <= j < i ==> lower_text((#[trigger] images[j]).name@) != lower_text(name)
}

/// The place of the first image with this name.
pub open spec fn image_named(images: Seq<ModuleImage>, name: Seq<char>) -> Option<int> {
    if exists|k: int| image_at(images, name, k) {
        Some(choose|k: int| image_at(images, name, k))
    } else {
        None
    }
}

/// There is one first image with a name.
pub proof fn lemma_image_unique(images: Seq<ModuleImage>, name: Seq<char>, i: int, j: int)
    requires
        image_at(images, name, i),
        image_at(images, name, j),
    ensures
        i == j,
{
    if i < j {
        assert(lower_text(images[i].name@) != lower_text(name));
    } else if j < i {
        assert(lower_text(images[j].name@) != lower_text(name));
    }
}

/// The first image with this name.
pub fn find_image(images: &Vec<ModuleImage>, name: &str) -> (place: Option<usize>)
    ensures
        match place {
            Some(i) => image_at(images@, name@, i as int) && image_named(images@, name@) == Some(
                i as int,
            ),
            None => image_named(images@, name@) is None && forall|i: int|
                0 <= i < images@.len() ==> lower_text((#[trigger] images@[i]).name@) != lower_text(
                    name@,
                ),
        },
{
    let mut i: usize = 0;
    while i < images.len()
        invariant
            i <= images@.len(),
            forall|j: int|
                0 <= j < i ==> lower_text((#[trigger] images@[j]).name@) != lower_text(name@),
        decreases images@.len() - i,
    {
        if eq_ignore_case(images[i].name.as_str(), name) {
            proof {
                assert(image_at(images@, name@, i as int));
                let k = choose|k: int| image_at(images@, name@, k);
                lemma_image_unique(images@, name@, i as int, k);
            }
            return Some(i);
        }
        i = i + 1;
    }
    None
}

/// A loaded module: its name, base and size.
#[derive(Debug)]
pub struct ModuleRecord {
    pub name: String,
    pub base: u64,
    pub size: u64,
}

/// The first of the modules from `i` on whose name is `name`, whatever its
/// case, gives its spelling; else `name` stays as it is.
pub open spec fn interned_from(modules: Seq<ModuleRecord>, name: Seq<char>, i: int) -> Seq<char>
    decreases modules.len() - i,
{
    if i >= modules.len() {
        name
    } else if lower_text(modules[i].name@) == lower_text(name) {
        modules[i].name@
    } else {
        interned_from(modules, name, i + 1)
    }
}

/// A name as the module list spells it.
pub open spec fn interned(modules: Seq<ModuleRecord>, name: Seq<char>) -> Seq<char> {
    interned_from(modules, name, 0)
}

/// The name of a loaded module as the list spells it, or the name itself.
pub fn intern_name(modules: &Vec<ModuleRecord>, name: String) -> (spelled: String)
    ensures
        spelled@ == interned(modules@, name@),
{
    let mut i: usize = 0;
    while i < modules.len()
        invariant
            i <= modules@.len(),
            interned(modules@, name@) == interned_from(modules@, name@, i as int),
        decreases modules@.len() - i,
    {
        if eq_ignore_case(modules[i].name.as_str(), name.as_str()) {
            return modules[i].name.clone();
        }
        i = i + 1;
    }
    name
}

/// The section can be written to.
pub const SCN_MEM_WRITE: u32 = 0x8000_0000;

/// The section holds code.
pub const SCN_MEM_EXECUTE: u32 = 0x2000_0000;

/// A section that holds mutable globals: writable, not executable, not empty.
pub open spec fn holds_globals(section: (u32, u32, u32)) -> bool {
    &&& section.0 & SCN_MEM_WRITE != 0
    &&& section.0 & SCN_MEM_EXECUTE == 0
    &&& section.2 > 0
}

/// The address and size of each section that holds mutable globals, of sections
/// given as characteristics, address and size.
pub open spec fn global_ranges(sections: Seq<(u32, u32, u32)>) -> Seq<(u64, u64)>
    decreases sections.len(),
{
    if sections.len() == 0 {
        Seq::empty()
    } else {
        let before = global_ranges(sections.drop_last());
        let last = sections.last();
        if holds_globals(last) {
            before.push((last.1 as u64, last.2 as u64))
        } else {
            before
        }
    }
}

pub fn ranges_of(sections: &Vec<(u32, u32, u32)>) -> (ranges: Vec<(u64, u64)>)
    ensures
        ranges@ == global_ranges(sections@),
{
    let mut ranges: Vec<(u64, u64)> = Vec::new();
    let mut i: usize = 0;
    assert(sections@.subrange(0, 0) =~= Seq::<(u32, u32, u32)>::empty());
    while i < sections.len()
        invariant
            i <= sections@.len(),
            ranges@ == global_ranges(sections@.subrange(0, i as int)),
        decreases sections@.len() - i,
    {
        let ghost head = sections@.subrange(0, i + 1);
        assert(head.drop_last() =~= sections@.subrange(0, i as int));
        assert(head.last() == sections@[i as int]);
        let (characteristics, rva, size) = sections[i];
        if characteristics & SCN_MEM_WRITE != 0 && characteristics & SCN_MEM_EXECUTE == 0 && size
            > 0 {
            ranges.push((rva as u64, size as u64));
        }
        i = i + 1;
    }
    assert(sections@.subrange(0, i as int) =~= sections@);
    ranges
}

/// Characteristics, address and size of each section.
pub open spec fn section_triples(sections: Seq<Section>) -> Seq<(u32, u32, u32)> {
    Seq::new(sections.len(), |i: int| (sections[i].4, sections[i].0, sections[i].1))
}

/// The sections of an image that hold mutable globals; none where it is not a
/// PE image.
pub open spec fn image_ranges(image: Seq<u8>) -> Option<Seq<(u64, u64)>> {
    match pe_sections(image) {
        Some(sections) => Some(global_ranges(section_triples(sections))),
        None => None,
    }
}

/// Address and size of every section of an image that holds mutable globals:
/// where a scan for a global looks.
pub fn writable_ranges(image: &[u8]) -> (ranges: Option<Vec<(u64, u64)>>)
    ensures
        match ranges {
            Some(list) => image_ranges(image@) == Some(list@),
            None => image_ranges(image@) is None,
        },
{
    match view_sections(image) {
        Some(sections) => {
            let mut triples: Vec<(u32, u32, u32)> = Vec::new();
            let mut i: usize = 0;
            while i < sections.len()
                invariant
                    i <= sections@.len(),
                    triples@.len() == i,
                    forall|k: int| 0 <= k < i ==> triples@[k] == section_triples(sections@)[k],
                decreases sections@.len() - i,
            {
                triples.push((sections[i].4, sections[i].0, sections[i].1));
                i = i + 1;
            }
            assert(triples@ =~= section_triples(sections@));
            Some(ranges_of(&triples))
        },
        None => None,
    }
}

/// The largest image that a file is mapped to.
pub const MAX_MAPPED_PE: usize = 0x2000_0000;

/// An image has this size: some, and no more than is mapped.
pub open spec fn is_image_size(size: u32) -> bool {
    0 < size <= MAX_MAPPED_PE
}

/// Why a file cannot be mapped.
#[derive(Clone, Copy, Debug, PartialEq, Eq, Structural)]
pub enum PeError {
    /// The headers are not those of a 64-bit PE file.
    Invalid,
    /// This is no size of an image.
    UnreasonableSize(u32),
}

/// The part of a section's raw data that is mapped, as place in the file and
/// length; none where the section lies outside the image or its data outside
/// the file.
pub open spec fn mapped_part(file_len: int, size: int, section: Section) -> Option<(int, int)> {
    let (va, virt_size, raw_at, raw_size, _) = section;
    if va >= size || raw_at >= file_len || virt_size == 0 {
        None
    } else {
        let dest = if virt_size < size - va {
            virt_size as int
        } else {
            size - va
        };
        let rest = if raw_size < file_len - raw_at {
            raw_size as int
        } else {
            file_len - raw_at
        };
        Some(
            (
                raw_at as int,
                if rest < dest {
                    rest
                } else {
                    dest
                },
            ),
        )
    }
}

/// `bytes` with `part` written over it at `at`.
pub open spec fn written(bytes: Seq<u8>, at: int, part: Seq<u8>) -> Seq<u8> {
    Seq::new(
        bytes.len(),
        |i: int|
            if at <= i < at + part.len() {
                part[i - at]
            } else {
                bytes[i]
            },
    )
}

/// An image with a section mapped into it.
pub open spec fn with_section(file: Seq<u8>, image: Seq<u8>, section: Section) -> Seq<u8> {
    match mapped_part(file.len() as int, image.len() as int, section) {
        Some((from, len)) => written(image, section.0 as int, file.subrange(from, from + len)),
        None => image,
    }
}

/// An image with the first `n` sections mapped into it.
pub open spec fn with_sections(file: Seq<u8>, image: Seq<u8>, sections: Seq<Section>, n: nat) -> Seq<
    u8,
>
    decreases n,
{
    if n == 0 {
        image
    } else {
        with_section(
            file,
            with_sections(file, image, sections, (n - 1) as nat),
            sections[n - 1],
        )
    }
}

/// The length of the headers that are mapped.
pub open spec fn header_length(file_len: int, size: int, headers: u32) -> int {
    let first = if headers < file_len {
        headers as int
    } else {
        file_len
    };
    if first < size {
        first
    } else {
        size
    }
}

/// The image that a file is mapped to: zeros, then the headers, then each
/// section in turn.
pub open spec fn mapped(file: Seq<u8>, size: u32, headers: u32, sections: Seq<Section>) -> Seq<u8> {
    let blank = Seq::new(size as nat, |i: int| 0u8);
    let head = header_length(file.len() as int, size as int, headers);
    with_sections(
        file,
        written(blank, 0, file.subrange(0, head)),
        sections,
        sections.len(),
    )
}

/// The raw data of a section is mapped over a place of the image.
pub open spec fn covers(file_len: int, size: int, section: Section, a: int) -> bool {
    match mapped_part(file_len, size, section) {
        Some((_, len)) => section.0 <= a < section.0 + len,
        None => false,
    }
}

/// Where the mapped raw data of a section begins in the file.
pub open spec fn part_start(file_len: int, size: int, section: Section) -> int {
    match mapped_part(file_len, size, section) {
        Some((from, _)) => from,
        None => 0,
    }
}

/// A place that no section covers stays as it was, so it is zero behind the
/// headers; and mapping keeps the length.
pub proof fn lemma_uncovered(
    file: Seq<u8>,
    image: Seq<u8>,
    sections: Seq<Section>,
    n: nat,
    a: int,
)
    requires
        n <= sections.len(),
        0 <= a < image.len(),
        forall|j: int|
            0 <= j < n ==> !covers(file.len() as int, image.len() as int, #[trigger] sections[j], a),
    ensures
        with_sections(file, image, sections, n).len() == image.len(),
        with_sections(file, image, sections, n)[a] == image[a],
    decreases n,
{
    if n > 0 {
        lemma_uncovered(file, image, sections, (n - 1) as nat, a);
        assert(!covers(file.len() as int, image.len() as int, sections[n - 1], a));
    }
}

proof fn lemma_mapping_keeps_length(
    file: Seq<u8>,
    image: Seq<u8>,
    sections: Seq<Section>,
    n: nat,
)
    ensures
        with_sections(file, image, sections, n).len() == image.len(),
    decreases n,
{
    if n > 0 {
        lemma_mapping_keeps_length(file, image, sections, (n - 1) as nat);
    }
}

/// The raw data of a section stands at its virtual address in the image, as far
/// as no later section covers it.
pub proof fn lemma_section_at_address(
    file: Seq<u8>,
    image: Seq<u8>,
    sections: Seq<Section>,
    n: nat,
    k: int,
    a: int,
)
    requires
        0 <= k < n <= sections.len(),
        covers(file.len() as int, image.len() as int, sections[k], a),
        forall|j: int|
            k < j < n ==> !covers(file.len() as int, image.len() as int, #[trigger] sections[j], a),
    ensures
        0 <= a < image.len(),
        with_sections(file, image, sections, n)[a] == file[part_start(
            file.len() as int,
            image.len() as int,
            sections[k],
        ) + a - sections[k].0],
    decreases n,
{
    lemma_mapping_keeps_length(file, image, sections, (n - 1) as nat);
    if k < n - 1 {
        lemma_section_at_address(file, image, sections, (n - 1) as nat, k, a);
        assert(!covers(file.len() as int, image.len() as int, sections[n - 1], a));
    }
}

fn copy_part(image: &mut Vec<u8>, at: usize, file: &[u8], from: usize, len: usize)
    requires
        at + len <= old(image)@.len(),
        from + len <= file@.len(),
    ensures
        final(image)@ == written(
            old(image)@,
            at as int,
            file@.subrange(from as int, from + len),
        ),
{
    let ghost was = image@;
    let ghost part = file@.subrange(from as int, from + len);
    let size: usize = image.len();
    let file_len: usize = file.len();
    let mut i: usize = 0;
    while i < len
        invariant
            i <= len,
            file_len == file@.len(),
            size == image@.len(),
            size == was.len(),
            at + len <= size,
            from + len <= file@.len(),
            part == file@.subrange(from as int, from + len),
            forall|k: int|
                0 <= k < size ==> image@[k] == (if at <= k < at + i {
                    part[k - at]
                } else {
                    was[k]
                }),
        decreases len - i,
    {
        let byte: u8 = file[from + i];
        assert(byte == part[i as int]);
        image.set(at + i, byte);
        i = i + 1;
    }
    assert(image@ =~= written(was, at as int, part));
}

fn smaller(a: usize, b: usize) -> (least: usize)
    ensures
        least == (if a < b {
            a
        } else {
            b
        }),
{
    if a < b {
        a
    } else {
        b
    }
}

fn map_section(image: &mut Vec<u8>, file: &[u8], section: Section)
    requires
        old(image)@.len() <= MAX_MAPPED_PE,
    ensures
        final(image)@ == with_section(file@, old(image)@, section),
{
    let (va, virt_size, raw_at, raw_size, _) = section;
    let size: usize = image.len();
    let file_len: usize = file.len();
    if va as u64 >= size as u64 || raw_at as u64 >= file_len as u64 || virt_size == 0 {
        return;
    }
    let at: usize = va as usize;
    let from: usize = raw_at as usize;
    let dest: usize = if (virt_size as u64) < (size - at) as u64 {
        virt_size as usize
    } else {
        size - at
    };
    let rest: usize = if (raw_size as u64) < (file_len - from) as u64 {
        raw_size as usize
    } else {
        file_len - from
    };
    let len: usize = smaller(rest, dest);
    copy_part(image, at, file, from, len);
}

/// Maps a file the way it is loaded, so that addresses of the image index the
/// result.
pub fn map_file_pe_to_image(file: &[u8]) -> (image: Result<Vec<u8>, PeError>)
    ensures
        match pe_file_headers(file@) {
            None => image is Err && image->Err_0 == PeError::Invalid,
            Some((size, headers, sections)) => if !is_image_size(size) {
                image is Err && image->Err_0 == PeError::UnreasonableSize(size)
            } else {
                image is Ok && image->Ok_0@ == mapped(file@, size, headers, sections)
            },
        },
{
    match file_headers(file) {
        None => Err(PeError::Invalid),
        Some((size, headers, sections)) => map_file(file, size, headers, &sections),
    }
}

/// Maps a file by its headers: the size of the image, that of the headers, and
/// the sections.
pub fn map_file(file: &[u8], size: u32, headers: u32, sections: &Vec<Section>) -> (image: Result<
    Vec<u8>,
    PeError,
>)
    ensures
        if !is_image_size(size) {
            image is Err && image->Err_0 == PeError::UnreasonableSize(size)
        } else {
            image is Ok && image->Ok_0@ == mapped(file@, size, headers, sections@)
        },
{
    if size == 0 || size as u64 > MAX_MAPPED_PE as u64 {
        return Err(PeError::UnreasonableSize(size));
    }
    let total: usize = size as usize;
    let mut image: Vec<u8> = Vec::new();
    while image.len() < total
        invariant
            image@.len() <= total,
            forall|k: int| 0 <= k < image@.len() ==> image@[k] == 0,
        decreases total - image@.len(),
    {
        image.push(0);
    }
    let ghost blank = Seq::new(size as nat, |i: int| 0u8);
    assert(image@ =~= blank);
    let first: usize = if (headers as u64) < file.len() as u64 {
        headers as usize
    } else {
        file.len()
    };
    let head: usize = smaller(first, total);
    copy_part(&mut image, 0, file, 0, head);
    let ghost base = image@;
    let mut i: usize = 0;
    while i < sections.len()
        invariant
            i <= sections@.len(),
            total <= MAX_MAPPED_PE,
            base.len() == total,
            image@.len() == total,
            image@ == with_sections(file@, base, sections@, i as nat),
        decreases sections@.len() - i,
    {
        map_section(&mut image, file, sections[i]);
        i = i + 1;
    }
    Ok(image)
}

/// Bytes that begin like a PE file.
pub open spec fn is_pe_like(bytes: Seq<u8>) -> bool {
    bytes.len() >= 0x40 && bytes[0] == 0x4d && bytes[1] == 0x5a
}

pub fn looks_like_pe(bytes: &[u8]) -> (ok: bool)
    ensures
        ok == is_pe_like(bytes@),
{
    bytes.len() >= 0x40 && bytes[0] == 0x4d && bytes[1] == 0x5a
}

/// Why there is no live image.
#[derive(Clone, Copy, Debug, PartialEq, Eq, Structural)]
pub enum ImageError {
    /// The module's size is no length.
    TooLarge,
    /// The read failed.
    Unreadable,
    /// The read gave this many bytes instead of the second number.
    Short(usize, usize),
}

/// What the read of a module's live image comes to: it must have given all of
/// it.
pub open spec fn live_image_of(live: Option<Seq<u8>>, size: u64) -> Result<Seq<u8>, ImageError> {
    if size > usize::MAX {
        Err(ImageError::TooLarge)
    } else {
        match live {
            None => Err(ImageError::Unreadable),
            Some(bytes) => if bytes.len() == size {
                Ok(bytes)
            } else {
                Err(ImageError::Short(bytes.len() as usize, size as usize))
            },
        }
    }
}

/// Accepts what the read of a module's live image gave.
pub fn accept_image(live: Option<Vec<u8>>, size: u64) -> (image: Result<Vec<u8>, ImageError>)
    ensures
        match live_image_of(bytes_in(live), size) {
            Ok(bytes) => image is Ok && image->Ok_0@ == bytes,
            Err(error) => image is Err && image->Err_0 == error,
        },
{
    if size > usize::MAX as u64 {
        return Err(ImageError::TooLarge);
    }
    match live {
        None => Err(ImageError::Unreadable),
        Some(bytes) => if bytes.len() as u64 == size {
            Ok(bytes)
        } else {
            Err(ImageError::Short(bytes.len(), size as usize))
        },
    }
}

/// The records of a list of modules, each with its name in lower case.
pub open spec fn records_of(modules: Seq<ModuleInfo>) -> Seq<(Seq<char>, u64, u64)> {
    Seq::new(modules.len(), |i: int| (lower_text(modules[i].name@), modules[i].base, modules[i].size))
}

/// The contents of a list of records.
pub open spec fn record_texts(list: Seq<ModuleRecord>) -> Seq<(Seq<char>, u64, u64)> {
    Seq::new(list.len(), |i: int| (list[i].name@, list[i].base, list[i].size))
}

/// The modules as the walkers take them.
pub fn module_list(modules: &Vec<ModuleInfo>) -> (list: Vec<ModuleRecord>)
    ensures
        record_texts(list@) == records_of(modules@),
{
    let mut list: Vec<ModuleRecord> = Vec::new();
    let mut i: usize = 0;
    while i < modules.len()
        invariant
            i <= modules@.len(),
            record_texts(list@) == records_of(modules@).subrange(0, i as int),
        decreases modules@.len() - i,
    {
        let module = &modules[i];
        let record = ModuleRecord {
            name: ascii_lower(module.name.as_str()),
            base: module.base,
            size: module.size,
        };
        let ghost before = record_texts(list@);
        let ghost item = (record.name@, record.base, record.size);
        list.push(record);
        assert(record_texts(list@) =~= before.push(item));
        i = i + 1;
        assert(before.push(item) =~= records_of(modules@).subrange(0, i as int));
    }
    assert(records_of(modules@).subrange(0, i as int) =~= records_of(modules@));
    list
}

/// The image to scan for patterns, and where it comes from.
#[derive(Debug)]
pub enum PeImage {
    /// The live image, complete and with PE headers.
    Live(Vec<u8>),
    /// The module's file, mapped. It is not relocated.
    Disk(Vec<u8>),
    /// The live image, complete but without PE headers.
    Headless(Vec<u8>),
}

/// Why there is no image to scan.
#[derive(Clone, Copy, Debug, PartialEq, Eq, Structural)]
pub enum PeImageError {
    /// The live read gave this many bytes instead of the second number, which is
    /// zero where it is too large to be a length.
    Short(usize, usize),
    /// The live read failed.
    Unreadable,
    /// The file cannot be mapped.
    Disk(PeError),
}

/// A complete live image with PE headers.
pub open spec fn live_serves(live: Option<Seq<u8>>, size: u64) -> bool {
    live matches Some(bytes) && bytes.len() == size && is_pe_like(bytes)
}

/// Whether the live read serves, so that the file need not be read.
pub fn live_is_usable(live: &Option<Vec<u8>>, size: u64) -> (usable: bool)
    ensures
        usable == (match live {
            Some(bytes) => live_serves(Some(bytes@), size),
            None => false,
        }),
{
    match live {
        Some(bytes) => bytes.len() as u64 == size && looks_like_pe(bytes.as_slice()),
        None => false,
    }
}

/// Where an image that is scanned for patterns comes from.
#[derive(Clone, Copy, Debug, PartialEq, Eq, Structural)]
pub enum Origin {
    Live,
    Disk,
    Headless,
}

/// The bytes in an optional vector.
pub open spec fn bytes_in(bytes: Option<Vec<u8>>) -> Option<Seq<u8>> {
    match bytes {
        Some(b) => Some(b@),
        None => None,
    }
}

/// The image to scan for patterns: a live one that is complete and has PE
/// headers comes first, then the module's file where it could be read, then a
/// live one that is complete.
pub open spec fn pe_image_of(live: Option<Seq<u8>>, size: u64, disk: Option<Seq<u8>>) -> Result<
    (Origin, Seq<u8>),
    PeImageError,
> {
    if live_serves(live, size) {
        Ok((Origin::Live, live->0))
    } else if disk is Some && is_pe_like(disk->0) {
        match pe_file_headers(disk->0) {
            None => Err(PeImageError::Disk(PeError::Invalid)),
            Some((n, headers, sections)) => if !is_image_size(n) {
                Err(PeImageError::Disk(PeError::UnreasonableSize(n)))
            } else {
                Ok((Origin::Disk, mapped(disk->0, n, headers, sections)))
            },
        }
    } else if live is None {
        Err(PeImageError::Unreadable)
    } else if live->0.len() != size {
        Err(
            PeImageError::Short(
                live->0.len() as usize,
                if size <= usize::MAX {
                    size as usize
                } else {
                    0
                },
            ),
        )
    } else {
        Ok((Origin::Headless, live->0))
    }
}

impl PeImage {
    pub open spec fn parts(&self) -> (Origin, Seq<u8>) {
        match self {
            PeImage::Live(bytes) => (Origin::Live, bytes@),
            PeImage::Disk(bytes) => (Origin::Disk, bytes@),
            PeImage::Headless(bytes) => (Origin::Headless, bytes@),
        }
    }
}

/// Chooses the image to scan for patterns from what the live read gave, the
/// module's size, and the module's file where it could be read.
pub fn choose_pe_image(live: Option<Vec<u8>>, size: u64, disk: Option<Vec<u8>>) -> (image: Result<
    PeImage,
    PeImageError,
>)
    ensures
        match pe_image_of(bytes_in(live), size, bytes_in(disk)) {
            Ok(parts) => image is Ok && image->Ok_0.parts() == parts,
            Err(error) => image is Err && image->Err_0 == error,
        },
{
    let usable = live_is_usable(&live, size);
    if !usable {
        match &disk {
            Some(file) => {
                if looks_like_pe(file.as_slice()) {
                    return match map_file_pe_to_image(file.as_slice()) {
                        Ok(image) => Ok(PeImage::Disk(image)),
                        Err(error) => Err(PeImageError::Disk(error)),
                    };
                }
            },
            None => {},
        }
    }
    match live {
        None => Err(PeImageError::Unreadable),
        Some(bytes) => if usable {
            Ok(PeImage::Live(bytes))
        } else if bytes.len() as u64 != size {
            let expected: usize = if size <= usize::MAX as u64 {
                size as usize
            } else {
                0
            };
            Err(PeImageError::Short(bytes.len(), expected))
        } else {
            Ok(PeImage::Headless(bytes))
        },
    }
}

/// A name in lower case, as module names are kept.
pub fn ascii_lower_cow(name: &str) -> (lower: String)
    ensures
        lower@ == lower_text(name@),
{
    ascii_lower(name)
}

/// The images that one dump has read, by module name in lower case, and the
/// list of loaded modules. A session that is over holds nothing.
#[derive(Debug)]
pub struct ImageSession {
    pub live: StrMap<(u64, Vec<u8>)>,
    pub pe: StrMap<(u64, Vec<u8>)>,
    pub modules: Option<Vec<ModuleRecord>>,
}

/// What is kept under the name of a module is found under it whatever its case.
pub proof fn lemma_kept_is_found(
    images: Map<Seq<char>, (u64, Vec<u8>)>,
    module: Seq<char>,
    asked: Seq<char>,
    image: (u64, Vec<u8>),
)
    requires
        lower_text(module) == lower_text(asked),
    ensures
        images.insert(lower_text(module), image).contains_key(lower_text(asked)),
        images.insert(lower_text(module), image)[lower_text(asked)] == image,
{
}

impl ImageSession {
    pub open spec fn wf(&self) -> bool {
        self.live.wf() && self.pe.wf()
    }

    /// A session that has read nothing yet.
    pub fn begin() -> (session: Self)
        ensures
            session.wf(),
            session.live.map() == Map::<Seq<char>, (u64, Vec<u8>)>::empty(),
            session.pe.map() == Map::<Seq<char>, (u64, Vec<u8>)>::empty(),
            session.modules is None,
    {
        ImageSession { live: StrMap::new(), pe: StrMap::new(), modules: None }
    }

    /// Sets the list of loaded modules.
    pub fn publish_modules(&mut self, list: Vec<ModuleRecord>)
        requires
            old(self).wf(),
        ensures
            final(self).wf(),
            final(self).live == old(self).live,
            final(self).pe == old(self).pe,
            final(self).modules == Some(list),
    {
        self.modules = Some(list);
    }

    /// The live image of a module, if the session has read it.
    pub fn cached_live(&self, module: &str) -> (image: Option<&(u64, Vec<u8>)>)
        requires
            self.wf(),
        ensures
            image == (if self.live.map().contains_key(lower_text(module@)) {
                Some(&self.live.map()[lower_text(module@)])
            } else {
                None
            }),
    {
        let key = ascii_lower_cow(module);
        self.live.get(key.as_str())
    }

    /// The image of a module to scan for patterns, if the session has one: the
    /// live image where it begins like a PE file, else the one kept for this.
    pub fn cached_pe(&self, module: &str) -> (image: Option<&(u64, Vec<u8>)>)
        requires
            self.wf(),
        ensures
            ({
                let key = lower_text(module@);
                let live = self.live.map();
                let pe = self.pe.map();
                image == (if live.contains_key(key) && is_pe_like(live[key].1@) {
                    Some(&live[key])
                } else if pe.contains_key(key) {
                    Some(&pe[key])
                } else {
                    None
                })
            }),
    {
        let key = ascii_lower_cow(module);
        match self.live.get(key.as_str()) {
            Some(image) => {
                if looks_like_pe(image.1.as_slice()) {
                    return Some(image);
                }
            },
            None => {},
        }
        self.pe.get(key.as_str())
    }

    /// Keeps the live image of a module.
    pub fn keep_live(&mut self, module: &str, base: u64, image: Vec<u8>)
        requires
            old(self).wf(),
        ensures
            final(self).wf(),
            final(self).live.map() == old(self).live.map().insert(
                lower_text(module@),
                (base, image),
            ),
            final(self).pe == old(self).pe,
            final(self).modules == old(self).modules,
    {
        let key = ascii_lower_cow(module);
        let _previous = self.live.insert(key, (base, image));
    }

    /// Keeps the image of a module that is scanned for patterns.
    pub fn keep_pe(&mut self, module: &str, base: u64, image: Vec<u8>)
        requires
            old(self).wf(),
        ensures
            final(self).wf(),
            final(self).pe.map() == old(self).pe.map().insert(lower_text(module@), (base, image)),
            final(self).live == old(self).live,
            final(self).modules == old(self).modules,
    {
        let key = ascii_lower_cow(module);
        let _previous = self.pe.insert(key, (base, image));
    }

    /// The name of a loaded module as the published list spells it; none where
    /// no list is published or it does not hold the name.
    pub fn intern_loaded_name(&self, name: &str) -> (spelled: Option<String>)
        ensures
            match spelled {
                Some(s) => self.modules matches Some(list) && loaded_as(list@, name@, s@),
                None => self.modules matches Some(list) ==> forall|i: int|
                    0 <= i < list@.len() ==> lower_text((#[trigger] list@[i]).name@) != lower_text(
                        name@,
                    ),
            },
    {
        match &self.modules {
            None => None,
            Some(list) => find_loaded(list, name),
        }
    }
}

fn find_loaded(list: &Vec<ModuleRecord>, name: &str) -> (spelled: Option<String>)
    ensures
        match spelled {
            Some(s) => loaded_as(list@, name@, s@),
            None => forall|i: int|
                0 <= i < list@.len() ==> lower_text((#[trigger] list@[i]).name@) != lower_text(
                    name@,
                ),
        },
{
    let mut i: usize = 0;
    while i < list.len()
        invariant
            i <= list@.len(),
            forall|k: int|
                0 <= k < i ==> lower_text((#[trigger] list@[k]).name@) != lower_text(name@),
        decreases list@.len() - i,
    {
        if eq_ignore_case(list[i].name.as_str(), name) {
            let spelled = list[i].name.clone();
            assert(list@[i as int].name@ == spelled@);
            return Some(spelled);
        }
        i = i + 1;
    }
    None
}

/// The first module of this name, whatever its case, is spelled `spelled`.
pub open spec fn loaded_as(modules: Seq<ModuleRecord>, name: Seq<char>, spelled: Seq<char>) -> bool {
    exists|i: int|
        0 <= i < modules.len() && (#[trigger] modules[i]).name@ == spelled && lower_text(spelled)
            == lower_text(name) && forall|k: int|
            0 <= k < i ==> lower_text((#[trigger] modules[k]).name@) != lower_text(name)
}

/// One more image is kept under a key, and nothing else is changed.
pub open spec fn kept(
    before: Map<Seq<char>, (u64, Vec<u8>)>,
    after: Map<Seq<char>, (u64, Vec<u8>)>,
    key: Seq<char>,
    base: u64,
    bytes: Seq<u8>,
) -> bool {
    &&& after.contains_key(key)
    &&& after[key].0 == base
    &&& after[key].1@ == bytes
    &&& after.remove(key) == before.remove(key)
}

/// Reads the live image of a module into a session, unless it holds one: what
/// the read gave is kept where it is all of the image.
pub fn read_image(
    session: &mut ImageSession,
    module: &str,
    base: u64,
    size: u64,
    live: Option<Vec<u8>>,
) -> (done: Result<(), ImageError>)
    requires
        old(session).wf(),
    ensures
        final(session).wf(),
        final(session).pe == old(session).pe,
        final(session).modules == old(session).modules,
        ({
            let key = lower_text(module@);
            let before = old(session).live.map();
            if before.contains_key(key) {
                done is Ok && final(session).live == old(session).live
            } else {
                match live_image_of(bytes_in(live), size) {
                    Ok(bytes) => done is Ok && kept(
                        before,
                        final(session).live.map(),
                        key,
                        base,
                        bytes,
                    ),
                    Err(error) => done is Err && done->Err_0 == error && final(session).live == old(
                        session,
                    ).live,
                }
            }
        }),
{
    if session.cached_live(module).is_some() {
        return Ok(());
    }
    match accept_image(live, size) {
        Ok(image) => {
            session.keep_live(module, base, image);
            assert(session.live.map().remove(lower_text(module@)) =~= old(
                session,
            ).live.map().remove(lower_text(module@)));
            Ok(())
        },
        Err(error) => Err(error),
    }
}

/// Reads the image of a module that is scanned for patterns into a session,
/// unless it holds one. A live image with PE headers is kept as such too.
pub fn read_pe_image(
    session: &mut ImageSession,
    module: &str,
    base: u64,
    size: u64,
    live: Option<Vec<u8>>,
    disk: Option<Vec<u8>>,
) -> (done: Result<(), PeImageError>)
    requires
        old(session).wf(),
    ensures
        final(session).wf(),
        final(session).modules == old(session).modules,
        ({
            let key = lower_text(module@);
            let before = old(session).live.map();
            let known = before.contains_key(key) && is_pe_like(before[key].1@);
            if known || old(session).pe.map().contains_key(key) {
                done is Ok && *final(session) == *old(session)
            } else {
                match pe_image_of(bytes_in(live), size, bytes_in(disk)) {
                    Ok((origin, bytes)) => {
                        &&& done is Ok
                        &&& kept(
                            old(session).pe.map(),
                            final(session).pe.map(),
                            key,
                            base,
                            bytes,
                        )
                        &&& if origin == Origin::Live {
                            kept(before, final(session).live.map(), key, base, bytes)
                        } else {
                            final(session).live == old(session).live
                        }
                    },
                    Err(error) => done is Err && done->Err_0 == error && *final(session) == *old(
                        session,
                    ),
                }
            }
        }),
{
    if session.cached_pe(module).is_some() {
        return Ok(());
    }
    let ghost key = lower_text(module@);
    let ghost start = *session;
    match choose_pe_image(live, size, disk) {
        Ok(PeImage::Live(bytes)) => {
            let copy = bytes.clone();
            assert(copy@ =~= bytes@);
            session.keep_live(module, base, copy);
            session.keep_pe(module, base, bytes);
        },
        Ok(PeImage::Disk(bytes)) => {
            session.keep_pe(module, base, bytes);
        },
        Ok(PeImage::Headless(bytes)) => {
            session.keep_pe(module, base, bytes);
        },
        Err(error) => {
            return Err(error);
        },
    }
    assert(session.pe.map().remove(key) =~= start.pe.map().remove(key));
    assert(session.live.map().remove(key) =~= start.live.map().remove(key));
    Ok(())
}

/// Publishes the list of loaded modules in a session that has none.
pub fn cached_module_list(session: &mut ImageSession, modules: &Vec<ModuleInfo>)
    requires
        old(session).wf(),
    ensures
        final(session).wf(),
        final(session).live == old(session).live,
        final(session).pe == old(session).pe,
        match old(session).modules {
            Some(list) => final(session).modules == Some(list),
            None => final(session).modules is Some && record_texts(final(session).modules->0@)
                == records_of(modules@),
        },
{
    if session.modules.is_none() {
        session.publish_modules(module_list(modules));
    }
}

/// The ranges are those of the sections that can be written to, hold no code and
/// are not empty, in the order of the sections.
pub proof fn lemma_global_ranges(sections: Seq<(u32, u32, u32)>)
    ensures
        global_ranges(sections) == sections.filter(
            |s: (u32, u32, u32)| s.0 & 0x8000_0000 != 0 && s.0 & 0x2000_0000 == 0 && s.2 > 0,
        ).map_values(|s: (u32, u32, u32)| (s.1 as u64, s.2 as u64)),
    decreases sections.len(),
{
    reveal(Seq::filter);
    let keep = |s: (u32, u32, u32)|
        s.0 & 0x8000_0000 != 0 && s.0 & 0x2000_0000 == 0 && s.2 > 0;
    let place = |s: (u32, u32, u32)| (s.1 as u64, s.2 as u64);
    if sections.len() > 0 {
        let before = sections.drop_last();
        lemma_global_ranges(before);
        assert(before.filter(keep).push(sections.last()).map_values(place) =~= before.filter(
            keep,
        ).map_values(place).push(place(sections.last())));
    } else {
        assert(global_ranges(sections) =~= sections.filter(keep).map_values(place));
    }
}

/// Byte `i` of a section's raw data stands at byte `i` of its virtual address,
/// where the section has that much of both, file and image reach that far, and no
/// later section lies over it.
pub proof fn lemma_mapped_byte(
    file: Seq<u8>,
    size: u32,
    headers: u32,
    sections: Seq<Section>,
    k: int,
    i: int,
)
    requires
        0 <= k < sections.len(),
        0 <= i < sections[k].1,
        i < sections[k].3,
        sections[k].0 + i < size,
        sections[k].2 + i < file.len(),
        forall|j: int|
            k < j < sections.len() ==> !((#[trigger] sections[j]).0 <= sections[k].0 + i
                < sections[j].0 + sections[j].1),
    ensures
        mapped(file, size, headers, sections).len() == size,
        mapped(file, size, headers, sections)[sections[k].0 + i] == file[sections[k].2 + i],
{
    let blank = Seq::new(size as nat, |i: int| 0u8);
    let head = header_length(file.len() as int, size as int, headers);
    let image = written(blank, 0, file.subrange(0, head));
    let a = sections[k].0 + i;
    let n = sections.len();
    assert(covers(file.len() as int, image.len() as int, sections[k], a));
    assert forall|j: int| k < j < n implies !covers(
        file.len() as int,
        image.len() as int,
        #[trigger] sections[j],
        a,
    ) by {
        assert(!(sections[j].0 <= a < sections[j].0 + sections[j].1));
    }
    lemma_section_at_address(file, image, sections, n, k, a);
    lemma_mapping_keeps_length(file, image, sections, n);
}

/// A byte that no section lies over is that of the headers, and zero behind them.
pub proof fn lemma_mapped_header(
    file: Seq<u8>,
    size: u32,
    headers: u32,
    sections: Seq<Section>,
    a: int,
)
    requires
        0 <= a < size,
        forall|j: int|
            0 <= j < sections.len() ==> !((#[trigger] sections[j]).0 <= a < sections[j].0
                + sections[j].1),
    ensures
        mapped(file, size, headers, sections)[a] == (if a < headers && a < file.len() {
            file[a]
        } else {
            0
        }),
{
    let blank = Seq::new(size as nat, |i: int| 0u8);
    let head = header_length(file.len() as int, size as int, headers);
    let image = written(blank, 0, file.subrange(0, head));
    assert forall|j: int| 0 <= j < sections.len() implies !covers(
        file.len() as int,
        image.len() as int,
        #[trigger] sections[j],
        a,
    ) by {
        assert(!(sections[j].0 <= a < sections[j].0 + sections[j].1));
    }
    lemma_uncovered(file, image, sections, sections.len(), a);
}

/// The part of a section behind its raw data reads as zeros, where nothing else
/// lies over it.
pub proof fn lemma_mapped_padding(
    file: Seq<u8>,
    size: u32,
    headers: u32,
    sections: Seq<Section>,
    k: int,
    i: int,
)
    requires
        0 <= k < sections.len(),
        sections[k].3 <= i < sections[k].1,
        sections[k].0 + i < size,
        headers <= sections[k].0 + i,
        forall|j: int|
            0 <= j < sections.len() && j != k ==> !((#[trigger] sections[j]).0 <= sections[k].0 + i
                < sections[j].0 + sections[j].1),
    ensures
        mapped(file, size, headers, sections)[sections[k].0 + i] == 0,
{
    let blank = Seq::new(size as nat, |i: int| 0u8);
    let head = header_length(file.len() as int, size as int, headers);
    let image = written(blank, 0, file.subrange(0, head));
    let a = sections[k].0 + i;
    assert forall|j: int| 0 <= j < sections.len() implies !covers(
        file.len() as int,
        image.len() as int,
        #[trigger] sections[j],
        a,
    ) by {
        if j != k {
            assert(!(sections[j].0 <= a < sections[j].0 + sections[j].1));
        }
    }
    lemma_uncovered(file, image, sections, sections.len(), a);
}

/// The image to scan: a complete live one that begins like a PE file, whatever
/// the file is; else, where there is no such file, a complete live one; and an
/// incomplete or missing one is an error that says how much came.
pub proof fn lemma_image_chosen(live: Option<Seq<u8>>, size: u64, disk: Option<Seq<u8>>)
    ensures
        live is Some && live->0.len() == size && is_pe_like(live->0) ==> pe_image_of(
            live,
            size,
            disk,
        ) == Ok::<(Origin, Seq<u8>), PeImageError>((Origin::Live, live->0)),
        disk is None && live is Some && live->0.len() == size && !is_pe_like(live->0)
            ==> pe_image_of(live, size, disk) == Ok::<(Origin, Seq<u8>), PeImageError>(
            (Origin::Headless, live->0),
        ),
        disk is None && live is None ==> pe_image_of(live, size, disk) == Err::<
            (Origin, Seq<u8>),
            PeImageError,
        >(PeImageError::Unreadable),
        disk is None && live is Some && live->0.len() != size && size <= usize::MAX ==> pe_image_of(
            live,
            size,
            disk,
        ) == Err::<(Origin, Seq<u8>), PeImageError>(
            PeImageError::Short(live->0.len() as usize, size as usize),
        ),
        pe_image_of(live, size, disk) matches Ok((Origin::Headless, bytes)) ==> live == Some(bytes)
            && bytes.len() == size,
{
}

/// A name is spelled as the first module of that name spells it, whatever its
/// case, and stays as it is where no module has it.
pub proof fn lemma_interned(modules: Seq<ModuleRecord>, name: Seq<char>, i: int)
    ensures
        0 <= i < modules.len() && lower_text(modules[i].name@) == lower_text(name) && (forall|
            j: int,
        |
            0 <= j < i ==> lower_text((#[trigger] modules[j]).name@) != lower_text(name))
            ==> interned(modules, name) == modules[i].name@,
        (forall|j: int|
            0 <= j < modules.len() ==> lower_text((#[trigger] modules[j]).name@) != lower_text(
                name,
            )) ==> interned(modules, name) == name,
{
    if 0 <= i < modules.len() && lower_text(modules[i].name@) == lower_text(name) && (forall|j: int|
        0 <= j < i ==> lower_text((#[trigger] modules[j]).name@) != lower_text(name)) {
        lemma_interned_at(modules, name, i, 0);
    }
    if forall|j: int|
        0 <= j < modules.len() ==> lower_text((#[trigger] modules[j]).name@) != lower_text(name) {
        lemma_not_interned(modules, name, 0);
    }
}

proof fn lemma_interned_at(modules: Seq<ModuleRecord>, name: Seq<char>, i: int, k: int)
    requires
        0 <= k <= i < modules.len(),
        lower_text(modules[i].name@) == lower_text(name),
        forall|j: int| 0 <= j < i ==> lower_text((#[trigger] modules[j]).name@) != lower_text(name),
    ensures
        interned_from(modules, name, k) == modules[i].name@,
    decreases i - k,
{
    if k < i {
        assert(lower_text(modules[k].name@) != lower_text(name));
        lemma_interned_at(modules, name, i, k + 1);
    }
}

proof fn lemma_not_interned(modules: Seq<ModuleRecord>, name: Seq<char>, k: int)
    requires
        0 <= k <= modules.len(),
        forall|j: int|
            0 <= j < modules.len() ==> lower_text((#[trigger] modules[j]).name@) != lower_text(name),
    ensures
        interned_from(modules, name, k) == name,
    decreases modules.len() - k,
{
    if k < modules.len() {
        assert(lower_text(modules[k].name@) != lower_text(name));
        lemma_not_interned(modules, name, k + 1);
    }
}

/// A file is mapped where its image has from one byte to 512 MiB.
pub proof fn lemma_image_size(size: u32)
    ensures
        is_image_size(size) <==> 1 <= size <= 512 * 1024 * 1024,
{
}

} // verus!
