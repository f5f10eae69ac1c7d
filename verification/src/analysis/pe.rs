//! What the PE headers of an image say, and pattern matches in its code.
//!
//! The headers are parsed and the patterns matched by `pelite`. It refers to
//! them in place, so each call hands it a copy in which they are aligned: the
//! answer then depends on the bytes alone.

use crate::analysis::protobufs::lemma_number;
use crate::analysis::read::{le2, le4, u16_le_at, u32_le_at};
use crate::memory::fake::bytes4;
use crate::text::{chars_of, stands_at};
use memflow::dataview::PodMethods;
use pelite::pe64::{Pe, PeFile, PeView};
use pelite::pe64::exports::Export;
use vstd::prelude::*;

verus! {

/// A section header: virtual address, virtual size, place and size of the raw
/// data, characteristics.
pub type Section = (u32, u32, u32, u32, u32);

/// Where the PE headers of an image begin.
pub open spec fn nt_at(image: Seq<u8>) -> int {
    le4(image, 0x3C)
}

/// An image of a 64-bit module, as `pelite` tells one: the two signatures and
/// the magic number are there, and the headers, the data directory and the
/// section headers lie in it.
pub open spec fn is_pe64(image: Seq<u8>) -> bool {
    let nt = nt_at(image);
    let entries = if le4(image, nt + 132) < 16 {
        le4(image, nt + 132)
    } else {
        16
    };
    &&& image.len() >= 64
    &&& le2(image, 0) == 0x5A4D
    &&& nt % 4 == 0
    &&& nt <= 0x0100_0000
    &&& nt + 136 <= image.len()
    &&& le4(image, nt) == 0x4550
    &&& le2(image, nt + 24) == 0x20B
    &&& le4(image, nt + 84) <= image.len()
    &&& le4(image, nt + 84) <= le4(image, nt + 80)
    &&& nt + 136 + 8 * entries <= image.len()
    &&& le2(image, nt + 6) <= 96
    &&& nt + 24 + le2(image, nt + 20) + 40 * le2(image, nt + 6) <= image.len()
}

/// How far into an aligned buffer an image is put for its headers to stand at a
/// multiple of eight there, as their 64-bit fields demand. `pelite` takes them
/// at every multiple of four.
pub open spec fn header_shift(image: Seq<u8>) -> int {
    if image.len() >= 64 && nt_at(image) % 8 == 4 {
        4
    } else {
        0
    }
}

/// The section headers of an image stand at a multiple of four, as their fields
/// demand.
pub open spec fn sections_aligned(image: Seq<u8>) -> bool {
    le2(image, nt_at(image) + 20) % 4 == 0
}

/// Section header `i` of an image.
pub open spec fn section_at(image: Seq<u8>, i: int) -> Section {
    let nt = nt_at(image);
    let at = nt + 24 + le2(image, nt + 20) + 40 * i;
    (
        le4(image, at + 12) as u32,
        le4(image, at + 8) as u32,
        le4(image, at + 20) as u32,
        le4(image, at + 16) as u32,
        le4(image, at + 36) as u32,
    )
}

/// The section headers of an image.
pub open spec fn section_list(image: Seq<u8>) -> Seq<Section> {
    Seq::new(le2(image, nt_at(image) + 6) as nat, |i: int| section_at(image, i))
}

/// The section headers of a mapped image, where they are aligned.
pub open spec fn pe_sections(image: Seq<u8>) -> Option<Seq<Section>> {
    if is_pe64(image) && sections_aligned(image) {
        Some(section_list(image))
    } else {
        None
    }
}

/// The size of the image and of the headers, and the section headers, that a
/// file gives, where the latter are aligned.
pub open spec fn pe_file_headers(file: Seq<u8>) -> Option<(u32, u32, Seq<Section>)> {
    let nt = nt_at(file);
    if is_pe64(file) && sections_aligned(file) {
        Some((le4(file, nt + 80) as u32, le4(file, nt + 84) as u32, section_list(file)))
    } else {
        None
    }
}

/// Where the code of a mapped image begins and ends by its headers.
pub open spec fn pe_code_range(image: Seq<u8>) -> Option<(u32, u32)> {
    let base = le4(image, nt_at(image) + 44);
    let size = le4(image, nt_at(image) + 28);
    if is_pe64(image) {
        Some((base as u32, ((base + size) % 0x1_0000_0000) as u32))
    } else {
        None
    }
}

/// The address and size of the export directory of a mapped image.
pub open spec fn pe_export_directory(image: Seq<u8>) -> Option<(u32, u32)> {
    let nt = nt_at(image);
    if is_pe64(image) && le4(image, nt + 132) > 0 {
        Some((le4(image, nt + 136) as u32, le4(image, nt + 140) as u32))
    } else {
        None
    }
}

/// The address of the function that a mapped image exports by name.
pub uninterp spec fn pe_export(image: Seq<u8>, name: Seq<char>) -> Option<u32>;

/// Where the only match of a pattern in the code of a mapped image stands, and
/// the first place that it captures.
pub uninterp spec fn pe_unique_match(image: Seq<u8>, pattern: Seq<char>) -> Option<(u32, u32)>;

/// Where the first match of a pattern in a part of a mapped image stands, and
/// the first place that it captures.
pub uninterp spec fn pe_first_match(
    image: Seq<u8>,
    pattern: Seq<char>,
    start: u32,
    end: u32,
) -> Option<(u32, u32)>;

/// A character of the patterns that are used here: hexadecimal bytes, `?` and
/// `[..]` for bytes to skip, `${..}` for what a jump leads to, `'` and `u` for
/// what is captured. Alignment tests are not among them.
pub open spec fn pattern_char(c: char) -> bool {
    ||| '0' <= c <= '9'
    ||| 'a' <= c <= 'f'
    ||| c == 'u' || c == ' ' || c == '?' || c == '$' || c == '{' || c == '}' || c == '[' || c == ']'
        || c == '\''
}

/// A pattern of such characters, short enough for the depth of its jumps to fit
/// a byte.
pub open spec fn plain_pattern(pattern: Seq<char>) -> bool {
    pattern.len() <= 255 && forall|i: int| 0 <= i < pattern.len() ==> pattern_char(#[trigger] pattern[i])
}

/// A part of an image in which `pelite` can search: it begins before it ends,
/// and in the image.
pub open spec fn searchable(image: Seq<u8>, start: u32, end: u32) -> bool {
    image.len() <= u32::MAX && start <= end && start <= image.len()
}

/// Calls `PeView::from_bytes` and `Pe::section_headers`, and hands out the
/// fields of each header. `from_bytes` takes the images of [`is_pe64`], and the
/// headers stand behind the optional header.
#[verifier::external_body]
fn section_headers(image: &[u8], shift: usize) -> (sections: Option<Vec<Section>>)
    requires
        shift == header_shift(image@),
        is_pe64(image@) ==> sections_aligned(image@),
    ensures
        match sections {
            Some(list) => is_pe64(image@) && list@ == section_list(image@),
            None => !is_pe64(image@),
        },
{
    let mut words = vec![0u64; (shift + image.len()).div_ceil(8)];
    words.as_bytes_mut()[shift..][..image.len()].copy_from_slice(image);
    let view = PeView::from_bytes(&words.as_bytes()[shift..][..image.len()]).ok()?;
    let fields = view.section_headers().iter().map(|s| {
        (s.VirtualAddress, s.VirtualSize, s.PointerToRawData, s.SizeOfRawData, s.Characteristics)
    });
    Some(fields.collect())
}

/// Calls `PeFile::from_bytes`, `Pe::optional_header` and `Pe::section_headers`,
/// and hands out `SizeOfImage`, `SizeOfHeaders` and the fields of each section
/// header. `from_bytes` takes the files of [`is_pe64`].
#[verifier::external_body]
fn optional_header(file: &[u8], shift: usize) -> (headers: Option<(u32, u32, Vec<Section>)>)
    requires
        shift == header_shift(file@),
        is_pe64(file@) ==> sections_aligned(file@),
    ensures
        match headers {
            Some((size, header_size, list)) => pe_file_headers(file@) == Some(
                (size, header_size, list@),
            ),
            None => pe_file_headers(file@) is None,
        },
{
    let mut words = vec![0u64; (shift + file.len()).div_ceil(8)];
    words.as_bytes_mut()[shift..][..file.len()].copy_from_slice(file);
    let pe = PeFile::from_bytes(&words.as_bytes()[shift..][..file.len()]).ok()?;
    let fields = pe.section_headers().iter().map(|s| {
        (s.VirtualAddress, s.VirtualSize, s.PointerToRawData, s.SizeOfRawData, s.Characteristics)
    });
    let optional = pe.optional_header();
    Some((optional.SizeOfImage, optional.SizeOfHeaders, fields.collect()))
}

/// Calls `PeView::from_bytes` and `Headers::code_range`: from `BaseOfCode` on,
/// `SizeOfCode` bytes, where the sum wraps.
#[verifier::external_body]
fn code_range(image: &[u8], shift: usize) -> (range: Option<(u32, u32)>)
    requires
        shift == header_shift(image@),
    ensures
        range == pe_code_range(image@),
{
    let mut words = vec![0u64; (shift + image.len()).div_ceil(8)];
    words.as_bytes_mut()[shift..][..image.len()].copy_from_slice(image);
    let view = PeView::from_bytes(&words.as_bytes()[shift..][..image.len()]).ok()?;
    let range = view.headers().code_range();
    Some((range.start, range.end))
}

/// Calls `PeView::from_bytes` and `Pe::data_directory`, and takes the first
/// entry, that of the exports. `None` also stands for an image without entries.
#[verifier::external_body]
fn export_directory(image: &[u8], shift: usize) -> (directory: Option<(u32, u32)>)
    requires
        shift == header_shift(image@),
    ensures
        directory == pe_export_directory(image@),
{
    let mut words = vec![0u64; (shift + image.len()).div_ceil(8)];
    words.as_bytes_mut()[shift..][..image.len()].copy_from_slice(image);
    let view = PeView::from_bytes(&words.as_bytes()[shift..][..image.len()]).ok()?;
    let entry = view.data_directory().get(pelite::image::IMAGE_DIRECTORY_ENTRY_EXPORT)?;
    Some((entry.VirtualAddress, entry.Size))
}

/// Calls `Pe::exports`, `Exports::by` and `By::name`, and takes the address of a
/// symbol. `None` stands for a failure of one of them and for an export that is
/// forwarded to another module. The calls add the place and the size of the
/// export directory, so these must not overflow.
#[verifier::external_body]
fn export_by_name(image: &[u8], shift: usize, name: &str) -> (rva: Option<u32>)
    requires
        shift == header_shift(image@),
        pe_export_directory(image@) matches Some((start, size)) && start + size <= u32::MAX,
    ensures
        rva == pe_export(image@, name@),
{
    let mut words = vec![0u64; (shift + image.len()).div_ceil(8)];
    words.as_bytes_mut()[shift..][..image.len()].copy_from_slice(image);
    let view = PeView::from_bytes(&words.as_bytes()[shift..][..image.len()]).ok()?;
    match view.exports().ok()?.by().ok()?.name(name).ok()? {
        Export::Symbol(symbol) => Some(*symbol),
        Export::Forward(_) => None,
    }
}

/// Calls `pattern::parse` and `Scanner::finds_code`, and hands out the first two
/// places of the save array. `None` stands for a pattern that does not parse and
/// for one that has no match or several. The search slices the image by its code
/// range, which must lie in it.
#[verifier::external_body]
fn finds_code(image: &[u8], shift: usize, pattern: &str) -> (found: Option<(u32, u32)>)
    requires
        shift == header_shift(image@),
        plain_pattern(pattern@),
        pe_code_range(image@) matches Some((start, end)) && searchable(image@, start, end),
    ensures
        found == pe_unique_match(image@, pattern@),
{
    let mut words = vec![0u64; (shift + image.len()).div_ceil(8)];
    words.as_bytes_mut()[shift..][..image.len()].copy_from_slice(image);
    let view = PeView::from_bytes(&words.as_bytes()[shift..][..image.len()]).ok()?;
    let atoms = pelite::pattern::parse(pattern).ok()?;
    let mut save = [0u32; 2];
    view.scanner().finds_code(&atoms, &mut save).then_some((save[0], save[1]))
}

/// Calls `pattern::parse`, `Scanner::matches` and `Matches::next`, and hands out
/// the first two places of the save array. `None` stands for a pattern that does
/// not parse and for one that has no match. The search slices the image by the
/// given range, which must lie in it.
#[verifier::external_body]
fn first_match(image: &[u8], shift: usize, pattern: &str, start: u32, end: u32) -> (found: Option<
    (u32, u32),
>)
    requires
        shift == header_shift(image@),
        plain_pattern(pattern@),
        searchable(image@, start, end),
    ensures
        found == pe_first_match(image@, pattern@, start, end),
{
    let mut words = vec![0u64; (shift + image.len()).div_ceil(8)];
    words.as_bytes_mut()[shift..][..image.len()].copy_from_slice(image);
    let view = PeView::from_bytes(&words.as_bytes()[shift..][..image.len()]).ok()?;
    let atoms = pelite::pattern::parse(pattern).ok()?;
    let mut save = [0u32; 2];
    view.scanner().matches(&atoms, start..end).next(&mut save).then_some((save[0], save[1]))
}

fn shift_of(image: &[u8]) -> (shift: usize)
    ensures
        shift == header_shift(image@),
{
    match u32_le_at(image, 0x3C) {
        Some(nt) => if nt % 8 == 4 {
            4
        } else {
            0
        },
        None => 0,
    }
}

fn has_aligned_sections(image: &[u8]) -> (aligned: bool)
    ensures
        is_pe64(image@) ==> aligned == sections_aligned(image@),
{
    match u32_le_at(image, 0x3C) {
        Some(nt) => if nt <= 0x0100_0000 {
            match u16_le_at(image, nt as usize + 20) {
                Some(size) => size % 4 == 0,
                None => false,
            }
        } else {
            false
        },
        None => false,
    }
}

/// The section headers of a mapped image.
pub(crate) fn view_sections(image: &[u8]) -> (sections: Option<Vec<Section>>)
    ensures
        match sections {
            Some(list) => pe_sections(image@) == Some(list@),
            None => pe_sections(image@) is None,
        },
{
    if !has_aligned_sections(image) {
        return None;
    }
    section_headers(image, shift_of(image))
}

/// The sizes and section headers that a file gives.
pub(crate) fn file_headers(file: &[u8]) -> (headers: Option<(u32, u32, Vec<Section>)>)
    ensures
        match headers {
            Some((size, header_size, list)) => pe_file_headers(file@) == Some(
                (size, header_size, list@),
            ),
            None => pe_file_headers(file@) is None,
        },
{
    if !has_aligned_sections(file) {
        return None;
    }
    optional_header(file, shift_of(file))
}

/// Whether an image is one of a 64-bit module.
pub fn is_image(image: &[u8]) -> (yes: bool)
    ensures
        yes == is_pe64(image@),
{
    code_range(image, shift_of(image)).is_some()
}

/// The code range of an image, where it can be searched.
pub open spec fn code_of(image: Seq<u8>) -> Option<(u32, u32)> {
    match pe_code_range(image) {
        Some((start, end)) => if searchable(image, start, end) {
            Some((start, end))
        } else {
            None
        },
        None => None,
    }
}

fn searchable_code(image: &[u8]) -> (range: Option<(u32, u32)>)
    ensures
        range == code_of(image@),
{
    match code_range(image, shift_of(image)) {
        Some((start, end)) => if image.len() as u64 <= 0xFFFF_FFFF && start <= end && start as u64
            <= image.len() as u64 {
            Some((start, end))
        } else {
            None
        },
        None => None,
    }
}

fn is_plain(pattern: &str) -> (plain: bool)
    ensures
        plain == plain_pattern(pattern@),
{
    let chars = chars_of(pattern);
    if chars.len() > 255 {
        return false;
    }
    let mut i: usize = 0;
    while i < chars.len()
        invariant
            i <= chars@.len(),
            chars@ == pattern@,
            forall|k: int| 0 <= k < i ==> pattern_char(#[trigger] chars@[k]),
        decreases chars@.len() - i,
    {
        let c: char = chars[i];
        if !(('0' <= c && c <= '9') || ('a' <= c && c <= 'f') || c == 'u' || c == ' ' || c == '?'
            || c == '$' || c == '{' || c == '}' || c == '[' || c == ']' || c == '\'') {
            assert(!pattern_char(chars@[i as int]));
            return false;
        }
        i = i + 1;
    }
    true
}

/// What the only match of a pattern in the code of an image captures; none
/// where there is no match or several, and where the headers place the code
/// outside the image.
pub open spec fn captured(image: Seq<u8>, pattern: Seq<char>) -> Option<u32> {
    if plain_pattern(pattern) && code_of(image) is Some {
        match pe_unique_match(image, pattern) {
            Some((_, place)) => Some(place),
            None => None,
        }
    } else {
        None
    }
}

/// What the only match of a pattern in the code of an image captures.
pub fn find_code(image: &[u8], pattern: &str) -> (place: Option<u32>)
    ensures
        place == captured(image@, pattern@),
{
    if !is_plain(pattern) {
        return None;
    }
    match searchable_code(image) {
        Some(_) => match finds_code(image, shift_of(image), pattern) {
            Some((_, place)) => Some(place),
            None => None,
        },
        None => None,
    }
}

/// What the matches of a pattern from `from` on capture, in order, where each
/// search goes on one byte behind the match before it.
pub open spec fn captures_from(image: Seq<u8>, pattern: Seq<char>, from: u32, end: u32) -> Seq<u32>
    decreases end - from,
{
    if !searchable(image, from, end) {
        Seq::empty()
    } else {
        match pe_first_match(image, pattern, from, end) {
            Some((at, place)) => if from <= at < end {
                seq![place] + captures_from(image, pattern, (at + 1) as u32, end)
            } else {
                Seq::empty()
            },
            None => Seq::empty(),
        }
    }
}

/// What all matches of a pattern in the code of an image capture.
pub open spec fn all_captured(image: Seq<u8>, pattern: Seq<char>) -> Seq<u32> {
    match code_of(image) {
        Some((start, end)) => if plain_pattern(pattern) {
            captures_from(image, pattern, start, end)
        } else {
            Seq::empty()
        },
        None => Seq::empty(),
    }
}

/// What all matches of a pattern in the code of an image capture, in order.
pub fn find_all_code(image: &[u8], pattern: &str) -> (places: Vec<u32>)
    ensures
        places@ == all_captured(image@, pattern@),
{
    let mut places: Vec<u32> = Vec::new();
    if !is_plain(pattern) {
        return places;
    }
    let (start, end) = match searchable_code(image) {
        Some(range) => range,
        None => {
            return places;
        },
    };
    let mut from: u32 = start;
    assert(places@ + captures_from(image@, pattern@, start, end) =~= captures_from(
        image@,
        pattern@,
        start,
        end,
    ));
    while from <= end && from as u64 <= image.len() as u64
        invariant
            plain_pattern(pattern@),
            image@.len() <= u32::MAX,
            places@ + captures_from(image@, pattern@, from, end) == captures_from(
                image@,
                pattern@,
                start,
                end,
            ),
        ensures
            places@ =~= captures_from(image@, pattern@, start, end),
        decreases end - from,
    {
        match first_match(image, shift_of(image), pattern, from, end) {
            Some((at, place)) => {
                if at < from || at >= end {
                    break ;
                }
                let ghost was = places@;
                places.push(place);
                from = at + 1;
                assert(was + (seq![place] + captures_from(image@, pattern@, from, end))
                    =~= places@ + captures_from(image@, pattern@, from, end));
            },
            None => {
                break ;
            },
        }
    }
    places
}

/// The address of the function that an image exports by name; none where it
/// exports no such function, or where its export directory leaves the address
/// space.
pub open spec fn exported(image: Seq<u8>, name: Seq<char>) -> Option<u32> {
    match pe_export_directory(image) {
        Some((start, size)) => if start + size <= u32::MAX {
            pe_export(image, name)
        } else {
            None
        },
        None => None,
    }
}

pub fn find_export(image: &[u8], name: &str) -> (rva: Option<u32>)
    ensures
        rva == exported(image@, name@),
{
    match export_directory(image, shift_of(image)) {
        Some((start, size)) => if start as u64 + size as u64 <= 0xFFFF_FFFF {
            export_by_name(image, shift_of(image), name)
        } else {
            None
        },
        None => None,
    }
}

/// The matches are those of a pattern from `from` on: each is the first behind the
/// one before it, and behind the last there is none.
pub open spec fn follow(
    image: Seq<u8>,
    pattern: Seq<char>,
    matches: Seq<(u32, u32)>,
    from: u32,
    end: u32,
) -> bool
    decreases matches.len(),
{
    if matches.len() == 0 {
        from > end || from > image.len() || pe_first_match(image, pattern, from, end) is None
    } else {
        let first = matches[0];
        &&& from <= first.0 < end
        &&& first.0 <= image.len()
        &&& pe_first_match(image, pattern, from, end) == Some(first)
        &&& follow(image, pattern, matches.drop_first(), (first.0 + 1) as u32, end)
    }
}

/// All matches of a pattern give their captures, in the order of the code.
pub proof fn lemma_all_matches(
    image: Seq<u8>,
    pattern: Seq<char>,
    matches: Seq<(u32, u32)>,
    from: u32,
    end: u32,
)
    requires
        image.len() <= u32::MAX,
        follow(image, pattern, matches, from, end),
    ensures
        captures_from(image, pattern, from, end) == Seq::new(
            matches.len(),
            |i: int| matches[i].1,
        ),
    decreases matches.len(),
{
    let want = Seq::new(matches.len(), |i: int| matches[i].1);
    if matches.len() == 0 {
        assert(captures_from(image, pattern, from, end) =~= want);
    } else {
        let first = matches[0];
        let rest = matches.drop_first();
        lemma_all_matches(image, pattern, rest, (first.0 + 1) as u32, end);
        assert(seq![first.1] + Seq::new(rest.len(), |i: int| rest[i].1) =~= want);
    }
}

proof fn lemma_code_of(image: Seq<u8>, base: u32, size: u32)
    requires
        pe_code_range(image) == Some((base, ((base + size) % 0x1_0000_0000) as u32)),
    ensures
        code_of(image) == if image.len() <= u32::MAX && base <= image.len() && base + size
            <= u32::MAX {
            Some((base, (base + size) as u32))
        } else {
            None
        },
{
    let end = (base + size) % 0x1_0000_0000;
    if base + size > u32::MAX {
        assert(end == base + size - 0x1_0000_0000);
    } else {
        assert(end == base + size);
    }
}

/// Code is searched where the headers place it: from its base, at nt + 44, over its
/// size, at nt + 28, unless it begins behind the image or ends behind the
/// addresses.
pub proof fn lemma_code_searched(image: Seq<u8>, base: u32, size: u32)
    requires
        is_pe64(image),
        stands_at(image, bytes4(base as int), nt_at(image) + 44),
        stands_at(image, bytes4(size as int), nt_at(image) + 28),
    ensures
        code_of(image) == if image.len() <= u32::MAX && base <= image.len() && base + size
            <= u32::MAX {
            Some((base, (base + size) as u32))
        } else {
            None
        },
{
    lemma_number(image, nt_at(image) + 44, base as int);
    lemma_number(image, nt_at(image) + 28, size as int);
    lemma_code_of(image, base, size);
}

/// A pattern captures what its only match in the code does, and nothing where the
/// code cannot be searched; all its matches are looked for in the same code.
pub proof fn lemma_captured(image: Seq<u8>, pattern: Seq<char>, start: u32, end: u32)
    requires
        plain_pattern(pattern),
    ensures
        code_of(image) is None ==> captured(image, pattern) is None && all_captured(
            image,
            pattern,
        ).len() == 0,
        code_of(image) == Some((start, end)) ==> {
            &&& pe_unique_match(image, pattern) is None ==> captured(image, pattern) is None
            &&& forall|at: u32, place: u32| #[trigger]
                pe_unique_match(image, pattern) == Some((at, place)) ==> captured(image, pattern)
                    == Some(place)
            &&& forall|matches: Seq<(u32, u32)>| #[trigger]
                follow(image, pattern, matches, start, end) ==> all_captured(image, pattern)
                    == Seq::new(matches.len(), |i: int| matches[i].1)
        },
{
    if code_of(image) == Some((start, end)) {
        assert forall|matches: Seq<(u32, u32)>| #[trigger]
            follow(image, pattern, matches, start, end) implies all_captured(image, pattern)
            == Seq::new(matches.len(), |i: int| matches[i].1) by {
            lemma_all_matches(image, pattern, matches, start, end);
        }
    }
}

/// A function is looked up in the export directory that the headers name, unless
/// there is none or it leaves the addresses.
pub proof fn lemma_export_looked_up(image: Seq<u8>, name: Seq<char>, start: u32, size: u32, n: u32)
    requires
        is_pe64(image),
        stands_at(image, bytes4(n as int), nt_at(image) + 132),
        stands_at(image, bytes4(start as int), nt_at(image) + 136),
        stands_at(image, bytes4(size as int), nt_at(image) + 140),
    ensures
        exported(image, name) == if n > 0 && start + size <= u32::MAX {
            pe_export(image, name)
        } else {
            None
        },
{
    lemma_number(image, nt_at(image) + 132, n as int);
    lemma_number(image, nt_at(image) + 136, start as int);
    lemma_number(image, nt_at(image) + 140, size as int);
}

} // verus!
