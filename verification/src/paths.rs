//! Paths as text, read by the rules of Windows or of Unix.
//!
//! A path is a list of components: on Windows it can begin with a prefix, such
//! as a drive or a share, and it can have a root; `.` counts only at the start of
//! a path that has none. Two paths are ordered by their components.

use crate::text::{
    ascii_lower, chars_of, lemma_str_order, lemma_str_total, lower_text, str_before, str_place,
    Place,
};
use vstd::prelude::*;
use vstd::string::*;

verus! {

/// The rules by which a path is read.
#[derive(Clone, Copy, Debug, PartialEq, Eq, Structural)]
pub enum Style {
    Windows,
    Unix,
}

/// A separator of a path.
pub open spec fn separates(style: Style, c: char) -> bool {
    c == '/' || (style == Style::Windows && c == '\\')
}

/// A character that ends a component: behind the prefix of a verbatim path only
/// the backslash does.
pub open spec fn splits(style: Style, verbatim: bool, c: char) -> bool {
    if verbatim {
        c == '\\'
    } else {
        separates(style, c)
    }
}

fn is_split(style: Style, verbatim: bool, c: char) -> (yes: bool)
    ensures
        yes == splits(style, verbatim, c),
{
    if verbatim {
        c == '\\'
    } else {
        c == '/' || (style == Style::Windows && c == '\\')
    }
}

/// Where the component that holds `i` ends.
pub open spec fn split_from(path: Seq<char>, style: Style, verbatim: bool, i: int) -> int
    decreases path.len() - i,
{
    if i >= path.len() || splits(style, verbatim, path[i]) {
        i
    } else {
        split_from(path, style, verbatim, i + 1)
    }
}

fn find_split(path: &Vec<char>, style: Style, verbatim: bool, from: usize) -> (end: usize)
    requires
        from <= path@.len(),
    ensures
        end == split_from(path@, style, verbatim, from as int),
        from <= end <= path@.len(),
{
    let mut i: usize = from;
    while i < path.len() && !is_split(style, verbatim, path[i])
        invariant
            from <= i <= path@.len(),
            split_from(path@, style, verbatim, from as int) == split_from(
                path@,
                style,
                verbatim,
                i as int,
            ),
        decreases path@.len() - i,
    {
        i = i + 1;
    }
    i
}

/// The kinds of prefixes, in their order.
#[derive(Clone, Copy, Debug, PartialEq, Eq, Structural)]
pub enum PrefixKind {
    /// `\\?\name`
    Verbatim,
    /// `\\?\UNC\server\share`
    VerbatimShare,
    /// `\\?\C:`
    VerbatimDisk,
    /// `\\.\device`
    Device,
    /// `\\server\share`
    Share,
    /// `C:`
    Disk,
}

/// The prefix of a path: what it names, and how long it is.
#[verifier::ext_equal]
pub struct PrefixModel {
    pub kind: PrefixKind,
    pub first: Seq<char>,
    pub second: Seq<char>,
    pub len: int,
}

/// A letter of the alphabet.
pub open spec fn is_letter(c: char) -> bool {
    'a' <= c <= 'z' || 'A' <= c <= 'Z'
}

/// A drive stands at `i`.
pub open spec fn drive_at(path: Seq<char>, i: int) -> bool {
    path.len() >= i + 2 && is_letter(path[i]) && path[i + 1] == ':'
}

fn has_drive_at(path: &Vec<char>, i: usize) -> (yes: bool)
    requires
        i <= path@.len(),
    ensures
        yes == drive_at(path@, i as int),
{
    if path.len() - i < 2 {
        return false;
    }
    let c: char = path[i];
    (('a' <= c && c <= 'z') || ('A' <= c && c <= 'Z')) && path[i + 1] == ':'
}

/// A server and the share behind it, of which the latter can be missing.
pub open spec fn share_at(path: Seq<char>, verbatim: bool, from: int) -> (Seq<char>, Seq<char>, int) {
    let end = split_from(path, Style::Windows, verbatim, from);
    let server = path.subrange(from, end);
    if end >= path.len() {
        (server, Seq::empty(), end)
    } else {
        let last = split_from(path, Style::Windows, verbatim, end + 1);
        let share = path.subrange(end + 1, last);
        (
            server,
            share,
            if share.len() > 0 {
                last
            } else {
                end
            },
        )
    }
}

/// The prefix of a verbatim path.
pub open spec fn verbatim_prefix(path: Seq<char>) -> PrefixModel {
    if path.len() >= 8 && path[4] == 'U' && path[5] == 'N' && path[6] == 'C' && separates(
        Style::Windows,
        path[7],
    ) {
        let (first, second, len) = share_at(path, true, 8);
        PrefixModel { kind: PrefixKind::VerbatimShare, first, second, len }
    } else if drive_at(path, 4) && (path.len() == 6 || separates(Style::Windows, path[6])) {
        PrefixModel {
            kind: PrefixKind::VerbatimDisk,
            first: lower_text(path.subrange(4, 5)),
            second: Seq::empty(),
            len: 6,
        }
    } else {
        let len = split_from(path, Style::Windows, true, 4);
        PrefixModel {
            kind: PrefixKind::Verbatim,
            first: path.subrange(4, len),
            second: Seq::empty(),
            len,
        }
    }
}

/// The prefix of a path that begins with two separators.
pub open spec fn double_prefix(path: Seq<char>) -> Option<PrefixModel> {
    if path.len() >= 4 && path[0] == '\\' && path[1] == '\\' && path[2] == '?' && path[3] == '\\' {
        Some(verbatim_prefix(path))
    } else if path.len() >= 4 && path[2] == '.' && separates(Style::Windows, path[3]) {
        let len = split_from(path, Style::Windows, false, 4);
        Some(
            PrefixModel {
                kind: PrefixKind::Device,
                first: path.subrange(4, len),
                second: Seq::empty(),
                len,
            },
        )
    } else {
        let (first, second, len) = share_at(path, false, 2);
        if first.len() > 0 && second.len() > 0 {
            Some(PrefixModel { kind: PrefixKind::Share, first, second, len })
        } else {
            None
        }
    }
}

/// The prefix of a path. The case of a drive's letter does not count.
pub open spec fn prefix_of(style: Style, path: Seq<char>) -> Option<PrefixModel> {
    if style == Style::Unix {
        None
    } else if path.len() >= 2 && separates(style, path[0]) && separates(style, path[1]) {
        double_prefix(path)
    } else if drive_at(path, 0) {
        Some(
            PrefixModel {
                kind: PrefixKind::Disk,
                first: lower_text(path.subrange(0, 1)),
                second: Seq::empty(),
                len: 2,
            },
        )
    } else {
        None
    }
}

struct Prefix {
    kind: PrefixKind,
    first: String,
    second: String,
    len: usize,
}

impl Prefix {
    spec fn model(&self) -> PrefixModel {
        PrefixModel {
            kind: self.kind,
            first: self.first@,
            second: self.second@,
            len: self.len as int,
        }
    }
}

/// The characters from `from` to `to` as a string.
pub(crate) fn string_of(chars: &Vec<char>, from: usize, to: usize) -> (text: String)
    requires
        from <= to <= chars@.len(),
    ensures
        text@ == chars@.subrange(from as int, to as int),
{
    let mut out = String::new();
    let mut i: usize = from;
    while i < to
        invariant
            from <= i <= to <= chars@.len(),
            out@ == chars@.subrange(from as int, i as int),
        decreases to - i,
    {
        out.push(chars[i]);
        i = i + 1;
        assert(out@ =~= chars@.subrange(from as int, i as int));
    }
    out
}

fn read_share(path: &Vec<char>, verbatim: bool, from: usize) -> (found: (String, String, usize))
    requires
        from <= path@.len(),
    ensures
        (found.0@, found.1@, found.2 as int) == share_at(path@, verbatim, from as int),
        from <= found.2 <= path@.len(),
{
    let end: usize = find_split(path, Style::Windows, verbatim, from);
    let server = string_of(path, from, end);
    if end >= path.len() {
        return (server, String::new(), end);
    }
    let last: usize = find_split(path, Style::Windows, verbatim, end + 1);
    let share = string_of(path, end + 1, last);
    let len: usize = if last > end + 1 {
        last
    } else {
        end
    };
    (server, share, len)
}

fn read_verbatim_prefix(path: &Vec<char>) -> (prefix: Prefix)
    requires
        path@.len() >= 4,
    ensures
        prefix.model() == verbatim_prefix(path@),
        prefix.len <= path@.len(),
{
    if path.len() >= 8 && path[4] == 'U' && path[5] == 'N' && path[6] == 'C' && is_split(
        Style::Windows,
        false,
        path[7],
    ) {
        let (first, second, len) = read_share(path, true, 8);
        return Prefix { kind: PrefixKind::VerbatimShare, first, second, len };
    }
    if has_drive_at(path, 4) && (path.len() == 6 || is_split(Style::Windows, false, path[6])) {
        let letter = string_of(path, 4, 5);
        return Prefix {
            kind: PrefixKind::VerbatimDisk,
            first: ascii_lower(letter.as_str()),
            second: String::new(),
            len: 6,
        };
    }
    let len: usize = find_split(path, Style::Windows, true, 4);
    Prefix {
        kind: PrefixKind::Verbatim,
        first: string_of(path, 4, len),
        second: String::new(),
        len,
    }
}

fn read_double_prefix(path: &Vec<char>) -> (prefix: Option<Prefix>)
    requires
        path@.len() >= 2,
    ensures
        match prefix {
            Some(found) => double_prefix(path@) == Some(found.model()) && found.len <= path@.len(),
            None => double_prefix(path@) is None,
        },
{
    if path.len() >= 4 && path[0] == '\\' && path[1] == '\\' && path[2] == '?' && path[3] == '\\' {
        return Some(read_verbatim_prefix(path));
    }
    if path.len() >= 4 && path[2] == '.' && is_split(Style::Windows, false, path[3]) {
        let len: usize = find_split(path, Style::Windows, false, 4);
        let prefix = Prefix {
            kind: PrefixKind::Device,
            first: string_of(path, 4, len),
            second: String::new(),
            len,
        };
        return Some(prefix);
    }
    let (first, second, len) = read_share(path, false, 2);
    if !first.as_str().is_empty() && !second.as_str().is_empty() {
        Some(Prefix { kind: PrefixKind::Share, first, second, len })
    } else {
        None
    }
}

fn read_prefix(style: Style, path: &Vec<char>) -> (prefix: Option<Prefix>)
    ensures
        match prefix {
            Some(found) => prefix_of(style, path@) == Some(found.model()) && found.len
                <= path@.len(),
            None => prefix_of(style, path@) is None,
        },
{
    match style {
        Style::Unix => {
            return None;
        },
        Style::Windows => {},
    }
    if path.len() >= 2 && is_split(style, false, path[0]) && is_split(style, false, path[1]) {
        return read_double_prefix(path);
    }
    if has_drive_at(path, 0) {
        let letter = string_of(path, 0, 1);
        return Some(
            Prefix {
                kind: PrefixKind::Disk,
                first: ascii_lower(letter.as_str()),
                second: String::new(),
                len: 2,
            },
        );
    }
    None
}

/// A component: its class, and its text where it has one. The classes up to five
/// are those of prefixes, in their order; six is the share of a prefix that has
/// one.
pub type Piece = (u8, Seq<char>);

/// The class of the root.
pub const ROOT: u8 = 7;

/// The class of `.`.
pub const CURRENT: u8 = 8;

/// The class of `..`.
pub const PARENT: u8 = 9;

/// The class of a name.
pub const NAME: u8 = 10;

/// The class of a prefix.
pub open spec fn kind_class(kind: PrefixKind) -> u8 {
    match kind {
        PrefixKind::Verbatim => 0,
        PrefixKind::VerbatimShare => 1,
        PrefixKind::VerbatimDisk => 2,
        PrefixKind::Device => 3,
        PrefixKind::Share => 4,
        PrefixKind::Disk => 5,
    }
}

/// A verbatim prefix: what stands behind it is taken as it is.
pub open spec fn is_verbatim(kind: PrefixKind) -> bool {
    kind == PrefixKind::Verbatim || kind == PrefixKind::VerbatimShare || kind
        == PrefixKind::VerbatimDisk
}

/// The components of a prefix.
pub open spec fn prefix_pieces(style: Style, path: Seq<char>) -> Seq<Piece> {
    match prefix_of(style, path) {
        Some(prefix) => if prefix.kind == PrefixKind::VerbatimShare || prefix.kind
            == PrefixKind::Share {
            seq![(kind_class(prefix.kind), prefix.first), (6u8, prefix.second)]
        } else {
            seq![(kind_class(prefix.kind), prefix.first)]
        },
        None => Seq::empty(),
    }
}

/// The component that a text between two separators is, if it is any.
pub open spec fn piece_of(text: Seq<char>, verbatim: bool) -> Seq<Piece> {
    if text.len() == 0 {
        Seq::empty()
    } else if text == seq!['.'] {
        if verbatim {
            seq![(CURRENT, Seq::<char>::empty())]
        } else {
            Seq::empty()
        }
    } else if text == seq!['.', '.'] {
        seq![(PARENT, Seq::<char>::empty())]
    } else {
        seq![(NAME, text)]
    }
}

/// The components of a path from `from` on, of which the first was read up to
/// `at`.
pub open spec fn pieces_from(
    path: Seq<char>,
    style: Style,
    verbatim: bool,
    from: int,
    at: int,
) -> Seq<Piece>
    decreases path.len() - at,
{
    if at >= path.len() {
        piece_of(path.subrange(from, path.len() as int), verbatim)
    } else if splits(style, verbatim, path[at]) {
        piece_of(path.subrange(from, at), verbatim) + pieces_from(
            path,
            style,
            verbatim,
            at + 1,
            at + 1,
        )
    } else {
        pieces_from(path, style, verbatim, from, at + 1)
    }
}

/// How long the prefix of a path is.
pub open spec fn prefix_len(style: Style, path: Seq<char>) -> int {
    match prefix_of(style, path) {
        Some(prefix) => prefix.len,
        None => 0,
    }
}

/// A path behind whose prefix everything is taken as it is.
pub open spec fn path_verbatim(style: Style, path: Seq<char>) -> bool {
    match prefix_of(style, path) {
        Some(prefix) => is_verbatim(prefix.kind),
        None => false,
    }
}

/// A separator stands behind the prefix of a path.
pub open spec fn has_root(style: Style, path: Seq<char>) -> bool {
    let at = prefix_len(style, path);
    at < path.len() && separates(style, path[at])
}

/// A path whose prefix stands for a root: every one but a drive does.
pub open spec fn root_implied(style: Style, path: Seq<char>) -> bool {
    match prefix_of(style, path) {
        Some(prefix) => prefix.kind != PrefixKind::Disk,
        None => false,
    }
}

/// The component before the names: the root, or `.` at the start of a path that
/// has none.
pub open spec fn start_pieces(style: Style, path: Seq<char>) -> Seq<Piece> {
    let at = prefix_len(style, path);
    if has_root(style, path) || (root_implied(style, path) && !path_verbatim(style, path)) {
        seq![(ROOT, Seq::<char>::empty())]
    } else if !root_implied(style, path) && at < path.len() && path[at] == '.' && (at + 1
        == path.len() || separates(style, path[at + 1])) {
        seq![(CURRENT, Seq::<char>::empty())]
    } else {
        Seq::empty()
    }
}

/// Where the names of a path begin.
pub open spec fn names_start(style: Style, path: Seq<char>) -> int {
    prefix_len(style, path) + if has_root(style, path) {
        1int
    } else {
        0int
    }
}

/// The components of a path behind its prefix.
pub open spec fn body_pieces(style: Style, path: Seq<char>) -> Seq<Piece> {
    let start = names_start(style, path);
    start_pieces(style, path) + pieces_from(path, style, path_verbatim(style, path), start, start)
}

/// The components of a path.
pub open spec fn pieces(style: Style, path: Seq<char>) -> Seq<Piece> {
    prefix_pieces(style, path) + body_pieces(style, path)
}

/// The components of a list.
pub open spec fn piece_models(list: Seq<(u8, String)>) -> Seq<Piece> {
    Seq::new(list.len(), |i: int| (list[i].0, list[i].1@))
}

fn push_piece(list: &mut Vec<(u8, String)>, class: u8, text: String)
    ensures
        piece_models(final(list)@) == piece_models(old(list)@).push((class, text@)),
{
    let ghost before = piece_models(list@);
    let ghost words = text@;
    list.push((class, text));
    assert(piece_models(list@) =~= before.push((class, words)));
}

fn class_of(kind: PrefixKind) -> (class: u8)
    ensures
        class == kind_class(kind),
{
    match kind {
        PrefixKind::Verbatim => 0,
        PrefixKind::VerbatimShare => 1,
        PrefixKind::VerbatimDisk => 2,
        PrefixKind::Device => 3,
        PrefixKind::Share => 4,
        PrefixKind::Disk => 5,
    }
}

fn push_text(list: &mut Vec<(u8, String)>, path: &Vec<char>, from: usize, to: usize, verbatim: bool)
    requires
        from <= to <= path@.len(),
    ensures
        piece_models(final(list)@) == piece_models(old(list)@) + piece_of(
            path@.subrange(from as int, to as int),
            verbatim,
        ),
{
    let ghost before = piece_models(list@);
    let ghost text = path@.subrange(from as int, to as int);
    let ghost added = piece_of(text, verbatim);
    if from == to {
        assert(before + added =~= before);
        return;
    }
    if to - from == 1 && path[from] == '.' {
        assert(text =~= seq!['.']);
        if verbatim {
            push_piece(list, CURRENT, String::new());
        }
        assert(piece_models(list@) =~= before + added);
        return;
    }
    assert(text != seq!['.']) by {
        if text == seq!['.'] {
            assert(text.len() == 1 && text[0] == '.');
        }
    }
    if to - from == 2 && path[from] == '.' && path[from + 1] == '.' {
        assert(text =~= seq!['.', '.']);
        push_piece(list, PARENT, String::new());
        assert(piece_models(list@) =~= before + added);
        return;
    }
    assert(text != seq!['.', '.']) by {
        if text == seq!['.', '.'] {
            assert(text.len() == 2 && text[0] == '.' && text[1] == '.');
        }
    }
    push_piece(list, NAME, string_of(path, from, to));
    assert(piece_models(list@) =~= before + added);
}

fn push_names(list: &mut Vec<(u8, String)>, path: &Vec<char>, style: Style, verbatim: bool, start: usize)
    requires
        start <= path@.len(),
    ensures
        piece_models(final(list)@) == piece_models(old(list)@) + pieces_from(
            path@,
            style,
            verbatim,
            start as int,
            start as int,
        ),
{
    let ghost goal = piece_models(list@) + pieces_from(
        path@,
        style,
        verbatim,
        start as int,
        start as int,
    );
    let mut from: usize = start;
    let mut at: usize = start;
    while at < path.len()
        invariant
            start <= from <= at <= path@.len(),
            piece_models(list@) + pieces_from(path@, style, verbatim, from as int, at as int)
                == goal,
        decreases path@.len() - at,
    {
        if is_split(style, verbatim, path[at]) {
            let ghost before = piece_models(list@);
            let ghost piece = piece_of(path@.subrange(from as int, at as int), verbatim);
            let ghost rest = pieces_from(path@, style, verbatim, at + 1, at + 1);
            push_text(list, path, from, at, verbatim);
            assert((before + piece) + rest =~= before + (piece + rest));
            from = at + 1;
        }
        at = at + 1;
    }
    push_text(list, path, from, at, verbatim);
}

/// What is known of a path besides its names.
struct Start {
    prefix: Option<Prefix>,
    len: usize,
    verbatim: bool,
    rooted: bool,
    implied: bool,
}

impl Start {
    spec fn is(&self, style: Style, path: Seq<char>) -> bool {
        &&& match self.prefix {
            Some(found) => prefix_of(style, path) == Some(found.model()),
            None => prefix_of(style, path) is None,
        }
        &&& self.len == prefix_len(style, path)
        &&& self.len <= path.len()
        &&& self.verbatim == path_verbatim(style, path)
        &&& self.rooted == has_root(style, path)
        &&& self.implied == root_implied(style, path)
    }
}

fn read_start(style: Style, path: &Vec<char>) -> (start: Start)
    ensures
        start.is(style, path@),
{
    let prefix = read_prefix(style, path);
    let (len, verbatim, implied) = match &prefix {
        Some(found) => (
            found.len,
            found.kind == PrefixKind::Verbatim || found.kind == PrefixKind::VerbatimShare
                || found.kind == PrefixKind::VerbatimDisk,
            found.kind != PrefixKind::Disk,
        ),
        None => (0usize, false, false),
    };
    let rooted = len < path.len() && is_split(style, false, path[len]);
    Start { prefix, len, verbatim, rooted, implied }
}

fn push_body(list: &mut Vec<(u8, String)>, style: Style, path: &Vec<char>, start: &Start)
    requires
        start.is(style, path@),
    ensures
        piece_models(final(list)@) == piece_models(old(list)@) + body_pieces(style, path@),
{
    let ghost before = piece_models(list@);
    let ghost first = start_pieces(style, path@);
    let size: usize = path.len();
    let len: usize = start.len;
    if start.rooted || (start.implied && !start.verbatim) {
        push_piece(list, ROOT, String::new());
    } else if !start.implied && len < path.len() && path[len] == '.' && (len + 1 == path.len()
        || is_split(style, false, path[len + 1])) {
        push_piece(list, CURRENT, String::new());
    }
    assert(piece_models(list@) =~= before + first);
    let from: usize = if start.rooted {
        assert(len < size);
        len + 1
    } else {
        len
    };
    push_names(list, path, style, start.verbatim, from);
    proof {
        let names = pieces_from(path@, style, start.verbatim, from as int, from as int);
        assert((before + first) + names =~= before + (first + names));
    }
}

fn read_pieces(style: Style, path: &str) -> (list: Vec<(u8, String)>)
    ensures
        piece_models(list@) == pieces(style, path@),
{
    let chars = chars_of(path);
    let start = read_start(style, &chars);
    let mut list: Vec<(u8, String)> = Vec::new();
    assert(piece_models(list@) =~= Seq::<Piece>::empty());
    match &start.prefix {
        Some(prefix) => {
            push_piece(&mut list, class_of(prefix.kind), prefix.first.clone());
            if prefix.kind == PrefixKind::VerbatimShare || prefix.kind == PrefixKind::Share {
                push_piece(&mut list, 6, prefix.second.clone());
            }
        },
        None => {},
    }
    assert(piece_models(list@) =~= prefix_pieces(style, path@));
    push_body(&mut list, style, &chars, &start);
    list
}

/// The name of what a path leads to; empty where its last component is no name.
pub open spec fn file_name(style: Style, path: Seq<char>) -> Seq<char> {
    let list = pieces(style, path);
    if list.len() > 0 && list.last().0 == NAME {
        list.last().1
    } else {
        Seq::empty()
    }
}

/// The name of what a path leads to.
pub fn name_of_path(style: Style, path: &str) -> (name: String)
    ensures
        name@ == file_name(style, path@),
{
    let list = read_pieces(style, path);
    let ghost models = piece_models(list@);
    assert(models.len() == list@.len());
    if list.len() == 0 {
        return String::new();
    }
    let last: usize = list.len() - 1;
    assert(models.last() == models[last as int]);
    if list[last].0 == NAME {
        list[last].1.clone()
    } else {
        String::new()
    }
}

/// A component that comes before another: by its class, then by its text.
pub open spec fn piece_before(a: Piece, b: Piece) -> bool {
    a.0 < b.0 || (a.0 == b.0 && str_before(a.1, b.1))
}

/// A list of components that comes before another: by the first in which they
/// differ, and where one goes on as the other ends, the shorter.
pub open spec fn pieces_before(a: Seq<Piece>, b: Seq<Piece>) -> bool
    decreases a.len(),
{
    if b.len() == 0 {
        false
    } else if a.len() == 0 {
        true
    } else if a[0] == b[0] {
        pieces_before(a.drop_first(), b.drop_first())
    } else {
        piece_before(a[0], b[0])
    }
}

/// A path that comes before another.
pub open spec fn path_before(style: Style, a: Seq<char>, b: Seq<char>) -> bool {
    pieces_before(pieces(style, a), pieces(style, b))
}

proof fn lemma_pieces_order(a: Seq<Piece>, b: Seq<Piece>, c: Seq<Piece>)
    ensures
        !pieces_before(a, a),
        pieces_before(a, b) ==> !pieces_before(b, a),
        pieces_before(a, b) && pieces_before(b, c) ==> pieces_before(a, c),
        a == b || pieces_before(a, b) || pieces_before(b, a),
    decreases a.len(),
{
    if a.len() == 0 {
        if b.len() == 0 {
            assert(a =~= b);
        }
    } else {
        let none = Seq::<Piece>::empty();
        let (p, q, r) = (
            a[0],
            if b.len() > 0 {
                b[0]
            } else {
                a[0]
            },
            if c.len() > 0 {
                c[0]
            } else {
                a[0]
            },
        );
        lemma_str_order(p.1, q.1, r.1);
        lemma_str_order(q.1, p.1, r.1);
        lemma_str_order(p.1, q.1, p.1);
        lemma_str_order(q.1, r.1, p.1);
        lemma_str_total(p.1, q.1);
        lemma_pieces_order(
            a.drop_first(),
            if b.len() > 0 {
                b.drop_first()
            } else {
                none
            },
            if c.len() > 0 {
                c.drop_first()
            } else {
                none
            },
        );
        if b.len() > 0 && a[0] == b[0] && a.drop_first() == b.drop_first() {
            assert(a =~= seq![a[0]] + a.drop_first());
            assert(b =~= seq![b[0]] + b.drop_first());
        }
    }
}

/// The order of paths is strict, and two paths that are not ordered have the same
/// components.
pub proof fn lemma_path_order(style: Style, a: Seq<char>, b: Seq<char>, c: Seq<char>)
    ensures
        !path_before(style, a, a),
        path_before(style, a, b) ==> !path_before(style, b, a),
        path_before(style, a, b) && path_before(style, b, c) ==> path_before(style, a, c),
        pieces(style, a) == pieces(style, b) || path_before(style, a, b) || path_before(
            style,
            b,
            a,
        ),
{
    lemma_pieces_order(pieces(style, a), pieces(style, b), pieces(style, c));
}

/// Whether a path comes before another.
pub fn comes_before(style: Style, a: &str, b: &str) -> (yes: bool)
    ensures
        yes == path_before(style, a@, b@),
{
    let x = read_pieces(style, a);
    let y = read_pieces(style, b);
    let ghost p = pieces(style, a@);
    let ghost q = pieces(style, b@);
    let mut i: usize = 0;
    assert(p.subrange(0, p.len() as int) =~= p);
    assert(q.subrange(0, q.len() as int) =~= q);
    assert(p.len() == x@.len());
    assert(q.len() == y@.len());
    while i < x.len() && i < y.len()
        invariant
            p == pieces(style, a@),
            q == pieces(style, b@),
            p == piece_models(x@),
            q == piece_models(y@),
            i <= p.len(),
            i <= q.len(),
            pieces_before(p, q) == pieces_before(
                p.subrange(i as int, p.len() as int),
                q.subrange(i as int, q.len() as int),
            ),
        decreases p.len() - i,
    {
        let ghost left = p.subrange(i as int, p.len() as int);
        let ghost right = q.subrange(i as int, q.len() as int);
        assert(left[0] == (x@[i as int].0, x@[i as int].1@));
        assert(right[0] == (y@[i as int].0, y@[i as int].1@));
        if x[i].0 != y[i].0 {
            return x[i].0 < y[i].0;
        }
        match str_place(x[i].1.as_str(), y[i].1.as_str()) {
            Place::Before => {
                proof {
                    lemma_str_order(left[0].1, right[0].1, left[0].1);
                }
                return true;
            },
            Place::After => {
                proof {
                    lemma_str_order(right[0].1, left[0].1, right[0].1);
                }
                return false;
            },
            Place::Same => {},
        }
        assert(left.drop_first() =~= p.subrange(i + 1, p.len() as int));
        assert(right.drop_first() =~= q.subrange(i + 1, q.len() as int));
        i = i + 1;
    }
    i < y.len()
}

/// The components after those of a path behind them, where everything is taken
/// as it is: the root begins anew, `.` says nothing, and `..` takes a name away.
pub open spec fn followed(base: Seq<Piece>, added: Seq<Piece>) -> Seq<Piece>
    decreases added.len(),
{
    if added.len() == 0 {
        base
    } else {
        let before = followed(base, added.drop_last());
        let piece = added.last();
        if piece.0 == ROOT {
            seq![piece]
        } else if piece.0 == CURRENT {
            before
        } else if piece.0 == PARENT {
            if before.len() > 0 && before.last().0 == NAME {
                before.drop_last()
            } else {
                before
            }
        } else {
            before.push(piece)
        }
    }
}

/// The text of a component.
pub open spec fn piece_text(piece: Piece) -> Seq<char> {
    if piece.0 == ROOT {
        seq!['\\']
    } else if piece.0 == CURRENT {
        seq!['.']
    } else if piece.0 == PARENT {
        seq!['.', '.']
    } else {
        piece.1
    }
}

/// The text of components behind a prefix: a backslash stands before each but the
/// root and what follows it.
pub open spec fn spelled(list: Seq<Piece>) -> Seq<char>
    decreases list.len(),
{
    if list.len() == 0 {
        Seq::empty()
    } else {
        let n = list.len();
        let before = spelled(list.drop_last());
        if list.last().0 == ROOT || (n > 1 && list[n - 2].0 == ROOT) {
            before + piece_text(list.last())
        } else {
            before + seq!['\\'] + piece_text(list.last())
        }
    }
}

/// A path with a part behind it on Windows. A part with a prefix takes the path's
/// place, and one with a root takes the place of all but the path's prefix.
/// Nothing separates a bare drive from what is behind it.
pub open spec fn pushed_on_windows(path: Seq<char>, part: Seq<char>) -> Seq<char> {
    let style = Style::Windows;
    let prefix = path.subrange(0, prefix_len(style, path));
    if prefix_of(style, part) is Some {
        part
    } else if path_verbatim(style, path) && part.len() > 0 {
        prefix + spelled(followed(body_pieces(style, path), body_pieces(style, part)))
    } else if has_root(style, part) {
        prefix + part
    } else if path.len() == 0 || separates(style, path.last()) || (path.len() == 2 && drive_at(
        path,
        0,
    )) {
        path + part
    } else {
        path + seq!['\\'] + part
    }
}

/// A path with a part behind it. On Unix a part with a root takes the path's
/// place.
pub open spec fn pushed(style: Style, path: Seq<char>, part: Seq<char>) -> Seq<char> {
    if style == Style::Windows {
        pushed_on_windows(path, part)
    } else if part.len() > 0 && part[0] == '/' {
        part
    } else if path.len() == 0 || path.last() == '/' {
        path + part
    } else {
        path + seq!['/'] + part
    }
}

fn follow(list: &mut Vec<(u8, String)>, added: &Vec<(u8, String)>)
    ensures
        piece_models(final(list)@) == followed(piece_models(old(list)@), piece_models(added@)),
{
    let ghost base = piece_models(list@);
    let ghost all = piece_models(added@);
    let mut i: usize = 0;
    assert(all.subrange(0, 0) =~= Seq::<Piece>::empty());
    while i < added.len()
        invariant
            i <= added@.len(),
            all == piece_models(added@),
            piece_models(list@) == followed(base, all.subrange(0, i as int)),
        decreases added@.len() - i,
    {
        let ghost before = piece_models(list@);
        let ghost upto = all.subrange(0, i + 1);
        assert(upto.drop_last() =~= all.subrange(0, i as int));
        assert(upto.last() == all[i as int]);
        assert(before.len() == list@.len());
        let class: u8 = added[i].0;
        if class == ROOT {
            list.clear();
            assert(piece_models(list@) =~= Seq::<Piece>::empty());
            push_piece(list, ROOT, added[i].1.clone());
            assert(piece_models(list@) =~= seq![all[i as int]]);
        } else if class == PARENT {
            let n: usize = list.len();
            if n > 0 {
                assert(before.last() == before[n - 1]);
                if list[n - 1].0 == NAME {
                    let _gone = list.pop();
                    assert(piece_models(list@) =~= before.drop_last());
                }
            }
        } else if class != CURRENT {
            push_piece(list, class, added[i].1.clone());
        }
        i = i + 1;
    }
    assert(all.subrange(0, i as int) =~= all);
}

fn spell(out: &mut String, list: &Vec<(u8, String)>)
    ensures
        final(out)@ == old(out)@ + spelled(piece_models(list@)),
{
    let ghost start = out@;
    let ghost all = piece_models(list@);
    let mut i: usize = 0;
    assert(all.subrange(0, 0) =~= Seq::<Piece>::empty());
    assert(start + Seq::<char>::empty() =~= start);
    while i < list.len()
        invariant
            i <= list@.len(),
            all == piece_models(list@),
            out@ == start + spelled(all.subrange(0, i as int)),
        decreases list@.len() - i,
    {
        let ghost before = spelled(all.subrange(0, i as int));
        let ghost upto = all.subrange(0, i + 1);
        assert(upto.drop_last() =~= all.subrange(0, i as int));
        assert(upto.last() == all[i as int]);
        assert(i > 0 ==> upto[i - 1] == all[i - 1]);
        let class: u8 = list[i].0;
        if !(class == ROOT || (i > 0 && list[i - 1].0 == ROOT)) {
            out.push('\\');
        }
        let ghost middle = out@;
        if class == ROOT {
            out.push('\\');
        } else if class == CURRENT {
            out.push('.');
        } else if class == PARENT {
            out.push('.');
            out.push('.');
        } else {
            out.append(list[i].1.as_str());
        }
        assert(out@ =~= middle + piece_text(all[i as int]));
        assert(out@ =~= start + spelled(upto));
        i = i + 1;
    }
    assert(all.subrange(0, i as int) =~= all);
}

fn push_on_windows(path: &str, part: &str) -> (whole: String)
    ensures
        whole@ == pushed_on_windows(path@, part@),
{
    let style = Style::Windows;
    let base = chars_of(path);
    let more = chars_of(part);
    let behind = read_start(style, &more);
    if behind.prefix.is_some() {
        return part.to_owned();
    }
    let start = read_start(style, &base);
    if start.verbatim && more.len() > 0 {
        let mut list: Vec<(u8, String)> = Vec::new();
        let mut added: Vec<(u8, String)> = Vec::new();
        assert(piece_models(list@) =~= Seq::<Piece>::empty());
        push_body(&mut list, style, &base, &start);
        assert(piece_models(list@) =~= body_pieces(style, path@));
        push_body(&mut added, style, &more, &behind);
        assert(piece_models(added@) =~= body_pieces(style, part@));
        follow(&mut list, &added);
        let mut whole = string_of(&base, 0, start.len);
        spell(&mut whole, &list);
        return whole;
    }
    if behind.rooted {
        let mut whole = string_of(&base, 0, start.len);
        whole.append(part);
        return whole;
    }
    let mut whole = path.to_owned();
    if base.len() > 0 && !is_split(style, false, base[base.len() - 1]) && !(base.len() == 2
        && has_drive_at(&base, 0)) {
        whole.push('\\');
        assert(whole@ =~= path@ + seq!['\\']);
    }
    whole.append(part);
    whole
}

/// A path with a part behind it.
pub fn join(style: Style, path: &str, part: &str) -> (whole: String)
    ensures
        whole@ == pushed(style, path@, part@),
{
    match style {
        Style::Windows => {
            return push_on_windows(path, part);
        },
        Style::Unix => {},
    }
    let base = chars_of(path);
    let more = chars_of(part);
    if more.len() > 0 && more[0] == '/' {
        return part.to_owned();
    }
    let mut whole = path.to_owned();
    if base.len() > 0 && base[base.len() - 1] != '/' {
        whole.push('/');
        assert(whole@ =~= path@ + seq!['/']);
    }
    whole.append(part);
    whole
}

/// A name that a path can end with: not empty, no dots alone, and nothing in it
/// that separates.
pub open spec fn plain_name(style: Style, verbatim: bool, name: Seq<char>) -> bool {
    &&& name.len() > 0
    &&& name != seq!['.']
    &&& name != seq!['.', '.']
    &&& forall|i: int| 0 <= i < name.len() ==> !splits(style, verbatim, #[trigger] name[i])
}

proof fn lemma_name_read(path: Seq<char>, style: Style, verbatim: bool, from: int, at: int)
    requires
        0 <= from <= at <= path.len(),
        plain_name(style, verbatim, path.subrange(from, path.len() as int)),
    ensures
        pieces_from(path, style, verbatim, from, at) == seq![
            (NAME, path.subrange(from, path.len() as int)),
        ],
    decreases path.len() - at,
{
    if at < path.len() {
        let name = path.subrange(from, path.len() as int);
        assert(name[at - from] == path[at]);
        lemma_name_read(path, style, verbatim, from, at + 1);
    }
}

proof fn lemma_last_name(
    path: Seq<char>,
    style: Style,
    verbatim: bool,
    from: int,
    at: int,
    cut: int,
)
    requires
        0 <= from <= at <= cut < path.len(),
        splits(style, verbatim, path[cut]),
        plain_name(style, verbatim, path.subrange(cut + 1, path.len() as int)),
    ensures
        pieces_from(path, style, verbatim, from, at).len() > 0,
        pieces_from(path, style, verbatim, from, at).last() == (
            NAME,
            path.subrange(cut + 1, path.len() as int),
        ),
    decreases cut - at,
{
    if splits(style, verbatim, path[at]) {
        let own = piece_of(path.subrange(from, at), verbatim);
        let rest = pieces_from(path, style, verbatim, at + 1, at + 1);
        if at < cut {
            lemma_last_name(path, style, verbatim, at + 1, at + 1, cut);
        } else {
            lemma_name_read(path, style, verbatim, at + 1, at + 1);
        }
        assert((own + rest).last() == rest.last());
    } else {
        lemma_last_name(path, style, verbatim, from, at + 1, cut);
    }
}

/// The name of a path is what stands behind its last separator, where that stands
/// behind the prefix and the root.
pub proof fn lemma_file_name(style: Style, path: Seq<char>, cut: int)
    requires
        names_start(style, path) <= cut < path.len(),
        0 <= names_start(style, path),
        splits(style, path_verbatim(style, path), path[cut]),
        plain_name(
            style,
            path_verbatim(style, path),
            path.subrange(cut + 1, path.len() as int),
        ),
    ensures
        file_name(style, path) == path.subrange(cut + 1, path.len() as int),
{
    let start = names_start(style, path);
    let verbatim = path_verbatim(style, path);
    lemma_last_name(path, style, verbatim, start, start, cut);
    let names = pieces_from(path, style, verbatim, start, start);
    let body = start_pieces(style, path) + names;
    assert(body.last() == names.last());
    assert(pieces(style, path).last() == body.last());
}

/// On Unix what is put behind a path is its name, with one separator between them;
/// a part with a root takes the place of the path.
pub proof fn lemma_put_behind(path: Seq<char>, name: Seq<char>)
    requires
        plain_name(Style::Unix, false, name),
        path.len() > 1,
    ensures
        file_name(Style::Unix, pushed(Style::Unix, path, name)) == name,
        path.last() == '/' ==> pushed(Style::Unix, path, name) == path + name,
        path.last() != '/' ==> pushed(Style::Unix, path, name) == path + seq!['/'] + name,
        pushed(Style::Unix, path, seq!['/'] + name) == seq!['/'] + name,
{
    assert(!splits(Style::Unix, false, name[0]));
    let whole = pushed(Style::Unix, path, name);
    let cut = if path.last() == '/' {
        path.len() - 1
    } else {
        path.len() as int
    };
    assert(whole.subrange(cut + 1, whole.len() as int) =~= name);
    assert(whole[cut] == '/');
    lemma_file_name(Style::Unix, whole, cut);
}

} // verus!
