//! Byte strings and text: comparison, ASCII case folding and the conversion of
//! raw bytes to text.

use vstd::prelude::*;
use vstd::string::*;
use vstd::utf8::*;

verus! {

/// The text that `String::from_utf8_lossy` makes of `bytes`.
pub uninterp spec fn utf8_lossy(bytes: Seq<u8>) -> Seq<char>;

/// Calls `String::from_utf8_lossy`. The result depends on the bytes alone, and
/// valid UTF-8 comes back as the text it encodes. How malformed sequences are
/// replaced is left to the standard library.
#[verifier::external_body]
pub(crate) fn from_utf8_lossy(bytes: &[u8]) -> (text: String)
    ensures
        text@ == utf8_lossy(bytes@),
        valid_utf8(bytes@) ==> text@ == decode_utf8(bytes@),
{
    String::from_utf8_lossy(bytes).into_owned()
}

/// The text of raw bytes: what valid UTF-8 encodes, and else what the standard
/// library makes of it.
pub open spec fn lossy_text(bytes: Seq<u8>) -> Seq<char> {
    if valid_utf8(bytes) {
        decode_utf8(bytes)
    } else {
        utf8_lossy(bytes)
    }
}

/// The bytes of a text are read as that text.
pub proof fn lemma_lossy_text(text: Seq<char>)
    ensures
        lossy_text(encode_utf8(text)) == text,
{
    encode_utf8_valid_utf8(text);
    encode_utf8_decode_utf8(text);
}

/// Calls `String::from_utf8`, which takes exactly the valid UTF-8 and turns it
/// into the text that it encodes.
#[verifier::external_body]
pub(crate) fn utf8_text(bytes: &[u8]) -> (text: Option<String>)
    ensures
        match text {
            Some(t) => valid_utf8(bytes@) && t@ == decode_utf8(bytes@),
            None => !valid_utf8(bytes@),
        },
{
    String::from_utf8(bytes.to_vec()).ok()
}

/// `String::push` appends one character and changes nothing else.
pub assume_specification[ String::push ](text: &mut String, ch: char)
    ensures
        final(text)@ == old(text)@.push(ch),
;

/// Bytes below 0x80, the part of UTF-8 that is one byte per character.
pub open spec fn all_ascii(bytes: Seq<u8>) -> bool {
    forall|i: int| 0 <= i < bytes.len() ==> #[trigger] bytes[i] < 0x80
}

/// The characters of an ASCII byte string.
pub open spec fn ascii_chars(bytes: Seq<u8>) -> Seq<char> {
    Seq::new(bytes.len(), |i: int| bytes[i] as char)
}

/// Two texts with the same UTF-8 bytes are the same text.
pub proof fn lemma_encode_injective(a: Seq<char>, b: Seq<char>)
    requires
        encode_utf8(a) == encode_utf8(b),
    ensures
        a == b,
{
    encode_utf8_decode_utf8(a);
    encode_utf8_decode_utf8(b);
}

/// Whether two byte strings are equal.
pub fn bytes_eq(a: &[u8], b: &[u8]) -> (equal: bool)
    ensures
        equal == (a@ == b@),
{
    if a.len() != b.len() {
        return false;
    }
    let mut i: usize = 0;
    while i < a.len()
        invariant
            i <= a@.len(),
            a@.len() == b@.len(),
            forall|j: int| 0 <= j < i ==> a@[j] == b@[j],
        decreases a@.len() - i,
    {
        if a[i] != b[i] {
            return false;
        }
        i = i + 1;
    }
    assert(a@ =~= b@);
    true
}

/// Whether two strings hold the same text.
pub fn str_eq(a: &str, b: &str) -> (equal: bool)
    ensures
        equal == (a@ == b@),
{
    let equal = bytes_eq(a.as_bytes(), b.as_bytes());
    proof {
        if equal {
            lemma_encode_injective(a@, b@);
        }
    }
    equal
}

/// `a` comes strictly before `b` in the lexicographic order of bytes: at the
/// first place `k` where they part, `a` ends or holds the smaller byte.
pub open spec fn lex_lt_at(a: Seq<u8>, b: Seq<u8>, k: int) -> bool {
    &&& 0 <= k <= a.len()
    &&& k < b.len()
    &&& forall|j: int| 0 <= j < k ==> a[j] == b[j]
    &&& k == a.len() || a[k] < b[k]
}

pub open spec fn lex_lt(a: Seq<u8>, b: Seq<u8>) -> bool {
    exists|k: int| lex_lt_at(a, b, k)
}

/// The order of strings: that of their UTF-8 bytes.
pub open spec fn str_before(a: Seq<char>, b: Seq<char>) -> bool {
    lex_lt(encode_utf8(a), encode_utf8(b))
}

pub proof fn lemma_lex_irreflexive(a: Seq<u8>)
    ensures
        !lex_lt(a, a),
{
}

pub proof fn lemma_lex_transitive(a: Seq<u8>, b: Seq<u8>, c: Seq<u8>)
    requires
        lex_lt(a, b),
        lex_lt(b, c),
    ensures
        lex_lt(a, c),
{
    let i = choose|k: int| lex_lt_at(a, b, k);
    let j = choose|k: int| lex_lt_at(b, c, k);
    if i < j {
        assert(lex_lt_at(a, c, i));
    } else {
        assert(lex_lt_at(a, c, j));
    }
}

/// The order of `str_before` is strict: nothing precedes itself, nothing
/// precedes what precedes it, and it is transitive.
pub proof fn lemma_str_order(a: Seq<char>, b: Seq<char>, c: Seq<char>)
    ensures
        !str_before(a, a),
        str_before(a, b) ==> !str_before(b, a),
        str_before(a, b) && str_before(b, c) ==> str_before(a, c),
{
    let (x, y, z) = (encode_utf8(a), encode_utf8(b), encode_utf8(c));
    lemma_lex_irreflexive(x);
    if lex_lt(x, y) && lex_lt(y, x) {
        lemma_lex_transitive(x, y, x);
    }
    if lex_lt(x, y) && lex_lt(y, z) {
        lemma_lex_transitive(x, y, z);
    }
}

/// Of two different texts one comes before the other.
pub proof fn lemma_str_total(a: Seq<char>, b: Seq<char>)
    ensures
        a == b || str_before(a, b) || str_before(b, a),
{
    let (x, y) = (encode_utf8(a), encode_utf8(b));
    if a != b && !lex_lt(x, y) && !lex_lt(y, x) {
        lemma_lex_total(x, y, 0);
        lemma_encode_injective(a, b);
    }
}

proof fn lemma_lex_total(x: Seq<u8>, y: Seq<u8>, k: int)
    requires
        0 <= k <= x.len(),
        k <= y.len(),
        forall|j: int| 0 <= j < k ==> x[j] == y[j],
        !lex_lt(x, y),
        !lex_lt(y, x),
    ensures
        x == y,
    decreases x.len() - k,
{
    assert(!lex_lt_at(x, y, k));
    assert(!lex_lt_at(y, x, k));
    if k < x.len() && k < y.len() {
        lemma_lex_total(x, y, k + 1);
    } else {
        assert(x =~= y);
    }
}

/// Where one string stands relative to another.
#[derive(Clone, Copy, PartialEq, Eq, Structural, Debug)]
pub enum Place {
    Before,
    Same,
    After,
}

/// Compares two strings in the order of their bytes.
pub fn str_place(a: &str, b: &str) -> (place: Place)
    ensures
        place == Place::Before <==> str_before(a@, b@),
        place == Place::Same <==> a@ == b@,
        place == Place::After <==> str_before(b@, a@),
{
    let x = a.as_bytes();
    let y = b.as_bytes();
    proof {
        lemma_str_order(a@, b@, a@);
        lemma_str_order(b@, a@, b@);
    }
    let mut i: usize = 0;
    while i < x.len() && i < y.len()
        invariant
            i <= x@.len(),
            i <= y@.len(),
            x@ == encode_utf8(a@),
            y@ == encode_utf8(b@),
            forall|j: int| 0 <= j < i ==> x@[j] == y@[j],
            !str_before(a@, a@),
            str_before(a@, b@) ==> !str_before(b@, a@),
        decreases x@.len() - i,
    {
        if x[i] < y[i] {
            assert(lex_lt_at(x@, y@, i as int));
            return Place::Before;
        }
        if y[i] < x[i] {
            assert(lex_lt_at(y@, x@, i as int));
            return Place::After;
        }
        i = i + 1;
    }
    if i < y.len() {
        assert(lex_lt_at(x@, y@, i as int));
        Place::Before
    } else if i < x.len() {
        assert(lex_lt_at(y@, x@, i as int));
        Place::After
    } else {
        assert(x@ =~= y@);
        proof {
            lemma_encode_injective(a@, b@);
        }
        Place::Same
    }
}

/// `part` stands in `whole` at `at`.
pub open spec fn stands_at(whole: Seq<u8>, part: Seq<u8>, at: int) -> bool {
    &&& 0 <= at
    &&& at + part.len() <= whole.len()
    &&& forall|j: int| 0 <= j < part.len() ==> #[trigger] whole[at + j] == part[j]
}

/// Whether `part` stands in `whole` at `at`.
pub fn bytes_stand_at(whole: &[u8], part: &[u8], at: usize) -> (found: bool)
    ensures
        found == stands_at(whole@, part@, at as int),
{
    let size: usize = whole.len();
    if at > size || part.len() > size - at {
        return false;
    }
    let mut i: usize = 0;
    while i < part.len()
        invariant
            i <= part@.len(),
            size == whole@.len(),
            at + part@.len() <= size,
            forall|j: int| 0 <= j < i ==> whole@[at + j] == part@[j],
        decreases part@.len() - i,
    {
        if whole[at + i] != part[i] {
            assert(whole@[at + i] != part@[i as int]);
            return false;
        }
        i = i + 1;
    }
    true
}

/// The smallest place at or after `from` where `part` stands in `whole`.
pub fn bytes_find(whole: &[u8], part: &[u8], from: usize) -> (place: Option<usize>)
    ensures
        place matches Some(p) ==> {
            &&& from <= p
            &&& stands_at(whole@, part@, p as int)
            &&& forall|q: int| from <= q < p ==> !#[trigger] stands_at(whole@, part@, q)
        },
        place is None ==> forall|q: int| from <= q ==> !#[trigger] stands_at(whole@, part@, q),
{
    let mut at: usize = from;
    while at <= whole.len() && part.len() <= whole.len() - at
        invariant
            from <= at,
            forall|q: int| from <= q < at ==> !#[trigger] stands_at(whole@, part@, q),
        decreases whole@.len() + 1 - at,
    {
        if bytes_stand_at(whole, part, at) {
            return Some(at);
        }
        if at == whole.len() {
            return None;
        }
        at = at + 1;
    }
    None
}

/// Whether `text` begins with `prefix`.
pub open spec fn begins_with(text: Seq<char>, prefix: Seq<char>) -> bool {
    stands_at(encode_utf8(text), encode_utf8(prefix), 0)
}

pub fn str_starts_with(text: &str, prefix: &str) -> (found: bool)
    ensures
        found == begins_with(text@, prefix@),
{
    bytes_stand_at(text.as_bytes(), prefix.as_bytes(), 0)
}

/// Whether `text` ends with `suffix`.
pub open spec fn finishes_with(text: Seq<char>, suffix: Seq<char>) -> bool {
    stands_at(
        encode_utf8(text),
        encode_utf8(suffix),
        encode_utf8(text).len() - encode_utf8(suffix).len(),
    )
}

pub fn str_ends_with(text: &str, suffix: &str) -> (found: bool)
    ensures
        found == finishes_with(text@, suffix@),
{
    let whole = text.as_bytes();
    let part = suffix.as_bytes();
    if part.len() > whole.len() {
        return false;
    }
    bytes_stand_at(whole, part, whole.len() - part.len())
}

/// Whether `part` stands anywhere in `text`.
pub open spec fn holds_text(text: Seq<char>, part: Seq<char>) -> bool {
    exists|at: int| #[trigger] stands_at(encode_utf8(text), encode_utf8(part), at)
}

pub fn str_contains(text: &str, part: &str) -> (found: bool)
    ensures
        found == holds_text(text@, part@),
{
    bytes_find(text.as_bytes(), part.as_bytes(), 0).is_some()
}

/// The bytes before the first zero byte.
pub open spec fn until_nul(s: Seq<u8>) -> Seq<u8>
    decreases s.len(),
{
    if s.len() == 0 || s[0] == 0 {
        Seq::empty()
    } else {
        seq![s[0]] + until_nul(s.drop_first())
    }
}

/// A prefix without a zero byte that ends at one, or at the end, is all that
/// stands before the first zero byte.
pub proof fn lemma_until_nul(s: Seq<u8>, n: int)
    requires
        0 <= n <= s.len(),
        forall|i: int| 0 <= i < n ==> s[i] != 0,
        n < s.len() ==> s[n] == 0,
    ensures
        until_nul(s) == s.subrange(0, n),
    decreases s.len(),
{
    if n == 0 {
        assert(s.subrange(0, 0) =~= Seq::<u8>::empty());
    } else {
        lemma_until_nul(s.drop_first(), n - 1);
        assert(seq![s[0]] + s.drop_first().subrange(0, n - 1) =~= s.subrange(0, n));
    }
}

/// A byte with `A` to `Z` turned into `a` to `z`.
pub open spec fn lower_byte(b: u8) -> u8 {
    if 0x41 <= b <= 0x5a {
        (b + 0x20) as u8
    } else {
        b
    }
}

pub fn byte_lower(b: u8) -> (lower: u8)
    ensures
        lower == lower_byte(b),
{
    if 0x41 <= b && b <= 0x5a {
        b + 0x20
    } else {
        b
    }
}

/// A character with `A` to `Z` turned into `a` to `z`.
pub open spec fn lower_char(c: char) -> char {
    if 'A' <= c <= 'Z' {
        (c as u8 + 0x20) as char
    } else {
        c
    }
}

/// Text with its ASCII letters in lower case.
pub open spec fn lower_text(text: Seq<char>) -> Seq<char> {
    Seq::new(text.len(), |i: int| lower_char(text[i]))
}

/// `text` with its ASCII letters in lower case, everything else unchanged.
pub fn ascii_lower(text: &str) -> (lower: String)
    ensures
        lower@ == lower_text(text@),
{
    let mut out = String::new();
    for c in it: text.chars()
        invariant
            out@.len() == it.index(),
            it.seq() == text@,
            forall|i: int| 0 <= i < out@.len() ==> out@[i] == lower_char(text@[i]),
    {
        if 'A' <= c && c <= 'Z' {
            out.push((c as u8 + 0x20) as char);
        } else {
            out.push(c);
        }
    }
    assert(out@ =~= lower_text(text@));
    out
}

/// Whether two strings are equal but for the case of ASCII letters.
pub fn eq_ignore_case(a: &str, b: &str) -> (equal: bool)
    ensures
        equal == (lower_text(a@) == lower_text(b@)),
{
    let x = ascii_lower(a);
    let y = ascii_lower(b);
    str_eq(x.as_str(), y.as_str())
}

/// The characters of a string.
pub fn chars_of(text: &str) -> (chars: Vec<char>)
    ensures
        chars@ == text@,
{
    let mut out: Vec<char> = Vec::new();
    for c in it: text.chars()
        invariant
            out@.len() == it.index(),
            it.seq() == text@,
            forall|i: int| 0 <= i < out@.len() ==> out@[i] == text@[i],
    {
        out.push(c);
    }
    assert(out@ =~= text@);
    out
}

/// Builds a string out of ASCII bytes.
pub fn ascii_string(bytes: &[u8]) -> (text: String)
    requires
        all_ascii(bytes@),
    ensures
        text@ == ascii_chars(bytes@),
{
    let mut out = String::new();
    let mut i: usize = 0;
    while i < bytes.len()
        invariant
            i <= bytes@.len(),
            out@ == ascii_chars(bytes@.subrange(0, i as int)),
        decreases bytes@.len() - i,
    {
        out.push(bytes[i] as char);
        i = i + 1;
        assert(out@ =~= ascii_chars(bytes@.subrange(0, i as int)));
    }
    assert(bytes@.subrange(0, i as int) =~= bytes@);
    out
}

/// The character of a digit, with upper-case letters above nine.
pub open spec fn digit_upper(d: int) -> char {
    if d < 10 {
        (d + 0x30) as char
    } else {
        (d - 10 + 0x41) as char
    }
}

/// The character of a digit, with lower-case letters above nine.
pub open spec fn digit_lower(d: int) -> char {
    if d < 10 {
        (d + 0x30) as char
    } else {
        (d - 10 + 0x61) as char
    }
}

fn upper_digit(d: u8) -> (c: char)
    requires
        d < 16,
    ensures
        c == digit_upper(d as int),
{
    if d < 10 {
        (d + 0x30) as char
    } else {
        (d - 10 + 0x41) as char
    }
}

fn lower_digit(d: u8) -> (c: char)
    requires
        d < 16,
    ensures
        c == digit_lower(d as int),
{
    if d < 10 {
        (d + 0x30) as char
    } else {
        (d - 10 + 0x61) as char
    }
}

/// A number in decimal.
pub open spec fn decimal(n: nat) -> Seq<char>
    decreases n,
{
    if n < 10 {
        seq![digit_upper(n as int)]
    } else {
        decimal(n / 10).push(digit_upper(n as int % 10))
    }
}

/// A signed number in decimal.
pub open spec fn signed_decimal(n: int) -> Seq<char> {
    if n < 0 {
        seq!['-'] + decimal((-n) as nat)
    } else {
        decimal(n as nat)
    }
}

/// The number that decimal digits say.
pub open spec fn digits_value(text: Seq<char>) -> int
    decreases text.len(),
{
    if text.len() == 0 {
        0
    } else {
        10 * digits_value(text.drop_last()) + (text.last() as int - '0' as int)
    }
}

/// The number that decimal digits say, with a sign before them.
pub open spec fn signed_value(text: Seq<char>) -> int {
    if text.len() > 0 && text[0] == '-' {
        -digits_value(text.drop_first())
    } else {
        digits_value(text)
    }
}

/// A number in decimal is digits alone, and they say the number.
pub proof fn lemma_decimal_value(n: nat)
    ensures
        decimal(n).len() > 0,
        digits_value(decimal(n)) == n,
        forall|i: int| 0 <= i < decimal(n).len() ==> '0' <= #[trigger] decimal(n)[i] <= '9',
    decreases n,
{
    if n < 10 {
        let c = digit_upper(n as int);
        assert(decimal(n).drop_last() =~= Seq::<char>::empty());
        assert(digits_value(decimal(n).drop_last()) == 0);
        assert(decimal(n).last() == c);
        assert(c as int == n + 0x30);
    } else {
        lemma_decimal_value(n / 10);
        let c = digit_upper(n as int % 10);
        assert(decimal(n).drop_last() =~= decimal(n / 10));
        assert(decimal(n).last() == c);
        assert(c as int == n % 10 + 0x30);
    }
}

/// A signed number in decimal says the number.
pub proof fn lemma_signed_decimal_value(n: int)
    ensures
        signed_value(signed_decimal(n)) == n,
{
    if n < 0 {
        lemma_decimal_value((-n) as nat);
        assert(signed_decimal(n).drop_first() =~= decimal((-n) as nat));
    } else {
        lemma_decimal_value(n as nat);
        assert('0' <= decimal(n as nat)[0] <= '9');
    }
}

/// A number in hexadecimal, in upper case and without leading zeros.
pub open spec fn hex(n: nat) -> Seq<char>
    decreases n,
{
    if n < 16 {
        seq![digit_upper(n as int)]
    } else {
        hex(n / 16).push(digit_upper(n as int % 16))
    }
}

/// The low `width` hexadecimal digits of a number, in upper case.
pub open spec fn hex_padded(n: nat, width: nat) -> Seq<char>
    decreases width,
{
    if width == 0 {
        Seq::empty()
    } else {
        hex_padded(n / 16, (width - 1) as nat).push(digit_upper(n as int % 16))
    }
}

/// The low `width` hexadecimal digits of a number, in lower case.
pub open spec fn hex_padded_lower(n: nat, width: nat) -> Seq<char>
    decreases width,
{
    if width == 0 {
        Seq::empty()
    } else {
        hex_padded_lower(n / 16, (width - 1) as nat).push(digit_lower(n as int % 16))
    }
}

proof fn lemma_hex_length(n: nat)
    ensures
        hex(n).len() > 0,
        hex(n).last() == digit_upper(n as int % 16),
    decreases n,
{
    if n >= 16 {
        lemma_hex_length(n / 16);
    }
}

/// The digits of a number tell it from every other.
pub proof fn lemma_hex_tells(a: nat, b: nat)
    requires
        hex(a) == hex(b),
    ensures
        a == b,
    decreases a,
{
    lemma_hex_length(a);
    lemma_hex_length(b);
    assert(digit_upper(a as int % 16) == digit_upper(b as int % 16));
    assert(a % 16 == b % 16);
    if a >= 16 {
        lemma_hex_length(a / 16);
    }
    if b >= 16 {
        lemma_hex_length(b / 16);
    }
    if a >= 16 && b >= 16 {
        assert(hex(a).drop_last() =~= hex(a / 16));
        assert(hex(b).drop_last() =~= hex(b / 16));
        lemma_hex_tells(a / 16, b / 16);
    }
}

/// The number that hexadecimal digits say.
pub open spec fn hex_value(text: Seq<char>) -> int
    decreases text.len(),
{
    if text.len() == 0 {
        0
    } else {
        let c = text.last() as int;
        16 * hex_value(text.drop_last()) + (if c < 'A' as int {
            c - '0' as int
        } else if c < 'a' as int {
            c - 'A' as int + 10
        } else {
            c - 'a' as int + 10
        })
    }
}

/// Sixteen to a power.
pub open spec fn pow16(k: nat) -> int
    decreases k,
{
    if k == 0 {
        1
    } else {
        16 * pow16((k - 1) as nat)
    }
}

/// The digits of a padded number say it, as far as they reach.
pub proof fn lemma_hex_padded_value(n: nat, width: nat)
    requires
        n < pow16(width),
    ensures
        hex_value(hex_padded(n, width)) == n,
        hex_value(hex_padded_lower(n, width)) == n,
    decreases width,
{
    if width > 0 {
        let rest = (width - 1) as nat;
        assert(n / 16 < pow16(rest));
        lemma_hex_padded_value(n / 16, rest);
        let d = n as int % 16;
        let upper = hex_padded(n, width);
        let lower = hex_padded_lower(n, width);
        assert(upper.drop_last() =~= hex_padded(n / 16, rest));
        assert(lower.drop_last() =~= hex_padded_lower(n / 16, rest));
        assert(upper.last() == digit_upper(d));
        assert(lower.last() == digit_lower(d));
        if d < 10 {
            assert(digit_upper(d) as int == d + 0x30);
        } else {
            assert(digit_upper(d) as int == d - 10 + 0x41);
            assert(digit_lower(d) as int == d - 10 + 0x61);
        }
    }
}

/// The digits of a number in hexadecimal say it.
pub proof fn lemma_hex_value(n: nat)
    ensures
        hex_value(hex(n)) == n,
    decreases n,
{
    let d = n as int % 16;
    if n < 16 {
        assert(hex(n).drop_last() =~= Seq::<char>::empty());
        assert(hex_value(hex(n).drop_last()) == 0);
    } else {
        lemma_hex_value(n / 16);
        assert(hex(n).drop_last() =~= hex(n / 16));
    }
    assert(hex(n).last() == digit_upper(d));
    if d < 10 {
        assert(digit_upper(d) as int == d + 0x30);
    } else {
        assert(digit_upper(d) as int == d - 10 + 0x41);
    }
}

/// A padded number has as many digits as it is padded to, whatever its value.
pub proof fn lemma_hex_width(n: nat, width: nat)
    ensures
        hex_padded(n, width).len() == width,
        hex_padded_lower(n, width).len() == width,
    decreases width,
{
    if width > 0 {
        lemma_hex_width(n / 16, (width - 1) as nat);
    }
}

/// Appends a number in decimal.
pub fn push_decimal(out: &mut String, n: u64)
    ensures
        final(out)@ == old(out)@ + decimal(n as nat),
    decreases n,
{
    let ghost before = out@;
    if n >= 10 {
        push_decimal(out, n / 10);
    }
    let ghost head = out@;
    out.push(upper_digit((n % 10) as u8));
    assert(out@ =~= before + decimal(n as nat));
}

/// A number in decimal.
pub fn decimal_text(n: u64) -> (text: String)
    ensures
        text@ == decimal(n as nat),
{
    let mut out = String::new();
    push_decimal(&mut out, n);
    assert(out@ =~= decimal(n as nat));
    out
}

/// A signed number in decimal.
pub fn signed_decimal_text(n: i64) -> (text: String)
    ensures
        text@ == signed_decimal(n as int),
{
    let mut out = String::new();
    if n < 0 {
        out.push('-');
        let magnitude: u64 = if n == i64::MIN {
            0x8000_0000_0000_0000
        } else {
            (-n) as u64
        };
        push_decimal(&mut out, magnitude);
        assert(out@ =~= signed_decimal(n as int));
    } else {
        push_decimal(&mut out, n as u64);
        assert(out@ =~= signed_decimal(n as int));
    }
    out
}

/// Appends a number in hexadecimal, in upper case and without leading zeros.
pub fn push_hex(out: &mut String, n: u64)
    ensures
        final(out)@ == old(out)@ + hex(n as nat),
    decreases n,
{
    let ghost before = out@;
    if n >= 16 {
        push_hex(out, n / 16);
    }
    out.push(upper_digit((n % 16) as u8));
    assert(out@ =~= before + hex(n as nat));
}

/// Appends the low `width` hexadecimal digits of a number, in upper case.
pub fn push_hex_padded(out: &mut String, n: u64, width: u64)
    ensures
        final(out)@ == old(out)@ + hex_padded(n as nat, width as nat),
    decreases width,
{
    let ghost before = out@;
    if width > 0 {
        push_hex_padded(out, n / 16, width - 1);
        out.push(upper_digit((n % 16) as u8));
    }
    assert(out@ =~= before + hex_padded(n as nat, width as nat));
}

/// Appends the low `width` hexadecimal digits of a number, in lower case.
pub fn push_hex_padded_lower(out: &mut String, n: u64, width: u64)
    ensures
        final(out)@ == old(out)@ + hex_padded_lower(n as nat, width as nat),
    decreases width,
{
    let ghost before = out@;
    if width > 0 {
        push_hex_padded_lower(out, n / 16, width - 1);
        out.push(lower_digit((n % 16) as u8));
    }
    assert(out@ =~= before + hex_padded_lower(n as nat, width as nat));
}

/// Text without its spaces.
pub open spec fn without_spaces(text: Seq<char>) -> Seq<char>
    decreases text.len(),
{
    if text.len() == 0 {
        Seq::empty()
    } else {
        let before = without_spaces(text.drop_last());
        if text.last() == ' ' {
            before
        } else {
            before.push(text.last())
        }
    }
}

/// A text without its spaces is its other characters, in order.
pub proof fn lemma_without_spaces(text: Seq<char>)
    ensures
        without_spaces(text) == text.filter(|c: char| c != ' '),
    decreases text.len(),
{
    reveal(Seq::filter);
    if text.len() > 0 {
        lemma_without_spaces(text.drop_last());
    }
}

pub fn remove_spaces(text: &str) -> (out: String)
    ensures
        out@ == without_spaces(text@),
{
    let chars = chars_of(text);
    let mut out = String::new();
    let mut i: usize = 0;
    assert(chars@.subrange(0, 0) =~= Seq::<char>::empty());
    while i < chars.len()
        invariant
            i <= chars@.len(),
            out@ == without_spaces(chars@.subrange(0, i as int)),
        decreases chars@.len() - i,
    {
        let ghost head = chars@.subrange(0, i + 1);
        assert(head.drop_last() =~= chars@.subrange(0, i as int));
        assert(head.last() == chars@[i as int]);
        if chars[i] != ' ' {
            out.push(chars[i]);
        }
        i = i + 1;
    }
    assert(chars@.subrange(0, i as int) =~= chars@);
    out
}

/// The texts of a list of strings.
pub open spec fn strings(list: Seq<String>) -> Seq<Seq<char>> {
    Seq::new(list.len(), |i: int| list[i]@)
}

/// Texts one after the other, with a separator between them.
pub open spec fn joined(list: Seq<Seq<char>>, separator: Seq<char>) -> Seq<char>
    decreases list.len(),
{
    if list.len() == 0 {
        Seq::empty()
    } else if list.len() == 1 {
        list[0]
    } else {
        joined(list.drop_last(), separator) + separator + list.last()
    }
}

pub fn join(list: &Vec<String>, separator: &str) -> (text: String)
    ensures
        text@ == joined(strings(list@), separator@),
{
    let ghost texts = strings(list@);
    let mut out = String::new();
    let mut i: usize = 0;
    assert(texts.subrange(0, 0) =~= Seq::<Seq<char>>::empty());
    while i < list.len()
        invariant
            i <= list@.len(),
            texts == strings(list@),
            out@ == joined(texts.subrange(0, i as int), separator@),
        decreases list@.len() - i,
    {
        let ghost head = texts.subrange(0, i + 1);
        assert(head.drop_last() =~= texts.subrange(0, i as int));
        assert(head.last() == list@[i as int]@);
        if i > 0 {
            out.append(separator);
        }
        out.append(list[i].as_str());
        assert(i == 0 ==> out@ =~= head[0]);
        i = i + 1;
    }
    assert(texts.subrange(0, i as int) =~= texts);
    out
}

/// Whether a list holds a text.
pub fn holds_string(list: &Vec<String>, text: &str) -> (found: bool)
    ensures
        found == strings(list@).contains(text@),
{
    let mut i: usize = 0;
    while i < list.len()
        invariant
            i <= list@.len(),
            forall|k: int| 0 <= k < i ==> (#[trigger] strings(list@)[k]) != text@,
        decreases list@.len() - i,
    {
        if str_eq(list[i].as_str(), text) {
            assert(strings(list@)[i as int] == text@);
            return true;
        }
        i = i + 1;
    }
    false
}

/// Joining keeps the texts and their order: a single text is itself, and two lists
/// are joined like their parts, with the separator between them.
pub proof fn lemma_joined(one: Seq<Seq<char>>, two: Seq<Seq<char>>, separator: Seq<char>)
    requires
        one.len() > 0,
        two.len() > 0,
    ensures
        one.len() == 1 ==> joined(one, separator) == one[0],
        joined(one + two, separator) == joined(one, separator) + separator + joined(two, separator),
    decreases two.len(),
{
    let all = one + two;
    assert(all.last() == two.last());
    if two.len() == 1 {
        assert(all.drop_last() =~= one);
        assert(two.drop_last() =~= Seq::<Seq<char>>::empty());
        assert(joined(two, separator) =~= two[0]);
    } else {
        lemma_joined(one, two.drop_last(), separator);
        assert(all.drop_last() =~= one + two.drop_last());
        assert(joined(all, separator) =~= joined(one, separator) + separator + joined(
            two,
            separator,
        ));
    }
    if one.len() == 1 {
        assert(one.drop_last() =~= Seq::<Seq<char>>::empty());
        assert(joined(one, separator) =~= one[0]);
    }
}

/// In lower case no letter of the alphabet is a capital, each capital is the letter 32
/// behind it, and everything else is what it was; so it stays when it is put in lower
/// case again.
pub proof fn lemma_lowered(text: Seq<char>)
    ensures
        lower_text(text).len() == text.len(),
        forall|i: int|
            0 <= i < text.len() ==> {
                let c = text[i];
                let l = #[trigger] lower_text(text)[i];
                &&& !('A' <= l <= 'Z')
                &&& 'A' <= c <= 'Z' ==> l as int == c as int + 32 && 'a' <= l <= 'z'
                &&& !('A' <= c <= 'Z') ==> l == c
            },
        lower_text(lower_text(text)) == lower_text(text),
{
    let lower = lower_text(text);
    assert forall|i: int| 0 <= i < text.len() implies {
        let c = text[i];
        let l = #[trigger] lower[i];
        &&& !('A' <= l <= 'Z')
        &&& 'A' <= c <= 'Z' ==> l as int == c as int + 32 && 'a' <= l <= 'z'
        &&& !('A' <= c <= 'Z') ==> l == c
    } by {
        assert(lower[i] == lower_char(text[i]));
    }
    assert(lower_text(lower) =~= lower);
}

/// The same of a byte.
pub proof fn lemma_byte_lowered(b: u8)
    ensures
        0x41 <= b <= 0x5A ==> lower_byte(b) == b + 32,
        !(0x41 <= b <= 0x5A) ==> lower_byte(b) == b,
        lower_byte(lower_byte(b)) == lower_byte(b),
{
}

/// The bytes of two texts one behind the other are those of each.
pub proof fn lemma_encode_joined(a: Seq<char>, b: Seq<char>)
    ensures
        encode_utf8(a + b) == encode_utf8(a) + encode_utf8(b),
    decreases a.len(),
{
    let all = a + b;
    if a.len() == 0 {
        assert(all =~= b);
        assert(encode_utf8(a) =~= Seq::<u8>::empty());
        assert(encode_utf8(a) + encode_utf8(b) =~= encode_utf8(b));
    } else {
        lemma_encode_joined(a.drop_first(), b);
        assert(all.drop_first() =~= a.drop_first() + b);
        assert(all[0] == a[0]);
        assert(encode_utf8(all) =~= encode_utf8(a) + encode_utf8(b));
    }
}

/// A text begins with its first part, ends with its last, and holds the one between.
pub proof fn lemma_parts_found(a: Seq<char>, b: Seq<char>, c: Seq<char>)
    ensures
        begins_with(a + b, a),
        finishes_with(a + b, b),
        holds_text(a + b + c, b),
{
    lemma_encode_joined(a, b);
    lemma_encode_joined(a + b, c);
    let whole = encode_utf8(a + b + c);
    let part = encode_utf8(b);
    let at = encode_utf8(a).len() as int;
    assert(stands_at(whole, part, at)) by {
        assert forall|j: int| 0 <= j < part.len() implies #[trigger] whole[at + j] == part[j] by {
            assert((encode_utf8(a) + part)[at + j] == part[j]);
        }
    }
    let two = encode_utf8(a + b);
    assert(stands_at(two, part, two.len() - part.len()));
    assert(stands_at(two, encode_utf8(a), 0)) by {
        assert forall|j: int| 0 <= j < encode_utf8(a).len() implies #[trigger] two[0 + j]
            == encode_utf8(a)[j] by {}
    }
}

/// A text that begins or ends with another is no shorter than it, in bytes, and one
/// that holds another has its bytes somewhere.
pub proof fn lemma_found_parts(text: Seq<char>, part: Seq<char>)
    ensures
        begins_with(text, part) <==> encode_utf8(part).is_prefix_of(encode_utf8(text)),
        finishes_with(text, part) <==> encode_utf8(part).is_suffix_of(encode_utf8(text)),
{
    let whole = encode_utf8(text);
    let piece = encode_utf8(part);
    if piece.len() <= whole.len() {
        let head = whole.subrange(0, piece.len() as int);
        let from = whole.len() - piece.len();
        let tail = whole.subrange(from, whole.len() as int);
        if begins_with(text, part) {
            assert forall|j: int| 0 <= j < piece.len() implies head[j] == piece[j] by {
                assert(whole[0 + j] == piece[j]);
            }
            assert(head =~= piece);
        }
        if piece.is_prefix_of(whole) {
            assert forall|j: int| 0 <= j < piece.len() implies #[trigger] whole[0 + j]
                == piece[j] by {
                assert(head[j] == whole[j]);
            }
        }
        if finishes_with(text, part) {
            assert forall|j: int| 0 <= j < piece.len() implies tail[j] == piece[j] by {
                assert(whole[from + j] == piece[j]);
            }
            assert(tail =~= piece);
        }
        if piece.is_suffix_of(whole) {
            assert forall|j: int| 0 <= j < piece.len() implies #[trigger] whole[from + j]
                == piece[j] by {
                assert(tail[j] == whole[from + j]);
            }
        }
    }
}

} // verus!
