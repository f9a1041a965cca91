//! The tag block of the manifest, and the manifest itself.
//!
//! A tag block is a LEB128 entry count followed by that many `(key, value)` pairs of
//! length-prefixed UTF-8 strings. The keys `architecture`, `hasher` and `depth` are
//! required, `is_recovering` is optional, keys under `custom.` belong to the tree's
//! users, and any other key is refused.

use vstd::prelude::*;
use vstd::utf8::{decode_utf8, encode_utf8, valid_utf8};

use crate::errors::{error, DeserializeError, DeserializeErrorKind, ErrorView, KindView, TagParseError};
use crate::serialization::append_bytes;
use crate::types::{keys_unique, pairs_view, Manifest, ManifestView, TagsView, TreeTags};
use crate::varint::{leb128_encoding, parse_leb128, read_leb128, write_leb128};

verus! {

/// A length-prefixed string: the LEB128 length of its UTF-8 bytes, then the bytes.
pub open spec fn str_bytes(s: Seq<char>) -> Seq<u8> {
    leb128_encoding(encode_utf8(s).len()) + encode_utf8(s)
}

/// Reads a length-prefixed string from the front of `s`; on success also gives what
/// follows it.
pub open spec fn parse_str(s: Seq<u8>) -> Result<(Seq<char>, Seq<u8>), KindView> {
    match parse_leb128(s) {
        Err(e) => Err(KindView::Leb128(e)),
        Ok((n, rest)) => if n > rest.len() {
            Err(KindView::UnexpectedEof)
        } else if !valid_utf8(rest.take(n as int)) {
            Err(KindView::Utf8)
        } else {
            Ok((decode_utf8(rest.take(n as int)), rest.skip(n as int)))
        },
    }
}

/// The character of a decimal digit.
pub open spec fn digit_char(d: nat) -> char {
    ((d + 48) as u8) as char
}

/// The decimal digits of `n`, with no leading zero.
pub open spec fn decimal_chars(n: nat) -> Seq<char>
    decreases n,
{
    if n < 10 {
        seq![digit_char(n)]
    } else {
        decimal_chars(n / 10) + seq![digit_char(n % 10)]
    }
}

pub open spec fn is_digit(c: char) -> bool {
    '0' <= c && c <= '9'
}

/// Reads the digits `d` after the digits already read, worth `acc`. A character that
/// is not a digit, or a value past `usize::MAX`, stops the reading where it occurs.
pub open spec fn digits_value(d: Seq<char>, acc: nat) -> Result<usize, TagParseError>
    decreases d.len(),
{
    if d.len() == 0 {
        Ok(acc as usize)
    } else if !is_digit(d[0]) {
        Err(TagParseError::InvalidDigit)
    } else if acc * 10 + (d[0] as nat - 48) > usize::MAX {
        Err(TagParseError::PosOverflow)
    } else {
        digits_value(d.drop_first(), (acc * 10 + (d[0] as nat - 48)) as nat)
    }
}

/// An unsigned decimal integer: an optional `+`, then one or more digits.
pub open spec fn usize_from_decimal(s: Seq<char>) -> Result<usize, TagParseError> {
    if s.len() == 0 {
        Err(TagParseError::Empty)
    } else if s[0] == '+' && s.len() == 1 {
        Err(TagParseError::InvalidDigit)
    } else if s[0] == '+' {
        digits_value(s.drop_first(), 0)
    } else {
        digits_value(s, 0)
    }
}

/// `true` or `false`.
pub open spec fn bool_from_str(s: Seq<char>) -> Result<bool, TagParseError> {
    if s == "true"@ {
        Ok(true)
    } else if s == "false"@ {
        Ok(false)
    } else {
        Err(TagParseError::InvalidBool)
    }
}

/// The entries of a tag set, in the order they are written: the required tags, the
/// recovery flag where it is set, then the custom tags under the `custom.` prefix.
#[verifier::opaque]
pub open spec fn tag_entries(t: TagsView) -> Seq<(Seq<char>, Seq<char>)> {
    seq![
        ("architecture"@, t.architecture),
        ("depth"@, decimal_chars(t.depth as nat)),
        ("hasher"@, t.hasher),
    ] + (if t.is_recovering {
        seq![("is_recovering"@, "true"@)]
    } else {
        Seq::empty()
    }) + t.custom.map_values(|p: (Seq<char>, Seq<char>)| ("custom."@ + p.0, p.1))
}

/// The entries, each as its key's string then its value's.
pub open spec fn entries_bytes(entries: Seq<(Seq<char>, Seq<char>)>) -> Seq<u8>
    decreases entries.len(),
{
    if entries.len() == 0 {
        Seq::empty()
    } else {
        entries_bytes(entries.drop_last()) + str_bytes(entries.last().0) + str_bytes(
            entries.last().1,
        )
    }
}

/// `[entry_count: LEB128][entries]`.
pub open spec fn tags_bytes(t: TagsView) -> Seq<u8> {
    leb128_encoding(tag_entries(t).len()) + entries_bytes(tag_entries(t))
}

/// The tags read so far.
pub struct TagsAcc {
    pub architecture: Option<Seq<char>>,
    pub hasher: Option<Seq<char>>,
    pub depth: Option<usize>,
    pub is_recovering: bool,
    pub custom: Seq<(Seq<char>, Seq<char>)>,
}

pub open spec fn initial_acc() -> TagsAcc {
    TagsAcc {
        architecture: None,
        hasher: None,
        depth: None,
        is_recovering: false,
        custom: Seq::empty(),
    }
}

/// `custom` with `key` mapped to `value`: in place where the key is present, at the
/// end where it is not.
pub open spec fn custom_insert(
    custom: Seq<(Seq<char>, Seq<char>)>,
    key: Seq<char>,
    value: Seq<char>,
) -> Seq<(Seq<char>, Seq<char>)> {
    if exists|j: int| 0 <= j < custom.len() && custom[j].0 == key {
        custom.update(choose|j: int| 0 <= j < custom.len() && custom[j].0 == key, (key, value))
    } else {
        custom.push((key, value))
    }
}

/// Whether `key` is a custom tag's key.
pub open spec fn is_custom_key(key: Seq<char>) -> bool {
    "custom."@.len() <= key.len() && key.take("custom."@.len() as int) == "custom."@
}

/// Records one entry. A reserved tag read again replaces the earlier value.
pub open spec fn apply_tag(acc: TagsAcc, key: Seq<char>, value: Seq<char>) -> Result<
    TagsAcc,
    KindView,
> {
    if key == "architecture"@ {
        Ok(TagsAcc { architecture: Some(value), ..acc })
    } else if key == "hasher"@ {
        Ok(TagsAcc { hasher: Some(value), ..acc })
    } else if key == "depth"@ {
        match usize_from_decimal(value) {
            Ok(depth) => Ok(TagsAcc { depth: Some(depth), ..acc }),
            Err(err) => Err(KindView::MalformedTag { name: "depth"@, err }),
        }
    } else if key == "is_recovering"@ {
        match bool_from_str(value) {
            Ok(flag) => Ok(TagsAcc { is_recovering: flag, ..acc }),
            Err(err) => Err(KindView::MalformedTag { name: "is_recovering"@, err }),
        }
    } else if is_custom_key(key) {
        Ok(
            TagsAcc {
                custom: custom_insert(acc.custom, key.skip("custom."@.len() as int), value),
                ..acc
            },
        )
    } else {
        Err(KindView::UnknownTag(key))
    }
}

/// Reads `n` entries from the front of `s` on top of `acc`.
pub open spec fn parse_entries(s: Seq<u8>, n: nat, acc: TagsAcc) -> Result<
    (TagsAcc, Seq<u8>),
    KindView,
>
    decreases n,
{
    if n == 0 {
        Ok((acc, s))
    } else {
        match parse_str(s) {
            Err(k) => Err(k),
            Ok((key, s1)) => match parse_str(s1) {
                Err(k) => Err(k),
                Ok((value, s2)) => match apply_tag(acc, key, value) {
                    Err(k) => Err(k),
                    Ok(next) => parse_entries(s2, (n - 1) as nat, next),
                },
            },
        }
    }
}

/// The tag set that the entries read make up, once the required tags are checked.
pub open spec fn finish_tags(read: Result<(TagsAcc, Seq<u8>), KindView>) -> Result<
    (TagsView, Seq<u8>),
    ErrorView,
> {
    match read {
        Err(k) => Err(error(k)),
        Ok((acc, rest)) => if acc.architecture is None {
            Err(error(KindView::MissingTag("architecture"@)))
        } else if acc.hasher is None {
            Err(error(KindView::MissingTag("hasher"@)))
        } else if acc.depth is None {
            Err(error(KindView::MissingTag("depth"@)))
        } else {
            Ok(
                (
                    TagsView {
                        architecture: acc.architecture->Some_0,
                        hasher: acc.hasher->Some_0,
                        depth: acc.depth->Some_0,
                        is_recovering: acc.is_recovering,
                        custom: acc.custom,
                    },
                    rest,
                ),
            )
        },
    }
}

/// Reads a tag block from the front of `s`; on success also gives what follows it.
pub open spec fn parse_tags(s: Seq<u8>) -> Result<(TagsView, Seq<u8>), ErrorView> {
    match parse_leb128(s) {
        Err(e) => Err(error(KindView::Leb128(e))),
        Ok((count, rest)) => finish_tags(parse_entries(rest, count as nat, initial_acc())),
    }
}

/// `[version_count: LEB128]`, then the tag block where there is one.
pub open spec fn manifest_bytes(m: ManifestView) -> Seq<u8> {
    leb128_encoding(m.version_count as nat) + match m.tags {
        Some(t) => tags_bytes(t),
        None => Seq::empty(),
    }
}

/// Reads a manifest: a tag block follows the version count exactly when bytes remain.
pub open spec fn parse_manifest(s: Seq<u8>) -> Result<ManifestView, ErrorView> {
    match parse_leb128(s) {
        Err(e) => Err(error(KindView::Leb128(e))),
        Ok((version_count, rest)) => if rest.len() == 0 {
            Ok(ManifestView { version_count, tags: None })
        } else {
            match parse_tags(rest) {
                Ok((t, _)) => Ok(ManifestView { version_count, tags: Some(t) }),
                Err(e) => Err(e),
            }
        },
    }
}

/// Relies on `std::str::from_utf8`: it accepts exactly the valid UTF-8 byte strings,
/// and the string it gives has those bytes.
#[verifier::external_body]
fn str_from_utf8(bytes: &[u8]) -> (r: Option<&str>)
    ensures
        r is Some <==> valid_utf8(bytes@),
        r matches Some(s) ==> encode_utf8(s@) == bytes@,
{
    std::str::from_utf8(bytes).ok()
}

/// Whether `a` and `b` hold the same characters.
fn str_eq(a: &str, b: &str) -> (r: bool)
    ensures
        r == (a@ == b@),
{
    let n = a.unicode_len();
    if n != b.unicode_len() {
        return false;
    }
    let mut i: usize = 0;
    while i < n
        invariant
            n == a@.len() == b@.len(),
            i <= n,
            forall|j: int| 0 <= j < i ==> a@[j] == b@[j],
        decreases n - i,
    {
        if a.get_char(i) != b.get_char(i) {
            return false;
        }
        i = i + 1;
    }
    assert(a@ =~= b@);
    true
}

/// Whether `s` begins with the characters of `prefix`.
fn has_prefix(s: &str, prefix: &str) -> (r: bool)
    ensures
        r == (prefix@.len() <= s@.len() && s@.take(prefix@.len() as int) == prefix@),
{
    let n = prefix.unicode_len();
    if n > s.unicode_len() {
        return false;
    }
    let mut i: usize = 0;
    while i < n
        invariant
            n == prefix@.len() <= s@.len(),
            i <= n,
            forall|j: int| 0 <= j < i ==> s@[j] == prefix@[j],
        decreases n - i,
    {
        if s.get_char(i) != prefix.get_char(i) {
            assert(s@.take(n as int)[i as int] != prefix@[i as int]);
            return false;
        }
        i = i + 1;
    }
    assert(s@.take(n as int) =~= prefix@);
    true
}

/// Parses an unsigned decimal integer: an optional `+`, then one or more digits.
pub fn parse_usize(s: &str) -> (r: Result<usize, TagParseError>)
    ensures
        r == usize_from_decimal(s@),
{
    let n = s.unicode_len();
    if n == 0 {
        return Err(TagParseError::Empty);
    }
    let first = s.get_char(0);
    if first == '+' && n == 1 {
        return Err(TagParseError::InvalidDigit);
    }
    let mut i: usize = if first == '+' {
        1
    } else {
        0
    };
    let ghost digits = s@.skip(i as int);
    assert(first == '+' ==> digits =~= s@.drop_first());
    assert(first != '+' ==> digits =~= s@);
    let mut acc: usize = 0;
    while i < n
        invariant
            n == s@.len(),
            i <= n,
            digits_value(s@.skip(i as int), acc as nat) == usize_from_decimal(s@),
        decreases n - i,
    {
        let c = s.get_char(i);
        assert(s@.skip(i as int)[0] == c);
        assert(s@.skip(i as int).drop_first() =~= s@.skip(i as int + 1));
        if !('0' <= c && c <= '9') {
            return Err(TagParseError::InvalidDigit);
        }
        let digit = (c as u32 - '0' as u32) as usize;
        acc = match acc.checked_mul(10) {
            None => return Err(TagParseError::PosOverflow),
            Some(m) => match m.checked_add(digit) {
                None => return Err(TagParseError::PosOverflow),
                Some(v) => v,
            },
        };
        i = i + 1;
    }
    assert(s@.skip(i as int).len() == 0);
    Ok(acc)
}

/// Parses `true` or `false`.
pub fn parse_bool(s: &str) -> (r: Result<bool, TagParseError>)
    ensures
        r == bool_from_str(s@),
{
    if str_eq(s, "true") {
        Ok(true)
    } else if str_eq(s, "false") {
        Ok(false)
    } else {
        Err(TagParseError::InvalidBool)
    }
}

/// Reads a length-prefixed string from the front of `bytes`; on success also gives what
/// follows it.
fn deserialize_str(bytes: &[u8]) -> (r: Result<(&str, &[u8]), DeserializeErrorKind>)
    ensures
        match parse_str(bytes@) {
            Ok((s, rest)) => r matches Ok((x, tail)) && x@ == s && tail@ == rest,
            Err(k) => r matches Err(x) && x@ == k,
        },
{
    let (len, rest) = match read_leb128(bytes) {
        Ok(parsed) => parsed,
        Err(e) => return Err(DeserializeErrorKind::Leb128(e)),
    };
    if len > rest.len() as u64 {
        return Err(DeserializeErrorKind::UnexpectedEof);
    }
    let (s, tail) = rest.split_at(len as usize);
    match str_from_utf8(s) {
        Some(s) => {
            proof {
                vstd::utf8::encode_utf8_decode_utf8(s@);
            }
            Ok((s, tail))
        },
        None => Err(DeserializeErrorKind::Utf8),
    }
}

/// Appends `bytes` as a length-prefixed string.
fn serialize_bytes(buffer: &mut Vec<u8>, bytes: &[u8])
    ensures
        final(buffer)@ == old(buffer)@ + leb128_encoding(bytes@.len()) + bytes@,
{
    write_leb128(buffer, bytes.len() as u64);
    append_bytes(buffer, bytes);
}

/// Appends `s` as a length-prefixed string.
fn serialize_str(buffer: &mut Vec<u8>, s: &str)
    ensures
        final(buffer)@ == old(buffer)@ + str_bytes(s@),
{
    serialize_bytes(buffer, s.as_bytes());
}

/// Appends one entry: its key, then its value.
fn serialize_entry(buffer: &mut Vec<u8>, key: &str, value: &str)
    ensures
        final(buffer)@ == old(buffer)@ + str_bytes(key@) + str_bytes(value@),
{
    serialize_str(buffer, key);
    serialize_str(buffer, value);
}

proof fn lemma_entries_bytes_step(entries: Seq<(Seq<char>, Seq<char>)>, m: nat)
    requires
        m < entries.len(),
    ensures
        entries_bytes(entries.take(m as int + 1)) == entries_bytes(entries.take(m as int))
            + str_bytes(entries[m as int].0) + str_bytes(entries[m as int].1),
{
    assert(entries.take(m as int + 1).drop_last() =~= entries.take(m as int));
}

/// Where each entry of a tag set stands.
proof fn lemma_tag_entries(t: TagsView)
    ensures
        tag_entries(t).len() == 3 + (if t.is_recovering { 1int } else { 0int }) + t.custom.len(),
        tag_entries(t)[0] == ("architecture"@, t.architecture),
        tag_entries(t)[1] == ("depth"@, decimal_chars(t.depth as nat)),
        tag_entries(t)[2] == ("hasher"@, t.hasher),
        t.is_recovering ==> tag_entries(t)[3] == ("is_recovering"@, "true"@),
        forall|k: int|
            0 <= k < t.custom.len() ==> tag_entries(t)[reserved_count(t) + k] == (
                "custom."@ + #[trigger] t.custom[k].0,
                t.custom[k].1,
            ),
{
    reveal(tag_entries);
}

/// The number of reserved entries that a tag set writes.
pub open spec fn reserved_count(t: TagsView) -> int {
    if t.is_recovering {
        4
    } else {
        3
    }
}

/// The bytes of ASCII characters.
pub open spec fn ascii_bytes(chars: Seq<char>) -> Seq<u8> {
    Seq::new(chars.len(), |i: int| chars[i] as u8)
}

proof fn lemma_decimal_ascii(n: nat)
    ensures
        vstd::utf8::is_ascii_chars(decimal_chars(n)),
        decimal_chars(n).len() >= 1,
    decreases n,
{
    if n >= 10 {
        lemma_decimal_ascii(n / 10);
    }
}

/// The UTF-8 bytes of a decimal number are its ASCII digits.
proof fn lemma_decimal_utf8(n: nat)
    ensures
        encode_utf8(decimal_chars(n)) == ascii_bytes(decimal_chars(n)),
{
    lemma_decimal_ascii(n);
    vstd::utf8::is_ascii_chars_encode_utf8(decimal_chars(n));
    assert(encode_utf8(decimal_chars(n)) =~= ascii_bytes(decimal_chars(n)));
}

/// Appends the ASCII decimal digits of `n`.
fn write_decimal(digits: &mut Vec<u8>, n: usize)
    ensures
        final(digits)@ == old(digits)@ + ascii_bytes(decimal_chars(n as nat)),
    decreases n,
{
    if n >= 10 {
        write_decimal(digits, n / 10);
    }
    let d: u8 = (n % 10) as u8;
    digits.push(d + 48);
    assert(final(digits)@ =~= old(digits)@ + ascii_bytes(decimal_chars(n as nat)));
}

/// The tags read so far, while decoding a tag block.
struct TagState {
    architecture: Option<String>,
    hasher: Option<String>,
    depth: Option<usize>,
    is_recovering: bool,
    custom: Vec<(String, String)>,
}

spec fn opt_str_view(s: Option<String>) -> Option<Seq<char>> {
    match s {
        Some(s) => Some(s@),
        None => None,
    }
}

impl View for TagState {
    type V = TagsAcc;

    closed spec fn view(&self) -> TagsAcc {
        TagsAcc {
            architecture: opt_str_view(self.architecture),
            hasher: opt_str_view(self.hasher),
            depth: self.depth,
            is_recovering: self.is_recovering,
            custom: pairs_view(self.custom@),
        }
    }
}

proof fn lemma_custom_insert_unique(
    custom: Seq<(Seq<char>, Seq<char>)>,
    key: Seq<char>,
    value: Seq<char>,
)
    requires
        keys_unique(custom),
    ensures
        keys_unique(custom_insert(custom, key, value)),
{
}

/// Maps `key` to `value` in `custom`: in place where the key is present, at the end
/// where it is not.
fn insert_custom(custom: &mut Vec<(String, String)>, key: String, value: String)
    requires
        keys_unique(pairs_view(old(custom)@)),
    ensures
        pairs_view(final(custom)@) == custom_insert(pairs_view(old(custom)@), key@, value@),
        keys_unique(pairs_view(final(custom)@)),
{
    let ghost before = pairs_view(custom@);
    proof {
        lemma_custom_insert_unique(before, key@, value@);
    }
    let mut j: usize = 0;
    while j < custom.len()
        invariant
            j <= custom@.len(),
            custom@ == old(custom)@,
            before == pairs_view(custom@),
            keys_unique(before),
            forall|i: int| 0 <= i < j ==> before[i].0 != key@,
        decreases custom@.len() - j,
    {
        if custom[j].0 == key {
            custom[j] = (key, value);
            proof {
                let chosen = choose|i: int| 0 <= i < before.len() && before[i].0 == key@;
                assert(before[j as int].0 == key@);
                assert(chosen == j);
                assert(pairs_view(custom@) =~= before.update(j as int, (key@, value@)));
            }
            return;
        }
        j = j + 1;
    }
    custom.push((key, value));
    assert(pairs_view(custom@) =~= before.push((key@, value@)));
}

/// Records one entry; mirrors `apply_tag`.
fn apply_entry(state: &mut TagState, key: &str, value: &str) -> (r: Result<(), DeserializeErrorKind>)
    requires
        keys_unique(old(state)@.custom),
    ensures
        match apply_tag(old(state)@, key@, value@) {
            Ok(acc) => r is Ok && final(state)@ == acc,
            Err(k) => r matches Err(x) && x@ == k,
        },
        keys_unique(final(state)@.custom),
{
    if str_eq(key, "architecture") {
        state.architecture = Some(value.to_owned());
        Ok(())
    } else if str_eq(key, "hasher") {
        state.hasher = Some(value.to_owned());
        Ok(())
    } else if str_eq(key, "depth") {
        match parse_usize(value) {
            Ok(depth) => {
                state.depth = Some(depth);
                Ok(())
            },
            Err(err) => Err(DeserializeErrorKind::MalformedTag { name: "depth", err }),
        }
    } else if str_eq(key, "is_recovering") {
        match parse_bool(value) {
            Ok(flag) => {
                state.is_recovering = flag;
                Ok(())
            },
            Err(err) => Err(DeserializeErrorKind::MalformedTag { name: "is_recovering", err }),
        }
    } else if has_prefix(key, "custom.") {
        let custom_key = key.substring_char("custom.".unicode_len(), key.unicode_len());
        insert_custom(&mut state.custom, custom_key.to_owned(), value.to_owned());
        Ok(())
    } else {
        Err(DeserializeErrorKind::UnknownTag(key.to_owned()))
    }
}

impl TreeTags {
    /// Appends the reserved entries of these tags.
    fn serialize_reserved(&self, buffer: &mut Vec<u8>)
        ensures
            final(buffer)@ == old(buffer)@ + entries_bytes(
                tag_entries(self@).take(reserved_count(self@)),
            ),
    {
        let ghost entries = tag_entries(self@);
        proof {
            lemma_tag_entries(self@);
        }
        let ghost start = buffer@;
        assert(entries.take(0) =~= Seq::<(Seq<char>, Seq<char>)>::empty());

        serialize_entry(buffer, "architecture", self.architecture.as_str());
        proof {
            lemma_entries_bytes_step(entries, 0);
        }
        assert(buffer@ =~= start + entries_bytes(entries.take(1)));

        let mut digits: Vec<u8> = Vec::new();
        write_decimal(&mut digits, self.depth);
        proof {
            lemma_decimal_utf8(self.depth as nat);
        }
        let ghost before_depth = buffer@;
        serialize_str(buffer, "depth");
        serialize_bytes(buffer, digits.as_slice());
        assert(buffer@ =~= before_depth + str_bytes("depth"@) + str_bytes(
            decimal_chars(self.depth as nat),
        ));
        proof {
            lemma_entries_bytes_step(entries, 1);
        }
        assert(buffer@ =~= start + entries_bytes(entries.take(2)));

        serialize_entry(buffer, "hasher", self.hasher.as_str());
        proof {
            lemma_entries_bytes_step(entries, 2);
        }
        assert(buffer@ =~= start + entries_bytes(entries.take(3)));

        if self.is_recovering {
            serialize_entry(buffer, "is_recovering", "true");
            proof {
                lemma_entries_bytes_step(entries, 3);
            }
            assert(buffer@ =~= start + entries_bytes(entries.take(4)));
        }
    }

    /// Decodes a tag block from the front of `bytes`; on success also gives what follows
    /// it.
    pub(crate) fn deserialize(bytes: &[u8]) -> (r: Result<(TreeTags, &[u8]), DeserializeError>)
        ensures
            match parse_tags(bytes@) {
                Ok((t, rest)) => r matches Ok((x, tail)) && x@ == t && tail@ == rest,
                Err(e) => r matches Err(x) && x@ == e,
            },
    {
        let (tag_count, mut rest) = match read_leb128(bytes) {
            Ok(parsed) => parsed,
            Err(e) => return Err(DeserializeErrorKind::Leb128(e).into_error()),
        };
        let mut state = TagState {
            architecture: None,
            hasher: None,
            depth: None,
            is_recovering: false,
            custom: Vec::new(),
        };
        assert(pairs_view(state.custom@) =~= Seq::empty());
        assert(state@ == initial_acc());
        let mut i: u64 = 0;
        while i < tag_count
            invariant
                i <= tag_count,
                keys_unique(state@.custom),
                parse_tags(bytes@) == finish_tags(
                    parse_entries(rest@, (tag_count - i) as nat, state@),
                ),
            decreases tag_count - i,
        {
            let (key, after_key) = match deserialize_str(rest) {
                Ok(parsed) => parsed,
                Err(k) => return Err(k.into_error()),
            };
            let (value, after_value) = match deserialize_str(after_key) {
                Ok(parsed) => parsed,
                Err(k) => return Err(k.into_error()),
            };
            match apply_entry(&mut state, key, value) {
                Ok(()) => {},
                Err(k) => return Err(k.into_error()),
            }
            rest = after_value;
            i = i + 1;
        }
        let architecture = match state.architecture {
            Some(architecture) => architecture,
            None => return Err(DeserializeErrorKind::MissingTag("architecture").into_error()),
        };
        let hasher = match state.hasher {
            Some(hasher) => hasher,
            None => return Err(DeserializeErrorKind::MissingTag("hasher").into_error()),
        };
        let depth = match state.depth {
            Some(depth) => depth,
            None => return Err(DeserializeErrorKind::MissingTag("depth").into_error()),
        };
        let tags = TreeTags {
            architecture,
            hasher,
            depth,
            is_recovering: state.is_recovering,
            custom: state.custom,
        };
        Ok((tags, rest))
    }

    /// Appends the tag block of these tags to `buffer`: the required tags, the recovery
    /// flag where it is set, then the custom tags in their order.
    pub(crate) fn serialize(&self, buffer: &mut Vec<u8>)
        requires
            self.custom@.len() + 4 <= u64::MAX,
        ensures
            final(buffer)@ == old(buffer)@ + tags_bytes(self@),
    {
        let ghost entries = tag_entries(self@);
        proof {
            lemma_tag_entries(self@);
        }
        let recovering: u64 = if self.is_recovering {
            1
        } else {
            0
        };
        let entry_count: u64 = 3 + recovering + self.custom.len() as u64;
        write_leb128(buffer, entry_count);
        let ghost start = buffer@;
        self.serialize_reserved(buffer);
        let fixed: usize = if self.is_recovering {
            4
        } else {
            3
        };

        let mut j: usize = 0;
        while j < self.custom.len()
            invariant
                j <= self.custom@.len(),
                fixed + self.custom@.len() == entries.len(),
                entries == tag_entries(self@),
                fixed == reserved_count(self@),
                forall|k: int|
                    0 <= k < self@.custom.len() ==> entries[reserved_count(self@) + k] == (
                        "custom."@ + #[trigger] self@.custom[k].0,
                        self@.custom[k].1,
                    ),
                buffer@ == start + entries_bytes(entries.take(fixed + j)),
            decreases self.custom@.len() - j,
        {
            let (custom_key, value) = &self.custom[j];
            let mut key = "custom.".to_owned();
            key.append(custom_key.as_str());
            serialize_entry(buffer, key.as_str(), value.as_str());
            proof {
                lemma_entries_bytes_step(entries, (fixed + j) as nat);
                assert(self@.custom[j as int].0 == custom_key@);
            }
            j = j + 1;
        }
        assert(entries.take(entries.len() as int) =~= entries);
    }
}

impl Manifest {
    /// Decodes a manifest: a tag block follows the version count exactly when bytes
    /// remain after it.
    pub fn deserialize(bytes: &[u8]) -> (r: Result<Manifest, DeserializeError>)
        ensures
            match r {
                Ok(m) => parse_manifest(bytes@) == Ok::<ManifestView, ErrorView>(m@),
                Err(e) => parse_manifest(bytes@) == Err::<ManifestView, ErrorView>(e@),
            },
    {
        let (version_count, rest) = match read_leb128(bytes) {
            Ok(parsed) => parsed,
            Err(e) => return Err(DeserializeErrorKind::Leb128(e).into_error()),
        };
        let tags = if rest.len() == 0 {
            None
        } else {
            match TreeTags::deserialize(rest) {
                Ok((tags, _)) => Some(tags),
                Err(e) => return Err(e),
            }
        };
        Ok(Manifest { version_count, tags })
    }

    /// Appends the encoding of this manifest to `buffer`.
    pub fn serialize(&self, buffer: &mut Vec<u8>)
        requires
            self.tags matches Some(t) ==> t.custom@.len() + 4 <= u64::MAX,
        ensures
            final(buffer)@ == old(buffer)@ + manifest_bytes(self@),
    {
        write_leb128(buffer, self.version_count);
        if let Some(tags) = &self.tags {
            tags.serialize(buffer);
        }
        assert(final(buffer)@ =~= old(buffer)@ + manifest_bytes(self@));
    }
}

} // verus!
