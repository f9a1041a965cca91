//! Properties of the tag block and the manifest: what is written reads back, and an
//! unknown key is refused.

use vstd::prelude::*;
use vstd::utf8::{encode_utf8, encode_utf8_decode_utf8, encode_utf8_valid_utf8};

use crate::errors::{error, ErrorView, KindView, TagParseError};
use crate::tags::{
    apply_tag, custom_insert, decimal_chars, digit_char, digits_value, entries_bytes,
    initial_acc, is_custom_key, is_digit, manifest_bytes, parse_entries, parse_manifest,
    parse_str, parse_tags, reserved_count, str_bytes, tag_entries, tags_bytes,
    usize_from_decimal, TagsAcc,
};
use crate::types::{keys_unique, Manifest, ManifestView, TagsView, TreeTags};
use crate::varint::{leb128_encoding, lemma_leb128_encoding_len, lemma_parse_leb128_encoding};

verus! {

/// Records the entries one by one on top of `acc`, stopping at the first refused one.
pub open spec fn apply_all(acc: TagsAcc, entries: Seq<(Seq<char>, Seq<char>)>) -> Result<
    TagsAcc,
    KindView,
>
    decreases entries.len(),
{
    if entries.len() == 0 {
        Ok(acc)
    } else {
        match apply_tag(acc, entries[0].0, entries[0].1) {
            Ok(next) => apply_all(next, entries.drop_first()),
            Err(k) => Err(k),
        }
    }
}

/// The UTF-8 bytes of every key and value can be counted in 64 bits.
pub open spec fn strings_fit(entries: Seq<(Seq<char>, Seq<char>)>) -> bool {
    forall|i: int|
        0 <= i < entries.len() ==> encode_utf8(#[trigger] entries[i].0).len() <= u64::MAX
            && encode_utf8(entries[i].1).len() <= u64::MAX
}

/// Reading a length-prefixed string from its encoding gives it back.
pub proof fn lemma_str_round_trip(s: Seq<char>, rest: Seq<u8>)
    requires
        encode_utf8(s).len() <= u64::MAX,
    ensures
        parse_str(str_bytes(s) + rest) == Ok::<(Seq<char>, Seq<u8>), KindView>((s, rest)),
{
    let enc = encode_utf8(s);
    let n = enc.len() as u64;
    lemma_parse_leb128_encoding(n, enc + rest);
    assert(str_bytes(s) + rest =~= leb128_encoding(n as nat) + (enc + rest));
    assert((enc + rest).take(n as int) =~= enc);
    assert((enc + rest).skip(n as int) =~= rest);
    encode_utf8_valid_utf8(s);
    encode_utf8_decode_utf8(s);
}

/// The encoding of entries, read from the front: the first entry's bytes, then the
/// others'.
pub proof fn lemma_entries_bytes_front(entries: Seq<(Seq<char>, Seq<char>)>)
    requires
        entries.len() > 0,
    ensures
        entries_bytes(entries) == str_bytes(entries[0].0) + str_bytes(entries[0].1)
            + entries_bytes(entries.drop_first()),
    decreases entries.len(),
{
    if entries.len() == 1 {
        assert(entries.drop_last() =~= Seq::<(Seq<char>, Seq<char>)>::empty());
        assert(entries.drop_first() =~= Seq::<(Seq<char>, Seq<char>)>::empty());
        assert(entries_bytes(entries.drop_last()) == Seq::<u8>::empty());
        assert(entries_bytes(entries.drop_first()) == Seq::<u8>::empty());
        assert(entries.last() == entries[0]);
        assert(entries_bytes(entries) =~= str_bytes(entries[0].0) + str_bytes(entries[0].1)
            + entries_bytes(entries.drop_first()));
    } else {
        lemma_entries_bytes_front(entries.drop_last());
        assert(entries.drop_last().drop_first() =~= entries.drop_first().drop_last());
        assert(entries.drop_last()[0] == entries[0]);
        assert(entries.drop_first().last() == entries.last());
        assert(entries_bytes(entries) =~= str_bytes(entries[0].0) + str_bytes(entries[0].1)
            + entries_bytes(entries.drop_first()));
    }
}

/// Reading encoded entries records them as `apply_all` does, and stops after them.
pub proof fn lemma_parse_entries(
    entries: Seq<(Seq<char>, Seq<char>)>,
    rest: Seq<u8>,
    acc: TagsAcc,
)
    requires
        strings_fit(entries),
    ensures
        parse_entries(entries_bytes(entries) + rest, entries.len(), acc) == match apply_all(
            acc,
            entries,
        ) {
            Ok(a) => Ok::<(TagsAcc, Seq<u8>), KindView>((a, rest)),
            Err(k) => Err(k),
        },
    decreases entries.len(),
{
    if entries.len() == 0 {
        assert(entries_bytes(entries) + rest =~= rest);
    } else {
        let tail = entries.drop_first();
        assert(strings_fit(tail)) by {
            assert forall|i: int| 0 <= i < tail.len() implies encode_utf8(#[trigger] tail[i].0).len() <= u64::MAX
                && encode_utf8(tail[i].1).len() <= u64::MAX by {
                assert(tail[i] == entries[i + 1]);
            }
        }
        assert(encode_utf8(entries[0].0).len() <= u64::MAX);
        lemma_entries_bytes_front(entries);
        let s1 = str_bytes(entries[0].1) + (entries_bytes(tail) + rest);
        assert(entries_bytes(entries) + rest =~= str_bytes(entries[0].0) + s1);
        lemma_str_round_trip(entries[0].0, s1);
        lemma_str_round_trip(entries[0].1, entries_bytes(tail) + rest);
        if let Ok(next) = apply_tag(acc, entries[0].0, entries[0].1) {
            lemma_parse_entries(tail, rest, next);
        }
    }
}

/// Recording two runs of entries is recording the first, then the second.
pub proof fn lemma_apply_all_concat(
    acc: TagsAcc,
    a: Seq<(Seq<char>, Seq<char>)>,
    b: Seq<(Seq<char>, Seq<char>)>,
)
    ensures
        apply_all(acc, a + b) == match apply_all(acc, a) {
            Ok(mid) => apply_all(mid, b),
            Err(k) => Err(k),
        },
    decreases a.len(),
{
    if a.len() == 0 {
        assert(a + b =~= b);
    } else {
        assert((a + b).drop_first() =~= a.drop_first() + b);
        assert((a + b)[0] == a[0]);
        if let Ok(next) = apply_tag(acc, a[0].0, a[0].1) {
            lemma_apply_all_concat(next, a.drop_first(), b);
        }
    }
}

/// `10^n`.
pub open spec fn pow10(n: nat) -> nat
    decreases n,
{
    if n == 0 {
        1
    } else {
        10 * pow10((n - 1) as nat)
    }
}

proof fn lemma_digit_char(d: nat)
    requires
        d < 10,
    ensures
        is_digit(digit_char(d)),
        digit_char(d) as nat - 48 == d,
        digit_char(d) != '+',
{
    let b = (d + 48) as u8;
    assert(b as char as u32 == b as u32);
}

proof fn lemma_decimal_len(n: nat)
    ensures
        decimal_chars(n).len() >= 1,
        n >= 10 ==> decimal_chars(n / 10).len() == decimal_chars(n).len() - 1,
    decreases n,
{
    if n >= 10 {
        lemma_decimal_len(n / 10);
    }
}

proof fn lemma_digits_value_decimal(n: nat, acc: nat, rest: Seq<char>)
    requires
        acc * pow10(decimal_chars(n).len()) + n <= usize::MAX,
    ensures
        digits_value(decimal_chars(n) + rest, acc) == digits_value(
            rest,
            acc * pow10(decimal_chars(n).len()) + n,
        ),
    decreases n,
{
    lemma_decimal_len(n);
    let len = decimal_chars(n).len();
    if n < 10 {
        lemma_digit_char(n);
        let s = decimal_chars(n) + rest;
        assert(s[0] == digit_char(n));
        assert(s.drop_first() =~= rest);
        assert(pow10(1) == 10) by {
            assert(pow10(0) == 1);
        }
    } else {
        let c = digit_char(n % 10);
        lemma_digit_char(n % 10);
        let len1 = (len - 1) as nat;
        assert(pow10(len) == 10 * pow10(len1));
        let p = pow10(len1);
        assert(acc * pow10(len) == acc * p * 10) by (nonlinear_arith)
            requires
                pow10(len) == 10 * p,
        ;
        assert(n == 10 * (n / 10) + n % 10);
        assert((acc * p + n / 10) * 10 + n % 10 == acc * p * 10 + n) by (nonlinear_arith)
            requires
                n == 10 * (n / 10) + n % 10,
        ;
        assert(acc * p + n / 10 <= usize::MAX) by (nonlinear_arith)
            requires
                (acc * p + n / 10) * 10 + n % 10 <= usize::MAX,
        ;
        assert(decimal_chars(n) + rest =~= decimal_chars(n / 10) + (seq![c] + rest));
        lemma_digits_value_decimal(n / 10, acc, seq![c] + rest);
        let s = seq![c] + rest;
        assert(s[0] == c);
        assert(s.drop_first() =~= rest);
    }
}

/// The decimal digits of a number read back as that number.
pub proof fn lemma_decimal_round_trip(n: usize)
    ensures
        usize_from_decimal(decimal_chars(n as nat)) == Ok::<usize, TagParseError>(n),
{
    lemma_decimal_len(n as nat);
    let d = decimal_chars(n as nat);
    if n < 10 {
        lemma_digit_char(n as nat);
    } else {
        lemma_digit_char((n % 10) as nat);
    }
    assert(d[0] != '+') by {
        lemma_first_digit(n as nat);
    }
    lemma_digits_value_decimal(n as nat, 0, Seq::empty());
    assert(d + Seq::<char>::empty() =~= d);
}

proof fn lemma_first_digit(n: nat)
    ensures
        is_digit(decimal_chars(n)[0]),
        decimal_chars(n)[0] != '+',
    decreases n,
{
    lemma_decimal_len(n);
    if n < 10 {
        lemma_digit_char(n);
    } else {
        lemma_first_digit(n / 10);
        lemma_decimal_len(n / 10);
        assert(decimal_chars(n)[0] == decimal_chars(n / 10)[0]);
    }
}

/// The custom entries of a tag set, under the `custom.` prefix.
pub open spec fn custom_entries(custom: Seq<(Seq<char>, Seq<char>)>) -> Seq<(Seq<char>, Seq<char>)> {
    custom.map_values(|p: (Seq<char>, Seq<char>)| ("custom."@ + p.0, p.1))
}

/// The reserved entries of a tag set.
pub open spec fn reserved_entries(t: TagsView) -> Seq<(Seq<char>, Seq<char>)> {
    seq![
        ("architecture"@, t.architecture),
        ("depth"@, decimal_chars(t.depth as nat)),
        ("hasher"@, t.hasher),
    ] + (if t.is_recovering {
        seq![("is_recovering"@, "true"@)]
    } else {
        Seq::empty()
    })
}

/// The keys that the tag block reserves.
pub open spec fn is_reserved_key(key: Seq<char>) -> bool {
    key == "architecture"@ || key == "hasher"@ || key == "depth"@ || key == "is_recovering"@
}

proof fn lemma_split_entries(t: TagsView)
    ensures
        tag_entries(t) == reserved_entries(t) + custom_entries(t.custom),
        reserved_entries(t).len() == reserved_count(t),
{
    reveal(tag_entries);
}

proof fn lemma_reserved_keys()
    ensures
        "architecture"@.len() == 12 && "architecture"@[0] == 'a',
        "hasher"@.len() == 6 && "hasher"@[0] == 'h',
        "depth"@.len() == 5 && "depth"@[0] == 'd',
        "is_recovering"@.len() == 13 && "is_recovering"@[0] == 'i',
        "custom."@.len() == 7 && "custom."@[0] == 'c',
{
    reveal_strlit("architecture");
    reveal_strlit("hasher");
    reveal_strlit("depth");
    reveal_strlit("is_recovering");
    reveal_strlit("custom.");
}

/// The accumulated tags after the reserved entries of `t`.
pub open spec fn reserved_acc(t: TagsView) -> TagsAcc {
    TagsAcc {
        architecture: Some(t.architecture),
        hasher: Some(t.hasher),
        depth: Some(t.depth),
        is_recovering: t.is_recovering,
        custom: Seq::empty(),
    }
}

proof fn lemma_apply_reserved(t: TagsView)
    ensures
        apply_all(initial_acc(), reserved_entries(t)) == Ok::<TagsAcc, KindView>(reserved_acc(t)),
{
    lemma_reserved_keys();
    lemma_decimal_round_trip(t.depth);
    let e = reserved_entries(t);
    let a1 = TagsAcc { architecture: Some(t.architecture), ..initial_acc() };
    let a2 = TagsAcc { depth: Some(t.depth), ..a1 };
    let a3 = TagsAcc { hasher: Some(t.hasher), ..a2 };
    assert(apply_tag(initial_acc(), e[0].0, e[0].1) == Ok::<TagsAcc, KindView>(a1));
    assert(apply_tag(a1, e[1].0, e[1].1) == Ok::<TagsAcc, KindView>(a2));
    assert(apply_tag(a2, e[2].0, e[2].1) == Ok::<TagsAcc, KindView>(a3));
    let e1 = e.drop_first();
    let e2 = e1.drop_first();
    let e3 = e2.drop_first();
    assert(e1[0] == e[1]);
    assert(e2[0] == e[2]);
    if t.is_recovering {
        let a4 = TagsAcc { is_recovering: true, ..a3 };
        assert(e3[0] == e[3]);
        assert(apply_tag(a3, e3[0].0, e3[0].1) == Ok::<TagsAcc, KindView>(a4));
        assert(e3.drop_first().len() == 0);
        assert(apply_all(a4, e3.drop_first()) == Ok::<TagsAcc, KindView>(a4));
        assert(apply_all(a3, e3) == Ok::<TagsAcc, KindView>(a4));
        assert(a4 == reserved_acc(t));
    } else {
        assert(e3.len() == 0);
        assert(apply_all(a3, e3) == Ok::<TagsAcc, KindView>(a3));
        assert(a3 == reserved_acc(t));
    }
    assert(apply_all(a2, e2) == apply_all(a3, e3));
    assert(apply_all(a1, e1) == apply_all(a2, e2));
    assert(apply_all(initial_acc(), e) == apply_all(a1, e1));
}

proof fn lemma_apply_custom(acc: TagsAcc, custom: Seq<(Seq<char>, Seq<char>)>, j: nat)
    requires
        keys_unique(custom),
        j <= custom.len(),
        acc.custom == custom.take(j as int),
    ensures
        apply_all(acc, custom_entries(custom).skip(j as int)) == Ok::<TagsAcc, KindView>(
            TagsAcc { custom, ..acc },
        ),
    decreases custom.len() - j,
{
    let entries = custom_entries(custom).skip(j as int);
    if j == custom.len() {
        assert(custom.take(j as int) =~= custom);
        assert(entries.len() == 0);
    } else {
        lemma_reserved_keys();
        let (k, v) = custom[j as int];
        let key = "custom."@ + k;
        assert(entries[0] == (key, v));
        assert(key[0] == 'c');
        assert(key.take(7) =~= "custom."@);
        assert(key.skip(7) =~= k);
        assert(!(exists|i: int| 0 <= i < acc.custom.len() && acc.custom[i].0 == k)) by {
            if exists|i: int| 0 <= i < acc.custom.len() && acc.custom[i].0 == k {
                let i = choose|i: int| 0 <= i < acc.custom.len() && acc.custom[i].0 == k;
                assert(acc.custom[i] == custom[i]);
            }
        }
        assert(custom_insert(acc.custom, k, v) =~= custom.take(j as int + 1));
        let next = TagsAcc { custom: custom.take(j as int + 1), ..acc };
        assert(apply_tag(acc, key, v) == Ok::<TagsAcc, KindView>(next));
        assert(entries.drop_first() =~= custom_entries(custom).skip(j as int + 1));
        lemma_apply_custom(next, custom, j + 1);
    }
}

/// A tag set that can be written: custom keys at most once each, and every count and
/// length within 64 bits.
pub open spec fn tags_writable(t: TagsView) -> bool {
    &&& keys_unique(t.custom)
    &&& t.custom.len() + 4 <= u64::MAX
    &&& strings_fit(tag_entries(t))
}

/// Reading the entries of a writable tag set records exactly that tag set.
proof fn lemma_apply_tag_entries(t: TagsView)
    requires
        keys_unique(t.custom),
    ensures
        apply_all(initial_acc(), tag_entries(t)) == Ok::<TagsAcc, KindView>(
            TagsAcc { custom: t.custom, ..reserved_acc(t) },
        ),
{
    lemma_split_entries(t);
    lemma_apply_all_concat(initial_acc(), reserved_entries(t), custom_entries(t.custom));
    lemma_apply_reserved(t);
    assert(reserved_acc(t).custom =~= t.custom.take(0));
    lemma_apply_custom(reserved_acc(t), t.custom, 0);
    assert(custom_entries(t.custom).skip(0) =~= custom_entries(t.custom));
}

/// Decoding the tag block of a writable tag set gives back its architecture, hasher,
/// depth, recovery flag and every custom tag, and stops where the block ends.
pub proof fn tags_round_trip(tags: TreeTags, rest: Seq<u8>)
    requires
        tags_writable(tags@),
    ensures
        parse_tags(tags_bytes(tags@) + rest) == Ok::<(TagsView, Seq<u8>), ErrorView>(
            (tags@, rest),
        ),
{
    let t = tags@;
    let e = tag_entries(t);
    lemma_split_entries(t);
    let count = e.len() as u64;
    lemma_parse_leb128_encoding(count, entries_bytes(e) + rest);
    assert(tags_bytes(t) + rest =~= leb128_encoding(count as nat) + (entries_bytes(e) + rest));
    lemma_parse_entries(e, rest, initial_acc());
    lemma_apply_tag_entries(t);
}

/// Decoding the encoding of a manifest whose tags can be written gives the manifest
/// back.
pub proof fn manifest_round_trip(manifest: Manifest)
    requires
        manifest.tags matches Some(t) ==> tags_writable(t@),
    ensures
        parse_manifest(manifest_bytes(manifest@)) == Ok::<ManifestView, ErrorView>(manifest@),
{
    let m = manifest@;
    match manifest.tags {
        None => {
            lemma_parse_leb128_encoding(manifest.version_count, Seq::empty());
            assert(manifest_bytes(m) =~= leb128_encoding(m.version_count as nat) + Seq::<u8>::empty());
        },
        Some(tags) => {
            let t = tags@;
            lemma_parse_leb128_encoding(manifest.version_count, tags_bytes(t));
            tags_round_trip(tags, Seq::empty());
            assert(tags_bytes(t) + Seq::<u8>::empty() =~= tags_bytes(t));
            lemma_leb128_encoding_len(tag_entries(t).len() as u64);
        },
    }
}

/// Renaming a reserved entry of a writable tag set to a key that is neither reserved nor
/// custom makes its tag block be refused for that unknown key.
pub proof fn unknown_tag_rejected(tags: TreeTags, i: int, key: Seq<char>, rest: Seq<u8>)
    requires
        tags_writable(tags@),
        0 <= i < reserved_count(tags@),
        !is_reserved_key(key),
        !is_custom_key(key),
        encode_utf8(key).len() <= u64::MAX,
    ensures
        ({
            let e = tag_entries(tags@).update(i, (key, tag_entries(tags@)[i].1));
            parse_tags(leb128_encoding(e.len()) + entries_bytes(e) + rest) == Err::<
                (TagsView, Seq<u8>),
                ErrorView,
            >(error(KindView::UnknownTag(key)))
        }),
{
    let t = tags@;
    let written = tag_entries(t);
    let value = written[i].1;
    let e = written.update(i, (key, value));
    lemma_split_entries(t);
    let reserved = reserved_entries(t);
    assert(strings_fit(e)) by {
        assert forall|j: int| 0 <= j < e.len() implies encode_utf8(#[trigger] e[j].0).len() <= u64::MAX
            && encode_utf8(e[j].1).len() <= u64::MAX by {
            assert(encode_utf8(written[j].0).len() <= u64::MAX);
        }
    }
    let count = e.len() as u64;
    lemma_parse_leb128_encoding(count, entries_bytes(e) + rest);
    assert(leb128_encoding(e.len()) + entries_bytes(e) + rest =~= leb128_encoding(count as nat) + (
    entries_bytes(e) + rest));
    lemma_parse_entries(e, rest, initial_acc());

    // The entries before `i` are reserved ones, and they are recorded.
    let before = reserved.take(i);
    lemma_apply_reserved(t);
    lemma_apply_all_concat(initial_acc(), before, reserved.skip(i));
    assert(before + reserved.skip(i) =~= reserved);
    let mid = apply_all(initial_acc(), before)->Ok_0;
    // Then comes the renamed entry, which is refused.
    let after = seq![(key, value)] + written.skip(i + 1);
    assert(e =~= before + after);
    assert(written.take(i) =~= before);
    lemma_apply_all_concat(initial_acc(), before, after);
    assert(after[0] == (key, value));
    assert(apply_tag(mid, key, value) == Err::<TagsAcc, KindView>(KindView::UnknownTag(key)));
}

/// Encoding what a manifest's encoding decodes to gives the same bytes again, the tags
/// in the same order.
pub proof fn manifest_reencoding(manifest: Manifest)
    requires
        manifest.tags matches Some(t) ==> tags_writable(t@),
    ensures
        parse_manifest(manifest_bytes(manifest@)) matches Ok(m) && manifest_bytes(m)
            == manifest_bytes(manifest@),
{
    manifest_round_trip(manifest);
}

} // verus!
