//! Size classes, file names and plain text mime types.

use vstd::arithmetic::power2::*;
use vstd::prelude::*;

use crate::protocol::{composite_id, RingKind};
use crate::text::{eq_ignore_ascii_case, push_decimal};

verus! {

/// The number of bucket files, one per size class.
pub const NUM_BUCKETS: usize = 11;

/// The length of a direct file's name: enough digits for every composite ID.
pub const DIRECT_FILE_NAME_LEN: usize = 13;

/// The mime types that stand for plain text, in lower case.
pub open spec fn is_plaintext_name(name: Seq<char>) -> bool {
    ||| name == ""@
    ||| name == "text"@
    ||| name == "string"@
    ||| name == "utf8_string"@
    ||| name == "text/plain"@
    ||| name == "text/plain;charset=utf-8"@
    ||| name == "text/plain;charset=us-ascii"@
    ||| name == "text/plain;charset=unicode"@
}

/// Whether two texts differ in nothing but the case of ASCII letters.
pub open spec fn same_ignoring_case(a: Seq<char>, b: Seq<char>) -> bool {
    crate::text::spec_ascii_lowercase(vstd::utf8::encode_utf8(a))
        == crate::text::spec_ascii_lowercase(vstd::utf8::encode_utf8(b))
}

/// Whether a mime type stands for plain text, whatever the case of its letters.
pub open spec fn spec_is_plaintext_mime(mime: Seq<char>) -> bool {
    exists|name: Seq<char>| is_plaintext_name(name) && #[trigger] same_ignoring_case(mime, name)
}

/// Whether a mime type stands for plain text, whatever the case of its letters.
#[must_use]
pub fn is_plaintext_mime(mime: &str) -> (plain: bool)
    ensures
        plain == exists|name: Seq<char>|
            is_plaintext_name(name) && #[trigger] same_ignoring_case(mime@, name),
        plain == spec_is_plaintext_mime(mime@),
{
    let bytes = mime.as_bytes();
    let plain = eq_ignore_ascii_case(bytes, "".as_bytes())
        || eq_ignore_ascii_case(bytes, "text".as_bytes())
        || eq_ignore_ascii_case(bytes, "string".as_bytes())
        || eq_ignore_ascii_case(bytes, "utf8_string".as_bytes())
        || eq_ignore_ascii_case(bytes, "text/plain".as_bytes())
        || eq_ignore_ascii_case(bytes, "text/plain;charset=utf-8".as_bytes())
        || eq_ignore_ascii_case(bytes, "text/plain;charset=us-ascii".as_bytes())
        || eq_ignore_ascii_case(bytes, "text/plain;charset=unicode".as_bytes());
    assert(plain == (same_ignoring_case(mime@, ""@) || same_ignoring_case(mime@, "text"@)
        || same_ignoring_case(mime@, "string"@) || same_ignoring_case(mime@, "utf8_string"@)
        || same_ignoring_case(mime@, "text/plain"@) || same_ignoring_case(
        mime@,
        "text/plain;charset=utf-8"@,
    ) || same_ignoring_case(mime@, "text/plain;charset=us-ascii"@) || same_ignoring_case(
        mime@,
        "text/plain;charset=unicode"@,
    )));
    plain
}

/// The capacity of a slot in the given bucket.
pub open spec fn spec_bucket_to_length(bucket: int) -> int {
    4 * pow2(bucket as nat) as int
}

/// The bucket that holds contents of the given size: the first one whose slots
/// are large enough.
pub open spec fn is_bucket_for(bytes: int, bucket: int) -> bool {
    &&& bucket >= 0
    &&& bytes <= spec_bucket_to_length(bucket)
    &&& bucket > 0 ==> bytes > spec_bucket_to_length(bucket - 1)
}

/// The bucket that holds contents of the given size.
pub open spec fn spec_size_to_bucket(bytes: int) -> int {
    choose|bucket: int| is_bucket_for(bytes, bucket)
}

/// The bucket that holds contents of the given size.
#[must_use]
pub fn size_to_bucket(bytes: u16) -> (bucket: u8)
    ensures
        bucket == spec_size_to_bucket(bytes as int),
        is_bucket_for(bytes as int, bucket as int),
        bucket <= 14,
        bytes <= 4096 ==> bucket < NUM_BUCKETS,
{
    let mut bucket: u8 = 0;
    let mut length: u32 = 4;
    proof {
        lemma2_to64();
    }
    while length < bytes as u32
        invariant
            length == spec_bucket_to_length(bucket as int),
            bucket <= 14,
            bucket <= 10 || bytes > 4096,
            bucket > 0 ==> bytes > spec_bucket_to_length(bucket - 1),
        decreases 14 - bucket,
    {
        proof {
            lemma2_to64();
            lemma_pow2_unfold((bucket + 1) as nat);
            assert(bucket == 10 ==> length == 4096);
            assert(bucket == 14 ==> length == 65536);
        }
        assert(bucket < 14);
        assert(length <= 0x8000) by {
            if bucket < 13 {
                lemma_pow2_strictly_increases(bucket as nat, 13);
            }
        }
        length = length * 2;
        bucket = bucket + 1;
    }
    proof {
        assert(is_bucket_for(bytes as int, bucket as int));
        lemma_bucket_unique(bytes as int, bucket as int, spec_size_to_bucket(bytes as int));
    }
    bucket
}

/// The capacity of a slot in the given bucket.
#[must_use]
pub fn bucket_to_length(bucket: usize) -> (length: u16)
    requires
        bucket < NUM_BUCKETS,
    ensures
        length == spec_bucket_to_length(bucket as int),
        4 <= length <= 4096,
{
    let mut length: u16 = 4;
    let mut i: usize = 0;
    proof {
        lemma2_to64();
    }
    while i < bucket
        invariant
            i <= bucket < NUM_BUCKETS,
            length == spec_bucket_to_length(i as int),
            4 <= length <= 4096,
        decreases bucket - i,
    {
        proof {
            lemma_pow2_unfold((i + 1) as nat);
            lemma2_to64();
            assert(length <= 2048) by {
                if i < 9 {
                    lemma_pow2_strictly_increases(i as nat, 9);
                }
            }
        }
        length = length * 2;
        i += 1;
    }
    length
}

/// Slots are not empty.
pub proof fn lemma_bucket_length_positive(bucket: int)
    requires
        bucket >= 0,
    ensures
        spec_bucket_to_length(bucket) >= 4,
{
    lemma_pow2_pos(bucket as nat);
}

/// Only one bucket holds contents of a given size.
pub proof fn lemma_bucket_unique(bytes: int, a: int, b: int)
    requires
        is_bucket_for(bytes, a),
        is_bucket_for(bytes, b),
    ensures
        a == b,
{
    if a < b {
        if a < b - 1 {
            lemma_pow2_strictly_increases(a as nat, (b - 1) as nat);
        }
    } else if b < a {
        if b < a - 1 {
            lemma_pow2_strictly_increases(b as nat, (a - 1) as nat);
        }
    }
}

/// Every size has a bucket, and every size up to the largest slots one that is kept.
pub proof fn lemma_bucket_exists(bytes: u16)
    ensures
        is_bucket_for(bytes as int, spec_size_to_bucket(bytes as int)),
        bytes <= 4096 ==> spec_size_to_bucket(bytes as int) < NUM_BUCKETS,
{
    lemma2_to64();
    let bucket: int = if bytes <= 4 {
        0
    } else if bytes <= 8 {
        1
    } else if bytes <= 16 {
        2
    } else if bytes <= 32 {
        3
    } else if bytes <= 64 {
        4
    } else if bytes <= 128 {
        5
    } else if bytes <= 256 {
        6
    } else if bytes <= 512 {
        7
    } else if bytes <= 1024 {
        8
    } else if bytes <= 2048 {
        9
    } else if bytes <= 4096 {
        10
    } else if bytes <= 8192 {
        11
    } else if bytes <= 16384 {
        12
    } else if bytes <= 32768 {
        13
    } else {
        14
    };
    assert(is_bucket_for(bytes as int, bucket));
    lemma_bucket_unique(bytes as int, bucket, spec_size_to_bucket(bytes as int));
}

/// Larger contents never go into a bucket with smaller slots.
pub proof fn lemma_bucket_monotonic(small: int, large: int, a: int, b: int)
    requires
        small <= large,
        is_bucket_for(small, a),
        is_bucket_for(large, b),
    ensures
        a <= b,
{
    if b < a {
        if b < a - 1 {
            lemma_pow2_strictly_increases(b as nat, (a - 1) as nat);
        }
    }
}

/// The bounds in a bucket file's name: sizes above the first and up to the second.
pub open spec fn bucket_bounds(bucket: int) -> (int, int) {
    (
        if bucket == 0 {
            0
        } else {
            spec_bucket_to_length(bucket - 1)
        },
        spec_bucket_to_length(bucket),
    )
}

/// The name of a bucket's file. The last bucket has no slot of full length, so
/// its range excludes the upper bound.
pub open spec fn spec_bucket_file_name(bucket: int) -> Seq<u8> {
    let bounds = bucket_bounds(bucket);
    seq![40u8] + crate::text::decimal(bounds.0 as nat) + seq![44u8, 32u8] + crate::text::decimal(
        bounds.1 as nat,
    ) + seq![if bucket == NUM_BUCKETS - 1 {
        41u8
    } else {
        93u8
    }]
}

/// The name of a bucket's file, such as `(4, 8]`.
pub fn bucket_file_name(bucket: usize) -> (name: Vec<u8>)
    requires
        bucket < NUM_BUCKETS,
    ensures
        name@ == spec_bucket_file_name(bucket as int),
{
    let mut name: Vec<u8> = Vec::new();
    name.push(40);
    let start: u16 = if bucket == 0 {
        0
    } else {
        bucket_to_length(bucket - 1)
    };
    push_decimal(&mut name, start as u64);
    name.push(44);
    name.push(32);
    push_decimal(&mut name, bucket_to_length(bucket) as u64);
    name.push(
        if bucket == NUM_BUCKETS - 1 {
            41
        } else {
            93
        },
    );
    assert(name@ =~= spec_bucket_file_name(bucket as int));
    name
}

/// A number in decimal, with zeros in front up to the given width.
pub open spec fn padded_decimal(n: nat, width: nat) -> Seq<u8> {
    let digits = crate::text::decimal(n);
    Seq::new((if digits.len() < width { (width - digits.len()) as nat } else { 0 }), |i: int| 48u8)
        + digits
}

/// The name of the file that holds the contents of a directly allocated entry:
/// its composite ID in decimal, with leading zeros.
pub open spec fn spec_direct_file_name(id: u64) -> Seq<u8> {
    padded_decimal(id as nat, 13)
}

/// The name of the file that holds the contents of a directly allocated entry.
pub fn direct_file_name(to: RingKind, index: u32) -> (name: Vec<u8>)
    ensures
        name@ == spec_direct_file_name(crate::protocol::spec_composite_id(to, index)),
        name@.len() == DIRECT_FILE_NAME_LEN,
{
    let mut digits: Vec<u8> = Vec::new();
    push_decimal(&mut digits, composite_id(to, index));
    let mut name: Vec<u8> = Vec::new();
    proof {
        reveal_with_fuel(pow10, 12);
        crate::text::lemma_decimal_value(crate::protocol::spec_composite_id(to, index) as nat);
        lemma_decimal_len(crate::protocol::spec_composite_id(to, index) as nat, 10);
    }
    while name.len() + digits.len() < DIRECT_FILE_NAME_LEN
        invariant
            digits@.len() <= 10,
            name@.len() + digits@.len() <= 13,
            name@ =~= Seq::new(name@.len(), |i: int| 48u8),
        decreases 13 - name@.len(),
    {
        name.push(48);
    }
    name.append(&mut digits);
    name
}

/// The powers of ten.
pub open spec fn pow10(k: nat) -> nat
    decreases k,
{
    if k == 0 {
        1
    } else {
        10 * pow10((k - 1) as nat)
    }
}

/// A number below a power of ten has no more digits than that.
pub proof fn lemma_decimal_len(n: nat, k: nat)
    requires
        k >= 1,
        n < pow10(k),
    ensures
        crate::text::decimal(n).len() <= k,
    decreases k,
{
    reveal_with_fuel(pow10, 2);
    if n >= 10 {
        lemma_decimal_len(n / 10, (k - 1) as nat);
    }
}

proof fn lemma_leading_zeros(zeros: Seq<u8>, digits: Seq<u8>)
    requires
        forall|i: int| 0 <= i < zeros.len() ==> zeros[i] == 48,
        crate::text::all_digits(digits),
    ensures
        crate::text::all_digits(zeros + digits),
        crate::text::digits_value(zeros + digits) == crate::text::digits_value(digits),
    decreases digits.len(), zeros.len(),
{
    if digits.len() > 0 {
        lemma_leading_zeros(zeros, digits.drop_last());
        assert((zeros + digits).drop_last() =~= zeros + digits.drop_last());
    } else if zeros.len() > 0 {
        lemma_leading_zeros(zeros.drop_last(), digits);
        assert((zeros + digits).drop_last() =~= zeros.drop_last() + digits);
    } else {
        assert(zeros + digits =~= digits);
    }
}

/// The ID in the name of a direct file, if the name is one.
pub open spec fn spec_entry_id_from_direct_file_name(name: Seq<u8>) -> Option<u64> {
    crate::text::spec_parse_u64(name)
}

/// A direct file's name tells the entry that it belongs to.
pub proof fn lemma_direct_file_name_round_trip(id: u64)
    ensures
        spec_entry_id_from_direct_file_name(spec_direct_file_name(id)) == Some(id),
{
    let digits = crate::text::decimal(id as nat);
    crate::text::lemma_decimal_value(id as nat);
    let zeros = Seq::new(
        if digits.len() < 13 {
            (13 - digits.len()) as nat
        } else {
            0
        },
        |i: int| 48u8,
    );
    lemma_leading_zeros(zeros, digits);
    assert(spec_direct_file_name(id) =~= zeros + digits);
    assert(spec_direct_file_name(id)[0] != 43) by {
        if zeros.len() == 0 {
            assert((zeros + digits)[0] == digits[0]);
        }
    }
}

/// The ID in the name of a direct file, if the name is one.
pub fn entry_id_from_direct_file_name(name: &[u8]) -> (id: Option<u64>)
    ensures
        id == spec_entry_id_from_direct_file_name(name@),
{
    crate::text::parse_u64(name)
}

/// Slots are as long as a power of two, from four bytes up to a page, and contents go to
/// the smallest slots that hold them: they fill more than half of one, unless it is of the
/// smallest kind.
pub proof fn lemma_slot_fits(bytes: u16, bucket: u8, length: u16)
    requires
        call_ensures(size_to_bucket, (bytes,), bucket),
        bytes <= 4096,
        call_ensures(bucket_to_length, (bucket as usize,), length),
    ensures
        bucket <= 10,
        length == pow2((bucket + 2) as nat),
        4 <= length <= 4096,
        bytes <= length,
        bytes <= 4 <==> bucket == 0,
        bucket > 0 ==> length < 2 * bytes,
{
    lemma_pow2_unfold((bucket + 2) as nat);
    lemma_pow2_unfold((bucket + 1) as nat);
    if bucket > 0 {
        lemma_pow2_unfold(bucket as nat);
        lemma_bucket_length_positive(bucket - 1);
    }
    lemma2_to64();
}

/// The file of a bucket is named after the sizes of the entries in it: more than the one
/// and up to the other number.
pub proof fn lemma_bucket_file_is_named_by_sizes(bucket: usize, name: Vec<u8>)
    requires
        bucket < 11,
        call_ensures(bucket_file_name, (bucket,), name),
    ensures
        exists|low: Seq<u8>, high: Seq<u8>|
            {
                &&& #[trigger] crate::text::all_digits(low)
                &&& #[trigger] crate::text::all_digits(high)
                &&& crate::text::digits_value(high) == pow2((bucket + 2) as nat)
                &&& crate::text::digits_value(low) == if bucket == 0 {
                    0
                } else {
                    pow2((bucket + 1) as nat)
                }
                &&& name@ == seq![40u8] + low + seq![44u8, 32u8] + high + seq![
                    if bucket == 10 {
                        41u8
                    } else {
                        93u8
                    },
                ]
            },
{
    let bounds = bucket_bounds(bucket as int);
    lemma_pow2_unfold((bucket + 2) as nat);
    lemma_pow2_unfold((bucket + 1) as nat);
    if bucket > 0 {
        lemma_pow2_unfold(bucket as nat);
        lemma_bucket_length_positive(bucket - 1);
    }
    lemma_bucket_length_positive(bucket as int);
    crate::text::lemma_decimal_value(bounds.0 as nat);
    crate::text::lemma_decimal_value(bounds.1 as nat);
    let low = crate::text::decimal(bounds.0 as nat);
    let high = crate::text::decimal(bounds.1 as nat);
    assert(crate::text::all_digits(low) && crate::text::all_digits(high));
}

/// The file of an entry is named by thirteen digits, which make up the ID of the entry: the
/// number of its ring, and its index below that.
pub proof fn lemma_direct_file_is_named_by_id(to: RingKind, index: u32, name: Vec<u8>)
    requires
        call_ensures(direct_file_name, (to, index), name),
    ensures
        name@.len() == 13,
        crate::text::all_digits(name@),
        crate::text::digits_value(name@) == index + if to == RingKind::Favorites {
            0int
        } else {
            0x1_0000_0000
        },
{
    let id = crate::protocol::spec_composite_id(to, index);
    let digits = crate::text::decimal(id as nat);
    crate::text::lemma_decimal_value(id as nat);
    let zeros = Seq::new(
        if digits.len() < 13 {
            (13 - digits.len()) as nat
        } else {
            0
        },
        |i: int| 48u8,
    );
    lemma_leading_zeros(zeros, digits);
    assert(spec_direct_file_name(id) =~= zeros + digits);
}

/// The name of an entry's file leads back to the entry.
pub proof fn lemma_direct_file_is_found_again(
    to: RingKind,
    index: u32,
    name: Vec<u8>,
    slice: &[u8],
    id: Option<u64>,
    parts: Result<(RingKind, u32), crate::protocol::IdNotFoundError>,
)
    requires
        call_ensures(direct_file_name, (to, index), name),
        slice@ == name@,
        call_ensures(entry_id_from_direct_file_name, (slice,), id),
        id matches Some(id) ==> call_ensures(crate::protocol::decompose_id, (id,), parts),
    ensures
        id is Some,
        parts matches Ok((ring, at)) && ring == to && at == index,
{
    lemma_direct_file_name_round_trip(crate::protocol::spec_composite_id(to, index));
}

/// The case of its ASCII letters does not matter to whether a mime type stands for plain text,
/// and the eight names for plain text do, however they are written.
pub proof fn lemma_plain_text_in_any_case(mime: Seq<char>, other: Seq<char>)
    ensures
        crate::search::same_letters(
            vstd::utf8::encode_utf8(mime),
            vstd::utf8::encode_utf8(other),
        ) ==> spec_is_plaintext_mime(mime) == spec_is_plaintext_mime(other),
        mime == ""@ || mime == "text"@ || mime == "string"@ || mime == "utf8_string"@ || mime
            == "text/plain"@ || mime == "text/plain;charset=utf-8"@ || mime
            == "text/plain;charset=us-ascii"@ || mime == "text/plain;charset=unicode"@
            ==> spec_is_plaintext_mime(mime),
        spec_is_plaintext_mime(mime) ==> exists|name: Seq<char>|
            #![trigger vstd::utf8::encode_utf8(name)]
            (name == ""@ || name == "text"@ || name == "string"@ || name == "utf8_string"@ || name
                == "text/plain"@ || name == "text/plain;charset=utf-8"@ || name
                == "text/plain;charset=us-ascii"@ || name == "text/plain;charset=unicode"@)
                && crate::search::same_letters(
                vstd::utf8::encode_utf8(mime),
                vstd::utf8::encode_utf8(name),
            ),
{
    let a = vstd::utf8::encode_utf8(mime);
    let b = vstd::utf8::encode_utf8(other);
    crate::search::lemma_same_in_lower_case(a, b);
    assert(same_ignoring_case(mime, mime));
    if crate::search::same_letters(a, b) {
        if spec_is_plaintext_mime(mime) {
            let name = choose|name: Seq<char>|
                is_plaintext_name(name) && #[trigger] same_ignoring_case(mime, name);
            assert(same_ignoring_case(other, name));
        }
        if spec_is_plaintext_mime(other) {
            let name = choose|name: Seq<char>|
                is_plaintext_name(name) && #[trigger] same_ignoring_case(other, name);
            assert(same_ignoring_case(mime, name));
        }
    }
    if spec_is_plaintext_mime(mime) {
        let name = choose|name: Seq<char>|
            is_plaintext_name(name) && #[trigger] same_ignoring_case(mime, name);
        crate::search::lemma_same_in_lower_case(a, vstd::utf8::encode_utf8(name));
    }
}

} // verus!
