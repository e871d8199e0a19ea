//! What the Unicode standard calls a well-formed UTF-8 code unit sequence,
//! and the shapes of the sequences that are not.
use vstd::prelude::*;
use vstd::utf8::*;

verus! {

/// Number of bytes of the well-formed sequence that `lead` starts; 0 when
/// `lead` starts none.
pub open spec fn width(lead: u8) -> nat {
    if lead <= 0x7f {
        1
    } else if 0xc2 <= lead <= 0xdf {
        2
    } else if 0xe0 <= lead <= 0xef {
        3
    } else if 0xf0 <= lead <= 0xf4 {
        4
    } else {
        0
    }
}

/// Whether `b` may stand at offset `i` (at least 1) of a well-formed sequence
/// that starts with `lead`.
pub open spec fn may_follow(lead: u8, i: int, b: u8) -> bool {
    if i == 1 && lead == 0xe0 {
        0xa0 <= b <= 0xbf
    } else if i == 1 && lead == 0xed {
        0x80 <= b <= 0x9f
    } else if i == 1 && lead == 0xf0 {
        0x90 <= b <= 0xbf
    } else if i == 1 && lead == 0xf4 {
        0x80 <= b <= 0x8f
    } else {
        is_continuation_byte(b)
    }
}

/// `s` is a non-empty proper prefix of a well-formed sequence: a character
/// whose remaining bytes have not arrived yet.
pub open spec fn is_partial(s: Seq<u8>) -> bool {
    &&& 0 < s.len() < width(s[0])
    &&& forall|i: int| 1 <= i < s.len() ==> may_follow(s[0], i, #[trigger] s[i])
}

/// Length of the maximal subpart of an ill-formed sequence that starts at
/// the beginning of `s`: the longest prefix that is a proper prefix of a
/// well-formed sequence, or a single byte.
pub open spec fn maximal_subpart_len(s: Seq<u8>) -> nat {
    if s.len() >= 3 && is_partial(s.take(3)) {
        3
    } else if s.len() >= 2 && is_partial(s.take(2)) {
        2
    } else {
        1
    }
}

/// `k` is the length of the longest prefix of `s` that is valid UTF-8.
pub open spec fn is_valid_up_to(s: Seq<u8>, k: int) -> bool {
    &&& 0 <= k <= s.len()
    &&& valid_utf8(s.take(k))
    &&& forall|j: int| k < j <= s.len() ==> !valid_utf8(#[trigger] s.take(j))
}

/// Length of the longest prefix of `s` that is valid UTF-8.
pub open spec fn longest_valid_prefix(s: Seq<u8>) -> int {
    choose|k: int| is_valid_up_to(s, k)
}

/// There is only one longest valid prefix.
pub proof fn lemma_valid_up_to_unique(s: Seq<u8>, k: int)
    requires
        is_valid_up_to(s, k),
    ensures
        longest_valid_prefix(s) == k,
{
    let j = longest_valid_prefix(s);
    assert(is_valid_up_to(s, j));
    if j < k {
        assert(!valid_utf8(s.take(k)));
    } else if k < j {
        assert(!valid_utf8(s.take(j)));
    }
}

/// A valid prefix of bytes that start with a cut-off character holds that
/// whole character, so it is longer than the cut-off part.
pub proof fn lemma_valid_extends_partial(c: Seq<u8>, len: int, k: int)
    requires
        0 < len <= c.len(),
        is_partial(c.take(len)),
        0 < k <= c.len(),
        valid_utf8(c.take(k)),
    ensures
        k > len,
{
    let v = c.take(k);
    assert(v[0] == c.take(len)[0]);
    assert(valid_first_scalar(v));
    if len >= 2 {
        assert(c.take(len)[1] == c[1]);
    }
}

/// The maximal subpart of bytes that start with a cut-off character covers
/// that whole part.
pub proof fn lemma_subpart_covers_partial(c: Seq<u8>, len: int)
    requires
        0 < len <= c.len(),
        is_partial(c.take(len)),
    ensures
        len <= maximal_subpart_len(c) <= c.len(),
{
    if len == 3 {
        assert(c.take(3) =~= c.take(len));
    } else if len == 2 {
        assert(c.take(2) =~= c.take(len));
    }
}

/// The largest `i <= j` for which the first `i` bytes of `s` are valid UTF-8.
pub open spec fn last_valid_at_most(s: Seq<u8>, j: int) -> int
    decreases j,
{
    if j <= 0 {
        0
    } else if valid_utf8(s.take(j)) {
        j
    } else {
        last_valid_at_most(s, j - 1)
    }
}

proof fn lemma_last_valid_at_most(s: Seq<u8>, j: int)
    requires
        0 <= j <= s.len(),
    ensures
        0 <= last_valid_at_most(s, j) <= j,
        valid_utf8(s.take(last_valid_at_most(s, j))),
        forall|i: int| last_valid_at_most(s, j) < i <= j ==> !valid_utf8(#[trigger] s.take(i)),
    decreases j,
{
    if j <= 0 {
        assert(s.take(0) =~= Seq::<u8>::empty());
    } else if !valid_utf8(s.take(j)) {
        lemma_last_valid_at_most(s, j - 1);
    }
}

/// Every byte sequence has a longest valid prefix.
pub proof fn lemma_longest_valid_prefix(s: Seq<u8>)
    ensures
        is_valid_up_to(s, longest_valid_prefix(s)),
{
    lemma_last_valid_at_most(s, s.len() as int);
    assert(is_valid_up_to(s, last_valid_at_most(s, s.len() as int)));
}

proof fn lemma_two_byte_table(b0: u8, b1: u8)
    by (bit_vector)
    requires
        0xc0 <= b0 <= 0xdf,
        0x80 <= (((b0 & 0x1f) as u32) << 6) | ((b1 & 0x3f) as u32),
    ensures
        b0 >= 0xc2,
{
}

proof fn lemma_three_byte_table(b0: u8, b1: u8, b2: u8)
    by (bit_vector)
    requires
        0xe0 <= b0 <= 0xef,
        0x80 <= b1 <= 0xbf,
        0x800 <= (((b0 & 0x0f) as u32) << 12) | (((b1 & 0x3f) as u32) << 6) | ((b2 & 0x3f) as u32),
        !(0xd800 <= (((b0 & 0x0f) as u32) << 12) | (((b1 & 0x3f) as u32) << 6) | ((b2 & 0x3f) as u32)
            <= 0xdfff),
    ensures
        b0 == 0xe0 ==> b1 >= 0xa0,
        b0 == 0xed ==> b1 <= 0x9f,
{
}

proof fn lemma_four_byte_table(b0: u8, b1: u8, b2: u8, b3: u8)
    by (bit_vector)
    requires
        0xf0 <= b0 <= 0xf7,
        0x80 <= b1 <= 0xbf,
        0x10000 <= (((b0 & 0x07) as u32) << 18) | (((b1 & 0x3f) as u32) << 12) | (((b2 & 0x3f) as u32)
            << 6) | ((b3 & 0x3f) as u32),
        (((b0 & 0x07) as u32) << 18) | (((b1 & 0x3f) as u32) << 12) | (((b2 & 0x3f) as u32) << 6) | ((b3
            & 0x3f) as u32) <= 0x10ffff,
    ensures
        b0 <= 0xf4,
        b0 == 0xf0 ==> b1 >= 0x90,
        b0 == 0xf4 ==> b1 <= 0x8f,
{
}

/// A well-formed first character has the length its lead byte announces,
/// and each of its later bytes is one that may follow that lead byte.
pub proof fn lemma_scalar_table(s: Seq<u8>)
    requires
        valid_first_scalar(s),
    ensures
        width(s[0]) == length_of_first_scalar(s),
        length_of_first_scalar(s) <= s.len(),
        forall|i: int| 1 <= i < length_of_first_scalar(s) ==> may_follow(s[0], i, #[trigger] s[i]),
{
    if is_leading_byte_width_2(s[0]) {
        lemma_two_byte_table(s[0], s[1]);
    } else if is_leading_byte_width_3(s[0]) {
        lemma_three_byte_table(s[0], s[1], s[2]);
    } else if is_leading_byte_width_4(s[0]) {
        lemma_four_byte_table(s[0], s[1], s[2], s[3]);
    }
}

/// Whether a sequence starts with a well-formed character depends only on the
/// bytes of that character.
proof fn lemma_first_scalar_same_bytes(w: Seq<u8>, z: Seq<u8>)
    requires
        valid_first_scalar(w),
        z.len() >= length_of_first_scalar(w),
        forall|i: int| 0 <= i < length_of_first_scalar(w) ==> z[i] == w[i],
    ensures
        valid_first_scalar(z),
        length_of_first_scalar(z) == length_of_first_scalar(w),
{
    assert(z[0] == w[0]);
    if length_of_first_scalar(w) >= 2 {
        assert(z[1] == w[1]);
    }
    if length_of_first_scalar(w) >= 3 {
        assert(z[2] == w[2]);
    }
    if length_of_first_scalar(w) >= 4 {
        assert(z[3] == w[3]);
    }
}

/// A sequence that starts with a well-formed character is no cut-off character.
pub proof fn lemma_valid_first_not_partial(z: Seq<u8>)
    requires
        valid_first_scalar(z),
    ensures
        !is_partial(z),
{
    lemma_scalar_table(z);
}

/// Cutting a prefix out of valid text: its longest valid prefix ends where a
/// character of the text ends, the text from there on is valid, and what
/// follows in the prefix is a cut-off character (or nothing).
pub proof fn lemma_prefix_of_valid(w: Seq<u8>, j: int)
    requires
        valid_utf8(w),
        0 <= j <= w.len(),
    ensures
        valid_utf8(w.skip(longest_valid_prefix(w.take(j)))),
        longest_valid_prefix(w.take(j)) == j || is_partial(
            w.take(j).skip(longest_valid_prefix(w.take(j))),
        ),
    decreases w.len(),
{
    let x = w.take(j);
    if j == 0 {
        assert(x.take(0) =~= Seq::<u8>::empty());
        assert(is_valid_up_to(x, 0));
        lemma_valid_up_to_unique(x, 0);
        assert(w.skip(0) =~= w);
    } else {
        let len = length_of_first_scalar(w);
        let w2 = pop_first_scalar(w);
        lemma_scalar_table(w);
        if j >= len {
            let x2 = w2.take(j - len);
            lemma_prefix_of_valid(w2, j - len);
            let k2 = longest_valid_prefix(x2);
            lemma_longest_valid_prefix(x2);
            let k = len + k2;
            let z = x.take(k);
            lemma_first_scalar_same_bytes(w, z);
            assert(pop_first_scalar(z) =~= x2.take(k2));
            assert(valid_utf8(z));
            assert forall|i: int| k < i <= x.len() implies !valid_utf8(#[trigger] x.take(i)) by {
                let zi = x.take(i);
                if valid_utf8(zi) {
                    lemma_first_scalar_same_bytes(w, zi);
                    assert(pop_first_scalar(zi) =~= x2.take(i - len));
                }
            }
            assert(is_valid_up_to(x, k));
            lemma_valid_up_to_unique(x, k);
            assert(w.skip(k) =~= w2.skip(k2));
            assert(x.skip(k) =~= x2.skip(k2));
        } else {
            assert forall|i: int| 0 < i <= x.len() implies !valid_utf8(#[trigger] x.take(i)) by {
                let zi = x.take(i);
                if valid_utf8(zi) {
                    lemma_scalar_table(zi);
                    assert(zi[0] == w[0]);
                }
            }
            assert(x.take(0) =~= Seq::<u8>::empty());
            assert(is_valid_up_to(x, 0));
            lemma_valid_up_to_unique(x, 0);
            assert(w.skip(0) =~= w);
            assert(x.skip(0) =~= x);
            assert forall|i: int| 1 <= i < x.len() implies may_follow(x[0], i, #[trigger] x[i]) by {
                assert(x[i] == w[i]);
            }
        }
    }
}

} // verus!
