//! Splitting byte buffers on UTF-8 character boundaries.
//!
//! PTY reads arrive in fixed-size chunks, so a multi-byte character can
//! straddle a read boundary. [`utf8_split_point`] finds the index at which a
//! buffer splits into a complete UTF-8 prefix and the start of an incomplete
//! trailing character; the caller emits the prefix and carries the trailing
//! bytes over to the next read.

use vstd::prelude::*;
use vstd::utf8::*;

verus! {

/// The number of bytes that a non-continuation, non-ASCII byte announces for
/// its character when it stands at the head of a multi-byte sequence. Bytes
/// that are not well-formed lead bytes at all (`0xf8..=0xff`) are treated as
/// two-byte leads, which passes them through promptly and leaves them to
/// lossy decoding.
pub open spec fn claimed_width(b: u8) -> int {
    if is_leading_byte_width_4(b) {
        4
    } else if is_leading_byte_width_3(b) {
        3
    } else {
        2
    }
}

/// Split position chosen once the backward scan has stopped on the
/// non-continuation byte at position `i`: the whole buffer when that byte is
/// ASCII or announces a character that is already complete, otherwise `i`.
pub open spec fn lead_split(s: Seq<u8>, i: int) -> int
    recommends
        0 <= i < s.len(),
{
    if is_leading_byte_width_1(s[i]) {
        s.len() as int
    } else if s.len() - i >= claimed_width(s[i]) {
        s.len() as int
    } else {
        i
    }
}

/// The index at which a byte buffer splits into a complete UTF-8 prefix and
/// an incomplete trailing character. The scan inspects at most the last
/// three bytes, walking backward over continuation bytes; if it never leaves
/// them, the whole buffer is passed through for lossy decoding.
pub open spec fn split_point(s: Seq<u8>) -> int {
    let n = s.len() as int;
    if n == 0 {
        0
    } else if !is_continuation_byte(s[n - 1]) {
        lead_split(s, n - 1)
    } else if n >= 2 && !is_continuation_byte(s[n - 2]) {
        lead_split(s, n - 2)
    } else if n >= 3 && !is_continuation_byte(s[n - 3]) {
        lead_split(s, n - 3)
    } else {
        n
    }
}

/// True when `t` is the (possibly empty) carry that the splitter may leave
/// behind: a non-continuation byte announcing more bytes than are present,
/// followed only by continuation bytes.
pub open spec fn carry_shape(t: Seq<u8>) -> bool {
    t.len() == 0 || {
        &&& !is_continuation_byte(t[0])
        &&& !is_leading_byte_width_1(t[0])
        &&& t.len() < claimed_width(t[0])
        &&& forall|i: int| 1 <= i < t.len() ==> is_continuation_byte(#[trigger] t[i])
    }
}

/// True when `t` is the (possibly empty) start of a single well-formed
/// multi-byte character: a two-, three- or four-byte lead announcing more
/// bytes than are present, followed only by continuation bytes.
pub open spec fn incomplete_suffix(t: Seq<u8>) -> bool {
    t.len() == 0 || {
        &&& (is_leading_byte_width_2(t[0]) || is_leading_byte_width_3(t[0])
            || is_leading_byte_width_4(t[0]))
        &&& t.len() < claimed_width(t[0])
        &&& forall|i: int| 1 <= i < t.len() ==> is_continuation_byte(#[trigger] t[i])
    }
}

/// What the splitter emits decodes cleanly: when the buffer is a valid
/// UTF-8 sequence followed by the start of at most one more character, the
/// emitted prefix is exactly the valid part, so lossy decoding of it never
/// sees a truncated character.
pub proof fn lemma_split_keeps_valid_prefix(v: Seq<u8>, t: Seq<u8>)
    requires
        valid_utf8(v),
        incomplete_suffix(t),
    ensures
        (v + t).subrange(0, split_point(v + t)) == if t.len() == 0 {
            v + t
        } else {
            v
        },
        valid_utf8((v + t).subrange(0, split_point(v + t))),
{
    let s = v + t;
    if t.len() == 0 {
        assert(s =~= v);
        lemma_split_point_complete(v);
        assert(s.subrange(0, split_point(s)) =~= s);
    } else {
        lemma_split_point_partial(v, t);
        assert(s.subrange(0, split_point(s)) =~= v);
    }
}

/// Find the byte index at which to split a buffer so that everything before
/// the index is complete UTF-8. Any trailing bytes that form an incomplete
/// multi-byte sequence are left for the caller to carry over to the next
/// read. This keeps lossy decoding from destroying characters that straddle
/// a read boundary.
pub fn utf8_split_point(bytes: &[u8]) -> (k: usize)
    ensures
        k == split_point(bytes@),
        k <= bytes@.len(),
        bytes@.len() - k <= 3,
        carry_shape(bytes@.subrange(k as int, bytes@.len() as int)),
{
    let len = bytes.len();
    if len == 0 {
        return 0;
    }

    let b1 = bytes[len - 1];
    if !(0x80 <= b1 && b1 <= 0xbf) {
        let k = lead_split_at(bytes, len - 1);
        proof {
            lemma_lead_split_carry(bytes@, len - 1);
        }
        return k;
    }
    if len >= 2 {
        let b2 = bytes[len - 2];
        if !(0x80 <= b2 && b2 <= 0xbf) {
            let k = lead_split_at(bytes, len - 2);
            proof {
                lemma_lead_split_carry(bytes@, len - 2);
            }
            return k;
        }
    }
    if len >= 3 {
        let b3 = bytes[len - 3];
        if !(0x80 <= b3 && b3 <= 0xbf) {
            let k = lead_split_at(bytes, len - 3);
            proof {
                lemma_lead_split_carry(bytes@, len - 3);
            }
            return k;
        }
    }

    // Only continuation bytes were seen, which valid UTF-8 never produces
    // this deep: pass everything through for lossy decoding.
    proof {
        assert(bytes@.subrange(len as int, len as int) =~= Seq::<u8>::empty());
    }
    len
}

/// Decide the split once the backward scan stopped at position `i`.
fn lead_split_at(bytes: &[u8], i: usize) -> (k: usize)
    requires
        i < bytes@.len(),
        !is_continuation_byte(bytes@[i as int]),
    ensures
        k == lead_split(bytes@, i as int),
{
    let len = bytes.len();
    let b = bytes[i];
    if b <= 0x7f {
        // ASCII: everything up to and including this byte is complete.
        return len;
    }
    let expected: usize = if 0xf0 <= b && b <= 0xf7 {
        4
    } else if 0xe0 <= b && b <= 0xef {
        3
    } else {
        2
    };
    if len - i >= expected {
        // The character is complete.
        len
    } else {
        // Incomplete: split before this byte.
        i
    }
}

/// The bytes after the split position always have the carry shape.
proof fn lemma_lead_split_carry(s: Seq<u8>, i: int)
    requires
        0 <= i < s.len(),
        s.len() - i <= 3,
        !is_continuation_byte(s[i]),
        forall|j: int| i < j < s.len() ==> is_continuation_byte(#[trigger] s[j]),
    ensures
        carry_shape(s.subrange(lead_split(s, i), s.len() as int)),
{
    let k = lead_split(s, i);
    if k == s.len() {
        assert(s.subrange(k, s.len() as int) =~= Seq::<u8>::empty());
    } else {
        let t = s.subrange(k, s.len() as int);
        assert(t[0] == s[i]);
        assert(forall|j: int| 1 <= j < t.len() ==> t[j] == s[i + j]);
    }
}

/// A complete, valid UTF-8 buffer is passed through whole.
pub proof fn lemma_split_point_complete(s: Seq<u8>)
    requires
        valid_utf8(s),
    ensures
        split_point(s) == s.len(),
{
    broadcast use group_utf8_lib;

    let n = s.len() as int;
    if n == 0 {
    } else if !is_continuation_byte(s[n - 1]) {
        // The last byte starts a character, so that character is one byte.
        assert(is_char_boundary(s, n - 1));
        assert(valid_utf8(s.subrange(n - 1, n)));
        let t = s.subrange(n - 1, n);
        assert(t.len() == 1 && t[0] == s[n - 1]);
        assert(valid_first_scalar(t));
        assert(is_leading_byte_width_1(t[0]));
    } else if n >= 2 && !is_continuation_byte(s[n - 2]) {
        assert(is_char_boundary(s, n - 2));
        assert(valid_utf8(s.subrange(n - 2, n)));
        let t = s.subrange(n - 2, n);
        assert(t.len() == 2 && t[0] == s[n - 2] && t[1] == s[n - 1]);
        assert(valid_first_scalar(t));
        if is_leading_byte_width_1(t[0]) {
            // Then the last byte would start a character of its own.
            assert(valid_utf8(pop_first_scalar(t)));
            assert(pop_first_scalar(t) =~= s.subrange(n - 1, n));
            assert(valid_first_scalar(s.subrange(n - 1, n)));
            assert(false);
        }
        assert(is_leading_byte_width_2(t[0]));
        assert(claimed_width(t[0]) == 2);
    } else if n >= 3 && !is_continuation_byte(s[n - 3]) {
        assert(is_char_boundary(s, n - 3));
        assert(valid_utf8(s.subrange(n - 3, n)));
        let t = s.subrange(n - 3, n);
        assert(t.len() == 3 && t[0] == s[n - 3] && t[1] == s[n - 2] && t[2] == s[n - 1]);
        assert(valid_first_scalar(t));
        if is_leading_byte_width_1(t[0]) {
            assert(valid_utf8(pop_first_scalar(t)));
            assert(pop_first_scalar(t) =~= s.subrange(n - 2, n));
            assert(valid_first_scalar(s.subrange(n - 2, n)));
            assert(false);
        }
        if is_leading_byte_width_2(t[0]) {
            assert(valid_utf8(pop_first_scalar(t)));
            assert(pop_first_scalar(t) =~= s.subrange(n - 1, n));
            assert(valid_first_scalar(s.subrange(n - 1, n)));
            assert(false);
        }
        assert(is_leading_byte_width_3(t[0]));
        assert(claimed_width(t[0]) == 3);
    } else {
        // Three trailing continuation bytes: the spec already passes the
        // buffer through whole.
    }
}

/// Appending an incomplete character start to any buffer makes the splitter
/// cut exactly in front of it.
pub proof fn lemma_split_point_partial(v: Seq<u8>, t: Seq<u8>)
    requires
        incomplete_suffix(t),
        t.len() > 0,
    ensures
        split_point(v + t) == v.len(),
{
    let s = v + t;
    let n = s.len() as int;
    assert(t.len() < claimed_width(t[0]) <= 4);
    assert(1 <= t.len() <= 3);
    assert(s[n - t.len()] == t[0]);
    assert(forall|j: int| n - t.len() < j < n ==> is_continuation_byte(#[trigger] s[j]));
    if t.len() == 1 {
        assert(!is_continuation_byte(s[n - 1]));
        assert(claimed_width(s[n - 1]) >= 2 > 1);
    } else if t.len() == 2 {
        assert(is_continuation_byte(s[n - 1]));
        assert(!is_continuation_byte(s[n - 2]));
        assert(claimed_width(s[n - 2]) > 2);
    } else {
        assert(is_continuation_byte(s[n - 1]));
        assert(is_continuation_byte(s[n - 2]));
        assert(!is_continuation_byte(s[n - 3]));
        assert(claimed_width(s[n - 3]) > 3);
    }
}

} // verus!
