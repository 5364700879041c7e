//! The per-read step of a PTY reader worker, and what a whole sequence of
//! reads adds up to.
//!
//! A reader worker keeps a carry buffer of trailing bytes that did not yet
//! form a complete character. Each read appends the fresh chunk to the
//! carry, emits the longest complete UTF-8 prefix, and keeps the remainder
//! as the next carry. The theorems at the end show that nothing is lost:
//! the emitted batches concatenate back to exactly the bytes read, and for
//! a valid UTF-8 stream the final carry is empty.

use vstd::prelude::*;
use vstd::utf8::*;
use crate::splitter::{
    claimed_width, incomplete_suffix, lemma_split_point_complete, lemma_split_point_partial,
    split_point, utf8_split_point,
};

verus! {

/// The bytes emitted by one reader step with carry `carry` and fresh chunk
/// `chunk`.
pub open spec fn step_emit(carry: Seq<u8>, chunk: Seq<u8>) -> Seq<u8> {
    let s = carry + chunk;
    s.subrange(0, split_point(s))
}

/// The carry left behind by one reader step.
pub open spec fn step_carry(carry: Seq<u8>, chunk: Seq<u8>) -> Seq<u8> {
    let s = carry + chunk;
    s.subrange(split_point(s), s.len() as int)
}

/// All bytes of a sequence of chunks, in order.
pub open spec fn concat_chunks(chunks: Seq<Seq<u8>>) -> Seq<u8>
    decreases chunks.len(),
{
    if chunks.len() == 0 {
        Seq::empty()
    } else {
        concat_chunks(chunks.drop_last()) + chunks.last()
    }
}

/// The carry held after a reader has processed the chunks in order,
/// starting from an empty carry.
pub open spec fn carry_after(chunks: Seq<Seq<u8>>) -> Seq<u8>
    decreases chunks.len(),
{
    if chunks.len() == 0 {
        Seq::empty()
    } else {
        step_carry(carry_after(chunks.drop_last()), chunks.last())
    }
}

/// Everything a reader has emitted after processing the chunks in order,
/// starting from an empty carry.
pub open spec fn emitted_after(chunks: Seq<Seq<u8>>) -> Seq<u8>
    decreases chunks.len(),
{
    if chunks.len() == 0 {
        Seq::empty()
    } else {
        emitted_after(chunks.drop_last()) + step_emit(
            carry_after(chunks.drop_last()),
            chunks.last(),
        )
    }
}

/// Append a fresh chunk to the carry, emit the longest complete UTF-8
/// prefix, and keep the remainder as the new carry. The emitted batch may
/// be empty; the new carry is at most three bytes.
pub fn reader_step(carry: &mut Vec<u8>, chunk: &[u8]) -> (emit: Vec<u8>)
    ensures
        emit@ == step_emit(old(carry)@, chunk@),
        final(carry)@ == step_carry(old(carry)@, chunk@),
        emit@ + final(carry)@ == old(carry)@ + chunk@,
        final(carry)@.len() <= 3,
{
    carry.extend_from_slice(chunk);
    let split = utf8_split_point(carry.as_slice());
    let mut tail = carry.split_off(split);
    core::mem::swap(carry, &mut tail);
    let emit = tail;
    proof {
        assert(emit@ + carry@ =~= old(carry)@ + chunk@);
    }
    emit
}

/// One reader step conserves bytes: what goes in comes out, split between
/// the emitted batch and the carry.
pub proof fn lemma_step_conserves(carry: Seq<u8>, chunk: Seq<u8>)
    ensures
        step_emit(carry, chunk) + step_carry(carry, chunk) == carry + chunk,
{
    let s = carry + chunk;
    assert(step_emit(carry, chunk) + step_carry(carry, chunk) =~= s);
}

/// Across any sequence of reads, the emitted batches followed by the final
/// carry are exactly the bytes read, in order: the reader loses and reorders
/// nothing.
pub proof fn theorem_reader_conserves_bytes(chunks: Seq<Seq<u8>>)
    ensures
        emitted_after(chunks) + carry_after(chunks) == concat_chunks(chunks),
    decreases chunks.len(),
{
    if chunks.len() == 0 {
        assert(emitted_after(chunks) + carry_after(chunks) =~= concat_chunks(chunks));
    } else {
        let head = chunks.drop_last();
        theorem_reader_conserves_bytes(head);
        lemma_step_conserves(carry_after(head), chunks.last());
        assert(emitted_after(chunks) + carry_after(chunks) =~= (emitted_after(head)
            + carry_after(head)) + chunks.last());
        assert((emitted_after(head) + carry_after(head)) + chunks.last() =~= concat_chunks(
            chunks,
        ));
    }
}

/// The text of the batches a reader has emitted after processing the
/// chunks in order: each batch decoded on its own, concatenated.
pub open spec fn emitted_text(chunks: Seq<Seq<u8>>) -> Seq<char>
    decreases chunks.len(),
{
    if chunks.len() == 0 {
        Seq::empty()
    } else {
        emitted_text(chunks.drop_last()) + decode_utf8(
            step_emit(carry_after(chunks.drop_last()), chunks.last()),
        )
    }
}

/// Decoding batch by batch loses nothing: across any chunking of a valid
/// UTF-8 byte stream, the decoded batches concatenate to the decoding of
/// the whole stream, in order.
pub proof fn theorem_streamed_text_order(chunks: Seq<Seq<u8>>)
    requires
        valid_utf8(concat_chunks(chunks)),
    ensures
        emitted_text(chunks) == decode_utf8(concat_chunks(chunks)),
{
    let full = concat_chunks(chunks);
    assert(concat_chunks(chunks) =~= full.subrange(0, concat_chunks(chunks).len() as int));
    lemma_round_trip_invariant(chunks, full);
    theorem_reader_round_trip(chunks);
}

/// A valid UTF-8 prefix of a valid UTF-8 sequence ends on a character
/// boundary.
proof fn lemma_prefix_is_boundary(u: Seq<u8>, n: int)
    requires
        valid_utf8(u),
        0 <= n <= u.len(),
        valid_utf8(u.subrange(0, n)),
    ensures
        is_char_boundary(u, n),
    decreases u.len(),
{
    if n == 0 {
    } else {
        let p = u.subrange(0, n);
        assert(valid_first_scalar(p));
        assert(valid_first_scalar(u));
        assert(p[0] == u[0]);
        let w = length_of_first_scalar(u);
        assert(length_of_first_scalar(p) == w);
        assert(n >= w);
        let rest = pop_first_scalar(u);
        assert(pop_first_scalar(p) =~= rest.subrange(0, n - w));
        lemma_prefix_is_boundary(rest, n - w);
    }
}

/// Any cut of a valid UTF-8 sequence separates a valid prefix from at most
/// three bytes of an incomplete character start.
proof fn lemma_prefix_decompose(u: Seq<u8>, m: int)
    requires
        valid_utf8(u),
        0 <= m <= u.len(),
    ensures
        exists|b: int|
            0 <= b <= m && valid_utf8(u.subrange(0, b)) && incomplete_suffix(
                #[trigger] u.subrange(b, m),
            ),
    decreases u.len(),
{
    if m == 0 {
        assert(u.subrange(0, 0) =~= Seq::<u8>::empty());
        assert(valid_utf8(u.subrange(0, 0)) && incomplete_suffix(u.subrange(0, 0)));
    } else {
        assert(valid_first_scalar(u));
        let w = length_of_first_scalar(u);
        if m < w {
            // The cut falls inside the first character.
            let t = u.subrange(0, m);
            assert(u.subrange(0, 0) =~= Seq::<u8>::empty());
            assert(valid_utf8(u.subrange(0, 0)));
            assert(t[0] == u[0]);
            assert(w >= 2);
            if w == 2 {
                assert(is_leading_byte_width_2(u[0]));
            } else if w == 3 {
                assert(is_leading_byte_width_3(u[0]));
            } else {
                assert(is_leading_byte_width_4(u[0]));
            }
            assert(claimed_width(t[0]) == w);
            assert(forall|i: int| 1 <= i < t.len() ==> is_continuation_byte(#[trigger] t[i]));
            assert(incomplete_suffix(u.subrange(0, m)));
        } else {
            let rest = pop_first_scalar(u);
            lemma_prefix_decompose(rest, m - w);
            let b0 = choose|b0: int|
                0 <= b0 <= m - w && valid_utf8(rest.subrange(0, b0)) && incomplete_suffix(
                    #[trigger] rest.subrange(b0, m - w),
                );
            let b = b0 + w;
            assert(u.subrange(b, m) =~= rest.subrange(b0, m - w));
            assert(valid_utf8(u.subrange(0, b))) by {
                let head = take_first_scalar(u);
                assert(valid_utf8(head)) by {
                    reveal_with_fuel(valid_utf8, 2);
                    assert(valid_first_scalar(head));
                    assert(pop_first_scalar(head) =~= Seq::<u8>::empty());
                }
                valid_utf8_concat(head, rest.subrange(0, b0));
                assert(head + rest.subrange(0, b0) =~= u.subrange(0, b));
            }
        }
    }
}

/// After processing any chunking of a valid UTF-8 byte sequence, the reader
/// has emitted exactly that sequence and carries nothing: concatenating the
/// emitted prefixes reproduces the input byte for byte.
pub proof fn theorem_reader_round_trip(chunks: Seq<Seq<u8>>)
    requires
        valid_utf8(concat_chunks(chunks)),
    ensures
        emitted_after(chunks) == concat_chunks(chunks),
        carry_after(chunks) == Seq::<u8>::empty(),
{
    let full = concat_chunks(chunks);
    assert(concat_chunks(chunks) =~= full.subrange(0, concat_chunks(chunks).len() as int));
    lemma_round_trip_invariant(chunks, full);
    let e = emitted_after(chunks);
    let t = carry_after(chunks);
    theorem_reader_conserves_bytes(chunks);
    if t.len() > 0 {
        lemma_prefix_is_boundary(full, e.len() as int);
        assert(is_char_boundary(full, e.len() as int));
        valid_utf8_split(full, e.len() as int);
        assert(valid_utf8(full.subrange(e.len() as int, full.len() as int)));
        assert(full.subrange(e.len() as int, full.len() as int) =~= t);
        assert(valid_first_scalar(t));
        if is_leading_byte_width_2(t[0]) {
            assert(t.len() >= 2);
        } else if is_leading_byte_width_3(t[0]) {
            assert(t.len() >= 3);
        } else if is_leading_byte_width_4(t[0]) {
            assert(t.len() >= 4);
        }
        assert(false);
    }
    assert(t =~= Seq::<u8>::empty());
    assert(e =~= full);
}

/// Invariant carried along the chunks: what has been emitted so far is a
/// valid UTF-8 prefix of the full stream, and the carry is the incomplete
/// start of the next character.
#[verifier::rlimit(60)]
proof fn lemma_round_trip_invariant(chunks: Seq<Seq<u8>>, full: Seq<u8>)
    requires
        valid_utf8(full),
        concat_chunks(chunks).len() <= full.len(),
        concat_chunks(chunks) == full.subrange(0, concat_chunks(chunks).len() as int),
    ensures
        valid_utf8(emitted_after(chunks)),
        emitted_after(chunks) == full.subrange(0, emitted_after(chunks).len() as int),
        incomplete_suffix(carry_after(chunks)),
        emitted_text(chunks) == decode_utf8(emitted_after(chunks)),
    decreases chunks.len(),
{
    if chunks.len() == 0 {
        assert(emitted_after(chunks) =~= full.subrange(0, 0));
    } else {
        let head = chunks.drop_last();
        let chunk = chunks.last();
        assert(concat_chunks(head).len() <= concat_chunks(chunks).len()) by {
            theorem_reader_conserves_bytes(head);
        }
        assert(concat_chunks(head) == full.subrange(0, concat_chunks(head).len() as int)) by {
            assert(concat_chunks(head) =~= concat_chunks(chunks).subrange(
                0,
                concat_chunks(head).len() as int,
            ));
            assert(concat_chunks(chunks).subrange(0, concat_chunks(head).len() as int)
                =~= full.subrange(0, concat_chunks(head).len() as int));
        }
        lemma_round_trip_invariant(head, full);

        let e = emitted_after(head);
        let c = carry_after(head);
        theorem_reader_conserves_bytes(head);
        let ne = e.len() as int;
        let nc = (e.len() + c.len() + chunk.len()) as int;
        assert(nc == concat_chunks(chunks).len());

        // The unread remainder of the stream after what was emitted.
        lemma_prefix_is_boundary(full, ne);
        valid_utf8_split(full, ne);
        let u = full.subrange(ne, full.len() as int);
        assert(valid_utf8(u));
        let m = nc - ne;
        assert(c + chunk =~= u.subrange(0, m)) by {
            assert(c + chunk =~= concat_chunks(chunks).subrange(ne, nc));
            assert(concat_chunks(chunks).subrange(ne, nc) =~= full.subrange(ne, nc));
            assert(full.subrange(ne, nc) =~= u.subrange(0, m));
        }
        lemma_prefix_decompose(u, m);
        let b = choose|b: int|
            0 <= b <= m && valid_utf8(u.subrange(0, b)) && incomplete_suffix(
                #[trigger] u.subrange(b, m),
            );
        let v = u.subrange(0, b);
        let t = u.subrange(b, m);
        assert(c + chunk =~= v + t);
        if t.len() == 0 {
            assert(c + chunk =~= v);
            lemma_split_point_complete(v);
            assert(step_emit(c, chunk) =~= v);
            assert(step_carry(c, chunk) =~= t);
        } else {
            lemma_split_point_partial(v, t);
            assert(split_point(c + chunk) == v.len());
            assert(step_emit(c, chunk) =~= v);
            assert(step_carry(c, chunk) =~= t);
        }
        assert(emitted_after(chunks) == e + v);
        valid_utf8_concat(e, v);
        assert(valid_utf8(e + v));
        assert(e + v =~= full.subrange(0, ne + b)) by {
            assert(e =~= full.subrange(0, ne));
            assert(v =~= full.subrange(ne, ne + b));
        }
        assert((e + v).len() == ne + b);

        // Decoding batch by batch agrees with decoding what was emitted.
        assert((e + v).subrange(0, ne) =~= e);
        assert((e + v).subrange(ne, (e + v).len() as int) =~= v);
        lemma_prefix_is_boundary(e + v, ne);
        decode_utf8_split(e + v, ne);
        assert(decode_utf8(e + v) == decode_utf8(e) + decode_utf8(v));
        assert(emitted_text(chunks) == emitted_text(head) + decode_utf8(v));
    }
}

} // verus!
