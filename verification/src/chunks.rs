//! The mathematical model of a chunk sequence and of the three ways to cut one.
//!
//! A chunk sequence is a `Seq<Seq<A>>`; its content is `flatten()` of it. The functions here say
//! which chunks come out of skipping, taking and inserting, and the lemmas relate them to the
//! flat content.

use vstd::prelude::*;
use vstd::seq_lib::lemma_flatten_concat;

verus! {

/// The chunks left after the first `count` elements are discarded.
///
/// Whole chunks are dropped while they fit into `count`; the first chunk that reaches beyond it
/// loses its front and every later chunk is kept as it is. A chunk that ends exactly at `count`
/// is dropped whole, so the first chunk kept is never empty.
pub open spec fn skip_chunks<A>(chunks: Seq<Seq<A>>, count: nat) -> Seq<Seq<A>>
    decreases chunks.len(),
{
    if chunks.len() == 0 {
        Seq::empty()
    } else if chunks[0].len() > count {
        seq![chunks[0].skip(count as int)] + chunks.drop_first()
    } else {
        skip_chunks(chunks.drop_first(), (count - chunks[0].len()) as nat)
    }
}

/// The chunks that make up the first `count` elements.
///
/// Chunks pass unchanged while they fit into what is left of `count`; the chunk that reaches
/// beyond it is cut short and ends the sequence. Nothing comes out once `count` is used up.
pub open spec fn take_chunks<A>(chunks: Seq<Seq<A>>, count: nat) -> Seq<Seq<A>>
    decreases chunks.len(),
{
    if count == 0 || chunks.len() == 0 {
        Seq::empty()
    } else if chunks[0].len() > count {
        seq![chunks[0].take(count as int)]
    } else {
        seq![chunks[0]] + take_chunks(chunks.drop_first(), (count - chunks[0].len()) as nat)
    }
}

/// The chunks of `orig` with the chunks of `ins` placed after the first `idx` elements.
///
/// A chunk of `orig` that straddles `idx` is split in two around the insertion. When `orig`
/// holds fewer than `idx` elements, `ins` follows all of it.
pub open spec fn insert_chunks<A>(orig: Seq<Seq<A>>, ins: Seq<Seq<A>>, idx: nat) -> Seq<Seq<A>>
    decreases orig.len(),
{
    if idx == 0 {
        ins + orig
    } else if orig.len() == 0 {
        ins
    } else if orig[0].len() > idx {
        seq![orig[0].take(idx as int)] + ins + seq![orig[0].skip(idx as int)] + orig.drop_first()
    } else {
        seq![orig[0]] + insert_chunks(orig.drop_first(), ins, (idx - orig[0].len()) as nat)
    }
}

/// Putting a chunk in front puts its elements in front of the content.
pub proof fn lemma_flatten_cons<A>(first: Seq<A>, rest: Seq<Seq<A>>)
    ensures
        (seq![first] + rest).flatten() == first + rest.flatten(),
{
    assert((seq![first] + rest).drop_first() =~= rest);
}

/// Skipping drops exactly the first `count` elements of the content, and leaves no chunk at
/// all when the content is no longer than `count`.
pub proof fn lemma_skip_chunks_flatten<A>(chunks: Seq<Seq<A>>, count: nat)
    ensures
        count <= chunks.flatten().len() ==> skip_chunks(chunks, count).flatten()
            == chunks.flatten().skip(count as int),
        count >= chunks.flatten().len() ==> skip_chunks(chunks, count) == Seq::<Seq<A>>::empty(),
    decreases chunks.len(),
{
    if chunks.len() > 0 {
        if chunks[0].len() > count {
            lemma_flatten_cons(chunks[0].skip(count as int), chunks.drop_first());
        } else {
            lemma_skip_chunks_flatten(chunks.drop_first(), (count - chunks[0].len()) as nat);
        }
    }
}

/// Taking keeps exactly the first `count` elements of the content, and all of it when the
/// content is no longer than `count`.
pub proof fn lemma_take_chunks_flatten<A>(chunks: Seq<Seq<A>>, count: nat)
    ensures
        count <= chunks.flatten().len() ==> take_chunks(chunks, count).flatten()
            == chunks.flatten().take(count as int),
        count >= chunks.flatten().len() ==> take_chunks(chunks, count).flatten()
            == chunks.flatten(),
    decreases chunks.len(),
{
    if chunks.len() > 0 && count > 0 {
        if chunks[0].len() > count {
            lemma_flatten_cons(chunks[0].take(count as int), Seq::empty());
        } else {
            let rest = chunks.drop_first();
            let left = (count - chunks[0].len()) as nat;
            lemma_take_chunks_flatten(rest, left);
            lemma_flatten_cons(chunks[0], take_chunks(rest, left));
        }
    }
}

/// Inserting places the content of `ins` after the first `idx` elements of the content of
/// `orig`, and after all of it when it is shorter than `idx`.
pub proof fn lemma_insert_chunks_flatten<A>(orig: Seq<Seq<A>>, ins: Seq<Seq<A>>, idx: nat)
    ensures
        idx <= orig.flatten().len() ==> insert_chunks(orig, ins, idx).flatten()
            == orig.flatten().take(idx as int) + ins.flatten() + orig.flatten().skip(idx as int),
        idx >= orig.flatten().len() ==> insert_chunks(orig, ins, idx).flatten()
            == orig.flatten() + ins.flatten(),
    decreases orig.len(),
{
    if idx == 0 {
        lemma_flatten_concat(ins, orig);
    } else if orig.len() > 0 {
        let rest = orig.drop_first();
        if orig[0].len() > idx {
            let head = orig[0].take(idx as int);
            let tail = orig[0].skip(idx as int);
            let after = seq![tail] + rest;
            assert(insert_chunks(orig, ins, idx) =~= seq![head] + (ins + after));
            lemma_flatten_cons(head, ins + after);
            lemma_flatten_concat(ins, after);
            lemma_flatten_cons(tail, rest);
        } else {
            let left = (idx - orig[0].len()) as nat;
            lemma_insert_chunks_flatten(rest, ins, left);
            lemma_flatten_cons(orig[0], insert_chunks(rest, ins, left));
        }
    }
}

} // verus!
