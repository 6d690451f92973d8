//! Lazy transformers over sequences of slices.
//!
//! Each transformer is a small cursor: it does nothing until it is asked for its next chunk,
//! hands every chunk out once, and never copies what a chunk holds.

use vstd::prelude::*;
use crate::chunks::{
    insert_chunks, lemma_insert_chunks_flatten, lemma_skip_chunks_flatten,
    lemma_take_chunks_flatten, skip_chunks, take_chunks,
};
use crate::iter::Once;

verus! {

/// A single-pass cursor over a sequence of chunks, each a slice that lives for `'a`.
pub trait SliceIter<'a, A: 'a> {
    /// The chunks that have not been handed out yet, in order.
    spec fn remaining(&self) -> Seq<Seq<A>>;

    /// Hands out the next chunk, or `None` once there is none left. An exhausted cursor stays
    /// exhausted.
    fn next(&mut self) -> (r: Option<&'a [A]>)
        ensures
            match r {
                Some(chunk) => old(self).remaining().len() > 0
                    && chunk@ == old(self).remaining()[0]
                    && final(self).remaining() == old(self).remaining().drop_first(),
                None => old(self).remaining().len() == 0 && final(self).remaining().len() == 0,
            },
    ;
}

impl<'a, A> SliceIter<'a, A> for Once<&'a [A]> {
    open spec fn remaining(&self) -> Seq<Seq<A>> {
        match self@ {
            Some(chunk) => seq![chunk@],
            None => Seq::empty(),
        }
    }

    fn next(&mut self) -> (r: Option<&'a [A]>) {
        Once::next(self)
    }
}

/// The rows of a slice of vectors, each row one chunk.
pub struct Rows<'a, A> {
    rows: &'a [Vec<A>],
    pos: usize,
}

impl<'a, A> Rows<'a, A> {
    /// A cursor in front of the first row.
    pub fn new(rows: &'a [Vec<A>]) -> (r: Self)
        ensures
            r.remaining() == rows@.map_values(|row: Vec<A>| row@),
    {
        Rows { rows, pos: 0 }
    }
}

impl<'a, A> SliceIter<'a, A> for Rows<'a, A> {
    closed spec fn remaining(&self) -> Seq<Seq<A>> {
        if self.pos < self.rows@.len() {
            self.rows@.skip(self.pos as int).map_values(|row: Vec<A>| row@)
        } else {
            Seq::empty()
        }
    }

    fn next(&mut self) -> (r: Option<&'a [A]>) {
        if self.pos < self.rows.len() {
            let chunk = self.rows[self.pos].as_slice();
            self.pos = self.pos + 1;
            Some(chunk)
        } else {
            None
        }
    }
}

/// Discards the first `count` elements of a chunk sequence, across chunk boundaries.
pub struct Skip<I> {
    iterator: I,
    count: usize,
    skipped: bool,
}

impl<I> Skip<I> {
    /// The chunks of `iterator` without their first `count` elements. Nothing is read from
    /// `iterator` before the first chunk is asked for.
    pub fn new<'a, A: 'a>(iterator: I, count: usize) -> (r: Self) where I: SliceIter<'a, A>
        ensures
            r.remaining() == skip_chunks(iterator.remaining(), count as nat),
            count <= iterator.remaining().flatten().len() ==> r.remaining().flatten()
                == iterator.remaining().flatten().skip(count as int),
            count >= iterator.remaining().flatten().len() ==> r.remaining().len() == 0,
    {
        proof {
            lemma_skip_chunks_flatten(iterator.remaining(), count as nat);
        }
        Skip { iterator, count, skipped: false }
    }
}

impl<'a, A: 'a, I: SliceIter<'a, A>> SliceIter<'a, A> for Skip<I> {
    closed spec fn remaining(&self) -> Seq<Seq<A>> {
        if self.skipped {
            self.iterator.remaining()
        } else {
            skip_chunks(self.iterator.remaining(), self.count as nat)
        }
    }

    fn next(&mut self) -> (r: Option<&'a [A]>) {
        if self.skipped {
            self.iterator.next()
        } else {
            self.skipped = true;
            let mut left: usize = self.count;
            loop
                invariant
                    self.skipped,
                    skip_chunks(self.iterator.remaining(), left as nat) == old(self).remaining(),
                decreases self.iterator.remaining().len(),
            {
                match self.iterator.next() {
                    Some(next) => {
                        if next.len() > left {
                            return Some(&next[left..next.len()]);
                        }
                        left = left - next.len();
                    },
                    None => {
                        return None;
                    },
                }
            }
        }
    }
}

/// Ends a chunk sequence after its first `count` elements.
pub struct Take<I> {
    iterator: I,
    left: usize,
}

impl<I> Take<I> {
    /// The chunks of `iterator` up to its first `count` elements.
    pub fn new<'a, A: 'a>(iterator: I, count: usize) -> (r: Self) where I: SliceIter<'a, A>
        ensures
            r.remaining() == take_chunks(iterator.remaining(), count as nat),
            count <= iterator.remaining().flatten().len() ==> r.remaining().flatten()
                == iterator.remaining().flatten().take(count as int),
            count >= iterator.remaining().flatten().len() ==> r.remaining().flatten()
                == iterator.remaining().flatten(),
    {
        proof {
            lemma_take_chunks_flatten(iterator.remaining(), count as nat);
        }
        Take { iterator, left: count }
    }
}

impl<'a, A: 'a, I: SliceIter<'a, A>> SliceIter<'a, A> for Take<I> {
    closed spec fn remaining(&self) -> Seq<Seq<A>> {
        take_chunks(self.iterator.remaining(), self.left as nat)
    }

    fn next(&mut self) -> (r: Option<&'a [A]>) {
        if self.left == 0 {
            None
        } else {
            match self.iterator.next() {
                Some(next) => {
                    if next.len() > self.left {
                        let head = &next[0..self.left];
                        self.left = 0;
                        Some(head)
                    } else {
                        self.left = self.left - next.len();
                        Some(next)
                    }
                },
                None => None,
            }
        }
    }
}

/// Where an [`Insert`] stands.
enum Phase<'a, A> {
    /// This many elements of `original` are still due before the insertion.
    Before(usize),
    /// The insertion is being handed out; the back of a split chunk waits behind it.
    Split(&'a [A]),
    /// The insertion is being handed out, then what is left of `original`.
    After,
}

/// Places one chunk sequence inside another, after a given number of elements.
pub struct Insert<'a, A, I, J> {
    original: I,
    insert: J,
    phase: Phase<'a, A>,
}

impl<'a, A, I, J> Insert<'a, A, I, J> where
    I: SliceIter<'a, A>,
    J: SliceIter<'a, A>,
 {
    /// The chunks of `original` with those of `insert` placed after its first `idx` elements.
    /// Where `original` is shorter than `idx`, `insert` follows all of it.
    pub fn new(original: I, insert: J, idx: usize) -> (r: Self)
        ensures
            r.remaining() == insert_chunks(original.remaining(), insert.remaining(), idx as nat),
            idx <= original.remaining().flatten().len() ==> r.remaining().flatten()
                == original.remaining().flatten().take(idx as int) + insert.remaining().flatten()
                + original.remaining().flatten().skip(idx as int),
            idx >= original.remaining().flatten().len() ==> r.remaining().flatten()
                == original.remaining().flatten() + insert.remaining().flatten(),
    {
        proof {
            lemma_insert_chunks_flatten(original.remaining(), insert.remaining(), idx as nat);
        }
        Insert { original, insert, phase: Phase::Before(idx) }
    }
}

impl<'a, A, I, J> SliceIter<'a, A> for Insert<'a, A, I, J> where
    I: SliceIter<'a, A>,
    J: SliceIter<'a, A>,
 {
    closed spec fn remaining(&self) -> Seq<Seq<A>> {
        match self.phase {
            Phase::Before(left) => insert_chunks(
                self.original.remaining(),
                self.insert.remaining(),
                left as nat,
            ),
            Phase::Split(tail) => self.insert.remaining() + seq![tail@]
                + self.original.remaining(),
            Phase::After => self.insert.remaining() + self.original.remaining(),
        }
    }

    fn next(&mut self) -> (r: Option<&'a [A]>) {
        match self.phase {
            Phase::Before(left) if left > 0 => {
                match self.original.next() {
                    Some(next) => {
                        if next.len() > left {
                            let head = &next[0..left];
                            let tail = &next[left..next.len()];
                            self.phase = Phase::Split(tail);
                            Some(head)
                        } else {
                            self.phase = Phase::Before(left - next.len());
                            Some(next)
                        }
                    },
                    None => self.insert.next(),
                }
            },
            Phase::Split(tail) => {
                match self.insert.next() {
                    Some(next) => Some(next),
                    None => {
                        self.phase = Phase::After;
                        Some(tail)
                    },
                }
            },
            _ => {
                match self.insert.next() {
                    Some(next) => Some(next),
                    None => self.original.next(),
                }
            },
        }
    }
}

/// The elements of a chunk sequence one by one.
pub struct Flatten<'a, A, I> {
    iterator: I,
    front: Option<&'a [A]>,
}

/// Turns a chunk sequence into the sequence of its elements. No chunk but the current one is
/// held.
pub fn flatten<'a, A, I: SliceIter<'a, A>>(iter: I) -> (r: Flatten<'a, A, I>)
    ensures
        r.remaining() == iter.remaining().flatten(),
{
    Flatten { iterator: iter, front: None }
}

impl<'a, A, I: SliceIter<'a, A>> Flatten<'a, A, I> {
    /// The elements that have not been handed out yet, in order.
    pub closed spec fn remaining(&self) -> Seq<A> {
        match self.front {
            Some(chunk) => chunk@ + self.iterator.remaining().flatten(),
            None => self.iterator.remaining().flatten(),
        }
    }

    /// Hands out the next element, or `None` once there is none left.
    pub fn next(&mut self) -> (r: Option<&'a A>)
        ensures
            match r {
                Some(elem) => old(self).remaining().len() > 0
                    && *elem == old(self).remaining()[0]
                    && final(self).remaining() == old(self).remaining().drop_first(),
                None => old(self).remaining().len() == 0 && final(self).remaining().len() == 0,
            },
    {
        loop
            invariant
                self.remaining() == old(self).remaining(),
            decreases
                self.iterator.remaining().len(),
                match self.front {
                    Some(chunk) => chunk@.len(),
                    None => 0,
                },
        {
            if let Some(chunk) = self.front {
                if chunk.len() > 0 {
                    self.front = Some(&chunk[1..chunk.len()]);
                    return Some(&chunk[0]);
                }
            }
            match self.iterator.next() {
                Some(chunk) => {
                    self.front = Some(chunk);
                },
                None => {
                    return None;
                },
            }
        }
    }
}

/// How many bytes one read copies: all that are pending, or as many as the buffer holds if
/// that is fewer.
pub open spec fn read_count(pending: Seq<u8>, room: nat) -> nat {
    if pending.len() <= room {
        pending.len()
    } else {
        room
    }
}

/// What reads into a buffer of `room` bytes copy out, one after another, until a read finds
/// nothing pending.
pub open spec fn read_all(pending: Seq<u8>, room: nat) -> Seq<u8>
    decreases pending.len(),
{
    if pending.len() == 0 || room == 0 {
        Seq::empty()
    } else {
        pending.take(read_count(pending, room) as int) + read_all(
            pending.skip(read_count(pending, room) as int),
            room,
        )
    }
}

/// Reading again and again into a buffer of any one size, but an empty one, copies out every
/// pending byte once, in order.
pub proof fn lemma_read_all(pending: Seq<u8>, room: nat)
    requires
        room > 0,
    ensures
        read_all(pending, room) == pending,
    decreases pending.len(),
{
    if pending.len() > 0 {
        let count = read_count(pending, room) as int;
        lemma_read_all(pending.skip(count), room);
    }
}

/// Feeds a sequence of byte chunks into buffers of any size, keeping what did not fit for the
/// next call.
pub struct Reader<'a, I> {
    iterator: I,
    split: Option<&'a [u8]>,
}

impl<'a, I: SliceIter<'a, u8>> Reader<'a, I> {
    /// A reader in front of the first byte of `iterator`.
    pub fn new(iterator: I) -> (r: Self)
        ensures
            r.pending() == iterator.remaining().flatten(),
    {
        Reader { iterator, split: None }
    }

    /// The bytes that have not been copied out yet, in order.
    pub closed spec fn pending(&self) -> Seq<u8> {
        match self.split {
            Some(chunk) => chunk@ + self.iterator.remaining().flatten(),
            None => self.iterator.remaining().flatten(),
        }
    }

    /// Copies the next bytes to the front of `buf`: as many as are pending, or as many as `buf`
    /// holds if that is fewer. Returns how many were copied; `0` with a non-empty `buf` means
    /// that nothing is left. The rest of `buf` is not touched.
    pub fn read(&mut self, buf: &mut [u8]) -> (count: usize)
        ensures
            count == read_count(old(self).pending(), old(buf)@.len()),
            final(buf)@ == old(self).pending().take(count as int) + old(buf)@.skip(count as int),
            final(self).pending() == old(self).pending().skip(count as int),
    {
        let mut count: usize = 0;
        loop
            invariant
                count <= buf@.len(),
                buf@.len() == old(buf)@.len(),
                count <= old(self).pending().len(),
                buf@ == old(self).pending().take(count as int) + old(buf)@.skip(count as int),
                self.pending() == old(self).pending().skip(count as int),
            decreases
                self.iterator.remaining().len(),
                match self.split {
                    Some(_) => 1nat,
                    None => 0nat,
                },
        {
            let ghost before = self.pending();
            let next = match self.split.take() {
                Some(chunk) => chunk,
                None => match self.iterator.next() {
                    Some(chunk) => chunk,
                    None => {
                        assert(before.len() == 0);
                        return count;
                    },
                },
            };
            let ghost rest = self.iterator.remaining().flatten();
            assert(before == next@ + rest);
            let room = buf.len() - count;
            let done = if next.len() < room {
                next.len()
            } else {
                room
            };
            let mut i: usize = 0;
            while i < done
                invariant
                    i <= done,
                    done <= next@.len(),
                    count + done <= buf@.len() <= usize::MAX,
                    buf@.len() == old(buf)@.len(),
                    count + next@.len() <= old(self).pending().len(),
                    old(self).pending().skip(count as int).take(next@.len() as int) == next@,
                    buf@ == old(self).pending().take(count + i) + old(buf)@.skip(count + i),
                decreases done - i,
            {
                buf[count + i] = next[i];
                i = i + 1;
            }
            count = count + done;
            assert(before.skip(done as int) =~= next@.skip(done as int) + rest);
            if done < next.len() {
                self.split = Some(&next[done..next.len()]);
                return count;
            }
        }
    }

    /// Reads through `buf` until a read finds nothing and appends every byte read to `out`.
    /// Whatever the size of `buf`, `out` receives each pending byte once, in order. With an
    /// empty `buf` nothing can be read, and nothing is.
    pub fn read_to_end(&mut self, out: &mut Vec<u8>, buf: &mut [u8])
        ensures
            final(buf)@.len() == old(buf)@.len(),
            final(out)@ == old(out)@ + read_all(old(self).pending(), old(buf)@.len()),
            old(buf)@.len() > 0 ==> final(out)@ == old(out)@ + old(self).pending()
                && final(self).pending().len() == 0,
            old(buf)@.len() == 0 ==> final(out)@ == old(out)@ && final(self).pending() == old(
                self,
            ).pending(),
    {
        if buf.len() == 0 {
            return ;
        }
        proof {
            lemma_read_all(self.pending(), buf@.len());
        }
        loop
            invariant
                buf@.len() == old(buf)@.len(),
                buf@.len() > 0,
                read_all(old(self).pending(), buf@.len()) == old(self).pending(),
                out@ + self.pending() == old(out)@ + old(self).pending(),
            decreases self.pending().len(),
        {
            let ghost before = self.pending();
            let count = self.read(buf);
            if count == 0 {
                return ;
            }
            let mut i: usize = 0;
            while i < count
                invariant
                    i <= count <= buf@.len(),
                    count <= before.len(),
                    buf@.take(count as int) == before.take(count as int),
                    out@ + before.skip(i as int) == old(out)@ + old(self).pending(),
                decreases count - i,
            {
                assert(before[i as int] == before.take(count as int)[i as int]);
                out.push(buf[i]);
                i = i + 1;
            }
        }
    }
}

} // verus!
