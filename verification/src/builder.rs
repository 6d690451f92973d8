//! Text assembled from fragments without copying them.
//!
//! A [`Builder`] is a tree: string slices at the leaves, [`Concat`] and [`Insert`] inside. It
//! is never changed once made, so it can be walked any number of times, by characters or by
//! chunks, and every walk sees the same text.
//!
//! Lengths and offsets count bytes of the UTF-8 encoding, as `str::len` does. An offset must
//! lie between two characters: [`Builder::insert`] asks for that, and
//! [`Builder::try_insert`] tests it.
//!
//! A tree is built once and then read. Nothing balances it: each `concat` and `insert` puts one
//! more node on top, a length is summed anew on every call, and a walk pays for the depth of
//! the tree at every node it passes. That suits text that is put together and then written
//! out; it is no rope for text that is edited over and over.

use vstd::prelude::*;
use vstd::seq_lib::lemma_flatten_concat;
use vstd::string::StringExecFns;
use vstd::string::StringSliceAdditionalSpecFns;
use vstd::utf8::{
    encode_utf8, encode_utf8_decode_utf8, encode_utf8_valid_utf8, is_char_boundary,
};
use crate::chunks::{insert_chunks, lemma_insert_chunks_flatten};
use crate::encoding::{
    all_utf8, decode_chunks, insert_chars, lemma_boundary_behind, lemma_boundary_in_front,
    lemma_boundary_of_inserted, lemma_boundary_of_joined, lemma_decode_chunks,
    lemma_decode_concat, lemma_encode_concat, lemma_flatten_utf8, lemma_insert_chars,
    lemma_insert_chunks_utf8, len_utf8, text,
};
use crate::iter::{Chain, CharIter, Once, StrChars, StrIter};

verus! {

/// Taken on trust: `String::with_capacity` returns an empty string, whatever storage it sets
/// aside. It panics on a capacity that does not fit in an `isize`, so none such may be asked
/// for.
pub assume_specification[ String::with_capacity ](capacity: usize) -> (s: String)
    requires
        capacity <= isize::MAX,
    ensures
        s@ == Seq::<char>::empty(),
;

/// A piece of text that knows its length and can hand out its content lazily.
pub trait Builder<'a>: Sized {
    /// The cursor over the characters.
    type CharsIter: CharIter;

    /// The cursor over the chunks.
    type StrsIter: StrIter<'a>;

    /// The tree is sound: every offset in it lies inside its text and between two characters,
    /// and its length fits in a `usize`.
    spec fn wf(&self) -> bool;

    /// The encodings of the chunks that make up the text, in order. The bytes of the text are
    /// `self.chunks().flatten()`, its characters `text(self.chunks())`.
    spec fn chunks(&self) -> Seq<Seq<u8>>;

    /// Each chunk of a sound tree is valid UTF-8.
    proof fn lemma_chunks_utf8(&self)
        requires
            self.wf(),
        ensures
            all_utf8(self.chunks()),
    ;

    /// The length of the text in bytes.
    fn len(&'a self) -> (n: usize)
        requires
            self.wf(),
        ensures
            n == self.chunks().flatten().len(),
    ;

    /// Whether `idx` lies between two characters of the text. The start of the text and its
    /// end do.
    fn is_char_boundary(&'a self, idx: usize) -> (r: bool)
        requires
            self.wf(),
        ensures
            r == is_char_boundary(self.chunks().flatten(), idx as int),
    ;

    /// A fresh cursor over the characters of the text.
    fn chars(&'a self) -> (it: Self::CharsIter)
        requires
            self.wf(),
        ensures
            it.remaining() == text(self.chunks()),
    ;

    /// A fresh cursor over the chunks of the text.
    fn slices(&'a self) -> (it: Self::StrsIter)
        requires
            self.wf(),
        ensures
            it.wf(),
            it.remaining() == self.chunks(),
    ;

    /// The text as one owned string, copied chunk by chunk into storage set aside once.
    fn build(&'a self) -> (s: String)
        requires
            self.wf(),
        ensures
            s@ == text(self.chunks()),
    {
        let n = self.len();
        // No string holds more than `isize::MAX` bytes, and none may be asked to make room
        // for more.
        let mut s = if n <= isize::MAX as usize {
            String::with_capacity(n)
        } else {
            String::new()
        };
        let mut it = self.slices();
        loop
            invariant
                it.wf(),
                encode_utf8(s@) + it.remaining().flatten() == self.chunks().flatten(),
            decreases it.remaining().len(),
        {
            let ghost before = s@;
            match it.next() {
                Some(ss) => {
                    s.append(ss);
                    proof {
                        lemma_encode_concat(before, ss@);
                    }
                },
                None => {
                    proof {
                        encode_utf8_decode_utf8(s@);
                    }
                    return s;
                },
            }
        }
    }

    /// This text followed by `other`.
    fn concat<B2>(&'a self, other: B2) -> (r: Concat<&'a Self, B2>)
        ensures
            r.0 == self,
            r.1 == other,
    {
        Concat(self, other)
    }

    /// This text with `other` placed after its first `idx` bytes. The offset must lie inside
    /// the text and between two characters.
    fn insert<B2>(&'a self, other: B2, idx: usize) -> (r: Insert<&'a Self, B2>)
        requires
            self.wf(),
            idx < self.chunks().flatten().len(),
            is_char_boundary(self.chunks().flatten(), idx as int),
        ensures
            r.orig == self,
            r.insert == other,
            r.idx == idx,
    {
        Insert { orig: self, insert: other, idx }
    }

    /// This text with `other` placed after its first `idx` bytes, or the reason why `idx` is no
    /// place to insert at.
    fn try_insert<B2>(&'a self, other: B2, idx: usize) -> (r: Result<
        Insert<&'a Self, B2>,
        InsertError,
    >)
        requires
            self.wf(),
        ensures
            match r {
                Ok(inserted) => {
                    &&& idx < self.chunks().flatten().len()
                    &&& is_char_boundary(self.chunks().flatten(), idx as int)
                    &&& inserted.orig == self
                    &&& inserted.insert == other
                    &&& inserted.idx == idx
                },
                Err(InsertError::OffsetOutOfRange) => idx >= self.chunks().flatten().len(),
                Err(InsertError::OffsetInsideChar) => {
                    &&& idx < self.chunks().flatten().len()
                    &&& !is_char_boundary(self.chunks().flatten(), idx as int)
                },
            },
    {
        if idx >= self.len() {
            Err(InsertError::OffsetOutOfRange)
        } else if !self.is_char_boundary(idx) {
            Err(InsertError::OffsetInsideChar)
        } else {
            Ok(self.insert(other, idx))
        }
    }
}

/// Why a text cannot be inserted at an offset.
#[derive(Debug, Clone, Copy, PartialEq, Eq)]
pub enum InsertError {
    /// The offset is not inside the text.
    OffsetOutOfRange,
    /// The offset falls inside the encoding of a character.
    OffsetInsideChar,
}

/// Two texts, one after the other.
#[derive(Debug)]
pub struct Concat<B1, B2>(pub B1, pub B2);

/// A text with another placed inside it.
#[derive(Debug)]
pub struct Insert<B1, B2> {
    /// The text that is inserted into.
    pub orig: B1,
    /// The text that is inserted.
    pub insert: B2,
    /// How many bytes of `orig` come before `insert`.
    pub idx: usize,
}

impl<'a, T: Builder<'a>> Builder<'a> for &'a T {
    type CharsIter = T::CharsIter;

    type StrsIter = T::StrsIter;

    open spec fn wf(&self) -> bool {
        (**self).wf()
    }

    open spec fn chunks(&self) -> Seq<Seq<u8>> {
        (**self).chunks()
    }

    proof fn lemma_chunks_utf8(&self) {
        (**self).lemma_chunks_utf8();
    }

    fn len(&'a self) -> (n: usize) {
        (*self).len()
    }

    fn is_char_boundary(&'a self, idx: usize) -> (r: bool) {
        (*self).is_char_boundary(idx)
    }

    fn chars(&'a self) -> (it: Self::CharsIter) {
        (*self).chars()
    }

    fn slices(&'a self) -> (it: Self::StrsIter) {
        (*self).slices()
    }
}

impl<'a> Builder<'a> for &'a str {
    type CharsIter = StrChars<'a>;

    type StrsIter = Once<&'a str>;

    open spec fn wf(&self) -> bool {
        true
    }

    open spec fn chunks(&self) -> Seq<Seq<u8>> {
        seq![self.spec_bytes()]
    }

    proof fn lemma_chunks_utf8(&self) {
        encode_utf8_valid_utf8(self@);
    }

    fn len(&'a self) -> (n: usize) {
        proof {
            self.chunks().lemma_flatten_one_element();
        }
        (*self).as_bytes().len()
    }

    fn is_char_boundary(&'a self, idx: usize) -> (r: bool) {
        proof {
            self.chunks().lemma_flatten_one_element();
        }
        (*self).is_char_boundary(idx)
    }

    fn chars(&'a self) -> (it: Self::CharsIter) {
        proof {
            self.chunks().lemma_flatten_one_element();
            encode_utf8_decode_utf8(self@);
        }
        StrChars::new(*self)
    }

    fn slices(&'a self) -> (it: Self::StrsIter) {
        let it = Once::new(*self);
        assert(it.wf() && it.remaining() == self.chunks());
        it
    }
}

impl<'a> Builder<'a> for String {
    type CharsIter = StrChars<'a>;

    type StrsIter = Once<&'a str>;

    open spec fn wf(&self) -> bool {
        true
    }

    open spec fn chunks(&self) -> Seq<Seq<u8>> {
        seq![encode_utf8(self@)]
    }

    proof fn lemma_chunks_utf8(&self) {
        encode_utf8_valid_utf8(self@);
    }

    fn len(&'a self) -> (n: usize) {
        proof {
            self.chunks().lemma_flatten_one_element();
        }
        self.as_str().as_bytes().len()
    }

    fn is_char_boundary(&'a self, idx: usize) -> (r: bool) {
        proof {
            self.chunks().lemma_flatten_one_element();
        }
        self.as_str().is_char_boundary(idx)
    }

    fn chars(&'a self) -> (it: Self::CharsIter) {
        proof {
            self.chunks().lemma_flatten_one_element();
            encode_utf8_decode_utf8(self@);
        }
        StrChars::new(self.as_str())
    }

    fn slices(&'a self) -> (it: Self::StrsIter) {
        Once::new(self.as_str())
    }
}

impl<'a, B1: Builder<'a>, B2: Builder<'a>> Builder<'a> for Concat<B1, B2> {
    type CharsIter = Chain<B1::CharsIter, B2::CharsIter>;

    type StrsIter = Chain<B1::StrsIter, B2::StrsIter>;

    open spec fn wf(&self) -> bool {
        &&& self.0.wf()
        &&& self.1.wf()
        &&& self.0.chunks().flatten().len() + self.1.chunks().flatten().len() <= usize::MAX
    }

    open spec fn chunks(&self) -> Seq<Seq<u8>> {
        self.0.chunks() + self.1.chunks()
    }

    proof fn lemma_chunks_utf8(&self) {
        self.0.lemma_chunks_utf8();
        self.1.lemma_chunks_utf8();
    }

    fn len(&'a self) -> (n: usize) {
        proof {
            lemma_flatten_concat(self.0.chunks(), self.1.chunks());
        }
        self.0.len() + self.1.len()
    }

    fn is_char_boundary(&'a self, idx: usize) -> (r: bool) {
        let first = self.0.len();
        proof {
            self.0.lemma_chunks_utf8();
            self.1.lemma_chunks_utf8();
            lemma_flatten_utf8(self.0.chunks());
            lemma_flatten_utf8(self.1.chunks());
            lemma_flatten_concat(self.0.chunks(), self.1.chunks());
            lemma_boundary_of_joined(
                self.0.chunks().flatten(),
                self.1.chunks().flatten(),
                idx as int,
            );
        }
        if idx <= first {
            self.0.is_char_boundary(idx)
        } else {
            self.1.is_char_boundary(idx - first)
        }
    }

    fn chars(&'a self) -> (it: Self::CharsIter) {
        proof {
            self.0.lemma_chunks_utf8();
            self.1.lemma_chunks_utf8();
            lemma_flatten_utf8(self.0.chunks());
            lemma_flatten_utf8(self.1.chunks());
            lemma_flatten_concat(self.0.chunks(), self.1.chunks());
            lemma_decode_concat(self.0.chunks().flatten(), self.1.chunks().flatten());
        }
        Chain { first: self.0.chars(), second: self.1.chars() }
    }

    fn slices(&'a self) -> (it: Self::StrsIter) {
        let it = Chain { first: self.0.slices(), second: self.1.slices() };
        assert(it.wf() && it.remaining() == self.chunks());
        it
    }
}

/// The characters of an [`Insert`]: those of `orig` whose encodings fill its first `idx`
/// bytes, then those of `insert`, then the other characters of `orig`.
pub struct InsertCharsIter<I1, I2> {
    orig: I1,
    insert: I2,
    /// How many bytes of `orig` are still due before `insert`.
    n: usize,
}

impl<I1: CharIter, I2: CharIter> CharIter for InsertCharsIter<I1, I2> {
    closed spec fn remaining(&self) -> Seq<char> {
        insert_chars(self.orig.remaining(), self.insert.remaining(), self.n as nat)
    }

    fn next(&mut self) -> (r: Option<char>) {
        if self.n > 0 {
            match self.orig.next() {
                Some(c) => {
                    let width = len_utf8(c);
                    self.n = if width < self.n {
                        self.n - width
                    } else {
                        0
                    };
                    Some(c)
                },
                None => self.insert.next(),
            }
        } else {
            match self.insert.next() {
                Some(c) => Some(c),
                None => self.orig.next(),
            }
        }
    }
}

/// Where an [`InsertStrsIter`] stands.
enum Phase<'a> {
    /// This many bytes of `orig` are still due before the insertion.
    Before(usize),
    /// The insertion is being handed out; the back of a split chunk waits behind it.
    Split(&'a str),
    /// The insertion is being handed out, then what is left of `orig`.
    After,
}

/// The chunks of an [`Insert`]: those of `orig` up to `idx` bytes, the chunk that `idx` falls
/// in cut in two, then those of `insert`, then what is left of `orig`. An `idx` at the end of
/// a chunk cuts nothing.
pub struct InsertStrsIter<'a, I1, I2> {
    orig: I1,
    insert: I2,
    phase: Phase<'a>,
}

impl<'a, I1: StrIter<'a>, I2: StrIter<'a>> StrIter<'a> for InsertStrsIter<'a, I1, I2> {
    closed spec fn wf(&self) -> bool {
        &&& self.orig.wf()
        &&& self.insert.wf()
        &&& all_utf8(self.orig.remaining())
        &&& (self.phase matches Phase::Before(left) ==> left == 0 || is_char_boundary(
            self.orig.remaining().flatten(),
            left as int,
        ))
    }

    closed spec fn remaining(&self) -> Seq<Seq<u8>> {
        match self.phase {
            Phase::Before(left) => insert_chunks(
                self.orig.remaining(),
                self.insert.remaining(),
                left as nat,
            ),
            Phase::Split(tail) => self.insert.remaining() + seq![tail.spec_bytes()]
                + self.orig.remaining(),
            Phase::After => self.insert.remaining() + self.orig.remaining(),
        }
    }

    fn next(&mut self) -> (r: Option<&'a str>) {
        broadcast use encode_utf8_decode_utf8;

        match self.phase {
            Phase::Before(left) if left > 0 => {
                proof {
                    lemma_flatten_utf8(self.orig.remaining());
                }
                let slice = self.orig.next().unwrap();
                proof {
                    lemma_flatten_utf8(self.orig.remaining());
                }
                let len = slice.as_bytes().len();
                if len > left {
                    proof {
                        lemma_boundary_in_front(
                            slice.spec_bytes(),
                            self.orig.remaining().flatten(),
                            left as int,
                        );
                    }
                    let (head, tail) = slice.split_at(left);
                    self.phase = Phase::Split(tail);
                    Some(head)
                } else {
                    proof {
                        lemma_boundary_behind(
                            slice.spec_bytes(),
                            self.orig.remaining().flatten(),
                            left - len,
                        );
                    }
                    self.phase = Phase::Before(left - len);
                    Some(slice)
                }
            },
            Phase::Split(tail) => {
                match self.insert.next() {
                    Some(next) => Some(next),
                    None => {
                        self.phase = Phase::After;
                        Some(tail)
                    },
                }
            },
            _ => {
                match self.insert.next() {
                    Some(next) => Some(next),
                    None => self.orig.next(),
                }
            },
        }
    }
}

impl<'a, B1: Builder<'a>, B2: Builder<'a>> Builder<'a> for Insert<B1, B2> {
    type CharsIter = InsertCharsIter<B1::CharsIter, B2::CharsIter>;

    type StrsIter = InsertStrsIter<'a, B1::StrsIter, B2::StrsIter>;

    open spec fn wf(&self) -> bool {
        &&& self.orig.wf()
        &&& self.insert.wf()
        &&& self.idx < self.orig.chunks().flatten().len()
        &&& is_char_boundary(self.orig.chunks().flatten(), self.idx as int)
        &&& self.orig.chunks().flatten().len() + self.insert.chunks().flatten().len()
            <= usize::MAX
    }

    open spec fn chunks(&self) -> Seq<Seq<u8>> {
        insert_chunks(self.orig.chunks(), self.insert.chunks(), self.idx as nat)
    }

    proof fn lemma_chunks_utf8(&self) {
        self.orig.lemma_chunks_utf8();
        self.insert.lemma_chunks_utf8();
        lemma_insert_chunks_utf8(self.orig.chunks(), self.insert.chunks(), self.idx as nat);
    }

    fn len(&'a self) -> (n: usize) {
        proof {
            lemma_insert_chunks_flatten(
                self.orig.chunks(),
                self.insert.chunks(),
                self.idx as nat,
            );
        }
        self.orig.len() + self.insert.len()
    }

    fn is_char_boundary(&'a self, idx: usize) -> (r: bool) {
        let inserted = self.insert.len();
        proof {
            self.orig.lemma_chunks_utf8();
            self.insert.lemma_chunks_utf8();
            lemma_flatten_utf8(self.orig.chunks());
            lemma_flatten_utf8(self.insert.chunks());
            lemma_insert_chunks_flatten(
                self.orig.chunks(),
                self.insert.chunks(),
                self.idx as nat,
            );
            lemma_boundary_of_inserted(
                self.orig.chunks().flatten(),
                self.insert.chunks().flatten(),
                self.idx as int,
                idx as int,
            );
        }
        if idx <= self.idx {
            self.orig.is_char_boundary(idx)
        } else if idx - self.idx <= inserted {
            self.insert.is_char_boundary(idx - self.idx)
        } else {
            self.orig.is_char_boundary(idx - inserted)
        }
    }

    fn chars(&'a self) -> (it: Self::CharsIter) {
        proof {
            self.orig.lemma_chunks_utf8();
            self.insert.lemma_chunks_utf8();
            lemma_flatten_utf8(self.orig.chunks());
            lemma_flatten_utf8(self.insert.chunks());
            lemma_insert_chunks_flatten(
                self.orig.chunks(),
                self.insert.chunks(),
                self.idx as nat,
            );
            lemma_insert_chars(
                self.orig.chunks().flatten(),
                self.insert.chunks().flatten(),
                self.idx as nat,
            );
        }
        InsertCharsIter { orig: self.orig.chars(), insert: self.insert.chars(), n: self.idx }
    }

    fn slices(&'a self) -> (it: Self::StrsIter) {
        proof {
            self.orig.lemma_chunks_utf8();
        }
        let it = InsertStrsIter {
            orig: self.orig.slices(),
            insert: self.insert.slices(),
            phase: Phase::Before(self.idx),
        };
        assert(it.wf() && it.remaining() == self.chunks());
        it
    }
}

/// The length of a concatenation is the sum of the lengths of its parts.
pub proof fn lemma_concat_len<'a, B1: Builder<'a>, B2: Builder<'a>>(a: B1, b: B2)
    ensures
        Concat(a, b).chunks().flatten() == a.chunks().flatten() + b.chunks().flatten(),
        Concat(a, b).chunks().flatten().len() == a.chunks().flatten().len()
            + b.chunks().flatten().len(),
{
    lemma_flatten_concat(a.chunks(), b.chunks());
}

/// The length of an insertion is the sum of the lengths of its parts, wherever the offset
/// lies.
pub proof fn lemma_insert_len<'a, B1: Builder<'a>, B2: Builder<'a>>(a: B1, b: B2, idx: usize)
    ensures
        (Insert { orig: a, insert: b, idx }).chunks().flatten().len() == a.chunks().flatten().len()
            + b.chunks().flatten().len(),
{
    lemma_insert_chunks_flatten(a.chunks(), b.chunks(), idx as nat);
}

/// An insertion holds the bytes of `a` before the offset, then those of `b`, then the bytes
/// of `a` from the offset on. Its characters are those of `a` that end at or before the
/// offset, then those of `b`, then the other characters of `a`.
pub proof fn lemma_insert_text<'a, B1: Builder<'a>, B2: Builder<'a>>(a: B1, b: B2, idx: usize)
    requires
        (Insert { orig: a, insert: b, idx }).wf(),
    ensures
        (Insert { orig: a, insert: b, idx }).chunks().flatten() == a.chunks().flatten().take(
            idx as int,
        ) + b.chunks().flatten() + a.chunks().flatten().skip(idx as int),
        text((Insert { orig: a, insert: b, idx }).chunks()) == insert_chars(
            text(a.chunks()),
            text(b.chunks()),
            idx as nat,
        ),
{
    a.lemma_chunks_utf8();
    b.lemma_chunks_utf8();
    lemma_flatten_utf8(a.chunks());
    lemma_flatten_utf8(b.chunks());
    lemma_insert_chunks_flatten(a.chunks(), b.chunks(), idx as nat);
    lemma_insert_chars(a.chunks().flatten(), b.chunks().flatten(), idx as nat);
}

/// The characters of a concatenation are those of its first part, then those of its second.
pub proof fn lemma_concat_text<'a, B1: Builder<'a>, B2: Builder<'a>>(a: B1, b: B2)
    requires
        a.wf(),
        b.wf(),
    ensures
        text(Concat(a, b).chunks()) == text(a.chunks()) + text(b.chunks()),
{
    a.lemma_chunks_utf8();
    b.lemma_chunks_utf8();
    lemma_flatten_utf8(a.chunks());
    lemma_flatten_utf8(b.chunks());
    lemma_flatten_concat(a.chunks(), b.chunks());
    lemma_decode_concat(a.chunks().flatten(), b.chunks().flatten());
}

/// The three ways to read a text agree: the characters that `chars` hands out are those of
/// the string that `build` returns, and so are the characters of the chunks that `slices`
/// hands out, joined in order.
pub proof fn lemma_walks_agree<'a, B: Builder<'a>>(
    x: &'a B,
    built: String,
    chars: B::CharsIter,
    strs: B::StrsIter,
)
    requires
        x.wf(),
        call_ensures(B::build, (x,), built),
        call_ensures(B::chars, (x,), chars),
        call_ensures(B::slices, (x,), strs),
    ensures
        chars.remaining() == built@,
        decode_chunks(strs.remaining()).flatten() == built@,
{
    x.lemma_chunks_utf8();
    lemma_decode_chunks(x.chunks());
}

/// Walking a text again gives the same chunks and the same characters: a walk leaves the tree
/// as it was.
pub proof fn lemma_replay<'a, B: Builder<'a>>(
    x: &'a B,
    chars1: B::CharsIter,
    chars2: B::CharsIter,
    strs1: B::StrsIter,
    strs2: B::StrsIter,
)
    requires
        x.wf(),
        call_ensures(B::chars, (x,), chars1),
        call_ensures(B::chars, (x,), chars2),
        call_ensures(B::slices, (x,), strs1),
        call_ensures(B::slices, (x,), strs2),
    ensures
        chars1.remaining() == chars2.remaining(),
        strs1.remaining() == strs2.remaining(),
        strs1.remaining().flatten() == strs2.remaining().flatten(),
{
}

} // verus!
