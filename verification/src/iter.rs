//! The cursors that a text hands out: one over its characters, one over its chunks.

use vstd::prelude::*;
use vstd::string::StrSliceExecFns;
use vstd::string::StringSliceAdditionalSpecFns;
use vstd::utf8::{decode_utf8, encode_utf8_decode_utf8};
use crate::encoding::{len_utf8, lemma_encode_injective, lemma_first_char};

verus! {

/// A single-pass cursor over characters.
pub trait CharIter {
    /// The characters that have not been handed out yet, in order.
    spec fn remaining(&self) -> Seq<char>;

    /// Hands out the next character, or `None` once there is none left. An exhausted cursor
    /// stays exhausted.
    fn next(&mut self) -> (r: Option<char>)
        ensures
            match r {
                Some(c) => old(self).remaining().len() > 0 && c == old(self).remaining()[0]
                    && final(self).remaining() == old(self).remaining().drop_first(),
                None => old(self).remaining().len() == 0 && final(self).remaining().len() == 0,
            },
    ;
}

/// A single-pass cursor over chunks of text, each a string slice that lives for `'a`.
///
/// A chunk is modelled by the bytes of its encoding, since lengths and offsets count those.
pub trait StrIter<'a> {
    /// The cursor is sound: it can hand out every chunk that is left without cutting inside
    /// a character.
    spec fn wf(&self) -> bool;

    /// The encodings of the chunks that have not been handed out yet, in order.
    spec fn remaining(&self) -> Seq<Seq<u8>>;

    /// Hands out the next chunk, or `None` once there is none left. An exhausted cursor stays
    /// exhausted.
    fn next(&mut self) -> (r: Option<&'a str>)
        requires
            old(self).wf(),
        ensures
            final(self).wf(),
            match r {
                Some(chunk) => old(self).remaining().len() > 0
                    && chunk.spec_bytes() == old(self).remaining()[0]
                    && chunk@ == decode_utf8(old(self).remaining()[0])
                    && final(self).remaining() == old(self).remaining().drop_first(),
                None => old(self).remaining().len() == 0 && final(self).remaining().len() == 0,
            },
    ;
}

/// A sequence of exactly one item.
#[derive(Debug)]
pub struct Once<A>(Option<A>);

impl<A> View for Once<A> {
    type V = Option<A>;

    /// The item, until it has been handed out.
    closed spec fn view(&self) -> Option<A> {
        self.0
    }
}

impl<A> Once<A> {
    /// A cursor in front of `a`.
    pub fn new(a: A) -> (r: Self)
        ensures
            r@ == Some(a),
    {
        Once(Some(a))
    }

    /// Hands the item out, the first time it is asked for.
    pub fn next(&mut self) -> (r: Option<A>)
        ensures
            r == old(self)@,
            final(self)@ is None,
    {
        self.0.take()
    }
}

impl<'a> StrIter<'a> for Once<&'a str> {
    open spec fn wf(&self) -> bool {
        true
    }

    open spec fn remaining(&self) -> Seq<Seq<u8>> {
        match self@ {
            Some(chunk) => seq![chunk.spec_bytes()],
            None => Seq::empty(),
        }
    }

    fn next(&mut self) -> (r: Option<&'a str>) {
        broadcast use encode_utf8_decode_utf8;

        Once::next(self)
    }
}

/// One cursor after another.
pub struct Chain<I1, I2> {
    /// The cursor that is emptied first.
    pub first: I1,
    /// The cursor that follows once `first` is exhausted.
    pub second: I2,
}

impl<I1: CharIter, I2: CharIter> CharIter for Chain<I1, I2> {
    open spec fn remaining(&self) -> Seq<char> {
        self.first.remaining() + self.second.remaining()
    }

    fn next(&mut self) -> (r: Option<char>) {
        match self.first.next() {
            Some(c) => Some(c),
            None => self.second.next(),
        }
    }
}

impl<'a, I1: StrIter<'a>, I2: StrIter<'a>> StrIter<'a> for Chain<I1, I2> {
    open spec fn wf(&self) -> bool {
        self.first.wf() && self.second.wf()
    }

    open spec fn remaining(&self) -> Seq<Seq<u8>> {
        self.first.remaining() + self.second.remaining()
    }

    fn next(&mut self) -> (r: Option<&'a str>) {
        match self.first.next() {
            Some(chunk) => Some(chunk),
            None => self.second.next(),
        }
    }
}

/// The characters of one string slice.
pub struct StrChars<'a> {
    rest: &'a str,
}

impl<'a> StrChars<'a> {
    /// A cursor in front of the first character of `s`.
    pub fn new(s: &'a str) -> (r: Self)
        ensures
            r.remaining() == s@,
    {
        StrChars { rest: s }
    }
}

impl<'a> CharIter for StrChars<'a> {
    closed spec fn remaining(&self) -> Seq<char> {
        self.rest@
    }

    fn next(&mut self) -> (r: Option<char>) {
        if self.rest.is_empty() {
            None
        } else {
            let c = self.rest.get_char(0);
            let width = len_utf8(c);
            proof {
                lemma_first_char(self.rest@);
            }
            let (_, tail) = self.rest.split_at(width);
            proof {
                lemma_encode_injective(tail@, self.rest@.drop_first());
            }
            self.rest = tail;
            Some(c)
        }
    }
}

} // verus!
