//! A lazy splitter: hands out the segments of a text one by one, each a
//! slice of the text, without collecting them.

use vstd::prelude::*;
use vstd::string::StringSliceAdditionalSpecFns;
use crate::text::{
    cut_at_slash, lemma_first_slash_at, lemma_split_at, lemma_split_plain, split, texts, SLASH,
};

verus! {

/// The segments of a text that have not been handed out yet.
pub struct Segments<'a> {
    rest: &'a str,
    done: bool,
}

impl<'a> Segments<'a> {
    /// The segments still to come, in order.
    pub closed spec fn remaining(&self) -> Seq<Seq<u8>> {
        if self.done {
            Seq::empty()
        } else {
            split(self.rest.spec_bytes())
        }
    }

    /// The splitter that has handed out nothing of `text` yet.
    pub closed spec fn start(text: &'a str) -> Segments<'a> {
        Segments { rest: text, done: false }
    }

    /// All of a text's segments are still to come at the start.
    pub proof fn lemma_start(text: &'a str)
        ensures
            Self::start(text)@ == split(text.spec_bytes()),
    {
    }

    /// Starts at the first segment of `text`.
    pub fn new(text: &'a str) -> (r: Self)
        ensures
            r == Self::start(text),
            r@ == split(text.spec_bytes()),
    {
        Segments { rest: text, done: false }
    }

    /// Hands out the next segment, or `None` once all have been handed out.
    pub fn next(&mut self) -> (r: Option<&'a str>)
        ensures
            match r {
                Some(seg) => {
                    &&& old(self)@.len() > 0
                    &&& seg.spec_bytes() == old(self)@[0]
                    &&& final(self)@ == old(self)@.drop_first()
                },
                None => old(self)@.len() == 0 && final(self)@.len() == 0,
            },
    {
        if self.done {
            return None;
        }
        let text: &'a str = self.rest;
        let bytes = text.as_bytes();
        let n: usize = bytes.len();
        let mut i: usize = 0;
        while i < n && bytes[i] != SLASH
            invariant
                n == bytes@.len(),
                i <= n,
                forall|j: int| 0 <= j < i ==> bytes@[j] != SLASH,
            decreases n - i,
        {
            i += 1;
        }
        if i == n {
            proof {
                lemma_split_plain(bytes@);
                assert(seq![bytes@].drop_first() =~= Seq::<Seq<u8>>::empty());
            }
            self.done = true;
            Some(text)
        } else {
            proof {
                lemma_first_slash_at(bytes@, i as int);
                lemma_split_at(bytes@, i as int);
            }
            let (head, after) = cut_at_slash(text, i);
            self.rest = after;
            Some(head)
        }
    }
}

/// All the segments of a text, in order.
pub fn segments_of<'a>(text: &'a str) -> (r: Vec<&'a str>)
    ensures
        texts(r@) == split(text.spec_bytes()),
{
    let ghost all = split(text.spec_bytes());
    let mut out: Vec<&'a str> = Vec::new();
    let mut source = Segments::new(text);
    let mut next = source.next();
    while next.is_some()
        invariant
            match next {
                Some(seg) => texts(out@) + seq![seg.spec_bytes()] + source@ == all,
                None => texts(out@) == all,
            },
        decreases source@.len() + (if next is Some { 1nat } else { 0nat }),
    {
        let seg: &'a str = next.unwrap();
        let ghost done = out@;
        out.push(seg);
        proof {
            assert(texts(out@) =~= texts(done) + seq![seg.spec_bytes()]);
        }
        let ghost left = source@;
        next = source.next();
        proof {
            match next {
                Some(s) => {
                    assert(seq![s.spec_bytes()] + source@ =~= left);
                    assert(texts(out@) + seq![s.spec_bytes()] + source@ =~= texts(out@) + left);
                },
                None => {
                    assert(left =~= Seq::<Seq<u8>>::empty());
                    assert(texts(out@) + left =~= texts(out@));
                },
            }
        }
    }
    out
}

impl<'a> View for Segments<'a> {
    type V = Seq<Seq<u8>>;

    open spec fn view(&self) -> Seq<Seq<u8>> {
        self.remaining()
    }
}

} // verus!
