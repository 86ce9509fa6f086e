//! Pages on their way to a byte sink.
use crate::bytes::push_all;
use crate::error::Error;
use crate::framing;
use crate::page;
use crate::page::{Page, PageView};
use vstd::prelude::*;

verus! {

/// Bytes that a sink has not taken yet, and the position of the sink behind
/// them.
#[derive(Debug)]
pub struct Wire {
    out: Vec<u8>,
    position: u64,
}

/// What a [`Wire`] stands for. The position is cut off at the end of its range.
#[verifier::ext_equal]
pub struct WireView {
    pub pages: Seq<PageView>,
    pub position: u64,
}

impl View for Wire {
    type V = WireView;

    closed spec fn view(&self) -> WireView {
        WireView { pages: framing::pages_of(self.out@)->Ok_0, position: self.position }
    }
}

impl WireView {
    /// One more page is on its way.
    pub open spec fn put(self, page: PageView) -> WireView {
        WireView {
            pages: self.pages.push(page),
            position: if self.position + page.encoded_len() > u64::MAX {
                u64::MAX
            } else {
                (self.position + page.encoded_len()) as u64
            },
        }
    }

    /// The sink has taken every byte.
    pub open spec fn taken(self) -> WireView {
        WireView { pages: Seq::empty(), position: self.position }
    }
}

impl Wire {
    /// The bytes are those of the pages.
    pub closed spec fn wf(&self) -> bool {
        &&& framing::pages_of(self.out@) is Ok
        &&& self.out@ == framing::bytes_of(self@.pages)
        &&& forall|i: int| 0 <= i < self@.pages.len() ==> (#[trigger] self@.pages[i]).wf()
    }

    /// Nothing on its way to a sink at `position`.
    pub fn new(position: u64) -> (w: Self)
        ensures
            w.wf(),
            w@ == (WireView { pages: Seq::empty(), position }),
    {
        let w = Wire { out: Vec::new(), position };
        assert(w@.pages =~= Seq::<PageView>::empty());
        w
    }

    /// The position of the sink behind all that is on its way.
    pub fn position(&self) -> (r: u64)
        ensures
            r == self@.position,
    {
        self.position
    }

    /// Puts a page on its way.
    pub fn put(&mut self, page: &Page)
        requires
            old(self).wf(),
            page@.wf(),
        ensures
            final(self).wf(),
            final(self)@ == old(self)@.put(page@),
    {
        let encoded = page.to_bytes();
        let ghost before = self@.pages;
        proof {
            framing::lemma_pages_append(self.out@, page@);
            page::law_parse_encoded(page@, Seq::empty());
        }
        push_all(&mut self.out, encoded.as_slice());
        assert(encoded.len() == encoded@.len());
        self.position = self.position.saturating_add(encoded.len() as u64);
        proof {
            assert(self@.pages =~= before.push(page@));
            assert(self@.pages.drop_last() =~= before);
            assert(self@ =~= old(self)@.put(page@));
        }
    }

    /// Hands over the bytes of the pages on their way.
    pub fn take(&mut self) -> (out: Vec<u8>)
        requires
            old(self).wf(),
        ensures
            final(self).wf(),
            out@ == framing::bytes_of(old(self)@.pages),
            framing::pages_of(out@) == Ok::<Seq<PageView>, Error>(old(self)@.pages),
            final(self)@ == old(self)@.taken(),
    {
        let mut out: Vec<u8> = Vec::new();
        std::mem::swap(&mut out, &mut self.out);
        assert(self@ =~= old(self)@.taken());
        out
    }
}

} // verus!
