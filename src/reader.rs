//! A pull-based reader of a compressed document stream, one document per call.
use vstd::prelude::*;
use crate::event::{Event, EventView, views, is_document};
use crate::stream::{TranscodeError, doc_from, docs_from, zstd_content, decompress, read_document};

verus! {

/// The state of a reader.
pub struct ReaderView {
    /// The uncompressed stream.
    pub payload: Seq<u8>,
    /// Where the next document starts.
    pub pos: nat,
    /// Whether the stream has ended cleanly.
    pub exhausted: bool,
}

/// Reads the documents of a stream in order.
pub struct Reader {
    payload: Vec<u8>,
    pos: usize,
    exhausted: bool,
}

impl View for Reader {
    type V = ReaderView;

    closed spec fn view(&self) -> ReaderView {
        ReaderView { payload: self.payload@, pos: self.pos as nat, exhausted: self.exhausted }
    }
}

/// The reader's position lies within its stream.
pub open spec fn reader_wf(r: ReaderView) -> bool {
    r.pos <= r.payload.len()
}

impl Reader {
    /// A reader at the start of an uncompressed stream.
    pub fn from_payload(payload: Vec<u8>) -> (r: Reader)
        ensures
            reader_wf(r@),
            r@ == (ReaderView { payload: payload@, pos: 0, exhausted: false }),
    {
        Reader { payload, pos: 0, exhausted: false }
    }

    /// A reader at the start of a compressed stream; `IoError` where its
    /// compression frame is corrupt or cut short.
    pub fn open(bytes: &[u8]) -> (r: Result<Reader, TranscodeError>)
        ensures
            match zstd_content(bytes@) {
                Some(p) => r matches Ok(x) && reader_wf(x@)
                    && x@ == (ReaderView { payload: p, pos: 0, exhausted: false }),
                None => r matches Err(e) && e == TranscodeError::IoError,
            },
    {
        match decompress(bytes) {
            Some(p) => Ok(Reader::from_payload(p)),
            None => Err(TranscodeError::IoError),
        }
    }

    /// Whether the stream has ended cleanly.
    pub fn is_exhausted(&self) -> (r: bool)
        ensures
            r == self@.exhausted,
    {
        self.exhausted
    }

    /// The next document. `Ok(None)` at a clean end of the stream, from then
    /// on for good; `WireError` where the bytes are malformed or end inside
    /// the document, and the reader then stays where it was.
    pub fn next(&mut self) -> (r: Result<Option<Vec<Event>>, TranscodeError>)
        requires
            reader_wf(old(self)@),
        ensures
            reader_wf(final(self)@),
            final(self)@.payload == old(self)@.payload,
            old(self)@.exhausted ==> (r matches Ok(None) && final(self)@ == old(self)@),
            !old(self)@.exhausted && old(self)@.pos == old(self)@.payload.len() ==>
                (r matches Ok(None) && final(self)@.exhausted && final(self)@.pos == old(self)@.pos),
            !old(self)@.exhausted && old(self)@.pos < old(self)@.payload.len() ==>
                match doc_from(old(self)@.payload, old(self)@.pos, Seq::empty()) {
                    Some((d, end)) => r matches Ok(Some(x)) && views(x@) == d && is_document(d)
                        && final(self)@ == (ReaderView { pos: end, ..old(self)@ }),
                    None => r matches Err(e) && e == TranscodeError::WireError
                        && final(self)@ == old(self)@,
                },
    {
        if self.exhausted {
            return Ok(None);
        }
        if self.pos == self.payload.len() {
            self.exhausted = true;
            return Ok(None);
        }
        match read_document(self.payload.as_slice(), self.pos) {
            Some((d, end)) => {
                self.pos = end;
                Ok(Some(d))
            },
            None => Err(TranscodeError::WireError),
        }
    }
}

/// Reading on from a position where the rest of the stream holds the
/// documents `ds`: the next call gives the first of them, and the rest of the
/// stream then holds the others.
pub proof fn lemma_reader_in_order(r: ReaderView, ds: Seq<Seq<EventView>>)
    requires
        reader_wf(r),
        r.pos < r.payload.len(),
        docs_from(r.payload, r.pos) == Some(ds),
    ensures
        ds.len() > 0,
        doc_from(r.payload, r.pos, Seq::empty()) matches Some((d, end))
            && d == ds[0] && docs_from(r.payload, end) == Some(ds.skip(1)),
{
    let (d, end) = doc_from(r.payload, r.pos, Seq::empty())->0;
    let rest = docs_from(r.payload, end)->0;
    assert(ds == seq![d] + rest);
    assert(ds.skip(1) =~= rest);
}

} // verus!
