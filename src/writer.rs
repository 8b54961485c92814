//! A push-based writer of a compressed document stream, with explicit,
//! idempotent finalization.
use vstd::prelude::*;
use crate::event::{Event, EventView, views, is_document, flatten, all_documents};
use crate::stream::{
    TranscodeError, events_wire, all_read_back, zstd_frame, zstd_content, encode_document,
    compress_payload, lemma_flatten_push, lemma_events_wire_concat, lemma_all_read_back_concat,
};

verus! {

/// The state of a writer.
pub struct WriterView {
    /// The documents appended so far.
    pub docs: Seq<Seq<EventView>>,
    /// Their uncompressed bytes.
    pub payload: Seq<u8>,
    /// The compression level.
    pub level: int,
    /// Whether `finish` has run.
    pub finished: bool,
    /// The compressed stream, once finished.
    pub out: Seq<u8>,
}

/// Writes documents one at a time; `finish` completes the compression frame.
pub struct Writer {
    docs: Ghost<Seq<Seq<EventView>>>,
    payload: Vec<u8>,
    level: i32,
    finished: bool,
    out: Vec<u8>,
}

impl View for Writer {
    type V = WriterView;

    closed spec fn view(&self) -> WriterView {
        WriterView {
            docs: self.docs@,
            payload: self.payload@,
            level: self.level as int,
            finished: self.finished,
            out: self.out@,
        }
    }
}

/// The writer's payload is the bytes of the documents appended so far.
pub open spec fn writer_wf(w: WriterView) -> bool {
    &&& all_documents(w.docs)
    &&& events_wire(flatten(w.docs)) == Some(w.payload)
    &&& all_read_back(flatten(w.docs))
    &&& (w.finished ==> w.out == zstd_frame(w.payload, w.level)
        && zstd_content(w.out) == Some(w.payload))
    &&& (!w.finished ==> w.out.len() == 0)
    &&& i32::MIN <= w.level <= i32::MAX
}

/// A writer after appending `d`, where it is active and `d` can be written.
pub open spec fn append_spec(w: WriterView, d: Seq<EventView>) -> Result<WriterView, TranscodeError> {
    if w.finished {
        Err(TranscodeError::LifecycleError)
    } else if !(is_document(d) && events_wire(d) is Some) {
        Err(TranscodeError::ModelError)
    } else {
        Ok(WriterView { docs: w.docs.push(d), payload: w.payload + events_wire(d)->0, ..w })
    }
}

/// A writer after `finish`, where compression succeeds.
pub open spec fn finish_spec(w: WriterView) -> WriterView {
    if w.finished {
        w
    } else {
        WriterView { finished: true, out: zstd_frame(w.payload, w.level), ..w }
    }
}

/// A writer after appending each of `ds` in turn, stopping at the first
/// failure, and that failure.
pub open spec fn extend_spec(w: WriterView, ds: Seq<Seq<EventView>>) -> (WriterView, Option<TranscodeError>)
    decreases ds.len(),
{
    if ds.len() == 0 {
        (w, None)
    } else {
        let (w1, e) = extend_spec(w, ds.drop_last());
        if e is Some {
            (w1, e)
        } else {
            match append_spec(w1, ds.last()) {
                Ok(w2) => (w2, None),
                Err(err) => (w1, Some(err)),
            }
        }
    }
}

impl Writer {
    /// An active writer with nothing written, compressing at `level`.
    pub fn new(level: i32) -> (r: Writer)
        ensures
            writer_wf(r@),
            r@ == (WriterView {
                docs: Seq::empty(),
                payload: Seq::empty(),
                level: level as int,
                finished: false,
                out: Seq::empty(),
            }),
    {
        let r = Writer { docs: Ghost(Seq::empty()), payload: Vec::new(), level, finished: false, out: Vec::new() };
        assert(flatten(r.docs@) =~= Seq::<EventView>::empty());
        r
    }

    /// Whether `finish` has run.
    pub fn is_finished(&self) -> (r: bool)
        ensures
            r == self@.finished,
    {
        self.finished
    }

    /// The compressed stream; empty until the writer has finished.
    pub fn bytes(&self) -> (r: &Vec<u8>)
        ensures
            r@ == self@.out,
    {
        &self.out
    }

    /// Writes `doc` as the next document. `LifecycleError` once finished,
    /// `ModelError` where `doc` cannot be written; either way nothing is written.
    pub fn append(&mut self, doc: &Vec<Event>) -> (r: Result<(), TranscodeError>)
        requires
            writer_wf(old(self)@),
        ensures
            writer_wf(final(self)@),
            match append_spec(old(self)@, views(doc@)) {
                Ok(w) => r is Ok && final(self)@ == w,
                Err(e) => r == Err::<(), TranscodeError>(e) && final(self)@ == old(self)@,
            },
    {
        if self.finished {
            return Err(TranscodeError::LifecycleError);
        }
        let b = encode_document(doc)?;
        let ghost d = views(doc@);
        let ghost docs0 = self.docs@;
        proof {
            lemma_flatten_push(self.docs@, d);
            lemma_events_wire_concat(flatten(self.docs@), d);
            lemma_all_read_back_concat(flatten(self.docs@), d);
        }
        extend_bytes(&mut self.payload, &b);
        self.docs = Ghost(self.docs@.push(d));
        proof {
            assert forall|k: int| 0 <= k < self.docs@.len() implies is_document(#[trigger] self.docs@[k]) by {
                if k < self.docs@.len() - 1 {
                    assert(self.docs@[k] == docs0[k]);
                }
            }
        }
        Ok(())
    }

    /// Appends each of `docs` in turn, stopping at the first failure; what
    /// was written before it stays.
    pub fn extend(&mut self, docs: &Vec<Vec<Event>>) -> (r: Result<(), TranscodeError>)
        requires
            writer_wf(old(self)@),
        ensures
            writer_wf(final(self)@),
            ({
                let (w, e) = extend_spec(old(self)@, docs@.map_values(|d: Vec<Event>| views(d@)));
                final(self)@ == w && match e {
                    None => r is Ok,
                    Some(err) => r == Err::<(), TranscodeError>(err),
                }
            }),
    {
        let ghost ds = docs@.map_values(|d: Vec<Event>| views(d@));
        let mut i: usize = 0;
        assert(ds.take(0) =~= Seq::<Seq<EventView>>::empty());
        while i < docs.len()
            invariant
                i <= docs@.len(),
                ds == docs@.map_values(|d: Vec<Event>| views(d@)),
                writer_wf(self@),
                extend_spec(old(self)@, ds.take(i as int)) == (self@, None::<TranscodeError>),
            decreases docs@.len() - i,
        {
            let r = self.append(&docs[i]);
            proof {
                let t = ds.take(i as int + 1);
                assert(t.drop_last() =~= ds.take(i as int));
                assert(t.last() == views(docs@[i as int]@));
            }
            match r {
                Err(e) => {
                    proof {
                        lemma_extend_stops(old(self)@, ds, i as int + 1);
                    }
                    return Err(e);
                },
                Ok(()) => {},
            }
            i = i + 1;
        }
        assert(ds.take(i as int) =~= ds);
        Ok(())
    }

    /// Completes the compression frame once: the stream is then one zstd
    /// frame that decompresses to the documents appended. Later calls change
    /// nothing. This is also what leaving a scoped block runs, on every path.
    pub fn finish(&mut self)
        requires
            writer_wf(old(self)@),
        ensures
            writer_wf(final(self)@),
            final(self)@ == finish_spec(old(self)@),
            zstd_content(final(self)@.out) == Some(final(self)@.payload),
    {
        if self.finished {
            return;
        }
        self.out = compress_payload(&self.payload, self.level);
        self.finished = true;
    }

    /// Gives up the writer without an explicit `finish`: finishes it as
    /// `finish` does and hands back the stream.
    pub fn abandon(self) -> (r: Vec<u8>)
        requires
            writer_wf(self@),
        ensures
            r@ == finish_spec(self@).out,
            r@ == zstd_frame(self@.payload, self@.level),
            zstd_content(r@) == Some(self@.payload),
    {
        let mut w = self;
        w.finish();
        w.out
    }
}

/// Appends the bytes of `b` to `v`.
fn extend_bytes(v: &mut Vec<u8>, b: &Vec<u8>)
    ensures
        final(v)@ == old(v)@ + b@,
{
    let mut i: usize = 0;
    while i < b.len()
        invariant
            i <= b@.len(),
            v@ == old(v)@ + b@.take(i as int),
        decreases b@.len() - i,
    {
        v.push(b[i]);
        i = i + 1;
        assert(v@ =~= old(v)@ + b@.take(i as int));
    }
    assert(b@.take(i as int) =~= b@);
}

proof fn lemma_extend_stops(w: WriterView, ds: Seq<Seq<EventView>>, k: int)
    requires
        0 < k <= ds.len(),
        extend_spec(w, ds.take(k)).1 is Some,
    ensures
        extend_spec(w, ds) == extend_spec(w, ds.take(k)),
    decreases ds.len(),
{
    if k < ds.len() {
        assert(ds.drop_last().take(k) =~= ds.take(k));
        lemma_extend_stops(w, ds.drop_last(), k);
    } else {
        assert(ds.take(k) =~= ds);
    }
}

} // verus!
