//! Documents over a stream of MessagePack bytes: reading one, reading all,
//! and writing a value as one or several documents.
//!
//! Reading a document relays one event at a time and keeps only a count of
//! the values still owed, so nesting depth costs no stack and no tree is
//! ever built.
use vstd::prelude::*;
use crate::event::{
    Event, EventView, views, arity_of, pending, is_document, flatten, all_documents, document_end,
};
use crate::laws::{lemma_frame_documents, lemma_frame_round_trip};
use crate::wire::{event_at, event_wire, reads_back, encode_event, decode_event};

verus! {

/// What can go wrong while transcoding.
#[derive(Debug, PartialEq, Eq, Structural, Clone, Copy)]
pub enum TranscodeError {
    /// Malformed or truncated bytes.
    WireError,
    /// A value with no representation on the other side.
    ModelError,
    /// Use of a writer that has already finished.
    LifecycleError,
    /// A failure of the transport or of its compression frame.
    IoError,
}

/// The result of reading a whole stream: one document alone, or the
/// documents of a stream that holds none or several.
#[derive(Debug, Clone, PartialEq, Eq)]
pub enum Decoded {
    Single(Vec<Event>),
    Sequence(Vec<Vec<Event>>),
}

/// The views of a sequence of documents.
pub open spec fn doc_views(ds: Seq<Vec<Event>>) -> Seq<Seq<EventView>> {
    ds.map_values(|d: Vec<Event>| views(d@))
}

/// The documents that a decoded result stands for.
pub open spec fn docs_of(d: Decoded) -> Seq<Seq<EventView>> {
    match d {
        Decoded::Single(x) => seq![views(x@)],
        Decoded::Sequence(ds) => doc_views(ds@),
    }
}

/// The one document that a stream of `docs` reads back as: a single
/// document unwrapped, otherwise an array of the documents.
pub open spec fn unframe(docs: Seq<Seq<EventView>>) -> Seq<EventView> {
    if docs.len() == 1 {
        docs[0]
    } else {
        seq![EventView::ArrayStart(docs.len())] + flatten(docs)
    }
}

/// The events that a document is written as: the elements of a top-level
/// array each become a document of their own, any other value one document.
pub open spec fn frame_events(d: Seq<EventView>) -> Seq<EventView> {
    if d.len() > 0 && d[0] is ArrayStart {
        d.skip(1)
    } else {
        d
    }
}

/// The bytes of a sequence of events, where each has a representation.
pub open spec fn events_wire(s: Seq<EventView>) -> Option<Seq<u8>>
    decreases s.len(),
{
    if s.len() == 0 {
        Some(Seq::empty())
    } else {
        match (events_wire(s.drop_last()), event_wire(s.last())) {
            (Some(a), Some(b)) => Some(a + b),
            _ => None,
        }
    }
}

/// Every event of `s` has bytes on the wire, and they read back as the event.
pub open spec fn all_read_back(s: Seq<EventView>) -> bool {
    forall|i: int| 0 <= i < s.len() ==> (#[trigger] event_wire(s[i])) is Some
        && reads_back(event_wire(s[i])->0, s[i])
}

/// The uncompressed stream `b` reads back as the documents that `d` is
/// written as, and so as `d` itself unless `d` is an array of one element.
pub open spec fn payload_reads_back(b: Seq<u8>, d: Seq<EventView>) -> bool {
    match docs_from(b, 0) {
        Some(ds) => all_documents(ds) && flatten(ds) == frame_events(d)
            && (d[0] != EventView::ArrayStart(1) ==> unframe(ds) == d),
        None => false,
    }
}

/// Reading on from `pos` to complete a document begun with `acc`: the
/// document and where it ends, or `None` where the bytes are malformed or
/// end first.
pub open spec fn doc_from(b: Seq<u8>, pos: nat, acc: Seq<EventView>) -> Option<(Seq<EventView>, nat)>
    decreases b.len() - pos,
{
    if acc.len() > 0 && pending(acc) == 0 {
        Some((acc, pos))
    } else {
        match event_at(b.subrange(pos as int, b.len() as int)) {
            Some((e, n)) => if 0 < n && pos + n <= b.len() {
                doc_from(b, pos + n, acc.push(e))
            } else {
                None
            },
            None => None,
        }
    }
}

/// The documents of `b` from `pos` to its end, or `None` where the bytes are
/// malformed or end inside a document.
pub open spec fn docs_from(b: Seq<u8>, pos: nat) -> Option<Seq<Seq<EventView>>>
    decreases b.len() - pos,
{
    if pos >= b.len() {
        Some(Seq::empty())
    } else {
        match doc_from(b, pos, Seq::empty()) {
            Some((d, end)) => if pos < end <= b.len() {
                match docs_from(b, end) {
                    Some(ds) => Some(seq![d] + ds),
                    None => None,
                }
            } else {
                None
            },
            None => None,
        }
    }
}

/// Reads the document that starts at `pos`; gives its events and where it
/// ends, or `None` where the bytes are malformed or end inside it.
pub fn read_document(b: &[u8], pos: usize) -> (r: Option<(Vec<Event>, usize)>)
    requires
        pos <= b@.len(),
    ensures
        match r {
            Some((d, end)) => doc_from(b@, pos as nat, Seq::empty()) == Some((views(d@), end as nat))
                && is_document(views(d@)) && pos < end <= b@.len(),
            None => doc_from(b@, pos as nat, Seq::empty()) is None,
        },
{
    let mut acc: Vec<Event> = Vec::new();
    let mut p: usize = pos;
    let mut need: u128 = 1;
    let blen = b.len();
    assert(views(acc@) =~= Seq::<EventView>::empty());
    loop
        invariant
            pos <= p <= b@.len(),
            blen == b@.len(),
            doc_from(b@, pos as nat, Seq::empty()) == doc_from(b@, p as nat, views(acc@)),
            need as int == pending(views(acc@)),
            need > 0,
            acc@.len() <= p - pos,
            need <= 1 + acc@.len() * 0x2_0000_0000,
            forall|i: int| 0 <= i <= acc@.len() ==> pending(#[trigger] views(acc@).take(i)) > 0,
        decreases b@.len() - p,
    {
        let ghost before = views(acc@);
        match decode_event(b, p) {
            None => {
                return None;
            },
            Some((e, q)) => {
                let a = arity_of(&e);
                proof {
                    assert(a <= 0x2_0000_0000) by {
                        match e {
                            Event::MapStart(n) => {},
                            _ => {},
                        }
                    }
                    assert((1 + acc@.len() * 0x2_0000_0000) + 0x2_0000_0000
                        == 1 + (acc@.len() + 1) * 0x2_0000_0000) by (nonlinear_arith);
                }
                let ghost ev = e@;
                need = need - 1 + a as u128;
                acc.push(e);
                p = q;
                proof {
                    let now = views(acc@);
                    assert(now =~= before.push(ev));
                    assert(now.drop_last() =~= before);
                    assert forall|i: int| 0 <= i < now.len() implies pending(#[trigger] now.take(i)) > 0 by {
                        assert(now.take(i) =~= before.take(i));
                    }
                    assert(now.take(now.len() as int) =~= now);
                }
                if need == 0 {
                    proof {
                        let now = views(acc@);
                        assert(doc_from(b@, p as nat, now) == Some((now, p as nat)));
                    }
                    return Some((acc, p));
                }
            },
        }
    }
}

/// `a` before the documents of `o`, where `o` holds any.
pub open spec fn prepend_docs(a: Seq<Seq<EventView>>, o: Option<Seq<Seq<EventView>>>) -> Option<Seq<Seq<EventView>>> {
    match o {
        Some(ds) => Some(a + ds),
        None => None,
    }
}

/// Reads every document of an uncompressed stream, in order. A stream of one
/// document gives it alone; any other gives the sequence, empty included.
pub fn decode_payload(b: &[u8]) -> (r: Result<Decoded, TranscodeError>)
    ensures
        match r {
            Ok(d) => docs_from(b@, 0) == Some(docs_of(d))
                && (d is Single <==> docs_of(d).len() == 1),
            Err(e) => e == TranscodeError::WireError && docs_from(b@, 0) is None,
        },
{
    let mut docs: Vec<Vec<Event>> = Vec::new();
    let mut p: usize = 0;
    let blen = b.len();
    assert(doc_views(docs@) + docs_from(b@, 0)->0 =~= docs_from(b@, 0)->0);
    while p < blen
        invariant
            p <= b@.len(),
            blen == b@.len(),
            docs_from(b@, 0) == prepend_docs(doc_views(docs@), docs_from(b@, p as nat)),
        decreases b@.len() - p,
    {
        match read_document(b, p) {
            None => {
                return Err(TranscodeError::WireError);
            },
            Some((d, end)) => {
                let ghost before = doc_views(docs@);
                let ghost dv = views(d@);
                docs.push(d);
                proof {
                    assert(doc_views(docs@) =~= before.push(dv));
                    match docs_from(b@, end as nat) {
                        Some(rest) => {
                            assert(before + (seq![dv] + rest) =~= before.push(dv) + rest);
                        },
                        None => {},
                    }
                }
                p = end;
            },
        }
    }
    assert(doc_views(docs@) + Seq::<Seq<EventView>>::empty() =~= doc_views(docs@));
    if docs.len() == 1 {
        let ghost all = docs@;
        let d = docs.pop().unwrap();
        proof {
            assert(all[0] == d);
            assert(seq![views(d@)] =~= doc_views(all));
        }
        Ok(Decoded::Single(d))
    } else {
        Ok(Decoded::Sequence(docs))
    }
}

/// Whether `doc` is exactly one complete document.
pub fn check_document(doc: &Vec<Event>) -> (r: bool)
    ensures
        r == is_document(views(doc@)),
{
    let ghost v = views(doc@);
    match document_end(doc, 0) {
        Some(j) => {
            assert(v.subrange(0, j as int) =~= v.take(j as int));
            if j == doc.len() {
                assert(v.take(j as int) =~= v);
                true
            } else {
                false
            }
        },
        None => {
            assert(v.subrange(0, v.len() as int) =~= v);
            false
        },
    }
}

proof fn lemma_events_wire_each(s: Seq<EventView>, k: int)
    requires
        events_wire(s) is Some,
        0 <= k < s.len(),
    ensures
        event_wire(s[k]) is Some,
    decreases s.len(),
{
    if k < s.len() - 1 {
        lemma_events_wire_each(s.drop_last(), k);
    }
}

proof fn lemma_events_wire_prefix(s: Seq<EventView>, k: int)
    requires
        events_wire(s) is Some,
        0 <= k <= s.len(),
    ensures
        events_wire(s.take(k)) is Some,
    decreases s.len(),
{
    if k < s.len() {
        assert(s.drop_last().take(k) =~= s.take(k));
        lemma_events_wire_prefix(s.drop_last(), k);
    } else {
        assert(s.take(k) =~= s);
    }
}

/// The bytes of `doc[start..]`, or `None` where one of those events has no
/// representation on the wire.
pub fn encode_from(doc: &Vec<Event>, start: usize) -> (r: Option<Vec<u8>>)
    requires
        start <= doc@.len(),
    ensures
        match r {
            Some(b) => events_wire(views(doc@).subrange(start as int, doc@.len() as int)) == Some(b@)
                && all_read_back(views(doc@).subrange(start as int, doc@.len() as int)),
            None => events_wire(views(doc@).subrange(start as int, doc@.len() as int)) is None,
        },
{
    let ghost v = views(doc@);
    let ghost f = v.subrange(start as int, v.len() as int);
    let mut out: Vec<u8> = Vec::new();
    let mut i: usize = start;
    assert(f.take(0) =~= Seq::<EventView>::empty());
    while i < doc.len()
        invariant
            start <= i <= doc@.len(),
            v == views(doc@),
            f == v.subrange(start as int, v.len() as int),
            events_wire(f.take(i - start)) == Some(out@),
            all_read_back(f.take(i - start)),
        decreases doc@.len() - i,
    {
        let ok = encode_event(&mut out, &doc[i]);
        if !ok {
            proof {
                assert(v[i as int] == doc@[i as int]@);
                assert(f[i - start] == v[i as int]);
                if events_wire(f) is Some {
                    lemma_events_wire_each(f, i - start);
                }
            }
            return None;
        }
        proof {
            let t = f.take(i - start + 1);
            assert(t.drop_last() =~= f.take(i - start));
            assert(v[i as int] == doc@[i as int]@);
            assert(t.last() == doc@[i as int]@);
            assert forall|k: int| 0 <= k < t.len() implies (#[trigger] event_wire(t[k])) is Some
                && reads_back(event_wire(t[k])->0, t[k]) by {
                if k < t.len() - 1 {
                    assert(t[k] == f.take(i - start)[k]);
                }
            }
        }
        i = i + 1;
    }
    assert(f.take(i - start) =~= f);
    Some(out)
}

/// Writes one complete document as it is. `ModelError` where `doc` is not
/// one complete document or holds an event with no representation.
pub fn encode_document(doc: &Vec<Event>) -> (r: Result<Vec<u8>, TranscodeError>)
    ensures
        match r {
            Ok(b) => is_document(views(doc@)) && events_wire(views(doc@)) == Some(b@)
                && all_read_back(views(doc@)),
            Err(e) => e == TranscodeError::ModelError && !(is_document(views(doc@))
                && events_wire(views(doc@)) is Some),
        },
{
    if !check_document(doc) {
        return Err(TranscodeError::ModelError);
    }
    assert(views(doc@).subrange(0, doc@.len() as int) =~= views(doc@));
    match encode_from(doc, 0) {
        Some(b) => Ok(b),
        None => Err(TranscodeError::ModelError),
    }
}

/// Writes one document as the uncompressed stream of `frame_events`: the
/// elements of a top-level array as documents of their own, any other value
/// as one document. `ModelError` where `doc` is not one complete document or
/// holds an event with no representation on the wire.
pub fn encode_payload(doc: &Vec<Event>) -> (r: Result<Vec<u8>, TranscodeError>)
    ensures
        match r {
            Ok(b) => is_document(views(doc@)) && events_wire(frame_events(views(doc@))) == Some(b@)
                && all_read_back(frame_events(views(doc@))) && payload_reads_back(b@, views(doc@)),
            Err(e) => e == TranscodeError::ModelError && !(is_document(views(doc@))
                && events_wire(frame_events(views(doc@))) is Some),
        },
{
    if !check_document(doc) {
        return Err(TranscodeError::ModelError);
    }
    let start: usize = match &doc[0] {
        Event::ArrayStart(_) => 1,
        _ => 0,
    };
    assert(views(doc@).subrange(start as int, doc@.len() as int) =~= frame_events(views(doc@)));
    match encode_from(doc, start) {
        Some(b) => {
            proof {
                let v = views(doc@);
                let ds = lemma_frame_documents(v);
                lemma_documents_read_back(ds);
                if v[0] != EventView::ArrayStart(1) {
                    lemma_frame_round_trip(v, ds);
                }
            }
            Ok(b)
        },
        None => Err(TranscodeError::ModelError),
    }
}

/// The zstd frame that compressing `data` at `level` gives.
pub uninterp spec fn zstd_frame(data: Seq<u8>, level: int) -> Seq<u8>;

/// The data that decompressing the zstd frames `b` gives, where they are valid.
pub uninterp spec fn zstd_content(b: Seq<u8>) -> Option<Seq<u8>>;

/// Relies on zstd::stream::encode_all: compresses `data` at `level` into one
/// frame, which decompresses to `data` again. Into a vector it fails only
/// where memory runs out, and zstd clamps a level out of range rather than
/// refusing it.
#[verifier::external_body]
fn compress(data: &[u8], level: i32) -> (r: Vec<u8>)
    ensures
        r@ == zstd_frame(data@, level as int),
        zstd_content(r@) == Some(data@),
{
    zstd::stream::encode_all(data, level).expect("zstd compression into memory fails only on allocation failure")
}

/// Relies on zstd::stream::decode_all: decompresses every frame of `b`;
/// `None` where they are corrupt or cut short.
#[verifier::external_body]
pub(crate) fn decompress(b: &[u8]) -> (r: Option<Vec<u8>>)
    ensures
        match r {
            Some(x) => zstd_content(b@) == Some(x@),
            None => zstd_content(b@) is None,
        },
{
    zstd::stream::decode_all(b).ok()
}

/// Compresses an uncompressed stream at `level` into one zstd frame that
/// decompresses to it again.
pub fn compress_payload(payload: &Vec<u8>, level: i32) -> (r: Vec<u8>)
    ensures
        r@ == zstd_frame(payload@, level as int),
        zstd_content(r@) == Some(payload@),
{
    compress(payload.as_slice(), level)
}

/// Writes `doc` as a compressed stream: a top-level array as one document
/// per element, any other value as one document.
pub fn encode_all(doc: &Vec<Event>, level: i32) -> (r: Result<Vec<u8>, TranscodeError>)
    ensures
        is_document(views(doc@)) && events_wire(frame_events(views(doc@))) is Some ==> (r matches Ok(x)
            && x@ == zstd_frame(events_wire(frame_events(views(doc@)))->0, level as int)
            && zstd_content(x@) == Some(events_wire(frame_events(views(doc@)))->0)
            && payload_reads_back(events_wire(frame_events(views(doc@)))->0, views(doc@))),
        !(is_document(views(doc@)) && events_wire(frame_events(views(doc@))) is Some)
            ==> r == Err::<Vec<u8>, TranscodeError>(TranscodeError::ModelError),
{
    let payload = encode_payload(doc)?;
    Ok(compress_payload(&payload, level))
}

/// Reads every document of a compressed stream, in order; one document
/// comes alone, none or several as a sequence. `IoError` where the
/// compression frame is corrupt, `WireError` where its content is malformed.
pub fn decode_all(b: &[u8]) -> (r: Result<Decoded, TranscodeError>)
    ensures
        match zstd_content(b@) {
            None => r == Err::<Decoded, TranscodeError>(TranscodeError::IoError),
            Some(p) => match r {
                Ok(d) => docs_from(p, 0) == Some(docs_of(d)) && (d is Single <==> docs_of(d).len() == 1),
                Err(e) => e == TranscodeError::WireError && docs_from(p, 0) is None,
            },
        },
{
    match decompress(b) {
        None => Err(TranscodeError::IoError),
        Some(p) => decode_payload(p.as_slice()),
    }
}

/// The events of `docs` followed by one more document `d`.
pub proof fn lemma_flatten_push(docs: Seq<Seq<EventView>>, d: Seq<EventView>)
    ensures
        flatten(docs.push(d)) == flatten(docs) + d,
    decreases docs.len(),
{
    if docs.len() == 0 {
        assert(docs.push(d).skip(1) =~= Seq::<Seq<EventView>>::empty());
        assert(flatten(Seq::<Seq<EventView>>::empty()) == Seq::<EventView>::empty());
        assert(docs =~= Seq::<Seq<EventView>>::empty());
        assert(flatten(docs.push(d)) =~= d);
    } else {
        assert(docs.push(d).skip(1) =~= docs.skip(1).push(d));
        lemma_flatten_push(docs.skip(1), d);
        assert(flatten(docs.push(d)) =~= flatten(docs) + d);
    }
}

/// The bytes of two runs of events, one after the other.
pub proof fn lemma_events_wire_concat(a: Seq<EventView>, b: Seq<EventView>)
    requires
        events_wire(a) is Some,
        events_wire(b) is Some,
    ensures
        events_wire(a + b) == Some(events_wire(a)->0 + events_wire(b)->0),
    decreases b.len(),
{
    if b.len() == 0 {
        assert(a + b =~= a);
        assert(events_wire(a)->0 + events_wire(b)->0 =~= events_wire(a)->0);
    } else {
        lemma_events_wire_prefix(b, b.len() - 1);
        assert(b.take(b.len() - 1) =~= b.drop_last());
        lemma_events_wire_concat(a, b.drop_last());
        assert((a + b).drop_last() =~= a + b.drop_last());
        assert((a + b).last() == b.last());
        lemma_events_wire_each(b, b.len() - 1);
        assert(events_wire(a)->0 + events_wire(b)->0
            =~= (events_wire(a)->0 + events_wire(b.drop_last())->0) + event_wire(b.last())->0);
    }
}

/// Two runs of events that each read back do so one after the other.
pub proof fn lemma_all_read_back_concat(a: Seq<EventView>, b: Seq<EventView>)
    requires
        all_read_back(a),
        all_read_back(b),
    ensures
        all_read_back(a + b),
{
    assert forall|i: int| 0 <= i < (a + b).len() implies (#[trigger] event_wire((a + b)[i])) is Some
        && reads_back(event_wire((a + b)[i])->0, (a + b)[i]) by {
        if i < a.len() {
            assert((a + b)[i] == a[i]);
        } else {
            assert((a + b)[i] == b[i - a.len()]);
        }
    }
}

proof fn lemma_all_read_back_sub(s: Seq<EventView>, i: int, j: int)
    requires
        all_read_back(s),
        0 <= i <= j <= s.len(),
    ensures
        all_read_back(s.subrange(i, j)),
{
    assert forall|k: int| 0 <= k < s.subrange(i, j).len() implies (#[trigger] event_wire(s.subrange(i, j)[k])) is Some
        && reads_back(event_wire(s.subrange(i, j)[k])->0, s.subrange(i, j)[k]) by {
        assert(s.subrange(i, j)[k] == s[i + k]);
    }
}

proof fn lemma_events_wire_all(s: Seq<EventView>)
    requires
        all_read_back(s),
    ensures
        events_wire(s) is Some,
        s.len() > 0 ==> (events_wire(s)->0).len() > 0,
    decreases s.len(),
{
    if s.len() > 0 {
        lemma_all_read_back_sub(s, 0, s.len() - 1);
        assert(s.subrange(0, s.len() - 1) =~= s.drop_last());
        lemma_events_wire_all(s.drop_last());
        assert(event_wire(s[s.len() - 1]) is Some);
    }
}

proof fn lemma_events_wire_front(s: Seq<EventView>)
    requires
        all_read_back(s),
        s.len() > 0,
    ensures
        events_wire(s)->0 == event_wire(s[0])->0 + events_wire(s.skip(1))->0,
{
    let h = seq![s[0]];
    assert(s =~= h + s.skip(1));
    lemma_all_read_back_sub(s, 0, 1);
    assert(s.subrange(0, 1) =~= h);
    lemma_all_read_back_sub(s, 1, s.len() as int);
    assert(s.subrange(1, s.len() as int) =~= s.skip(1));
    lemma_events_wire_all(h);
    lemma_events_wire_all(s.skip(1));
    lemma_events_wire_concat(h, s.skip(1));
    assert(h.drop_last() =~= Seq::<EventView>::empty());
    assert(events_wire(Seq::<EventView>::empty()) == Some(Seq::<u8>::empty()));
    assert(h.last() == s[0]);
    assert(events_wire(h)->0 =~= event_wire(s[0])->0);
}

proof fn lemma_skip_concat(x: Seq<u8>, p: int, a: Seq<u8>, b: Seq<u8>)
    requires
        0 <= p <= x.len(),
        x.skip(p) == a + b,
    ensures
        x.skip(p + a.len()) == b,
{
    assert(x.skip(p).len() == x.len() - p);
    assert((a + b).len() == a.len() + b.len());
    assert forall|j: int| 0 <= j < b.len() implies #[trigger] x.skip(p + a.len())[j] == b[j] by {
        assert(x.skip(p + a.len())[j] == x[p + a.len() + j]);
        assert(x.skip(p)[a.len() + j] == x[p + a.len() + j]);
        assert((a + b)[a.len() + j] == b[j]);
    }
    assert(x.skip(p + a.len()) =~= b);
}

/// Bytes that hold the wire form of the rest of document `d` from its event
/// `i` on read on to complete `d` begun with its first `i` events.
proof fn lemma_doc_from_wire(x: Seq<u8>, p: nat, d: Seq<EventView>, i: int, tail: Seq<u8>)
    requires
        is_document(d),
        all_read_back(d),
        0 <= i <= d.len(),
        p <= x.len(),
        x.skip(p as int) == events_wire(d.skip(i))->0 + tail,
    ensures
        doc_from(x, p, d.take(i)) == Some((d, p + (events_wire(d.skip(i))->0).len())),
    decreases d.len() - i,
{
    if i == d.len() {
        assert(d.take(i) =~= d);
        assert(d.skip(i) =~= Seq::<EventView>::empty());
    } else {
        let rest = d.skip(i);
        lemma_all_read_back_sub(d, i, d.len() as int);
        assert(d.subrange(i, d.len() as int) =~= rest);
        lemma_events_wire_front(rest);
        assert(rest[0] == d[i]);
        assert(rest.skip(1) =~= d.skip(i + 1));
        let w0 = event_wire(d[i])->0;
        let r1 = events_wire(d.skip(i + 1))->0;
        assert(events_wire(rest)->0 + tail =~= w0 + (r1 + tail));
        assert(x.subrange(p as int, x.len() as int) =~= x.skip(p as int));
        assert(event_at(w0 + (r1 + tail)) == Some((d[i], w0.len())));
        if i > 0 {
            assert(pending(d.take(i)) > 0);
        }
        lemma_skip_concat(x, p as int, w0, r1 + tail);
        assert(d.take(i).push(d[i]) =~= d.take(i + 1));
        lemma_doc_from_wire(x, p + w0.len(), d, i + 1, tail);
    }
}

/// The wire form of a sequence of documents, wherever it stands at the end
/// of a stream, reads back as exactly those documents in order.
proof fn lemma_docs_from_wire(x: Seq<u8>, p: nat, docs: Seq<Seq<EventView>>)
    requires
        all_documents(docs),
        all_read_back(flatten(docs)),
        p <= x.len(),
        x.skip(p as int) == events_wire(flatten(docs))->0,
    ensures
        docs_from(x, p) == Some(docs),
    decreases docs.len(),
{
    if docs.len() == 0 {
        assert(x.skip(p as int).len() == 0);
    } else {
        let d0 = docs[0];
        let others = docs.skip(1);
        let f = flatten(docs);
        assert(f == d0 + flatten(others));
        assert(is_document(d0));
        lemma_all_read_back_sub(f, 0, d0.len() as int);
        assert(f.subrange(0, d0.len() as int) =~= d0);
        lemma_all_read_back_sub(f, d0.len() as int, f.len() as int);
        assert(f.subrange(d0.len() as int, f.len() as int) =~= flatten(others));
        lemma_events_wire_all(d0);
        lemma_events_wire_all(flatten(others));
        lemma_events_wire_concat(d0, flatten(others));
        let w = events_wire(d0)->0;
        assert(d0.skip(0) =~= d0);
        assert(d0.take(0) =~= Seq::<EventView>::empty());
        lemma_doc_from_wire(x, p, d0, 0, events_wire(flatten(others))->0);
        lemma_skip_concat(x, p as int, w, events_wire(flatten(others))->0);
        assert forall|i: int| 0 <= i < others.len() implies is_document(#[trigger] others[i]) by {
            assert(others[i] == docs[i + 1]);
        }
        lemma_docs_from_wire(x, p + w.len(), others);
        assert(seq![d0] + others =~= docs);
    }
}

/// A stream written as the wire form of complete documents reads back as
/// exactly those documents, in the order written.
pub proof fn lemma_documents_read_back(docs: Seq<Seq<EventView>>)
    requires
        all_documents(docs),
        all_read_back(flatten(docs)),
    ensures
        events_wire(flatten(docs)) is Some,
        docs_from(events_wire(flatten(docs))->0, 0) == Some(docs),
{
    lemma_events_wire_all(flatten(docs));
    let x = events_wire(flatten(docs))->0;
    assert(x.skip(0) =~= x);
    lemma_docs_from_wire(x, 0, docs);
}

} // verus!
