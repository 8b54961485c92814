//! Properties that relate several operations of the library.
use vstd::prelude::*;
use crate::event::{EventView, arity, pending, is_document, flatten, all_documents};
use crate::stream::{TranscodeError, unframe, frame_events, docs_from, zstd_content, lemma_documents_read_back};
use crate::writer::{WriterView, writer_wf, append_spec, finish_spec};

verus! {

/// What is owed after two runs of events read one after the other.
pub proof fn lemma_pending_concat(a: Seq<EventView>, b: Seq<EventView>)
    ensures
        pending(a + b) == pending(a) + pending(b) - 1,
    decreases b.len(),
{
    if b.len() == 0 {
        assert(a + b =~= a);
    } else {
        assert((a + b).drop_last() =~= a + b.drop_last());
        lemma_pending_concat(a, b.drop_last());
    }
}

/// The events of `k` documents owe `1 - k` values.
pub proof fn lemma_pending_flatten(docs: Seq<Seq<EventView>>)
    requires
        all_documents(docs),
    ensures
        pending(flatten(docs)) == 1 - docs.len(),
    decreases docs.len(),
{
    if docs.len() > 0 {
        assert(is_document(docs[0]));
        assert forall|i: int| 0 <= i < docs.skip(1).len() implies is_document(#[trigger] docs.skip(1)[i]) by {
            assert(docs.skip(1)[i] == docs[i + 1]);
        }
        lemma_pending_flatten(docs.skip(1));
        lemma_pending_concat(docs[0], flatten(docs.skip(1)));
    }
}

/// A document that begins another document is that document.
pub proof fn lemma_document_prefix(x: Seq<EventView>, y: Seq<EventView>)
    requires
        is_document(x),
        is_document(y),
        x.len() <= y.len(),
        y.take(x.len() as int) == x,
    ensures
        x == y,
{
    if x.len() < y.len() {
        assert(pending(y.take(x.len() as int)) > 0);
    }
    assert(y.take(y.len() as int) =~= y);
}

/// A stream of documents is self-delimiting: its events determine the
/// documents, their number and their order.
pub proof fn lemma_documents_unique(a: Seq<Seq<EventView>>, b: Seq<Seq<EventView>>)
    requires
        all_documents(a),
        all_documents(b),
        flatten(a) == flatten(b),
    ensures
        a == b,
    decreases a.len(),
{
    if a.len() == 0 {
        if b.len() > 0 {
            assert(is_document(b[0]));
            assert(flatten(b).len() >= b[0].len());
        }
        assert(a =~= b);
    } else {
        assert(is_document(a[0]));
        if b.len() == 0 {
            assert(flatten(a).len() >= a[0].len());
        }
        assert(is_document(b[0]));
        let s = flatten(a);
        assert(s.take(a[0].len() as int) =~= a[0]);
        assert(s.take(b[0].len() as int) =~= b[0]);
        if a[0].len() <= b[0].len() {
            assert(b[0].take(a[0].len() as int) =~= a[0]);
            lemma_document_prefix(a[0], b[0]);
        } else {
            assert(a[0].take(b[0].len() as int) =~= b[0]);
            lemma_document_prefix(b[0], a[0]);
        }
        assert(flatten(a.skip(1)) =~= s.skip(a[0].len() as int));
        assert(flatten(b.skip(1)) =~= s.skip(b[0].len() as int));
        assert forall|i: int| 0 <= i < a.skip(1).len() implies is_document(#[trigger] a.skip(1)[i]) by {
            assert(a.skip(1)[i] == a[i + 1]);
        }
        assert forall|i: int| 0 <= i < b.skip(1).len() implies is_document(#[trigger] b.skip(1)[i]) by {
            assert(b.skip(1)[i] == b[i + 1]);
        }
        lemma_documents_unique(a.skip(1), b.skip(1));
        assert(a =~= seq![a[0]] + a.skip(1));
        assert(b =~= seq![b[0]] + b.skip(1));
    }
}

/// Writing a document with `encode_all` and reading the stream back gives
/// the document again: the documents read back from the events written
/// come out as the original value. The one exception is a top-level array of
/// exactly one element, which reads back as that element alone.
pub proof fn lemma_frame_round_trip(d: Seq<EventView>, docs: Seq<Seq<EventView>>)
    requires
        is_document(d),
        d[0] != EventView::ArrayStart(1),
        all_documents(docs),
        flatten(docs) == frame_events(d),
    ensures
        unframe(docs) == d,
{
    lemma_pending_flatten(docs);
    if d[0] is ArrayStart {
        let n = d[0]->ArrayStart_0;
        let head = seq![d[0]];
        assert(d =~= head + d.skip(1));
        lemma_pending_concat(head, d.skip(1));
        assert(head.drop_last() =~= Seq::<EventView>::empty());
        assert(pending(Seq::<EventView>::empty()) == 1);
        assert(head.last() == d[0]);
        assert(pending(head) == n);
        assert(docs.len() == n);
        assert(unframe(docs) =~= d);
    } else {
        assert(docs.len() == 1);
        assert(docs.skip(1) =~= Seq::<Seq<EventView>>::empty());
        assert(flatten(docs.skip(1)) == Seq::<EventView>::empty());
        assert(flatten(docs) =~= docs[0]);
    }
}

/// A document cut short before its end is no sequence of documents, so a
/// stream cut inside its last document does not read back.
pub proof fn lemma_cut_document(d: Seq<EventView>, i: int, docs: Seq<Seq<EventView>>)
    requires
        is_document(d),
        0 < i < d.len(),
        all_documents(docs),
    ensures
        flatten(docs) != d.take(i),
{
    if flatten(docs) == d.take(i) {
        if docs.len() == 0 {
            assert(d.take(i).len() == i);
        } else {
            let x = docs[0];
            assert(is_document(x));
            assert(flatten(docs).take(x.len() as int) =~= x);
            assert(d.take(x.len() as int) =~= x);
            assert(pending(d.take(x.len() as int)) > 0);
        }
    }
}

/// Finishing twice leaves the writer as finishing once does, and a finished
/// writer refuses further documents and writes nothing.
pub proof fn lemma_finish_idempotent(w: WriterView, d: Seq<EventView>)
    ensures
        finish_spec(finish_spec(w)) == finish_spec(w),
        append_spec(finish_spec(w), d) == Err::<WriterView, TranscodeError>(TranscodeError::LifecycleError),
{
}

/// What a writer has written reads back as exactly the documents appended
/// to it, in order; once it has finished with a compressed stream, that
/// stream decompresses to those bytes.
pub proof fn lemma_writer_reads_back(w: WriterView)
    requires
        writer_wf(w),
    ensures
        docs_from(w.payload, 0) == Some(w.docs),
        w.finished ==> zstd_content(w.out) == Some(w.payload),
{
    lemma_documents_read_back(w.docs);
}

proof fn lemma_first_zero(s: Seq<EventView>, j: int) -> (k: int)
    requires
        0 <= j <= s.len(),
        forall|i: int| 0 <= i <= j ==> pending(#[trigger] s.take(i)) > 0,
        pending(s) <= 0,
    ensures
        j < k <= s.len(),
        pending(s.take(k)) == 0,
        forall|i: int| 0 <= i < k ==> pending(#[trigger] s.take(i)) > 0,
    decreases s.len() - j,
{
    assert(s.take(s.len() as int) =~= s);
    assert(j < s.len());
    let t = s.take(j + 1);
    assert(t.drop_last() =~= s.take(j));
    assert(arity(t.last()) >= 0);
    if pending(t) == 0 {
        j + 1
    } else {
        lemma_first_zero(s, j + 1)
    }
}

/// Events that owe `1 - n` values, and never as few before their end,
/// are `n` documents one after the other.
proof fn lemma_split_children(s: Seq<EventView>, n: nat) -> (docs: Seq<Seq<EventView>>)
    requires
        pending(s) == 1 - n,
        forall|j: int| 0 <= j < s.len() ==> pending(#[trigger] s.take(j)) > 1 - n,
    ensures
        all_documents(docs),
        flatten(docs) == s,
        docs.len() == n,
    decreases s.len(),
{
    if s.len() == 0 {
        assert(pending(s) == 1);
        Seq::empty()
    } else {
        assert(s.take(0) =~= Seq::<EventView>::empty());
        assert(pending(s.take(0)) == 1);
        let k = lemma_first_zero(s, 0);
        let d0 = s.take(k);
        let rest = s.skip(k);
        assert forall|i: int| 0 <= i < d0.len() implies pending(#[trigger] d0.take(i)) > 0 by {
            assert(d0.take(i) =~= s.take(i));
        }
        assert(is_document(d0));
        assert(s =~= d0 + rest);
        lemma_pending_concat(d0, rest);
        assert forall|j: int| 0 <= j < rest.len() implies pending(#[trigger] rest.take(j)) > 1 - (n - 1) by {
            assert(s.take(k + j) =~= d0 + rest.take(j));
            lemma_pending_concat(d0, rest.take(j));
        }
        let others = lemma_split_children(rest, (n - 1) as nat);
        let docs = seq![d0] + others;
        assert(docs.skip(1) =~= others);
        assert forall|i: int| 0 <= i < docs.len() implies is_document(#[trigger] docs[i]) by {
            if i > 0 {
                assert(docs[i] == others[i - 1]);
            }
        }
        docs
    }
}

/// The events that a complete document is written as are themselves
/// complete documents: the elements of a top-level array, or the document.
pub proof fn lemma_frame_documents(d: Seq<EventView>) -> (docs: Seq<Seq<EventView>>)
    requires
        is_document(d),
    ensures
        all_documents(docs),
        flatten(docs) == frame_events(d),
{
    if d[0] is ArrayStart {
        let n = d[0]->ArrayStart_0;
        let head = seq![d[0]];
        let s = d.skip(1);
        assert(d =~= head + s);
        assert(head.drop_last() =~= Seq::<EventView>::empty());
        assert(pending(Seq::<EventView>::empty()) == 1);
        assert(head.last() == d[0]);
        assert(pending(head) == n);
        lemma_pending_concat(head, s);
        assert forall|j: int| 0 <= j < s.len() implies pending(#[trigger] s.take(j)) > 1 - n by {
            assert(d.take(j + 1) =~= head + s.take(j));
            lemma_pending_concat(head, s.take(j));
        }
        lemma_split_children(s, n)
    } else {
        let docs = seq![d];
        assert(docs.skip(1) =~= Seq::<Seq<EventView>>::empty());
        assert(flatten(Seq::<Seq<EventView>>::empty()) == Seq::<EventView>::empty());
        assert(flatten(docs) =~= d);
        docs
    }
}

} // verus!
