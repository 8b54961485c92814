//! Value events and the shape of a document.
use vstd::prelude::*;

verus! {

/// One structural step of a document. Arrays and maps carry their element
/// count; their elements follow as the next events.
#[derive(Debug, Clone, PartialEq, Eq)]
pub enum Event {
    Nil,
    Bool(bool),
    /// An integer; the wire holds those from `i64::MIN` to `u64::MAX`.
    Int(i128),
    /// A single-precision float, by its bit pattern.
    F32(u32),
    /// A double-precision float, by its bit pattern.
    F64(u64),
    /// A string, by its UTF-8 bytes.
    Str(Vec<u8>),
    Bin(Vec<u8>),
    /// The start of an array of this many elements.
    ArrayStart(u32),
    /// The start of a map of this many key-value pairs.
    MapStart(u32),
    /// An extension value: its type tag and its data.
    Ext(i8, Vec<u8>),
}

/// The mathematical value of an event.
pub enum EventView {
    Nil,
    Bool(bool),
    Int(int),
    F32(u32),
    F64(u64),
    Str(Seq<u8>),
    Bin(Seq<u8>),
    ArrayStart(nat),
    MapStart(nat),
    Ext(int, Seq<u8>),
}

impl View for Event {
    type V = EventView;

    open spec fn view(&self) -> EventView {
        match self {
            Event::Nil => EventView::Nil,
            Event::Bool(b) => EventView::Bool(*b),
            Event::Int(i) => EventView::Int(*i as int),
            Event::F32(x) => EventView::F32(*x),
            Event::F64(x) => EventView::F64(*x),
            Event::Str(s) => EventView::Str(s@),
            Event::Bin(b) => EventView::Bin(b@),
            Event::ArrayStart(n) => EventView::ArrayStart(*n as nat),
            Event::MapStart(n) => EventView::MapStart(*n as nat),
            Event::Ext(t, d) => EventView::Ext(*t as int, d@),
        }
    }
}

/// The views of a sequence of events.
pub open spec fn views(s: Seq<Event>) -> Seq<EventView> {
    s.map_values(|e: Event| e@)
}

/// How many events an event's own children take directly.
pub open spec fn arity(e: EventView) -> int {
    match e {
        EventView::ArrayStart(n) => n as int,
        EventView::MapStart(n) => 2 * (n as int),
        _ => 0,
    }
}

/// How many values are still owed after reading `s` as the start of one
/// document: one at first, then each event pays one and owes its children.
pub open spec fn pending(s: Seq<EventView>) -> int
    decreases s.len(),
{
    if s.len() == 0 {
        1
    } else {
        pending(s.drop_last()) - 1 + arity(s.last())
    }
}

/// `s` is exactly one complete, well-nested document.
pub open spec fn is_document(s: Seq<EventView>) -> bool {
    &&& s.len() > 0
    &&& pending(s) == 0
    &&& forall|i: int| 0 <= i < s.len() ==> pending(#[trigger] s.take(i)) > 0
}

/// The events of a sequence of documents, one after the other.
pub open spec fn flatten(docs: Seq<Seq<EventView>>) -> Seq<EventView>
    decreases docs.len(),
{
    if docs.len() == 0 {
        Seq::empty()
    } else {
        docs[0] + flatten(docs.skip(1))
    }
}

/// Every element of `docs` is a complete document.
pub open spec fn all_documents(docs: Seq<Seq<EventView>>) -> bool {
    forall|i: int| 0 <= i < docs.len() ==> is_document(#[trigger] docs[i])
}

/// The number of values an event owes, as a machine integer.
pub fn arity_of(e: &Event) -> (r: u64)
    ensures
        r as int == arity(e@),
{
    match e {
        Event::ArrayStart(n) => *n as u64,
        Event::MapStart(n) => 2 * (*n as u64),
        _ => 0,
    }
}

/// Where the document that starts at `start` ends, if it ends within `s`.
pub fn document_end(s: &Vec<Event>, start: usize) -> (r: Option<usize>)
    requires
        start <= s.len(),
    ensures
        match r {
            Some(j) => start < j <= s.len() && is_document(views(s@).subrange(start as int, j as int)),
            None => forall|j: int|
                start <= j <= s.len() ==> pending(#[trigger] views(s@).subrange(start as int, j)) > 0,
        },
{
    let ghost v = views(s@);
    let mut need: u128 = 1;
    let mut i: usize = start;
    assert(v.subrange(start as int, start as int).len() == 0);
    while i < s.len()
        invariant
            start <= i <= s.len(),
            v == views(s@),
            need as int == pending(v.subrange(start as int, i as int)),
            need > 0,
            need <= 1 + (i - start) * 0x2_0000_0000,
            forall|j: int| start <= j <= i ==> pending(#[trigger] v.subrange(start as int, j)) > 0,
        decreases s.len() - i,
    {
        let a = arity_of(&s[i]);
        proof {
            let t = v.subrange(start as int, i as int + 1);
            assert(t.drop_last() =~= v.subrange(start as int, i as int));
            assert(t.last() == s@[i as int]@);
            assert(a <= 0x2_0000_0000) by {
                match s@[i as int] {
                    Event::MapStart(n) => {},
                    _ => {},
                }
            }
        }
        assert((1 + (i - start) * 0x2_0000_0000) + 0x2_0000_0000 == 1 + (i + 1 - start) * 0x2_0000_0000) by (nonlinear_arith);
        need = need - 1 + a as u128;
        i = i + 1;
        if need == 0 {
            proof {
                let d = v.subrange(start as int, i as int);
                assert forall|k: int| 0 <= k < d.len() implies pending(#[trigger] d.take(k)) > 0 by {
                    assert(d.take(k) =~= v.subrange(start as int, start + k));
                }
            }
            return Some(i);
        }
    }
    None
}

} // verus!
