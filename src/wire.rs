//! One event to and from MessagePack bytes, through the `rmp` codec.
use vstd::prelude::*;
use vstd::slice::slice_subrange;
use crate::event::{Event, EventView};

verus! {

/// The bytes that `rmp` writes for a non-negative integer.
pub uninterp spec fn uint_wire(u: int) -> Seq<u8>;

/// The bytes that `rmp` writes for a signed integer.
pub uninterp spec fn sint_wire(i: int) -> Seq<u8>;

/// The header that `rmp` writes before `n` bytes of string data.
pub uninterp spec fn str_head(n: nat) -> Seq<u8>;

/// The header that `rmp` writes before `n` bytes of binary data.
pub uninterp spec fn bin_head(n: nat) -> Seq<u8>;

/// The header that `rmp` writes for an array of `n` elements.
pub uninterp spec fn array_head(n: nat) -> Seq<u8>;

/// The header that `rmp` writes for a map of `n` entries.
pub uninterp spec fn map_head(n: nat) -> Seq<u8>;

/// The header that `rmp` writes before `n` bytes of extension data of type `tag`.
pub uninterp spec fn ext_head(n: nat, tag: int) -> Seq<u8>;

/// The integer that `rmp` reads at the start of `b`, and how many bytes it took.
pub uninterp spec fn int_read(b: Seq<u8>) -> Option<(int, nat)>;

/// The string length that `rmp` reads at the start of `b`, and the header's size.
pub uninterp spec fn str_head_read(b: Seq<u8>) -> Option<(nat, nat)>;

/// The binary length that `rmp` reads at the start of `b`, and the header's size.
pub uninterp spec fn bin_head_read(b: Seq<u8>) -> Option<(nat, nat)>;

/// The array length that `rmp` reads at the start of `b`, and the header's size.
pub uninterp spec fn array_head_read(b: Seq<u8>) -> Option<(nat, nat)>;

/// The map length that `rmp` reads at the start of `b`, and the header's size.
pub uninterp spec fn map_head_read(b: Seq<u8>) -> Option<(nat, nat)>;

/// The extension length and type that `rmp` reads at the start of `b`, and the header's size.
pub uninterp spec fn ext_head_read(b: Seq<u8>) -> Option<(nat, int, nat)>;

/// The bytes appended to `before` to give `after`.
pub open spec fn written(before: Seq<u8>, after: Seq<u8>) -> Seq<u8> {
    after.skip(before.len() as int)
}

/// Reading `w`, whatever follows it, gives the event `e` and stops after `w`.
pub open spec fn reads_back(w: Seq<u8>, e: EventView) -> bool {
    &&& w.len() > 0
    &&& forall|rest: Seq<u8>| #[trigger] event_at(w + rest) == Some((e, w.len()))
}

/// Relies on rmp::encode::write_nil: the single byte 0xc0.
#[verifier::external_body]
fn put_nil(out: &mut Vec<u8>)
    ensures
        final(out)@ == old(out)@ + seq![0xc0u8],
{
    let _ = rmp::encode::write_nil(out);
}

/// Relies on rmp::encode::write_bool: 0xc3 for true, 0xc2 for false.
#[verifier::external_body]
fn put_bool(out: &mut Vec<u8>, b: bool)
    ensures
        final(out)@ == old(out)@ + seq![if b { 0xc3u8 } else { 0xc2u8 }],
{
    let _ = rmp::encode::write_bool(out, b);
}

/// Relies on rmp::encode::write_uint, which never fails on a vector, and on
/// rmp::decode::read_int reading its output back; its markers (0x00..=0x7f,
/// 0xcc..=0xcf) are none of nil, bool or float.
#[verifier::external_body]
fn put_uint(out: &mut Vec<u8>, u: u64)
    ensures
        final(out)@ == old(out)@ + uint_wire(u as int),
        final(out)@.len() > old(out)@.len(),
        forall|rest: Seq<u8>| #[trigger] event_at(written(old(out)@, final(out)@) + rest)
            == Some((EventView::Int(u as int), uint_wire(u as int).len())),
{
    let _ = rmp::encode::write_uint(out, u);
}

/// Relies on rmp::encode::write_sint, which never fails on a vector, and on
/// rmp::decode::read_int reading a negative value back; its markers for one
/// (0xe0..=0xff, 0xd0..=0xd3) are none of nil, bool or float.
#[verifier::external_body]
fn put_sint(out: &mut Vec<u8>, i: i64)
    ensures
        final(out)@ == old(out)@ + sint_wire(i as int),
        final(out)@.len() > old(out)@.len(),
        i < 0 ==> forall|rest: Seq<u8>| #[trigger] event_at(written(old(out)@, final(out)@) + rest)
            == Some((EventView::Int(i as int), sint_wire(i as int).len())),
{
    let _ = rmp::encode::write_sint(out, i);
}

/// Relies on rmp::encode::write_str_len, which never fails on a vector, and on
/// rmp::decode::read_str_len reading its header back; its markers (0xa0..=0xbf,
/// 0xd9..=0xdb) are refused by read_int and are none of nil, bool or float.
#[verifier::external_body]
fn put_str_head(out: &mut Vec<u8>, n: u32)
    ensures
        final(out)@ == old(out)@ + str_head(n as nat),
        final(out)@.len() > old(out)@.len(),
        forall|data: Seq<u8>, rest: Seq<u8>| data.len() == n ==>
            #[trigger] event_at(written(old(out)@, final(out)@) + data + rest)
                == Some((EventView::Str(data), (str_head(n as nat).len() + n) as nat)),
{
    let _ = rmp::encode::write_str_len(out, n);
}

/// Relies on rmp::encode::write_bin_len, which never fails on a vector, and on
/// rmp::decode::read_bin_len reading its header back; its markers (0xc4..=0xc6)
/// are refused by read_int and read_str_len and are none of nil, bool or float.
#[verifier::external_body]
fn put_bin_head(out: &mut Vec<u8>, n: u32)
    ensures
        final(out)@ == old(out)@ + bin_head(n as nat),
        final(out)@.len() > old(out)@.len(),
        forall|data: Seq<u8>, rest: Seq<u8>| data.len() == n ==>
            #[trigger] event_at(written(old(out)@, final(out)@) + data + rest)
                == Some((EventView::Bin(data), (bin_head(n as nat).len() + n) as nat)),
{
    let _ = rmp::encode::write_bin_len(out, n);
}

/// Relies on rmp::encode::write_array_len, which never fails on a vector, and
/// on rmp::decode::read_array_len reading its header back; its markers
/// (0x90..=0x9f, 0xdc, 0xdd) are refused by read_int, read_str_len and
/// read_bin_len and are none of nil, bool or float.
#[verifier::external_body]
fn put_array_head(out: &mut Vec<u8>, n: u32)
    ensures
        final(out)@ == old(out)@ + array_head(n as nat),
        final(out)@.len() > old(out)@.len(),
        forall|rest: Seq<u8>| #[trigger] event_at(written(old(out)@, final(out)@) + rest)
            == Some((EventView::ArrayStart(n as nat), array_head(n as nat).len())),
{
    let _ = rmp::encode::write_array_len(out, n);
}

/// Relies on rmp::encode::write_map_len, which never fails on a vector, and on
/// rmp::decode::read_map_len reading its header back; its markers (0x80..=0x8f,
/// 0xde, 0xdf) are refused by read_int, read_str_len, read_bin_len and
/// read_array_len and are none of nil, bool or float.
#[verifier::external_body]
fn put_map_head(out: &mut Vec<u8>, n: u32)
    ensures
        final(out)@ == old(out)@ + map_head(n as nat),
        final(out)@.len() > old(out)@.len(),
        forall|rest: Seq<u8>| #[trigger] event_at(written(old(out)@, final(out)@) + rest)
            == Some((EventView::MapStart(n as nat), map_head(n as nat).len())),
{
    let _ = rmp::encode::write_map_len(out, n);
}

/// Relies on rmp::encode::write_ext_meta, which never fails on a vector, and
/// on rmp::decode::read_ext_meta reading its header back; its markers
/// (0xd4..=0xd8, 0xc7..=0xc9) are refused by every other reader that
/// `event_at` tries first and are none of nil, bool or float. Any tag is
/// written as it is: the function has no check on a negative tag, whatever
/// its documentation says of one.
#[verifier::external_body]
fn put_ext_head(out: &mut Vec<u8>, n: u32, tag: i8)
    ensures
        final(out)@ == old(out)@ + ext_head(n as nat, tag as int),
        final(out)@.len() > old(out)@.len(),
        forall|data: Seq<u8>, rest: Seq<u8>| data.len() == n ==>
            #[trigger] event_at(written(old(out)@, final(out)@) + data + rest)
                == Some((EventView::Ext(tag as int, data), (ext_head(n as nat, tag as int).len() + n) as nat)),
{
    let _ = rmp::encode::write_ext_meta(out, n, tag);
}

/// Relies on rmp::decode::read_nil: it succeeds exactly on a leading 0xc0.
#[verifier::external_body]
fn get_nil(b: &[u8]) -> (r: bool)
    ensures
        r == (b@.len() > 0 && b@[0] == 0xc0u8),
{
    let mut rd: &[u8] = b;
    rmp::decode::read_nil(&mut rd).is_ok()
}

/// Relies on rmp::decode::read_bool: true on a leading 0xc3, false on 0xc2.
#[verifier::external_body]
fn get_bool(b: &[u8]) -> (r: Option<bool>)
    ensures
        r == (if b@.len() > 0 && b@[0] == 0xc3u8 {
            Some(true)
        } else if b@.len() > 0 && b@[0] == 0xc2u8 {
            Some(false)
        } else {
            None::<bool>
        }),
{
    let mut rd: &[u8] = b;
    rmp::decode::read_bool(&mut rd).ok()
}

/// Relies on rmp::decode::read_int, into a 128-bit integer; the second
/// component is how many bytes of `b` it read.
#[verifier::external_body]
fn get_int(b: &[u8]) -> (r: Option<(i128, usize)>)
    ensures
        match r {
            Some((v, n)) => int_read(b@) == Some((v as int, n as nat)) && 0 < n <= b@.len(),
            None => int_read(b@) is None,
        },
{
    let mut rd: &[u8] = b;
    let v = rmp::decode::read_int::<i128, &[u8]>(&mut rd).ok()?;
    Some((v, b.len() - rd.len()))
}

/// Relies on rmp::decode::read_str_len; the second component is how many
/// bytes of `b` the header took.
#[verifier::external_body]
fn get_str_head(b: &[u8]) -> (r: Option<(u32, usize)>)
    ensures
        match r {
            Some((v, n)) => str_head_read(b@) == Some((v as nat, n as nat)) && 0 < n <= b@.len(),
            None => str_head_read(b@) is None,
        },
{
    let mut rd: &[u8] = b;
    let v = rmp::decode::read_str_len(&mut rd).ok()?;
    Some((v, b.len() - rd.len()))
}

/// Relies on rmp::decode::read_bin_len; the second component is how many
/// bytes of `b` the header took.
#[verifier::external_body]
fn get_bin_head(b: &[u8]) -> (r: Option<(u32, usize)>)
    ensures
        match r {
            Some((v, n)) => bin_head_read(b@) == Some((v as nat, n as nat)) && 0 < n <= b@.len(),
            None => bin_head_read(b@) is None,
        },
{
    let mut rd: &[u8] = b;
    let v = rmp::decode::read_bin_len(&mut rd).ok()?;
    Some((v, b.len() - rd.len()))
}

/// Relies on rmp::decode::read_array_len; the second component is how many
/// bytes of `b` the header took.
#[verifier::external_body]
fn get_array_head(b: &[u8]) -> (r: Option<(u32, usize)>)
    ensures
        match r {
            Some((v, n)) => array_head_read(b@) == Some((v as nat, n as nat)) && 0 < n <= b@.len(),
            None => array_head_read(b@) is None,
        },
{
    let mut rd: &[u8] = b;
    let v = rmp::decode::read_array_len(&mut rd).ok()?;
    Some((v, b.len() - rd.len()))
}

/// Relies on rmp::decode::read_map_len; the second component is how many
/// bytes of `b` the header took.
#[verifier::external_body]
fn get_map_head(b: &[u8]) -> (r: Option<(u32, usize)>)
    ensures
        match r {
            Some((v, n)) => map_head_read(b@) == Some((v as nat, n as nat)) && 0 < n <= b@.len(),
            None => map_head_read(b@) is None,
        },
{
    let mut rd: &[u8] = b;
    let v = rmp::decode::read_map_len(&mut rd).ok()?;
    Some((v, b.len() - rd.len()))
}

/// Relies on rmp::decode::read_ext_meta; the last component is how many
/// bytes of `b` the header took.
#[verifier::external_body]
fn get_ext_head(b: &[u8]) -> (r: Option<(u32, i8, usize)>)
    ensures
        match r {
            Some((v, t, n)) => ext_head_read(b@) == Some((v as nat, t as int, n as nat)) && 0 < n <= b@.len(),
            None => ext_head_read(b@) is None,
        },
{
    let mut rd: &[u8] = b;
    let m = rmp::decode::read_ext_meta(&mut rd).ok()?;
    Some((m.size, m.typeid, b.len() - rd.len()))
}

/// The big-endian number held by `b`.
pub open spec fn be(b: Seq<u8>) -> nat
    decreases b.len(),
{
    if b.len() == 0 {
        0
    } else {
        (be(b.drop_last()) * 256 + b.last()) as nat
    }
}

/// The `k` bytes of `x` in big-endian order.
pub open spec fn be_bytes(x: nat, k: nat) -> Seq<u8>
    decreases k,
{
    if k == 0 {
        Seq::empty()
    } else {
        be_bytes(x / 256, (k - 1) as nat).push((x % 256) as u8)
    }
}

/// The bytes of one event on the wire; `None` where it has no representation
/// (an integer beyond 64 bits, data longer than a 32-bit length).
pub open spec fn event_wire(e: EventView) -> Option<Seq<u8>> {
    match e {
        EventView::Nil => Some(seq![0xc0u8]),
        EventView::Bool(b) => Some(seq![if b { 0xc3u8 } else { 0xc2u8 }]),
        EventView::Int(i) => if 0 <= i <= u64::MAX {
            Some(uint_wire(i))
        } else if i64::MIN <= i < 0 {
            Some(sint_wire(i))
        } else {
            None
        },
        EventView::F32(x) => Some(seq![0xcau8] + be_bytes(x as nat, 4)),
        EventView::F64(x) => Some(seq![0xcbu8] + be_bytes(x as nat, 8)),
        EventView::Str(s) => if s.len() <= u32::MAX { Some(str_head(s.len()) + s) } else { None },
        EventView::Bin(s) => if s.len() <= u32::MAX { Some(bin_head(s.len()) + s) } else { None },
        EventView::ArrayStart(n) => Some(array_head(n)),
        EventView::MapStart(n) => Some(map_head(n)),
        EventView::Ext(t, s) => if s.len() <= u32::MAX { Some(ext_head(s.len(), t) + s) } else { None },
    }
}

/// Data of length `len` after a header of `h` bytes at the start of `b`, with
/// the total taken.
pub open spec fn data_after(b: Seq<u8>, h: nat, len: nat) -> Option<(Seq<u8>, nat)> {
    if h + len <= b.len() {
        Some((b.subrange(h as int, (h + len) as int), h + len))
    } else {
        None
    }
}

/// The event at the start of `b` and how many bytes it takes, or `None`
/// where the bytes are malformed or cut short.
pub open spec fn event_at(b: Seq<u8>) -> Option<(EventView, nat)> {
    if b.len() == 0 {
        None
    } else if b[0] == 0xc0u8 {
        Some((EventView::Nil, 1))
    } else if b[0] == 0xc3u8 {
        Some((EventView::Bool(true), 1))
    } else if b[0] == 0xc2u8 {
        Some((EventView::Bool(false), 1))
    } else if b[0] == 0xcau8 {
        if b.len() >= 5 { Some((EventView::F32(be(b.subrange(1, 5)) as u32), 5)) } else { None }
    } else if b[0] == 0xcbu8 {
        if b.len() >= 9 { Some((EventView::F64(be(b.subrange(1, 9)) as u64), 9)) } else { None }
    } else if int_read(b) is Some {
        let (v, n) = int_read(b)->0;
        Some((EventView::Int(v), n))
    } else if str_head_read(b) is Some {
        let (len, h) = str_head_read(b)->0;
        match data_after(b, h, len) {
            Some((d, n)) => Some((EventView::Str(d), n)),
            None => None,
        }
    } else if bin_head_read(b) is Some {
        let (len, h) = bin_head_read(b)->0;
        match data_after(b, h, len) {
            Some((d, n)) => Some((EventView::Bin(d), n)),
            None => None,
        }
    } else if array_head_read(b) is Some {
        let (len, h) = array_head_read(b)->0;
        Some((EventView::ArrayStart(len), h))
    } else if map_head_read(b) is Some {
        let (len, h) = map_head_read(b)->0;
        Some((EventView::MapStart(len), h))
    } else if ext_head_read(b) is Some {
        let (len, t, h) = ext_head_read(b)->0;
        match data_after(b, h, len) {
            Some((d, n)) => Some((EventView::Ext(t, d), n)),
            None => None,
        }
    } else {
        None
    }
}

/// Appends `b[from..to]` to `out`.
fn push_range(out: &mut Vec<u8>, b: &[u8], from: usize, to: usize)
    requires
        from <= to <= b@.len(),
    ensures
        final(out)@ == old(out)@ + b@.subrange(from as int, to as int),
{
    let mut i: usize = from;
    while i < to
        invariant
            from <= i <= to <= b@.len(),
            out@ == old(out)@ + b@.subrange(from as int, i as int),
        decreases to - i,
    {
        out.push(b[i]);
        i = i + 1;
        assert(out@ =~= old(out)@ + b@.subrange(from as int, i as int));
    }
}

/// Appends the `k` big-endian bytes of `x`.
fn push_be(out: &mut Vec<u8>, x: u64, k: usize)
    requires
        k <= 8,
    ensures
        final(out)@ == old(out)@ + be_bytes(x as nat, k as nat),
    decreases k,
{
    if k > 0 {
        push_be(out, x / 256, k - 1);
        out.push((x % 256) as u8);
        assert(final(out)@ =~= old(out)@ + be_bytes(x as nat, k as nat)) by {
            assert((x / 256) as nat == (x as nat) / 256);
        }
    }
}

proof fn lemma_be_round_trip(x: nat, k: nat)
    requires
        x < p256(k),
    ensures
        be(be_bytes(x, k)) == x,
        be_bytes(x, k).len() == k,
    decreases k,
{
    if k == 0 {
        assert(p256(0) == 1);
    } else {
        let q = x / 256;
        assert(x == q * 256 + x % 256);
        assert(q < p256((k - 1) as nat)) by (nonlinear_arith)
            requires x == q * 256 + x % 256, x < 256 * p256((k - 1) as nat), 0 <= x % 256 < 256;
        lemma_be_round_trip(q, (k - 1) as nat);
        let t = be_bytes(x, k);
        assert(t.drop_last() =~= be_bytes(q, (k - 1) as nat));
    }
}

proof fn lemma_float_reads_back(m: u8, x: nat, k: nat)
    requires
        (m == 0xcau8 && k == 4 && x <= u32::MAX) || (m == 0xcbu8 && k == 8 && x <= u64::MAX),
    ensures
        reads_back(seq![m] + be_bytes(x, k),
            if m == 0xcau8 { EventView::F32(x as u32) } else { EventView::F64(x as u64) }),
{
    lemma_p256_values();
    lemma_be_round_trip(x, k);
    let w = seq![m] + be_bytes(x, k);
    assert forall|rest: Seq<u8>| #[trigger] event_at(w + rest)
        == Some((if m == 0xcau8 { EventView::F32(x as u32) } else { EventView::F64(x as u64) }, w.len())) by {
        let b = w + rest;
        assert(b.subrange(1, (k + 1) as int) =~= be_bytes(x, k));
        assert(b[0] == m);
    }
}

/// Writes one event to `out`; fails, writing nothing, where the event has no
/// representation on the wire. What it writes reads back as the event.
pub fn encode_event(out: &mut Vec<u8>, e: &Event) -> (r: bool)
    ensures
        r == (event_wire(e@) is Some),
        r ==> final(out)@ == old(out)@ + event_wire(e@)->0,
        r ==> reads_back(event_wire(e@)->0, e@),
        !r ==> final(out)@ == old(out)@,
{
    let ghost o = out@;
    match e {
        Event::Nil => {
            put_nil(out);
            assert forall|rest: Seq<u8>| #[trigger] event_at(seq![0xc0u8] + rest) == Some((e@, 1nat)) by {
                assert((seq![0xc0u8] + rest)[0] == 0xc0u8);
            }
        },
        Event::Bool(b) => {
            put_bool(out, *b);
            let ghost w = seq![if *b { 0xc3u8 } else { 0xc2u8 }];
            assert forall|rest: Seq<u8>| #[trigger] event_at(w + rest) == Some((e@, 1nat)) by {
                assert((w + rest)[0] == w[0]);
            }
        },
        Event::Int(i) => {
            if 0 <= *i && *i <= u64::MAX as i128 {
                put_uint(out, *i as u64);
            } else if i64::MIN as i128 <= *i && *i < 0 {
                put_sint(out, *i as i64);
            } else {
                return false;
            }
            assert(written(o, out@) =~= event_wire(e@)->0);
        },
        Event::F32(x) => {
            out.push(0xcau8);
            push_be(out, *x as u64, 4);
            assert(final(out)@ =~= old(out)@ + event_wire(e@)->0);
            proof { lemma_float_reads_back(0xcau8, *x as nat, 4); }
        },
        Event::F64(x) => {
            out.push(0xcbu8);
            push_be(out, *x, 8);
            assert(final(out)@ =~= old(out)@ + event_wire(e@)->0);
            proof { lemma_float_reads_back(0xcbu8, *x as nat, 8); }
        },
        Event::Str(s) => {
            if s.len() > u32::MAX as usize {
                return false;
            }
            put_str_head(out, s.len() as u32);
            let ghost h = written(o, out@);
            assert(h =~= str_head(s@.len()));
            push_range(out, s.as_slice(), 0, s.len());
            assert(s@.subrange(0, s@.len() as int) =~= s@);
            assert(final(out)@ =~= old(out)@ + event_wire(e@)->0);
            assert forall|rest: Seq<u8>| #[trigger] event_at(event_wire(e@)->0 + rest)
                == Some((e@, (event_wire(e@)->0).len())) by {
                assert(event_wire(e@)->0 + rest =~= h + s@ + rest);
            }
        },
        Event::Bin(s) => {
            if s.len() > u32::MAX as usize {
                return false;
            }
            put_bin_head(out, s.len() as u32);
            let ghost h = written(o, out@);
            assert(h =~= bin_head(s@.len()));
            push_range(out, s.as_slice(), 0, s.len());
            assert(s@.subrange(0, s@.len() as int) =~= s@);
            assert(final(out)@ =~= old(out)@ + event_wire(e@)->0);
            assert forall|rest: Seq<u8>| #[trigger] event_at(event_wire(e@)->0 + rest)
                == Some((e@, (event_wire(e@)->0).len())) by {
                assert(event_wire(e@)->0 + rest =~= h + s@ + rest);
            }
        },
        Event::ArrayStart(n) => {
            put_array_head(out, *n);
            assert(written(o, out@) =~= event_wire(e@)->0);
        },
        Event::MapStart(n) => {
            put_map_head(out, *n);
            assert(written(o, out@) =~= event_wire(e@)->0);
        },
        Event::Ext(t, s) => {
            if s.len() > u32::MAX as usize {
                return false;
            }
            put_ext_head(out, s.len() as u32, *t);
            let ghost h = written(o, out@);
            assert(h =~= ext_head(s@.len(), *t as int));
            push_range(out, s.as_slice(), 0, s.len());
            assert(s@.subrange(0, s@.len() as int) =~= s@);
            assert(final(out)@ =~= old(out)@ + event_wire(e@)->0);
            assert forall|rest: Seq<u8>| #[trigger] event_at(event_wire(e@)->0 + rest)
                == Some((e@, (event_wire(e@)->0).len())) by {
                assert(event_wire(e@)->0 + rest =~= h + s@ + rest);
            }
        },
    }
    true
}

/// 256 to the power `k`.
pub open spec fn p256(k: nat) -> nat
    decreases k,
{
    if k == 0 {
        1
    } else {
        256 * p256((k - 1) as nat)
    }
}

/// The big-endian number held by `b[from..from + k]`.
fn read_be(b: &[u8], from: usize, k: usize) -> (r: u64)
    requires
        k <= 8,
        from + k <= b@.len(),
    ensures
        r as nat == be(b@.subrange(from as int, from + k)),
        r < p256(k as nat),
{
    proof {
        lemma_p256_values();
    }
    let blen = b.len();
    let mut acc: u64 = 0;
    let mut i: usize = 0;
    assert(b@.subrange(from as int, from as int).len() == 0);
    while i < k
        invariant
            i <= k <= 8,
            from + k <= b@.len(),
            blen == b@.len(),
            acc as nat == be(b@.subrange(from as int, from + i)),
            acc < p256(i as nat),
            p256(8) == 0x1_0000_0000_0000_0000,
        decreases k - i,
    {
        let ghost s = b@.subrange(from as int, from + i + 1);
        assert(s.drop_last() =~= b@.subrange(from as int, from + i));
        let byte = b[from + i];
        let ghost p = p256(i as nat);
        assert(p256((i + 1) as nat) == 256 * p);
        assert(p256((i + 1) as nat) <= p256(8)) by {
            lemma_p256_mono((i + 1) as nat, 8);
        }
        assert(acc * 256 + byte < 256 * p) by (nonlinear_arith)
            requires acc < p, byte < 256;
        acc = acc * 256 + byte as u64;
        i = i + 1;
    }
    acc
}

proof fn lemma_p256_values()
    ensures
        p256(0) == 1,
        p256(4) == 0x1_0000_0000,
        p256(8) == 0x1_0000_0000_0000_0000,
{
    assert(p256(0) == 1);
    assert(p256(1) == 256);
    assert(p256(2) == 0x1_0000);
    assert(p256(3) == 0x100_0000);
    assert(p256(4) == 0x1_0000_0000);
    assert(p256(5) == 0x100_0000_0000);
    assert(p256(6) == 0x1_0000_0000_0000);
    assert(p256(7) == 0x100_0000_0000_0000);
    assert(p256(8) == 0x1_0000_0000_0000_0000);
}

proof fn lemma_p256_mono(a: nat, b: nat)
    requires
        a <= b,
    ensures
        p256(a) <= p256(b),
    decreases b,
{
    if a < b {
        lemma_p256_mono(a, (b - 1) as nat);
    }
}

/// A copy of `b[from..to]`.
fn copy_range(b: &[u8], from: usize, to: usize) -> (r: Vec<u8>)
    requires
        from <= to <= b@.len(),
    ensures
        r@ == b@.subrange(from as int, to as int),
{
    let mut r: Vec<u8> = Vec::new();
    push_range(&mut r, b, from, to);
    assert(r@ =~= b@.subrange(from as int, to as int));
    r
}

/// Reads the event that starts at `pos`; `Some((e, end))` gives the event and
/// where it ends. `None` where the bytes there are malformed or cut short.
pub fn decode_event(b: &[u8], pos: usize) -> (r: Option<(Event, usize)>)
    requires
        pos <= b@.len(),
    ensures
        match r {
            Some((e, n)) => pos < n <= b@.len()
                && event_at(b@.subrange(pos as int, b@.len() as int)) == Some((e@, (n - pos) as nat)),
            None => event_at(b@.subrange(pos as int, b@.len() as int)) is None,
        },
{
    let t = slice_subrange(b, pos, b.len());
    let tl = t.len();
    if tl == 0 {
        return None;
    }
    if get_nil(t) {
        return Some((Event::Nil, pos + 1));
    }
    if let Some(v) = get_bool(t) {
        return Some((Event::Bool(v), pos + 1));
    }
    if t[0] == 0xcau8 {
        if tl >= 5 {
            let x = read_be(t, 1, 4);
            return Some((Event::F32(x as u32), pos + 5));
        }
        return None;
    }
    if t[0] == 0xcbu8 {
        if tl >= 9 {
            let x = read_be(t, 1, 8);
            return Some((Event::F64(x), pos + 9));
        }
        return None;
    }
    if let Some((v, n)) = get_int(t) {
        return Some((Event::Int(v), pos + n));
    }
    if let Some((len, h)) = get_str_head(t) {
        if len as usize <= tl - h {
            let d = copy_range(t, h, h + len as usize);
            return Some((Event::Str(d), pos + h + len as usize));
        }
        return None;
    }
    if let Some((len, h)) = get_bin_head(t) {
        if len as usize <= tl - h {
            let d = copy_range(t, h, h + len as usize);
            return Some((Event::Bin(d), pos + h + len as usize));
        }
        return None;
    }
    if let Some((len, h)) = get_array_head(t) {
        return Some((Event::ArrayStart(len), pos + h));
    }
    if let Some((len, h)) = get_map_head(t) {
        return Some((Event::MapStart(len), pos + h));
    }
    if let Some((len, tag, h)) = get_ext_head(t) {
        if len as usize <= tl - h {
            let d = copy_range(t, h, h + len as usize);
            return Some((Event::Ext(tag, d), pos + h + len as usize));
        }
        return None;
    }
    None
}

} // verus!
