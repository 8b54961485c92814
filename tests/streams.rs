use mpkz::event::Event;
use mpkz::reader::Reader;
use mpkz::stream::{
    decode_all, decode_payload, encode_all, encode_document, encode_payload, Decoded,
    TranscodeError,
};
use mpkz::writer::Writer;

fn s(x: &str) -> Event {
    Event::Str(x.as_bytes().to_vec())
}

fn nested() -> Vec<Event> {
    vec![
        Event::MapStart(3),
        s("name"),
        s("caf\u{e9}"),
        s("items"),
        Event::ArrayStart(6),
        Event::Nil,
        Event::Bool(true),
        Event::Int(-3),
        Event::Int(u64::MAX as i128),
        Event::F64(1.5f64.to_bits()),
        Event::F32(0.25f32.to_bits()),
        s("raw"),
        Event::Bin(vec![0, 255, 7]),
    ]
}

#[test]
fn scalar_round_trip() {
    let doc = vec![Event::Int(5)];
    let bytes = encode_all(&doc, 8).unwrap();
    assert_eq!(decode_all(&bytes), Ok(Decoded::Single(doc)));
}

#[test]
fn nested_round_trip() {
    let doc = nested();
    let bytes = encode_all(&doc, 8).unwrap();
    assert_eq!(decode_all(&bytes), Ok(Decoded::Single(doc)));
}

#[test]
fn extension_and_extreme_integers_round_trip() {
    let doc = vec![
        Event::ArrayStart(4),
        Event::Int(i64::MIN as i128),
        Event::Int(0),
        Event::Int(-1),
        Event::Ext(5, vec![1, 2, 3, 4]),
    ];
    let bytes = encode_all(&doc, 3).unwrap();
    assert_eq!(decode_all(&bytes), Ok(Decoded::Sequence(vec![
        vec![Event::Int(i64::MIN as i128)],
        vec![Event::Int(0)],
        vec![Event::Int(-1)],
        vec![Event::Ext(5, vec![1, 2, 3, 4])],
    ])));
}

#[test]
fn top_level_array_becomes_documents() {
    let doc = vec![Event::ArrayStart(3), Event::Int(1), s("x"), Event::ArrayStart(1), Event::Nil];
    let payload = encode_payload(&doc).unwrap();
    assert_eq!(payload, vec![0x01, 0xa1, b'x', 0x91, 0xc0]);
    let bytes = encode_all(&doc, 8).unwrap();
    let d = decode_all(&bytes).unwrap();
    assert_eq!(d, Decoded::Sequence(vec![
        vec![Event::Int(1)],
        vec![s("x")],
        vec![Event::ArrayStart(1), Event::Nil],
    ]));
}

#[test]
fn empty_array_reads_back_as_empty_sequence() {
    let bytes = encode_all(&vec![Event::ArrayStart(0)], 8).unwrap();
    assert_eq!(decode_all(&bytes), Ok(Decoded::Sequence(vec![])));
}

#[test]
fn one_element_array_reads_back_unwrapped() {
    let bytes = encode_all(&vec![Event::ArrayStart(1), Event::Bool(false)], 8).unwrap();
    assert_eq!(decode_all(&bytes), Ok(Decoded::Single(vec![Event::Bool(false)])));
}

#[test]
fn exact_wire_bytes() {
    assert_eq!(encode_document(&vec![Event::Nil]).unwrap(), vec![0xc0]);
    assert_eq!(encode_document(&vec![Event::Bool(true)]).unwrap(), vec![0xc3]);
    assert_eq!(encode_document(&vec![Event::Int(300)]).unwrap(), vec![0xcd, 0x01, 0x2c]);
    assert_eq!(encode_document(&vec![Event::Int(-1)]).unwrap(), vec![0xff]);
    assert_eq!(
        encode_document(&vec![Event::F64(1.0f64.to_bits())]).unwrap(),
        vec![0xcb, 0x3f, 0xf0, 0, 0, 0, 0, 0, 0]
    );
    assert_eq!(
        encode_document(&vec![Event::F32(1.0f32.to_bits())]).unwrap(),
        vec![0xca, 0x3f, 0x80, 0, 0]
    );
    assert_eq!(encode_document(&vec![Event::Bin(vec![9])]).unwrap(), vec![0xc4, 0x01, 0x09]);
    assert_eq!(
        encode_document(&vec![Event::MapStart(1), s("a"), Event::Nil]).unwrap(),
        vec![0x81, 0xa1, b'a', 0xc0]
    );
    assert_eq!(encode_document(&vec![Event::Ext(1, vec![7])]).unwrap(), vec![0xd4, 0x01, 0x07]);
}

#[test]
fn non_canonical_bytes_decode() {
    assert_eq!(
        decode_payload(&[0xcd, 0x00, 0x01, 0xd9, 0x01, b'z']),
        Ok(Decoded::Sequence(vec![vec![Event::Int(1)], vec![s("z")]]))
    );
}

#[test]
fn model_errors() {
    assert_eq!(encode_all(&vec![Event::Int(u64::MAX as i128 + 1)], 8), Err(TranscodeError::ModelError));
    assert_eq!(encode_all(&vec![Event::Int(i64::MIN as i128 - 1)], 8), Err(TranscodeError::ModelError));
    assert_eq!(encode_all(&vec![Event::ArrayStart(2), Event::Nil], 8), Err(TranscodeError::ModelError));
    assert_eq!(encode_all(&vec![Event::Nil, Event::Nil], 8), Err(TranscodeError::ModelError));
    assert_eq!(encode_all(&vec![], 8), Err(TranscodeError::ModelError));
}

#[test]
fn truncated_payload_is_wire_error() {
    let payload = encode_document(&vec![Event::ArrayStart(2), Event::Int(1), s("ab")]).unwrap();
    assert_eq!(decode_payload(&payload), Ok(Decoded::Single(vec![Event::ArrayStart(2), Event::Int(1), s("ab")])));
    let cut = &payload[..payload.len() - 1];
    assert_eq!(decode_payload(cut), Err(TranscodeError::WireError));
    assert_eq!(decode_payload(&[0xc1]), Err(TranscodeError::WireError));
    assert_eq!(decode_payload(&[0xcb, 0x00]), Err(TranscodeError::WireError));
}

#[test]
fn truncated_stream_fails() {
    let bytes = encode_all(&nested(), 8).unwrap();
    let cut = &bytes[..bytes.len() - 1];
    assert!(decode_all(cut).is_err());
    assert!(Reader::open(cut).is_err());
    assert_eq!(decode_all(&[1, 2, 3]), Err(TranscodeError::IoError));
}

#[test]
fn writer_then_reader_in_order() {
    let docs = vec![vec![Event::Int(1)], nested(), vec![s("last")]];
    let mut w = Writer::new(8);
    for d in &docs {
        w.append(d).unwrap();
    }
    w.finish();
    let bytes = w.bytes().clone();
    let mut r = Reader::open(&bytes).unwrap();
    for d in &docs {
        assert_eq!(r.next(), Ok(Some(d.clone())));
    }
    assert_eq!(r.next(), Ok(None));
    assert!(r.is_exhausted());
    assert_eq!(r.next(), Ok(None));
    assert_eq!(decode_all(&bytes), Ok(Decoded::Sequence(docs)));
}

#[test]
fn writer_single_and_empty() {
    let mut w = Writer::new(8);
    w.append(&vec![Event::Bool(true)]).unwrap();
    w.finish();
    assert_eq!(decode_all(w.bytes()), Ok(Decoded::Single(vec![Event::Bool(true)])));

    let mut e = Writer::new(8);
    e.finish();
    assert_eq!(decode_all(e.bytes()), Ok(Decoded::Sequence(vec![])));
}

#[test]
fn finish_twice_and_append_after() {
    let mut w = Writer::new(5);
    w.append(&nested()).unwrap();
    assert!(w.bytes().is_empty());
    w.finish();
    let once = w.bytes().clone();
    assert!(!once.is_empty());
    w.finish();
    assert_eq!(w.bytes(), &once);
    assert_eq!(w.append(&vec![Event::Nil]), Err(TranscodeError::LifecycleError));
    assert_eq!(w.bytes(), &once);
    assert!(w.is_finished());
}

#[test]
fn abandoned_writer_matches_finish() {
    let mut a = Writer::new(8);
    let mut b = Writer::new(8);
    for d in [vec![Event::Int(7)], nested()] {
        a.append(&d).unwrap();
        b.append(&d).unwrap();
    }
    b.finish();
    let left = a.abandon();
    assert_eq!(&left, b.bytes());
    assert_eq!(decode_all(&left), Ok(Decoded::Sequence(vec![vec![Event::Int(7)], nested()])));
}

#[test]
fn finish_after_failed_append() {
    let mut w = Writer::new(8);
    w.append(&vec![s("kept")]).unwrap();
    let body = w.append(&vec![Event::Int(1i128 << 100)]);
    assert_eq!(body, Err(TranscodeError::ModelError));
    assert!(!w.is_finished());
    w.finish();
    assert!(w.is_finished());
    assert_eq!(decode_all(w.bytes()), Ok(Decoded::Single(vec![s("kept")])));
}

#[test]
fn encode_all_matches_writer_output() {
    let doc = vec![Event::ArrayStart(2), Event::Int(4), s("y")];
    let mut w = Writer::new(8);
    w.append(&vec![Event::Int(4)]).unwrap();
    w.append(&vec![s("y")]).unwrap();
    w.finish();
    assert_eq!(&encode_all(&doc, 8).unwrap(), w.bytes());
}

#[test]
fn extend_stops_at_first_failure() {
    let mut w = Writer::new(8);
    let docs = vec![vec![Event::Int(1)], vec![Event::ArrayStart(2)], vec![Event::Int(3)]];
    assert_eq!(w.extend(&docs), Err(TranscodeError::ModelError));
    w.finish();
    assert_eq!(decode_all(w.bytes()), Ok(Decoded::Single(vec![Event::Int(1)])));
}

#[test]
fn reader_error_mid_document() {
    let mut r = Reader::from_payload(vec![0x01, 0x92, 0x01]);
    assert_eq!(r.next(), Ok(Some(vec![Event::Int(1)])));
    assert_eq!(r.next(), Err(TranscodeError::WireError));
    assert_eq!(r.next(), Err(TranscodeError::WireError));
    assert!(!r.is_exhausted());
}
