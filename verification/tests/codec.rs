use chorus_store::bytes::{bytes_eq, read_be4_at, read_be8_at, u32_to_be4, u64_to_be8};
use chorus_store::codec::{decode_event, encode_event};
use chorus_store::event::Event;
use chorus_store::web::{classify_route, BlobDescriptor, Route};

fn sample_event() -> Event {
    Event {
        id: vec![0x11; 32],
        pubkey: vec![0x22; 32],
        created_at: 1_700_000_000,
        kind: 30023,
        tags: vec![
            vec![b"e".to_vec(), b"abcd".to_vec(), b"wss://relay".to_vec()],
            vec![b"expiration".to_vec(), b"123".to_vec()],
            vec![b"p".to_vec()],
            vec![],
        ],
        content: b"some payload bytes".to_vec(),
    }
}

#[test]
fn encode_decode_round_trip() {
    let e = sample_event();
    assert!(e.is_wf());
    let bytes = encode_event(&e);
    let back = decode_event(&bytes).expect("decodes");
    assert_eq!(back.id, e.id);
    assert_eq!(back.pubkey, e.pubkey);
    assert_eq!(back.created_at, e.created_at);
    assert_eq!(back.kind, e.kind);
    assert_eq!(back.tags, e.tags);
    assert_eq!(back.content, e.content);
}

#[test]
fn encode_decode_round_trip_empty() {
    let e = Event {
        id: vec![0; 32],
        pubkey: vec![0; 32],
        created_at: 0,
        kind: 0,
        tags: vec![],
        content: vec![],
    };
    let bytes = encode_event(&e);
    assert_eq!(bytes.len(), 96);
    let back = decode_event(&bytes).expect("decodes");
    assert_eq!(back.tags, e.tags);
    assert_eq!(back.content, e.content);
}

#[test]
fn decode_rejects_garbage() {
    assert!(decode_event(&vec![]).is_none());
    assert!(decode_event(&vec![0u8; 87]).is_none());
    assert!(decode_event(&vec![0xFFu8; 200]).is_none());
}

#[test]
fn decode_rejects_truncation() {
    let e = sample_event();
    let mut bytes = encode_event(&e);
    bytes.pop();
    assert!(decode_event(&bytes).is_none());
    bytes.push(0);
    bytes.push(0);
    assert!(decode_event(&bytes).is_none());
}

#[test]
fn be8_exact_bytes() {
    assert_eq!(u64_to_be8(0x0102030405060708), vec![1, 2, 3, 4, 5, 6, 7, 8]);
    assert_eq!(u64_to_be8(0), vec![0; 8]);
    assert_eq!(u64_to_be8(u64::MAX), vec![0xFF; 8]);
}

#[test]
fn be4_exact_bytes() {
    assert_eq!(u32_to_be4(5), vec![0, 0, 0, 5]);
    assert_eq!(u32_to_be4(0x01020304), vec![1, 2, 3, 4]);
}

#[test]
fn read_back_big_endian() {
    let mut v = vec![0xAB];
    v.extend_from_slice(&u64_to_be8(123456789));
    assert_eq!(read_be8_at(&v, 1), 123456789);
    let mut w = u32_to_be4(77);
    w.push(9);
    assert_eq!(read_be4_at(&w, 0), 77);
}

#[test]
fn bytes_eq_compares_contents() {
    assert!(bytes_eq(&vec![1, 2, 3], &vec![1, 2, 3]));
    assert!(!bytes_eq(&vec![1, 2, 3], &vec![1, 2, 4]));
    assert!(!bytes_eq(&vec![1, 2], &vec![1, 2, 3]));
    assert!(bytes_eq(&vec![], &vec![]));
}

#[test]
fn route_classification() {
    let hash = format!("/{}", "a1".repeat(32));
    assert_eq!(classify_route(&hash.into_bytes()), Route::Hash);
    assert_eq!(classify_route(&b"/upload".to_vec()), Route::Upload);
    let list = format!("/list/{}", "0f".repeat(32));
    assert_eq!(classify_route(&list.into_bytes()), Route::List);
    assert_eq!(classify_route(&b"/mirror".to_vec()), Route::Mirror);
    assert_eq!(classify_route(&b"/".to_vec()), Route::NotBlossom);
    assert_eq!(classify_route(&b"/uploadx".to_vec()), Route::NotBlossom);
    let short = format!("/{}", "a1".repeat(31));
    assert_eq!(classify_route(&short.into_bytes()), Route::NotBlossom);
    let nonhex = format!("/{}zz", "a1".repeat(31));
    assert_eq!(classify_route(&nonhex.into_bytes()), Route::NotBlossom);
}

#[test]
fn blob_descriptor_holds_fields() {
    let d = BlobDescriptor {
        url: String::from("https://example.invalid/aa.bin"),
        sha256: String::from("aa"),
        size: 17,
        uploaded: 1_700_000_000,
    };
    let d2 = d.clone();
    assert_eq!(d2.url, d.url);
    assert_eq!(d2.sha256, d.sha256);
    assert_eq!(d2.size, 17);
    assert_eq!(d2.uploaded, d.uploaded);
}
