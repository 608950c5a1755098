use askalono::cache::{cache_version, frame_cache, unframe_cache};
use askalono::Error;

#[test]
fn framed_payload_round_trips() {
    let payload: Vec<u8> = b"some encoded store, some encoded store, some encoded store".to_vec();
    let framed = frame_cache(&payload).unwrap();
    assert_eq!(&framed[..11], b"askalono-04");
    // the payload is compressed, not copied
    assert_ne!(&framed[11..], &payload[..]);
    assert_eq!(unframe_cache(&framed).unwrap(), payload);
}

#[test]
fn empty_payload_round_trips() {
    let framed = frame_cache(&[]).unwrap();
    assert_eq!(unframe_cache(&framed).unwrap(), Vec::<u8>::new());
}

#[test]
fn wrong_tag_is_a_version_error() {
    let mut framed = frame_cache(b"x").unwrap();
    framed[10] = b'3';
    assert_eq!(unframe_cache(&framed), Err(Error::CacheVersion));
    assert_eq!(unframe_cache(b"askalono"), Err(Error::CacheVersion));
    assert_eq!(unframe_cache(b""), Err(Error::CacheVersion));
}

#[test]
fn bad_stream_is_corrupt() {
    let mut bytes = cache_version();
    bytes.extend_from_slice(b"not zstd at all");
    assert_eq!(unframe_cache(&bytes), Err(Error::CacheCorrupt));
}
