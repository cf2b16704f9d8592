use dircompare::digest::{digest_chunks, digest_hex, Sha256Stream};

fn hex_string(d: &Vec<u8>) -> String {
    String::from_utf8(digest_hex(d)).unwrap()
}

#[test]
fn empty_input_has_known_digest() {
    let d = Sha256Stream::new().finish();
    assert_eq!(d.len(), 32);
    assert_eq!(
        hex_string(&d),
        "E3B0C44298FC1C149AFBF4C8996FB92427AE41E4649B934CA495991B7852B855"
    );
}

#[test]
fn empty_chunk_list_has_empty_digest() {
    let d = digest_chunks(&vec![]);
    assert_eq!(d, Sha256Stream::new().finish());
}

#[test]
fn hello_and_world_digests() {
    let hello = digest_chunks(&vec![b"hello".to_vec()]);
    let world = digest_chunks(&vec![b"world".to_vec()]);
    assert_eq!(
        hex_string(&hello),
        "2CF24DBA5FB0A30E26E83B2AC5B9E29E1B161E5C1FA7425E73043362938B9824"
    );
    assert_eq!(
        hex_string(&world),
        "486EA46224D1BB4FB680F34F7C9AD96A8F24EC88BE73EA8E5A6C65260E9CB8A7"
    );
    assert_ne!(hello, world);
}

#[test]
fn chunking_does_not_change_digest() {
    let one = digest_chunks(&vec![b"hello".to_vec()]);
    let split = digest_chunks(&vec![b"he".to_vec(), Vec::new(), b"l".to_vec(), b"lo".to_vec()]);
    assert_eq!(one, split);
}

#[test]
fn digest_across_block_and_buffer_boundaries() {
    let data: Vec<u8> = (0..20000u32).map(|i| (i % 251) as u8).collect();
    let whole = digest_chunks(&vec![data.clone()]);
    let chunks: Vec<Vec<u8>> = data.chunks(8 * 1024).map(|c| c.to_vec()).collect();
    assert_eq!(chunks.len(), 3);
    assert_eq!(digest_chunks(&chunks), whole);
    let odd: Vec<Vec<u8>> = data.chunks(63).map(|c| c.to_vec()).collect();
    assert_eq!(digest_chunks(&odd), whole);
}

#[test]
fn stream_counts_fed_bytes() {
    let mut s = Sha256Stream::new();
    assert!(s.can_take(5));
    s.update(b"hel");
    s.update(b"lo");
    assert_eq!(s.fed_len(), 5);
    assert_eq!(s.finish(), digest_chunks(&vec![b"hello".to_vec()]));
}

#[test]
fn hex_is_upper_case_high_half_first() {
    let d = vec![0x00u8, 0x0f, 0xa5, 0xff];
    assert_eq!(hex_string(&d), "000FA5FF");
}
