use buddy_allocator::{Digest, DigestUser, InsufficientMemoryError, Sha1, Sha224, Sha256};

fn hex(bytes: &[u8]) -> String {
    bytes.iter().map(|b| format!("{:02x}", b)).collect()
}

const FOX: &[u8] = b"The quick brown fox jumps over the lazy dog";
const COG: &[u8] = b"The quick brown fox jumps over the lazy cog";
const TWO_BLOCKS: &[u8] = b"abcdbcdecdefdefgefghfghighijhijkijkljklmklmnlmnomnopnopq";

#[test]
fn digest_sizes() {
    assert_eq!(Sha1::DIGEST_SIZE, 20);
    assert_eq!(Sha224::DIGEST_SIZE, 28);
    assert_eq!(Sha256::DIGEST_SIZE, 32);
}

#[test]
fn sha224_of_empty_message() {
    let hash = [
        0xd1, 0x4a, 0x02, 0x8c, 0x2a, 0x3a, 0x2b, 0xc9, 0x47, 0x61, 0x02, 0xbb, 0x28, 0x82, 0x34, 0xc4, 0x15, 0xa2,
        0xb0, 0x1f, 0x82, 0x8e, 0xa6, 0x2a, 0xc5, 0xb3, 0xe4, 0x2f,
    ];
    let result = Sha224::new().update(b"").digest();
    assert_eq!(result, hash.to_vec());
}

#[test]
fn sha256_of_empty_message() {
    let hash = [
        0xe3, 0xb0, 0xc4, 0x42, 0x98, 0xfc, 0x1c, 0x14, 0x9a, 0xfb, 0xf4, 0xc8, 0x99, 0x6f, 0xb9, 0x24, 0x27, 0xae,
        0x41, 0xe4, 0x64, 0x9b, 0x93, 0x4c, 0xa4, 0x95, 0x99, 0x1b, 0x78, 0x52, 0xb8, 0x55,
    ];
    let result = Sha256::new().update(b"").digest();
    assert_eq!(result, hash.to_vec());
}

#[test]
fn sha1_of_the_fox_and_the_cog() {
    let hash = [
        0x2f, 0xd4, 0xe1, 0xc6, 0x7a, 0x2d, 0x28, 0xfc, 0xed, 0x84, 0x9e, 0xe1, 0xbb, 0x76, 0xe7, 0x39, 0x1b, 0x93,
        0xeb, 0x12,
    ];
    let mut hasher = Sha1::new();
    hasher.update_in_place(FOX);
    let result = hasher.digest();
    assert_eq!(result, hash.to_vec());

    let hash = [
        0xde, 0x9f, 0x2c, 0x7f, 0xd2, 0x5e, 0x1b, 0x3a, 0xfa, 0xd3, 0xe8, 0x5a, 0x0b, 0xd1, 0x7d, 0x9b, 0x10, 0x0d,
        0xb4, 0xb3,
    ];
    let mut result = [0u8; 20];
    assert_eq!(Sha1::new().update(COG).digest_into(&mut result), Ok(()));
    assert_eq!(result, hash);
}

#[test]
fn known_digests() {
    assert_eq!(hex(&Sha1::new().digest()), "da39a3ee5e6b4b0d3255bfef95601890afd80709");
    assert_eq!(hex(&Sha1::new().update(b"abc").digest()), "a9993e364706816aba3e25717850c26c9cd0d89d");
    assert_eq!(
        hex(&Sha224::new().update(b"abc").digest()),
        "23097d223405d8228642a477bda255b32aadbce4bda0b3f7e36c9da7"
    );
    assert_eq!(
        hex(&Sha256::new().update(b"abc").digest()),
        "ba7816bf8f01cfea414140de5dae2223b00361a396177a9cb410ff61f20015ad"
    );
    assert_eq!(
        hex(&Sha256::new().update(FOX).digest()),
        "d7a8fbb307d7809469ca9abcb0082e4f8d5651e46d3cdb762d02d0bf37c9e592"
    );
    assert_eq!(
        hex(&Sha224::new().update(FOX).digest()),
        "730e109bd7a8a32b1cb9d9a09aa2325d2430587ddbc0c38bad911525"
    );
}

#[test]
fn padding_that_needs_a_second_block() {
    assert_eq!(hex(&Sha1::new().update(TWO_BLOCKS).digest()), "84983e441c3bd26ebaae4aa1f95129e5e54670f1");
    assert_eq!(
        hex(&Sha224::new().update(TWO_BLOCKS).digest()),
        "75388b16512776cc5dba5da1fd890150b0c6455cb4f58b1952522525"
    );
    assert_eq!(
        hex(&Sha256::new().update(TWO_BLOCKS).digest()),
        "248d6a61d20638b8e5c026930c3e6039a33ce45964ff2167f6ecedd419db06c1"
    );
}

#[test]
fn pieces_of_any_size_give_the_one_shot_digest() {
    let data: Vec<u8> = (0..3).flat_map(|_| 0..=255u8).collect();
    let expected1 = "ac2a264c8ec1f4232a40854e8239bc3a697ab1d2";
    let expected256 = "f3a25aa93aa2fbba28d79260535bbd6a5eb0fc1c24a8b0f04e12b484c1dfe363";
    assert_eq!(hex(&Sha1::new().update(&data).digest()), expected1);
    assert_eq!(hex(&Sha256::new().update(&data).digest()), expected256);
    for piece in [1usize, 7, 63, 64, 65, 200] {
        let mut h1 = Sha1::new();
        let mut h256 = Sha256::new();
        for chunk in data.chunks(piece) {
            h1.update_in_place(chunk);
            h256.update_in_place(chunk);
        }
        assert_eq!(hex(&h1.digest()), expected1);
        assert_eq!(hex(&h256.digest()), expected256);
    }
    assert_eq!(
        hex(&Sha224::new().update(&data).digest()),
        "591b51555cc8c83f6951d9ec73d834d6d17865fecdb543605471a562"
    );
}

#[test]
fn digest_reset_starts_over() {
    let mut hasher = Sha256::new();
    hasher.update_in_place(b"abc");
    let first = hasher.digest_reset();
    assert_eq!(hex(&first), "ba7816bf8f01cfea414140de5dae2223b00361a396177a9cb410ff61f20015ad");
    assert_eq!(hex(&hasher.digest_reset()), "e3b0c44298fc1c149afbf4c8996fb92427ae41e4649b934ca495991b7852b855");
    hasher.update_in_place(b"a");
    hasher.reset();
    hasher.update_in_place(b"abc");
    assert_eq!(hex(&hasher.digest()), "ba7816bf8f01cfea414140de5dae2223b00361a396177a9cb410ff61f20015ad");
}

#[test]
fn digest_into_needs_room_for_the_digest() {
    let mut short = [7u8; 19];
    assert_eq!(Sha1::new().update(b"abc").digest_into(&mut short), Err(InsufficientMemoryError));
    assert_eq!(short, [7u8; 19]);

    let mut long = [7u8; 24];
    assert_eq!(Sha1::new().update(b"abc").digest_into(&mut long), Ok(()));
    assert_eq!(hex(&long[..20]), "a9993e364706816aba3e25717850c26c9cd0d89d");
    assert_eq!(long[20..], [7u8; 4]);
}

#[test]
fn digest_into_reset_keeps_the_message_on_error() {
    let mut hasher = Sha224::new();
    hasher.update_in_place(b"abc");
    let mut short = [0u8; 27];
    assert_eq!(hasher.digest_into_reset(&mut short), Err(InsufficientMemoryError));
    let mut out = [0u8; 28];
    assert_eq!(hasher.digest_into_reset(&mut out), Ok(()));
    assert_eq!(hex(&out), "23097d223405d8228642a477bda255b32aadbce4bda0b3f7e36c9da7");
    assert_eq!(hex(&hasher.digest()), "d14a028c2a3a2bc9476102bb288234c415a2b01f828ea62ac5b3e42f");
}
