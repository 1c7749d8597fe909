use deepfinder::hashing::{render_digest, HashAlgorithm, HashStream};
use deepfinder::system::manage_hash;

#[test]
fn md5_of_abc() {
    assert_eq!(manage_hash(b"abc", "md5"), Ok("900150983cd24fb0d6963f7d28e17f72".to_string()));
}

#[test]
fn md5_of_nothing() {
    assert_eq!(manage_hash(b"", "md5"), Ok("d41d8cd98f00b204e9800998ecf8427e".to_string()));
}

#[test]
fn sha1_of_abc() {
    assert_eq!(
        manage_hash(b"abc", "sha1"),
        Ok("a9993e364706816aba3e25717850c26c9cd0d89d".to_string())
    );
}

#[test]
fn sha224_of_abc() {
    assert_eq!(
        manage_hash(b"abc", "sha224"),
        Ok("23097d223405d8228642a477bda255b32aadbce4bda0b3f7e36c9da7".to_string())
    );
}

#[test]
fn sha256_of_abc() {
    assert_eq!(
        manage_hash(b"abc", "sha256"),
        Ok("ba7816bf8f01cfea414140de5dae2223b00361a396177a9cb410ff61f20015ad".to_string())
    );
}

#[test]
fn sha384_of_abc() {
    assert_eq!(
        manage_hash(b"abc", "sha384"),
        Ok(
            "cb00753f45a35e8bb5a03d699ac65007272c32ab0eded1631a8b605a43ff5bed8086072ba1e7cc2358baeca134c825a7"
                .to_string()
        )
    );
}

#[test]
fn sha512_of_abc() {
    assert_eq!(
        manage_hash(b"abc", "sha512"),
        Ok(
            "ddaf35a193617abacc417349ae20413112e6fa4e89a97ea20a9eeee64b55d39a2192992a274fc1a836ba3c23a3feebbd454d4423643ce80e2a9ac94fa54ca49f"
                .to_string()
        )
    );
}

#[test]
fn sha3_224_of_abc() {
    assert_eq!(
        manage_hash(b"abc", "sha3-224"),
        Ok("e642824c3f8cf24ad09234ee7d3c766fc9a3a5168d0c94ad73b46fdf".to_string())
    );
}

#[test]
fn sha3_256_of_abc() {
    assert_eq!(
        manage_hash(b"abc", "sha3-256"),
        Ok("3a985da74fe225b2045c172d6bd390bd855f086e3e9d525b46bfe24511431532".to_string())
    );
}

#[test]
fn sha3_384_of_abc() {
    assert_eq!(
        manage_hash(b"abc", "sha3-384"),
        Ok(
            "ec01498288516fc926459f58e2c6ad8df9b473cb0fc08c2596da7cf0e49be4b298d88cea927ac7f539f1edf228376d25"
                .to_string()
        )
    );
}

#[test]
fn sha3_512_of_abc() {
    assert_eq!(
        manage_hash(b"abc", "sha3-512"),
        Ok(
            "b751850b1a57168a5693cd924b6b096e08f621827444f70d884f5d0240d2712e10e116e9192af3c91a7ec57647e3934057340b4cf408d5a56592f8274eec53f0"
                .to_string()
        )
    );
}

#[test]
fn blake2b_512_of_abc() {
    assert_eq!(
        manage_hash(b"abc", "blake2b-512"),
        Ok(
            "ba80a53f981c4d0d6a2797b69f12f6e94c212f14685ac4b74b12bb6fdbffa2d17d87c5392aab792dc252d5de4533cc9518d38aa8dbf1925ab92386edd4009923"
                .to_string()
        )
    );
}

#[test]
fn blake2s_256_of_abc() {
    assert_eq!(
        manage_hash(b"abc", "blake2s-256"),
        Ok("508c5e8c327c14e2e1a72ba34eeb452f37458b209ed63a294d999b4c86675982".to_string())
    );
}

#[test]
fn whirlpool_of_a_greeting() {
    assert_eq!(
        manage_hash(b"Hello Whirlpool", "whirlpool"),
        Ok(
            "8eaccdc136903c458ea0b1376be2a5fc9dc5b8ce8892a3b4f43366e2610c206ca373816495e63db0fff2ff25f75aa7162f332c9f518c3036456502a8414d300a"
                .to_string()
        )
    );
}

#[test]
fn hashing_twice_gives_the_same_digest() {
    let content: Vec<u8> = (0u32..5000).map(|i| (i % 251) as u8).collect();
    let copy: Vec<u8> = content.clone();
    for name in [
        "md5", "sha1", "sha224", "sha256", "sha384", "sha512", "sha3-224", "sha3-256", "sha3-384",
        "sha3-512", "blake2b-512", "blake2s-256", "whirlpool",
    ] {
        let first = manage_hash(&content, name).unwrap();
        let second = manage_hash(&content, name).unwrap();
        let of_copy = manage_hash(&copy, name).unwrap();
        assert_eq!(first, second);
        assert_eq!(first, of_copy);
    }
}

#[test]
fn one_changed_bit_changes_the_digest() {
    let content: Vec<u8> = (0u32..5000).map(|i| (i % 251) as u8).collect();
    let mut changed: Vec<u8> = content.clone();
    changed[2500] ^= 0x01;
    for name in [
        "md5", "sha1", "sha224", "sha256", "sha384", "sha512", "sha3-224", "sha3-256", "sha3-384",
        "sha3-512", "blake2b-512", "blake2s-256", "whirlpool",
    ] {
        assert_ne!(manage_hash(&content, name).unwrap(), manage_hash(&changed, name).unwrap());
    }
}

#[test]
fn digests_are_lowercase_hexadecimal_of_the_right_length() {
    let lengths = [
        ("md5", 32),
        ("sha1", 40),
        ("sha224", 56),
        ("sha256", 64),
        ("sha384", 96),
        ("sha512", 128),
        ("sha3-224", 56),
        ("sha3-256", 64),
        ("sha3-384", 96),
        ("sha3-512", 128),
        ("blake2b-512", 128),
        ("blake2s-256", 64),
        ("whirlpool", 128),
    ];
    for (name, length) in lengths {
        let digest = manage_hash(b"some content", name).unwrap();
        assert_eq!(digest.len(), length);
        assert!(digest.chars().all(|c| c.is_ascii_digit() || ('a'..='f').contains(&c)));
    }
}

#[test]
fn render_digest_writes_two_digits_for_each_byte() {
    assert_eq!(render_digest(&[]), "");
    assert_eq!(render_digest(&[0x00, 0x0f, 0xa0, 0xff, 0x1b]), "000fa0ff1b");
    assert_eq!(render_digest(b"abc"), "616263");
}

#[test]
fn algorithms_are_found_by_their_exact_identifier() {
    assert_eq!(HashAlgorithm::from_name("md5"), Some(HashAlgorithm::Md5));
    assert_eq!(HashAlgorithm::from_name("sha1"), Some(HashAlgorithm::Sha1));
    assert_eq!(HashAlgorithm::from_name("sha224"), Some(HashAlgorithm::Sha224));
    assert_eq!(HashAlgorithm::from_name("sha256"), Some(HashAlgorithm::Sha256));
    assert_eq!(HashAlgorithm::from_name("sha384"), Some(HashAlgorithm::Sha384));
    assert_eq!(HashAlgorithm::from_name("sha512"), Some(HashAlgorithm::Sha512));
    assert_eq!(HashAlgorithm::from_name("sha3-224"), Some(HashAlgorithm::Sha3_224));
    assert_eq!(HashAlgorithm::from_name("sha3-256"), Some(HashAlgorithm::Sha3_256));
    assert_eq!(HashAlgorithm::from_name("sha3-384"), Some(HashAlgorithm::Sha3_384));
    assert_eq!(HashAlgorithm::from_name("sha3-512"), Some(HashAlgorithm::Sha3_512));
    assert_eq!(HashAlgorithm::from_name("blake2b-512"), Some(HashAlgorithm::Blake2b512));
    assert_eq!(HashAlgorithm::from_name("blake2s-256"), Some(HashAlgorithm::Blake2s256));
    assert_eq!(HashAlgorithm::from_name("whirlpool"), Some(HashAlgorithm::Whirlpool));
    assert_eq!(HashAlgorithm::from_name("Sha256"), None);
    assert_eq!(HashAlgorithm::from_name("sha3_256"), None);
    assert_eq!(HashAlgorithm::from_name("md5 "), None);
}

#[test]
fn digest_bytes_match_the_text() {
    let bytes = HashAlgorithm::Sha1.digest(b"abc");
    assert_eq!(bytes.len(), 20);
    assert_eq!(bytes[0], 0xa9);
    assert_eq!(bytes[19], 0x9d);
    assert_eq!(HashAlgorithm::Sha1.hex_digest(b"abc"), render_digest(&bytes));
}

#[test]
fn a_content_hashed_in_pieces_has_the_digest_of_the_whole() {
    let content: Vec<u8> = (0u32..5000).map(|i| (i * 31 % 255) as u8).collect();
    let algorithms = [
        HashAlgorithm::Md5,
        HashAlgorithm::Sha1,
        HashAlgorithm::Sha224,
        HashAlgorithm::Sha256,
        HashAlgorithm::Sha384,
        HashAlgorithm::Sha512,
        HashAlgorithm::Sha3_224,
        HashAlgorithm::Sha3_256,
        HashAlgorithm::Sha3_384,
        HashAlgorithm::Sha3_512,
        HashAlgorithm::Blake2b512,
        HashAlgorithm::Blake2s256,
        HashAlgorithm::Whirlpool,
    ];
    for algorithm in algorithms {
        let whole = algorithm.hex_digest(&content);
        for size in [1usize, 7, 64, 1024, 4999, 5000, 9000] {
            let mut stream = HashStream::new(algorithm);
            for piece in content.chunks(size) {
                stream = stream.update(piece);
            }
            assert_eq!(stream.finish_hex(), whole);
        }
        let mut stream = HashStream::new(algorithm);
        stream = stream.update(&[]);
        stream = stream.update(&content);
        stream = stream.update(&[]);
        assert_eq!(render_digest(&stream.finish()), whole);
    }
}

#[test]
fn a_stream_that_took_nothing_gives_the_digest_of_nothing() {
    assert_eq!(HashStream::new(HashAlgorithm::Md5).finish_hex(), "d41d8cd98f00b204e9800998ecf8427e");
    assert_eq!(
        HashStream::new(HashAlgorithm::Sha1).finish_hex(),
        "da39a3ee5e6b4b0d3255bfef95601890afd80709"
    );
    assert_eq!(
        HashStream::new(HashAlgorithm::Sha256).update(b"a").update(b"bc").finish_hex(),
        "ba7816bf8f01cfea414140de5dae2223b00361a396177a9cb410ff61f20015ad"
    );
}

#[test]
fn digest_bytes_have_the_length_of_the_algorithm() {
    let lengths = [
        (HashAlgorithm::Md5, 16),
        (HashAlgorithm::Sha1, 20),
        (HashAlgorithm::Sha224, 28),
        (HashAlgorithm::Sha256, 32),
        (HashAlgorithm::Sha384, 48),
        (HashAlgorithm::Sha512, 64),
        (HashAlgorithm::Sha3_224, 28),
        (HashAlgorithm::Sha3_256, 32),
        (HashAlgorithm::Sha3_384, 48),
        (HashAlgorithm::Sha3_512, 64),
        (HashAlgorithm::Blake2b512, 64),
        (HashAlgorithm::Blake2s256, 32),
        (HashAlgorithm::Whirlpool, 64),
    ];
    for (algorithm, length) in lengths {
        assert_eq!(algorithm.digest(b"").len(), length);
        assert_eq!(algorithm.digest(b"some longer content, of no importance").len(), length);
    }
}
