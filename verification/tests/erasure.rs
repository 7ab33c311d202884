//! Erasure coding.
use arkel::dataplane::erasure::{decode, encode, CodecError, DecodeError, ErasureConfig};

#[test]
fn test_encode_decode_roundtrip() {
    let config = ErasureConfig { k: 4, m: 2 };
    let data = b"Hello world";

    let shards = encode(data, &config).unwrap();
    assert_eq!(shards.len(), config.k + config.m);

    let mut available = vec![None; shards.len()];
    for (i, shard) in shards.iter().enumerate() {
        if i != 2 && i != 3 {
            available[i] = Some(shard.as_slice());
        }
    }

    let recovered = decode(&available, &config, data.len()).unwrap();
    assert_eq!(recovered, data);
}

#[test]
fn test_decode_insufficient_shards() {
    let config = ErasureConfig { k: 4, m: 2 };
    let data = b"Hello world";

    let shards = encode(data, &config).unwrap();
    assert_eq!(shards.len(), config.k + config.m);

    let mut available = vec![None; shards.len()];
    for (i, shard) in shards.iter().enumerate() {
        if i != 2 && i != 3 && i != 4 {
            available[i] = Some(shard.as_slice());
        }
    }

    let result = decode(&available, &config, data.len());
    assert!(result.is_err());
    assert!(result.unwrap_err().message().contains("Need at least 4"));
}

#[test]
fn data_shards_are_the_padded_data() {
    let config = ErasureConfig { k: 4, m: 2 };
    let shards = encode(b"Hello world", &config).unwrap();
    assert_eq!(shards[0], b"Hel");
    assert_eq!(shards[1], b"lo ");
    assert_eq!(shards[2], b"wor");
    assert_eq!(shards[3], b"ld\0");
    assert_eq!(shards[4].len(), 3);
    assert_eq!(shards[5].len(), 3);
    assert_ne!(shards[4], shards[0]);
    assert_eq!(config.total_shards(), 6);
}

#[test]
fn any_k_shards_are_enough() {
    let config = ErasureConfig { k: 2, m: 2 };
    let data = b"twelve bytes";
    let shards = encode(data, &config).unwrap();
    for a in 0..4 {
        for b in a + 1..4 {
            let mut available: Vec<Option<&[u8]>> = vec![None; 4];
            available[a] = Some(&shards[a]);
            available[b] = Some(&shards[b]);
            assert_eq!(decode(&available, &config, data.len()).unwrap(), data);
        }
    }
}

#[test]
fn schemes_out_of_range_are_refused() {
    let none = encode(b"data", &ErasureConfig { k: 4, m: 0 }).unwrap_err();
    assert_eq!(none, CodecError::TooFewParityShards);
    assert_eq!(
        none.message(),
        "The number of provided parity shards is smaller than the one in codec"
    );
    let many = encode(b"data", &ErasureConfig { k: 200, m: 57 }).unwrap_err();
    assert_eq!(many, CodecError::TooManyShards);
    let empty = encode(b"", &ErasureConfig { k: 4, m: 2 }).unwrap_err();
    assert_eq!(empty, CodecError::EmptyShard);
    assert_eq!(empty.message(), "The first shard provided is of zero length");
    assert_eq!(encode(&[1u8; 200], &ErasureConfig { k: 200, m: 56 }).unwrap().len(), 256);
}

#[test]
fn places_must_fit_the_scheme() {
    let config = ErasureConfig { k: 4, m: 2 };
    let available: Vec<Option<&[u8]>> = vec![None; 5];
    let error = decode(&available, &config, 3).unwrap_err();
    assert_eq!(error, DecodeError::WrongCount { expected: 6, got: 5 });
    assert_eq!(error.message(), "Expected 6 shards, got 5");
    let available: Vec<Option<&[u8]>> = vec![None; 6];
    let error = decode(&available, &config, 3).unwrap_err();
    assert_eq!(error, DecodeError::NotEnough { need: 4, have: 0 });
    assert_eq!(error.message(), "Need at least 4 shards, have 0");
}

#[test]
fn shards_of_unequal_length_are_refused() {
    let config = ErasureConfig { k: 2, m: 1 };
    let available: Vec<Option<&[u8]>> = vec![Some(b"abc"), Some(b"de"), None];
    let error = decode(&available, &config, 5).unwrap_err();
    assert_eq!(error, DecodeError::Codec(CodecError::IncorrectShardSize));
    assert_eq!(
        error.message(),
        "At least one of the provided shards is not of the correct size"
    );
    let available: Vec<Option<&[u8]>> = vec![Some(b""), Some(b""), None];
    let error = decode(&available, &config, 5).unwrap_err();
    assert_eq!(error, DecodeError::Codec(CodecError::EmptyShard));
}
