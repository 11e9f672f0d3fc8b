use rbuild::chunk::{
    apply_delta, chunk, compress, compressed, decompress, decompressed, make_delta, signature,
    signed_len, ChunkRef, CodecError, DeltaError, BOUNDARY_MASK, MAX_CHUNK, MIN_CHUNK,
};
use rbuild::proto::DeltaOpKind;

fn noise(len: usize) -> Vec<u8> {
    let mut data = vec![0u8; len];
    for (i, b) in data.iter_mut().enumerate() {
        *b = (i.wrapping_mul(2654435761) >> 13) as u8;
    }
    data
}

#[test]
fn boundaries_are_stable_under_insertion() {
    // A change near the front should leave most later chunk boundaries intact:
    // the property the whole delta scheme relies on.
    let mut data = vec![0u8; 200_000];
    for (i, b) in data.iter_mut().enumerate() {
        *b = (i.wrapping_mul(2654435761) >> 13) as u8;
    }
    let sig_a = signature(&data);

    let mut edited = data.clone();
    edited.splice(50..50, [42u8, 42, 42]); // insert 3 bytes near the front
    let sig_b = signature(&edited);

    let shared = sig_a
        .iter()
        .rev()
        .zip(sig_b.iter().rev())
        .take_while(|(a, b)| a.hash == b.hash)
        .count();
    // The tail of the file should re-sync identically.
    assert!(shared > sig_a.len() / 2, "shared tail chunks: {shared}");
}

#[test]
fn roundtrip_compression() {
    let data = b"the quick brown fox".repeat(100);
    assert_eq!(decompress(&compress(&data).unwrap()).unwrap(), data);
}

#[test]
fn delta_reconstructs_and_sends_little() {
    let mut base = vec![0u8; 500_000];
    for (i, b) in base.iter_mut().enumerate() {
        *b = (i.wrapping_mul(2654435761) >> 13) as u8;
    }
    let base_sig = signature(&base);

    // Edit a few bytes in the middle of the file.
    let mut new = base.clone();
    new[250_000] ^= 0xFF;
    new[250_001] ^= 0xFF;

    let (ops, literals) = make_delta(&new, &base_sig);
    let rebuilt = apply_delta(&base, &ops, &literals).unwrap();
    assert_eq!(rebuilt, new, "delta must reconstruct exactly");

    // The literal payload should be a tiny fraction of the file: only the
    // chunk(s) around the edit, not the whole thing.
    assert!(
        literals.len() < new.len() / 10,
        "delta sent {} of {} bytes",
        literals.len(),
        new.len()
    );
}

#[test]
fn chunks_partition_the_file() {
    let data = noise(200_000);
    let spans = chunk(&data);
    assert_eq!(spans[0].0, 0);
    assert_eq!(spans[spans.len() - 1].1, data.len());
    for pair in spans.windows(2) {
        assert_eq!(pair[0].1, pair[1].0);
    }
    for (s, e) in &spans[..spans.len() - 1] {
        assert!(e - s >= MIN_CHUNK && e - s <= MAX_CHUNK);
    }
    assert!(chunk(&[]).is_empty());
    // Zeros never make a boundary, so every chunk is as long as it may be.
    let zeros = vec![0u8; 2 * MAX_CHUNK + 10];
    assert_eq!(
        chunk(&zeros),
        vec![
            (0, MAX_CHUNK),
            (MAX_CHUNK, 2 * MAX_CHUNK),
            (2 * MAX_CHUNK, 2 * MAX_CHUNK + 10)
        ]
    );
    // Thirteen ones make one, once the chunk is long enough.
    let mut marked = vec![0u8; 3 * MIN_CHUNK];
    for b in &mut marked[MIN_CHUNK - 13..MIN_CHUNK] {
        *b = 1;
    }
    assert_eq!(chunk(&marked), vec![(0, MIN_CHUNK), (MIN_CHUNK, 3 * MIN_CHUNK)]);
    assert_eq!(BOUNDARY_MASK, (1 << 13) - 1);
}

#[test]
fn short_file_is_one_chunk() {
    let sig = signature(b"hello");
    assert_eq!(sig.len(), 1);
    assert_eq!(sig[0].len, 5);
    assert!(sig[0].hash == rbuild::hash::Hash::of(b"hello"));
    assert!(signature(b"").is_empty());
}

#[test]
fn unchanged_file_is_all_copies() {
    let base = noise(100_000);
    let sig = signature(&base);
    let (ops, literals) = make_delta(&base, &sig);
    assert!(literals.is_empty());
    assert_eq!(ops[0], DeltaOpKind::Copy { offset: 0, len: sig[0].len });
    assert!(ops.iter().all(|op| matches!(op, DeltaOpKind::Copy { .. })));
}

#[test]
fn delta_without_base_is_all_data() {
    let (ops, literals) = make_delta(b"abc", &[]);
    assert_eq!(ops, vec![DeltaOpKind::Data { len: 3 }]);
    assert_eq!(literals, b"abc");
}

#[test]
fn first_of_equal_chunks_is_copied() {
    let hash = rbuild::hash::Hash::of(b"abc");
    let other = rbuild::hash::Hash::of(b"x");
    let sig = [
        ChunkRef { hash: other, len: 10 },
        ChunkRef { hash, len: 3 },
        ChunkRef { hash, len: 3 },
    ];
    let (ops, _) = make_delta(b"abc", &sig);
    assert_eq!(ops, vec![DeltaOpKind::Copy { offset: 10, len: 3 }]);
    // The first match counts even when its length is wrong.
    let sig = [ChunkRef { hash, len: 4 }, ChunkRef { hash, len: 3 }];
    let (ops, literals) = make_delta(b"abc", &sig);
    assert_eq!(ops, vec![DeltaOpKind::Data { len: 3 }]);
    assert_eq!(literals, b"abc");
}

#[test]
fn signed_len_sums_the_chunks() {
    let hash = rbuild::hash::Hash::of(b"abc");
    assert_eq!(signed_len(&[]), Some(0));
    assert_eq!(
        signed_len(&[ChunkRef { hash, len: 3 }, ChunkRef { hash, len: u32::MAX }]),
        Some(3 + u32::MAX as u64)
    );
}

#[test]
fn replay_copies_and_inserts_in_order() {
    let ops = [
        DeltaOpKind::Data { len: 1 },
        DeltaOpKind::Copy { offset: 2, len: 3 },
        DeltaOpKind::Data { len: 2 },
    ];
    assert_eq!(apply_delta(b"012345", &ops, b"abc").unwrap(), b"a234bc");
    assert_eq!(apply_delta(b"012345", &[], b"abc").unwrap(), b"");
}

#[test]
fn replay_refuses_what_is_out_of_bounds() {
    let copy = [DeltaOpKind::Copy { offset: 4, len: 3 }];
    assert_eq!(apply_delta(b"012345", &copy, b""), Err(DeltaError::CopyOutOfBounds));
    let far = [DeltaOpKind::Copy { offset: u64::MAX, len: 2 }];
    assert_eq!(apply_delta(b"012345", &far, b""), Err(DeltaError::CopyOutOfBounds));
    let data = [DeltaOpKind::Data { len: 2 }];
    assert_eq!(apply_delta(b"", &data, b"a"), Err(DeltaError::DataOutOfBounds));
    assert_eq!(DeltaError::CopyOutOfBounds.message(), "delta Copy out of bounds");
    assert_eq!(DeltaError::DataOutOfBounds.message(), "delta Data out of bounds");
}

#[test]
fn compression_changes_the_bytes() {
    let data = vec![7u8; 10_000];
    let frame = compress(&data).unwrap();
    assert_ne!(frame, data);
    assert!(frame.len() < 100);
    assert_eq!(decompress(&frame).unwrap(), data);
    assert!(!compress(b"").unwrap().is_empty());
}

#[test]
fn garbage_does_not_decompress() {
    // The refusal is in zstd's own words.
    let words = zstd::decode_all(b"not a zstd frame".as_slice()).unwrap_err().to_string();
    let refusal = decompress(b"not a zstd frame").unwrap_err();
    assert_eq!(refusal, CodecError::Decompress(words.clone()));
    assert_eq!(refusal.message(), words);
    assert_eq!(CodecError::Compress("no".into()).message(), "no");
}

#[test]
fn codec_answers_are_mapped() {
    let failed = || std::io::Error::new(std::io::ErrorKind::Other, "no");
    assert_eq!(compressed(Ok(vec![1])), Ok(vec![1]));
    assert_eq!(compressed(Err(failed())), Err(CodecError::Compress("no".into())));
    assert_eq!(decompressed(Ok(vec![1])), Ok(vec![1]));
    assert_eq!(decompressed(Err(failed())), Err(CodecError::Decompress("no".into())));
}
