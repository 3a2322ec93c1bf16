use liberasurecode::{Backend, Builder, Checksum, ErasureCoder, Error};

fn sample(len: usize) -> Vec<u8> {
    let mut seed: u32 = 0x1234_5678;
    let mut out = Vec::with_capacity(len);
    for _ in 0..len {
        out.push((seed >> 24) as u8);
        seed = seed.wrapping_mul(1_103_515_245).wrapping_add(12_345);
    }
    out
}

fn subsets(n: usize, k: usize) -> Vec<Vec<usize>> {
    let mut all = Vec::new();
    for mask in 0usize..1 << n {
        if mask.count_ones() as usize == k {
            all.push((0..n).filter(|i| mask & (1 << i) != 0).collect());
        }
    }
    all
}

#[test]
fn decode_from_every_k_subset() {
    let (k, m) = (3, 2);
    let mut coder = ErasureCoder::new(k, m).unwrap();
    let data = sample(100);
    let encoded = coder.encode(&data).unwrap();
    for subset in subsets(k + m, k) {
        let chosen: Vec<Vec<u8>> = subset.iter().map(|&i| encoded[i].clone()).collect();
        assert_eq!(coder.decode(&chosen), Ok(data.clone()));
    }
}

#[test]
fn decode_from_parity_only() {
    let mut coder = ErasureCoder::new(2, 2).unwrap();
    let data = sample(37);
    let encoded = coder.encode(&data).unwrap();
    assert_eq!(coder.decode(&encoded[2..]), Ok(data));
}

#[test]
fn decode_empty_buffer_round_trip() {
    let mut coder = ErasureCoder::new(2, 1).unwrap();
    let encoded = coder.encode(&[]).unwrap();
    assert_eq!(encoded.len(), 3);
    assert_eq!(coder.decode(&encoded[1..]), Ok(vec![]));
}

#[test]
fn decode_too_few_fragments_is_insufficient() {
    let mut coder = ErasureCoder::new(4, 2).unwrap();
    let encoded = coder.encode(&sample(64)).unwrap();
    let none: Vec<Vec<u8>> = Vec::new();
    assert_eq!(coder.decode(&none), Err(Error::InsufficientFragments));
    for n in 1..4 {
        assert_eq!(coder.decode(&encoded[..n]), Err(Error::InsufficientFragments));
    }
}

#[test]
fn decode_duplicates_are_insufficient() {
    let mut coder = ErasureCoder::new(3, 2).unwrap();
    let encoded = coder.encode(&sample(30)).unwrap();
    let dup = vec![encoded[0].clone(), encoded[0].clone(), encoded[4].clone()];
    assert_eq!(coder.decode(&dup), Err(Error::InsufficientFragments));
}

#[test]
fn decode_bad_header() {
    let mut coder = ErasureCoder::new(2, 1).unwrap();
    let mut encoded = coder.encode(&sample(10)).unwrap();
    encoded[1][0] = 9;
    assert_eq!(coder.decode(&encoded), Err(Error::BadHeader));
    let short = vec![vec![0u8; 4], vec![0u8; 4]];
    assert_eq!(coder.decode(&short), Err(Error::BadHeader));
}

#[test]
fn reconstruct_out_of_range_index() {
    let mut coder = ErasureCoder::new(3, 2).unwrap();
    let encoded = coder.encode(&sample(20)).unwrap();
    let none: Vec<Vec<u8>> = Vec::new();
    for index in [5, 6, 100, usize::MAX] {
        assert_eq!(coder.reconstruct(index, &encoded), Err(Error::InvalidParams));
        assert_eq!(coder.reconstruct(index, &none), Err(Error::InvalidParams));
    }
}

#[test]
fn reconstruct_too_few_fragments() {
    let mut coder = ErasureCoder::new(3, 2).unwrap();
    let encoded = coder.encode(&sample(20)).unwrap();
    assert_eq!(
        coder.reconstruct(0, &encoded[3..]),
        Err(Error::InsufficientFragments)
    );
}

#[test]
fn reconstruct_with_checksums() {
    for checksum in [Checksum::Crc32, Checksum::Md5] {
        let mut coder = Builder::new(3, 2).checksum(checksum).finish().unwrap();
        let encoded = coder.encode(&sample(50)).unwrap();
        for i in 0..5 {
            let others: Vec<Vec<u8>> = (0..5)
                .filter(|&j| j != i)
                .map(|j| encoded[j].clone())
                .take(3)
                .collect();
            assert_eq!(coder.reconstruct(i, &others), Ok(encoded[i].clone()));
        }
    }
}

#[test]
fn forbidden_configuration() {
    assert_eq!(ErasureCoder::new(1, 1).err(), Some(Error::InvalidParams));
    assert_eq!(Builder::new(1, 1).finish().err(), Some(Error::InvalidParams));
    assert!(ErasureCoder::new(1, 2).is_ok());
    assert!(ErasureCoder::new(2, 1).is_ok());
}

#[test]
fn unsupported_counts_are_invalid() {
    assert_eq!(ErasureCoder::new(70000, 1).err(), Some(Error::InvalidParams));
}

#[test]
fn repeated_decode_failures() {
    let mut coder = ErasureCoder::new(4, 2).unwrap();
    let encoded = coder.encode(&sample(256)).unwrap();
    for _ in 0..10_000 {
        assert_eq!(coder.decode(&encoded[3..]), Err(Error::InsufficientFragments));
    }
    assert_eq!(coder.decode(&encoded[2..]), Ok(sample(256)));
}

#[test]
fn fragment_layout() {
    let mut coder = Builder::new(4, 2)
        .backend(Backend::JerasureRsVand)
        .checksum(Checksum::NoChecksum)
        .finish()
        .unwrap();
    let data = sample(10);
    let encoded = coder.encode(&data).unwrap();
    assert_eq!(encoded.len(), 6);
    for (i, f) in encoded.iter().enumerate() {
        // payload: 10 / 4 rounded up is 3, then up to even: 4 bytes
        assert_eq!(f.len(), 34 + 4);
        assert_eq!(&f[0..8], &(i as u64).to_le_bytes());
        assert_eq!(&f[8..16], &10u64.to_le_bytes());
        assert_eq!(f[16], 1);
        assert_eq!(f[17], 1);
        assert_eq!(&f[18..34], &[0u8; 16]);
    }
    assert_eq!(&encoded[0][34..], &data[0..4]);
    assert_eq!(&encoded[2][34..], &[data[8], data[9], 0, 0]);
    assert_eq!(&encoded[3][34..], &[0, 0, 0, 0]);
}

#[test]
fn crc32_checksum_field() {
    let mut coder = Builder::new(2, 2).checksum(Checksum::Crc32).finish().unwrap();
    let encoded = coder.encode(&sample(40)).unwrap();
    for f in &encoded {
        assert_eq!(f[16], 2);
        assert_eq!(f[17], 2);
        assert_eq!(&f[18..22], &crc32fast::hash(&f[34..]).to_le_bytes());
        assert_eq!(&f[22..34], &[0u8; 12]);
    }
}

#[test]
fn md5_checksum_field() {
    let mut coder = Builder::new(2, 2).checksum(Checksum::Md5).finish().unwrap();
    let encoded = coder.encode(&sample(40)).unwrap();
    for f in &encoded {
        assert_eq!(f[17], 3);
        assert_eq!(&f[18..34], &md5::compute(&f[34..]).0);
    }
}

#[test]
fn parity_matches_engine() {
    let mut coder = ErasureCoder::new(2, 2).unwrap();
    let data = sample(8);
    let encoded = coder.encode(&data).unwrap();
    let originals = vec![data[0..4].to_vec(), data[4..8].to_vec()];
    let recovery = reed_solomon_simd::encode(2, 2, &originals).unwrap();
    assert_eq!(&encoded[2][34..], &recovery[0][..]);
    assert_eq!(&encoded[3][34..], &recovery[1][..]);
    assert_ne!(&encoded[2][34..], &data[0..4]);
}

#[test]
fn accessors_and_defaults() {
    let coder = ErasureCoder::new(6, 3).unwrap();
    assert_eq!(coder.data_fragments(), 6);
    assert_eq!(coder.parity_fragments(), 3);
    assert_eq!(coder.fragments(), 9);
    assert_eq!(Backend::default(), Backend::JerasureRsCauchy);
    assert_eq!(Checksum::default(), Checksum::NoChecksum);
}

#[test]
fn error_codes() {
    let named = [
        (200, Error::BackendNotSupported),
        (201, Error::EcMethodNotImplemented),
        (202, Error::BackendInitError),
        (203, Error::BackendInUse),
        (204, Error::BackendNotAvailable),
        (205, Error::BadChecksum),
        (206, Error::InvalidParams),
        (207, Error::BadHeader),
        (208, Error::InsufficientFragments),
    ];
    for (code, error) in named {
        assert_eq!(Error::from_error_code(code), error);
        assert_eq!(error.as_error_code(), code);
    }
    assert_eq!(Error::from_error_code(5), Error::Other(5));
    assert_eq!(Error::Other(5).as_error_code(), 5);
    assert_eq!(Error::from_error_code(209), Error::Other(209));
}

#[test]
fn error_descriptions() {
    assert_eq!(Error::InvalidParams.description(), "Invalid parameters");
    assert_eq!(Error::InsufficientFragments.description(), "Insufficient fragments");
    assert_eq!(Error::Other(7).description(), "Unknown error");
}

#[test]
fn reconstruct_duplicates_are_insufficient() {
    let mut coder = ErasureCoder::new(3, 2).unwrap();
    let encoded = coder.encode(&sample(30)).unwrap();
    let dup = vec![encoded[1].clone(), encoded[1].clone(), encoded[3].clone()];
    assert_eq!(coder.reconstruct(0, &dup), Err(Error::InsufficientFragments));
}

#[test]
fn reconstruct_keeps_fragment_length() {
    let mut coder = ErasureCoder::new(4, 2).unwrap();
    let encoded = coder.encode(&sample(99)).unwrap();
    let rebuilt = coder.reconstruct(5, &encoded[..4]).unwrap();
    assert_eq!(rebuilt.len(), encoded[0].len());
}
