use liberasurecode::{Backend, Builder, Checksum, ErasureCoder, Error, Result};

fn non_zero(n: usize) -> usize {
    assert!(n > 0, "Must be a non zero number");
    n
}

#[test]
fn it_works() {
    let mut coder = ErasureCoder::new(non_zero(4), non_zero(2)).unwrap();
    let data = vec![0, 1, 2, 3];
    let encoded = coder.encode(&data).unwrap();

    assert_eq!(Ok(&data), coder.decode(&encoded[0..]).as_ref());
    assert_eq!(Ok(&data), coder.decode(&encoded[1..]).as_ref());
    assert_eq!(Ok(&data), coder.decode(&encoded[2..]).as_ref());
    assert_eq!(
        Err(Error::InsufficientFragments),
        coder.decode(&encoded[3..])
    );
}

#[test]
fn reconstruct_works() {
    let mut coder = ErasureCoder::new(non_zero(4), non_zero(4)).unwrap();
    let data = vec![0, 1, 2, 3];
    let encoded = coder.encode(&data).unwrap();

    for i in 0..coder.fragments() {
        let available: Vec<Vec<u8>> = encoded
            .iter()
            .enumerate()
            .filter(|&(index, _)| index != i)
            .map(|(_, f)| f.clone())
            .take(4)
            .collect();
        assert_eq!(
            coder.reconstruct(i, &available),
            Ok(encoded[i].clone())
        );
    }
}

#[test]
fn reconstruct_works_for_all_fragments() -> Result<()> {
    let k = 6;
    let m = 3;
    let len = 0xc0de;
    let mut coder = ErasureCoder::new(non_zero(k), non_zero(m)).unwrap();
    let mut data = vec![0; len];
    let mut seed: u32 = 0xdeadbeef;
    for i in 0..len {
        data[i] = (seed >> 16) as u8;
        seed = seed.wrapping_mul(0x15151).wrapping_add(0x31111111);
    }
    let encoded = coder.encode(&data).unwrap();

    // Exhaustively checks all patterns.
    for alive in 0usize..1 << (k + m) {
        // If not exactly k fragments are alive, skip.
        if alive.count_ones() as usize != k {
            continue;
        }
        let mut fragments = vec![];
        for i in 0..k + m {
            if (alive & 1 << i) != 0 {
                fragments.push(encoded[i].clone());
            }
        }
        assert_eq!(fragments.len(), k);
        for index in 0..k + m {
            if (alive & 1 << index) == 0 {
                // if index is not alive, reconstruct it and check the validity.
                let reconstructed = coder.reconstruct(index, &fragments)?;
                assert_eq!(reconstructed, encoded[index]);
            }
        }
    }
    Ok(())
}

#[test]
fn reconstruct_fails() {
    let mut coder = ErasureCoder::new(non_zero(4), non_zero(4)).unwrap();
    let data = vec![0, 1, 2, 3];
    let encoded = coder.encode(&data).unwrap();

    assert!(coder.reconstruct(7, &encoded).is_ok());
    assert_eq!(coder.reconstruct(8, &encoded), Err(Error::InvalidParams));
    assert_eq!(coder.reconstruct(9, &encoded), Err(Error::InvalidParams));
}

#[test]
fn various_params() {
    for backend in [Backend::JerasureRsCauchy, Backend::JerasureRsVand].iter() {
        for checksum in [Checksum::NoChecksum, Checksum::Crc32, Checksum::Md5].iter() {
            for data_fragments in (3..6).map(non_zero) {
                for parity_fragments in (1..4).map(non_zero) {
                    let mut coder = Builder::new(data_fragments, parity_fragments)
                        .backend(*backend)
                        .checksum(*checksum)
                        .finish()
                        .expect(&format!(
                            "Cannot make coder instance: k={}, m={}, b={:?}, c={:?}",
                            data_fragments, parity_fragments, backend, checksum
                        ));

                    let data = vec![0, 1, 2, 3];
                    let encoded = coder.encode(&data).unwrap();

                    for i in 0..parity_fragments {
                        assert_eq!(Ok(&data), coder.decode(&encoded[i..]).as_ref());
                    }
                    assert_eq!(
                        Err(Error::InsufficientFragments),
                        coder.decode(&encoded[parity_fragments + 1..])
                    );
                }
            }
        }
    }
}
