use novelpoly::codec::{
    decode_init, decode_main, encode_high, encode_low, is_power_of_2, log2, mem_cpy, mem_zero,
};
use novelpoly::tables::f2e16;
use rand::distributions::{Distribution, Uniform};
use rand::thread_rng;

/// Generate a random field symbol.
fn rand_gf_element() -> u16 {
    let mut rng = thread_rng();
    let uni = Uniform::<u16>::new_inclusive(0, 65535);
    uni.sample(&mut rng)
}

#[test]
fn ported_c_test() {
    let f = f2e16().unwrap();
    const N: usize = 256;
    const K: usize = 192;

    //-----------Generating message----------
    let mut data: Vec<u16> = vec![0; N];
    for i in (N - K)..N {
        data[i] = rand_gf_element();
    }
    assert_eq!(data.len(), N);

    println!("Message(First n-k are zeros): ");
    for i in 0..N {
        println!("{:04x}", data[i]);
    }

    //---------encoding----------
    let mut codeword = vec![0u16; N];

    if K + K > N {
        // parity first, then the message, as the high-rate layout has it
        let message: Vec<u16> = data[(N - K)..N].to_vec();
        let mut parity = vec![0u16; N - K];
        encode_high(&message, K, &mut parity, N, &f);
        for i in 0..(N - K) {
            data[i] = parity[i];
        }
    } else {
        encode_low(&data.clone(), K, &mut codeword, N, &f);
    }
    mem_cpy(&mut codeword, &data);

    println!("Codeword:");
    for i in 0..N {
        println!("{:04x}", codeword[i]);
    }

    //--------erasure simulation---------
    let mut erasure = vec![false; N];
    for i in K..N {
        erasure[i] = true;
    }
    // permuting the erasure array
    let mut i = N - 1;
    while i > 0 {
        let pos = rand_gf_element() as usize % (i + 1);
        if i != pos {
            erasure.swap(i, pos);
        }
        i -= 1;
    }
    for i in 0..N {
        if erasure[i] {
            codeword[i] = 0;
        }
    }

    println!("Erasure (XXXX is erasure):");
    for i in 0..N {
        if erasure[i] {
            println!("XXXX");
        } else {
            println!("{:04x}", codeword[i]);
        }
    }

    //---------Erasure decoding----------------
    let mut log_walsh2 = vec![0u16; 65536];
    decode_init(&erasure, &mut log_walsh2, N, &f);
    decode_main(&mut codeword, K, &erasure, &log_walsh2, N, &f);

    println!("Decoded result:");
    for i in 0..N {
        if erasure[i] {
            println!("{:04x}", codeword[i]);
        } else {
            println!("XXXX");
        }
    }

    for i in 0..N {
        if erasure[i] && data[i] != codeword[i] {
            panic!("Decoding Error! value at [{}] should={:04x} vs is={:04x}", i, data[i], codeword[i]);
        }
    }
    println!("Decoding is successful!");
}

#[test]
fn encode_low_is_systematic() {
    let f = f2e16().unwrap();
    let data = vec![0x1234u16, 0xABCD, 0, 0, 0, 0, 0, 0];
    let mut codeword = vec![0u16; 8];
    encode_low(&data, 2, &mut codeword, 8, &f);
    assert_eq!(&codeword[0..2], &data[0..2]);
    // and the parity windows let the decoder restore an erased prefix
    let erasure = vec![true, true, false, false, false, false, false, false];
    let mut work = codeword.clone();
    work[0] = 0;
    work[1] = 0;
    let mut log_walsh2 = vec![0u16; 65536];
    decode_init(&erasure, &mut log_walsh2, 8, &f);
    decode_main(&mut work, 2, &erasure, &log_walsh2, 8, &f);
    assert_eq!(work[0], 0x1234);
    assert_eq!(work[1], 0xABCD);
}

#[test]
fn ifft_then_fft_restores_the_block() {
    let f = f2e16().unwrap();
    let original = vec![0x1234u16, 0xABCD, 7, 42, 0xFFFF, 0, 513, 9999];
    for offset in [0usize, 8, 64] {
        let mut block = original.clone();
        novelpoly::transform::fft_in_novel_poly_basis(&mut block, 8, offset, &f);
        assert_ne!(block, original);
        novelpoly::transform::inverse_fft_in_novel_poly_basis(&mut block, 8, offset, &f);
        assert_eq!(block, original);
    }
}

#[test]
fn log2_and_power_of_two_checks() {
    assert_eq!(log2(1), 0);
    assert_eq!(log2(2), 1);
    assert_eq!(log2(3), 1);
    assert_eq!(log2(2048), 11);
    assert!(is_power_of_2(1));
    assert!(is_power_of_2(256));
    assert!(!is_power_of_2(0));
    assert!(!is_power_of_2(2000));
}

#[test]
fn mem_helpers() {
    let mut v = vec![5u16, 6, 7];
    mem_zero(&mut v);
    assert_eq!(v, vec![0, 0, 0]);
    let src = vec![1u16, 2, 3];
    mem_cpy(&mut v, &src);
    assert_eq!(v, src);
}
