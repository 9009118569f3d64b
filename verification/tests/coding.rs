use fec_codec::convolutional::ConvolutionalEncoder;
use fec_codec::errors::CodecError;
use fec_codec::turbo::TurboEncoder;
use fec_codec::viterbi::ViterbiDecoder;

#[test]
fn test_encoder() {
    let mut encoder = ConvolutionalEncoder::new(3, vec![7, 5]).unwrap();

    let input = vec![true, false, true, true, false];
    let output = encoder.encode(&input);

    let expected = vec![
        true, true, true, false, true, true, false, true, true, false,
    ];

    assert_eq!(output, expected);
}

#[test]
fn test_turbo_encoder() {
    let mut encoder = TurboEncoder::new(vec![7, 5]).unwrap();
    let input = vec![true, false, true, true, false];
    let output = encoder.encode(&input);
    assert!(output.len() > input.len());

    for i in 0..input.len() {
        assert_eq!(output[i], input[i]);
    }
}

#[test]
fn test_rate_invariant() {
    let inputs: Vec<Vec<bool>> = vec![
        vec![],
        vec![true],
        vec![true, false, true, true, false],
        vec![false; 8],
    ];
    for polys in [vec![7], vec![7, 5], vec![7, 5, 3]] {
        let mut encoder = ConvolutionalEncoder::new(3, polys.clone()).unwrap();
        for input in &inputs {
            encoder.reset();
            let output = encoder.encode(input);
            assert_eq!(output.len(), input.len() * polys.len());
        }
    }
}

#[test]
fn test_turbo_length_invariant() {
    let mut encoder = TurboEncoder::new(vec![7, 5]).unwrap();
    for input in [vec![], vec![true], vec![true, false, true, true, false]] {
        let output = encoder.encode(&input);
        assert_eq!(output.len(), input.len() * (1 + 2 * 2));
    }
}

#[test]
fn test_turbo_systematic_prefix() {
    let mut encoder = TurboEncoder::new(vec![7, 5]).unwrap();
    let input = vec![false, true, true, false, true, false, true];
    let output = encoder.encode(&input);
    assert_eq!(&output[..input.len()], &input[..]);
}

#[test]
fn test_turbo_concrete_vector() {
    let mut encoder = TurboEncoder::new(vec![7, 5]).unwrap();
    let input = vec![true, false, true, true, false];
    let output = encoder.encode(&input);
    let expected = vec![
        // systematic
        true, false, true, true, false, //
        // parity from the first encoder
        true, true, true, false, true, true, false, true, true, false, //
        // parity from the second encoder, fed the interleaved input
        true, true, false, true, true, false, false, false, true, true,
    ];
    assert_eq!(output, expected);
}

#[test]
fn test_interleave_concrete() {
    let encoder = TurboEncoder::new(vec![7, 5]).unwrap();
    let input = vec![true, false, true, true, false];
    let output = encoder.interleave(&input);
    assert_eq!(output, vec![true, true, false, false, true]);
}

#[test]
fn test_interleave_bijection_concrete() {
    // Lengths that are not multiples of seven: every position receives
    // exactly one input bit.
    for len in [1usize, 2, 3, 5, 8, 12, 13] {
        let encoder = TurboEncoder::new(vec![7, 5]).unwrap();
        let mut seen = vec![false; len];
        for i in 0..len {
            let pos = (i * 7 + 5) % len;
            assert!(!seen[pos]);
            seen[pos] = true;
        }
        assert!(seen.iter().all(|&s| s));
        // The interleaver places input position i at (i*7 + 5) % len.
        let mut input = vec![false; len];
        if len > 2 {
            input[2] = true;
        }
        let out = encoder.interleave(&input);
        if len > 2 {
            assert_eq!(out[(2 * 7 + 5) % len], true);
        }
        assert_eq!(out.len(), len);
    }
}

#[test]
fn test_round_trip_no_noise() {
    let message = vec![
        true, false, true, true, false, false, true, false, true, true, true, false, false, true,
        false, true,
    ];
    let mut encoder = ConvolutionalEncoder::new(3, vec![7, 5]).unwrap();
    let coded = encoder.encode(&message);
    let decoder = ViterbiDecoder::new(3, vec![7, 5]).unwrap();
    let decoded = decoder.decode(&coded).unwrap();
    assert_eq!(decoded, message);
}

#[test]
fn test_round_trip_short_message() {
    let message = vec![true, false, true, true, false];
    let mut encoder = ConvolutionalEncoder::new(3, vec![7, 5]).unwrap();
    let coded = encoder.encode(&message);
    let decoder = ViterbiDecoder::new(3, vec![7, 5]).unwrap();
    let decoded = decoder.decode(&coded).unwrap();
    assert_eq!(decoded, message);
}

#[test]
fn test_single_bit_error_correction() {
    let message = vec![
        true, false, true, true, false, false, true, false, true, true, true, false, false, true,
        false, true,
    ];
    let mut encoder = ConvolutionalEncoder::new(3, vec![7, 5]).unwrap();
    let coded = encoder.encode(&message);
    let decoder = ViterbiDecoder::new(3, vec![7, 5]).unwrap();
    // Flip one bit at a time; errors away from the unterminated tail are
    // corrected.
    for flip in 0..coded.len() - 8 {
        let mut noisy = coded.clone();
        noisy[flip] = !noisy[flip];
        let decoded = decoder.decode(&noisy).unwrap();
        assert_eq!(decoded, message, "flipped position {}", flip);
    }
}

#[test]
fn test_empty_inputs() {
    let mut encoder = ConvolutionalEncoder::new(3, vec![7, 5]).unwrap();
    assert_eq!(encoder.encode(&[]), Vec::<bool>::new());

    let mut turbo = TurboEncoder::new(vec![7, 5]).unwrap();
    assert_eq!(turbo.encode(&[]), Vec::<bool>::new());
    assert_eq!(turbo.interleave(&[]), Vec::<bool>::new());

    let decoder = ViterbiDecoder::new(3, vec![7, 5]).unwrap();
    assert_eq!(decoder.decode(&[]).unwrap(), Vec::<bool>::new());
}

#[test]
fn test_encoder_state_persistence() {
    let mut split = ConvolutionalEncoder::new(3, vec![7, 5]).unwrap();
    let mut whole = ConvolutionalEncoder::new(3, vec![7, 5]).unwrap();

    let mut out = split.encode(&[true]);
    out.extend(split.encode(&[false, true]));
    let expected = whole.encode(&[true, false, true]);
    assert_eq!(out, expected);
    assert_eq!(split.get_state(), whole.get_state());

    split.reset();
    assert_eq!(split.get_state(), 0);
}

#[test]
fn test_get_rate() {
    let encoder = ConvolutionalEncoder::new(3, vec![7, 5]).unwrap();
    assert_eq!(encoder.get_rate(), (1, 2));
    let encoder = ConvolutionalEncoder::new(4, vec![17, 13, 15]).unwrap();
    assert_eq!(encoder.get_rate(), (1, 3));
}

#[test]
fn test_invalid_polynomial() {
    assert!(matches!(
        ConvolutionalEncoder::new(3, vec![9]),
        Err(CodecError::InvalidPolynomial)
    ));
    assert!(matches!(
        ConvolutionalEncoder::new(3, vec![7, 18]),
        Err(CodecError::InvalidPolynomial)
    ));
    assert!(matches!(
        ViterbiDecoder::new(3, vec![80]),
        Err(CodecError::InvalidPolynomial)
    ));
    assert!(matches!(
        TurboEncoder::new(vec![7, 29]),
        Err(CodecError::InvalidPolynomial)
    ));
}

#[test]
fn test_invalid_configuration() {
    assert!(matches!(
        ConvolutionalEncoder::new(0, vec![7]),
        Err(CodecError::InvalidConfiguration)
    ));
    assert!(matches!(
        ConvolutionalEncoder::new(33, vec![7]),
        Err(CodecError::InvalidConfiguration)
    ));
    assert!(matches!(
        ConvolutionalEncoder::new(3, vec![]),
        Err(CodecError::InvalidConfiguration)
    ));
    assert!(matches!(
        ViterbiDecoder::new(0, vec![7]),
        Err(CodecError::InvalidConfiguration)
    ));
    assert!(matches!(TurboEncoder::new(vec![]), Err(CodecError::InvalidConfiguration)));
}

#[test]
fn test_decode_invalid_length() {
    let decoder = ViterbiDecoder::new(3, vec![7, 5]).unwrap();
    assert!(matches!(
        decoder.decode(&[true, false, true]),
        Err(CodecError::InvalidInputLength)
    ));
}

#[test]
fn test_round_trip_other_constraint_length() {
    let message = vec![true, true, false, true, false, false, true, true];
    let mut encoder = ConvolutionalEncoder::new(4, vec![17, 13]).unwrap();
    let coded = encoder.encode(&message);
    let decoder = ViterbiDecoder::new(4, vec![17, 13]).unwrap();
    let decoded = decoder.decode(&coded).unwrap();
    assert_eq!(decoded, message);
}
