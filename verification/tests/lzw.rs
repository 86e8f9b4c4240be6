use compressing::lzw::{dec, enc, enc_returning_dict, Code};
use compressing::shared::{read_u16, read_u8, CodecError};

fn coded(codes: &[Code]) -> Vec<u8> {
    let mut out = Vec::new();
    for code in codes {
        let data = Code::to_be_bytes(*code);
        out.extend(data);
    }
    out
}

#[test]
fn test_basic_seq_1_encode() {
    let src = Vec::from(b"ABBABBBABBA".as_ref());
    let out = enc(&src).unwrap();
    assert_eq!(out, coded(&[65, 66, 66, 256, 257, 259, 65]));
}

#[test]
fn test_basic_seq_1_decode() {
    let src = coded(&[65, 66, 66, 256, 257, 259, 65]);
    let out = dec(&src).unwrap();
    assert_eq!(out, Vec::from(b"ABBABBBABBA".as_ref()));
}

#[test]
fn test_basic_seq_2_encode() {
    let src = Vec::from(b"ABABA".as_ref());
    let out = enc(&src).unwrap();
    assert_eq!(out, coded(&[65, 66, 256, 65]));
}

#[test]
fn test_basic_seq_2_decode() {
    let src = coded(&[65, 66, 256, 65]);
    let out = dec(&src).unwrap();
    assert_eq!(out, Vec::from(b"ABABA".as_ref()));
}

#[test]
fn test_basic_seq_3_encode() {
    let src = Vec::from(b"ABABABA".as_ref());
    let out = enc(&src).unwrap();
    assert_eq!(out, coded(&[65, 66, 256, 258]));
}

#[test]
fn test_basic_seq_3_decode() {
    let src = coded(&[65, 66, 256, 258]);
    let out = dec(&src).unwrap();
    assert_eq!(out, Vec::from(b"ABABABA".as_ref()));
}

#[test]
fn test_basic_seq_4_encode() {
    let src = Vec::from(b"ol\xE1, mundo! como vai?".as_ref());
    let out = enc(&src).unwrap();
    assert_eq!(
        out,
        vec![
            0, 111, 0, 108, 0, 225, 0, 44, 0, 32, 0, 109, 0, 117, 0, 110, 0, 100, 0, 111, 0, 33,
            0, 32, 0, 99, 0, 111, 0, 109, 0, 111, 0, 32, 0, 118, 0, 97, 0, 105, 0, 63
        ]
    );
}

#[test]
fn test_basic_seq_4_decode() {
    let src = vec![
        0, 111, 0, 108, 0, 225, 0, 44, 0, 32, 0, 109, 0, 117, 0, 110, 0, 100, 0, 111, 0, 33, 0,
        32, 0, 99, 0, 111, 0, 109, 0, 111, 0, 32, 0, 118, 0, 97, 0, 105, 0, 63,
    ];
    let out = dec(&src).unwrap();
    assert_eq!(out, Vec::from(b"ol\xE1, mundo! como vai?".as_ref()));
}

#[test]
fn test_token_reader() {
    let src = vec![1u8, 44, 0];
    assert_eq!(read_u16(&src, 0).unwrap(), Some(300));
    assert_eq!(read_u16(&src, 2).unwrap_err(), CodecError::TruncatedToken);
    assert_eq!(read_u16(&src, 3).unwrap(), None);
    assert_eq!(read_u8(&src, 0), Some(1));
    assert_eq!(read_u8(&src, 3), None);
}

#[test]
fn test_empty_round_trip() {
    assert_eq!(enc(&Vec::new()).unwrap(), Vec::<u8>::new());
    assert_eq!(dec(&Vec::new()).unwrap(), Vec::<u8>::new());
}

#[test]
fn test_single_bytes_bootstrap() {
    for i in 0..256u32 {
        let b = i as u8;
        let out = enc(&vec![b]).unwrap();
        assert_eq!(out, vec![0, b]);
        assert_eq!(dec(&out).unwrap(), vec![b]);
    }
}

#[test]
fn test_repeated_byte_round_trip() {
    let src = vec![7u8; 1000];
    let out = enc(&src).unwrap();
    assert!(out.len() < src.len());
    assert_eq!(dec(&out).unwrap(), src);
}

#[test]
fn test_self_referential_mid_stream_round_trip() {
    // A pattern that triggers the self-referential decode case in the middle
    // of the stream, with codes referencing entries assigned after it.
    let src = Vec::from(b"ABABABABABABABAB".as_ref());
    let encoded = enc(&src).unwrap();
    assert_eq!(dec(&encoded).unwrap(), src);
}

#[test]
fn test_mixed_bytes_round_trip() {
    // Deterministic pseudo-random bytes, covering values at and above 0x80.
    let mut state: u32 = 0x1234_5678;
    let mut src = Vec::new();
    for _ in 0..5000 {
        state = state.wrapping_mul(1_664_525).wrapping_add(1_013_904_223);
        src.push((state >> 24) as u8);
    }
    let encoded = enc(&src).unwrap();
    assert_eq!(dec(&encoded).unwrap(), src);
}

#[test]
fn test_encode_deterministic() {
    let src = Vec::from(b"the quick brown fox jumps over the lazy dog".as_ref());
    assert_eq!(enc(&src).unwrap(), enc(&src).unwrap());
}

#[test]
fn test_decode_deterministic() {
    let stream = coded(&[65, 66, 256, 258]);
    assert_eq!(dec(&stream).unwrap(), dec(&stream).unwrap());
}

#[test]
fn test_dictionary_growth() {
    let src = Vec::from(b"ABBABBBABBA".as_ref());
    let (out, dict) = enc_returning_dict(&src).unwrap();
    assert_eq!(out, coded(&[65, 66, 66, 256, 257, 259, 65]));
    // Six codes precede the final flush, so six entries joined the 256
    // bootstrap entries, densely from code 256 on.
    assert_eq!(dict.len(), 262);
    assert_eq!(dict[65], Vec::from(b"A".as_ref()));
    assert_eq!(dict[256], Vec::from(b"AB".as_ref()));
    assert_eq!(dict[257], Vec::from(b"BB".as_ref()));
    assert_eq!(dict[258], Vec::from(b"BA".as_ref()));
    assert_eq!(dict[259], Vec::from(b"ABB".as_ref()));
    assert_eq!(dict[260], Vec::from(b"BBA".as_ref()));
    assert_eq!(dict[261], Vec::from(b"ABBA".as_ref()));
}

#[test]
fn test_truncated_token() {
    assert_eq!(dec(&vec![0u8]).unwrap_err(), CodecError::TruncatedToken);
    // One full code word, then a dangling byte.
    assert_eq!(dec(&vec![0u8, 65, 0]).unwrap_err(), CodecError::TruncatedToken);
}

#[test]
fn test_corrupt_stream() {
    // Code 300 can never be resolved at stream start.
    assert_eq!(dec(&coded(&[300])).unwrap_err(), CodecError::CorruptStream);
    // The first code cannot be self-referential: nothing was decoded yet.
    assert_eq!(dec(&coded(&[256])).unwrap_err(), CodecError::CorruptStream);
    // A gap beyond the next assignable code in the middle of the stream.
    assert_eq!(dec(&coded(&[65, 300])).unwrap_err(), CodecError::CorruptStream);
}

#[test]
fn test_decode_dictionary_full() {
    // Each step after the first inserts one entry, so a long enough valid
    // stream must exhaust the 16-bit code space.
    let mut codes: Vec<Code> = Vec::new();
    for _ in 0..33000 {
        codes.push(0);
        codes.push(1);
    }
    let stream = coded(&codes);
    assert_eq!(dec(&stream).unwrap_err(), CodecError::DictionaryFull);
}
