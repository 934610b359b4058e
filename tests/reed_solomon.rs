use gf_erasure::error::Error;
use gf_erasure::reed_solomon::ReedSolomon;

#[test]
fn encode() {
    let data: Vec<u8> = vec![0x01, 0x02, 0x03, 0x04, 0x05, 0x06, 0x07, 0x08, 0x09, 0x10];

    let rs_res = ReedSolomon::new(data.len() as u8, 2);
    let rs = rs_res.unwrap();

    let enc_res = rs.encode(data);
    let is_err = enc_res.is_err();
    if is_err {
        println!("{:?}", enc_res.err().unwrap());
        assert_ne!(is_err, true);
    }
}

#[test]
fn encode_keeps_data_and_appends_parity() {
    let data: Vec<u8> = vec![0x01, 0x02, 0x03, 0x04, 0x05, 0x06, 0x07, 0x08, 0x09, 0x10];
    let rs = ReedSolomon::new(10, 2).unwrap();
    let out = rs.encode(data.clone()).unwrap();
    assert_eq!(out.len(), 12);
    assert_eq!(&out[..10], &data[..]);
    assert_eq!(&out[10..], &[249, 132]);
}

#[test]
fn encode_rejects_wrong_lengths() {
    let rs = ReedSolomon::new(10, 2).unwrap();
    assert_eq!(rs.encode(vec![1u8; 9]).err(), Some(Error::SizeMismatch));
    assert_eq!(rs.encode(vec![1u8; 11]).err(), Some(Error::SizeMismatch));
}

#[test]
fn encode_twice_gives_the_same_bytes() {
    let data: Vec<u8> = vec![0xFF, 0x00, 0x10, 0x20, 0x7F];
    let rs = ReedSolomon::new(5, 3).unwrap();
    let first = rs.encode(data.clone()).unwrap();
    let second = rs.encode(data).unwrap();
    assert_eq!(first, second);
}

#[test]
fn new_rejects_bad_fragment_counts() {
    assert_eq!(ReedSolomon::new(0, 2).err(), Some(Error::ZeroSizeMatrix));
    assert_eq!(ReedSolomon::new(200, 56).err(), Some(Error::FieldCapacityExceeded));
    assert!(ReedSolomon::new(200, 55).is_ok());
}

#[test]
fn generator_is_identity_over_cauchy() {
    let rs = ReedSolomon::new(3, 2).unwrap();
    let gm = rs.generator_matrix();
    assert_eq!(gm.get_row_size(), 5);
    assert_eq!(gm.get_col_size(), 3);
    let rows = gm.data();
    assert_eq!(rows[0], vec![1, 0, 0]);
    assert_eq!(rows[1], vec![0, 1, 0]);
    assert_eq!(rows[2], vec![0, 0, 1]);
    for i in 3..5 {
        for j in 0..3 {
            assert_ne!(rows[i][j], 0);
        }
    }
}

#[test]
fn zero_parity_returns_the_data() {
    let rs = ReedSolomon::new(4, 0).unwrap();
    assert_eq!(rs.encode(vec![9u8, 8, 7, 6]).unwrap(), vec![9, 8, 7, 6]);
}
