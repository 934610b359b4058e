#![allow(non_snake_case)]
use gf_erasure::error::Error;
use gf_erasure::galois_field::Gf2p;
use gf_erasure::matrix::Matrix;

#[test]
fn Matrix_transpose_test() {
    let m1 = Matrix::new_from_vec(vec![vec![1, 2, 3], vec![4, 5, 6]]);

    let m2 = Matrix::new_from_vec(vec![vec![1, 4], vec![2, 5], vec![3, 6]]);

    assert_eq!(m1.transpose().data(), m2.data());
}

#[test]
fn Matrix_cauchy_test() {
    let gf_res = Gf2p::new(3, 0x0B);
    if gf_res.is_err() {
        println!("{:?}", gf_res.err().unwrap());
        return;
    }
    let gf = gf_res.unwrap();

    let _m2 = Matrix::new(1, 2, 0u8);
    let c1 = Matrix::new_cauchy_matrix(&gf, 2, 5);
    println!("{:?}", c1.unwrap().data());
}

#[test]
fn cauchy_entries_over_gf8() {
    let gf = Gf2p::new(3, 0x0B).unwrap();
    let c = Matrix::new_cauchy_matrix(&gf, 2, 5).unwrap();
    assert_eq!(c.get_row_size(), 2);
    assert_eq!(c.get_col_size(), 5);
    assert_eq!(c.data(), &vec![vec![5, 2, 7, 4, 3], vec![1, 3, 4, 7, 2]]);
}

#[test]
fn cauchy_square_submatrices_are_invertible() {
    let gf = Gf2p::new(3, 0x0B).unwrap();
    let c = Matrix::new_cauchy_matrix(&gf, 2, 5).unwrap();
    let d = c.data();
    for i in 0..2 {
        for j in 0..5 {
            assert_ne!(d[i][j], 0);
        }
    }
    for j in 0..5 {
        for k in (j + 1)..5 {
            let det = gf.add(gf.mul(d[0][j], d[1][k]), gf.mul(d[0][k], d[1][j]));
            assert_ne!(det, 0);
        }
    }
}

#[test]
fn cauchy_size_limits() {
    let gf8 = Gf2p::new(3, 0x0B).unwrap();
    assert_eq!(Matrix::new_cauchy_matrix(&gf8, 3, 5).err(), Some(Error::FieldCapacityExceeded));
    assert!(Matrix::new_cauchy_matrix(&gf8, 3, 4).is_ok());
    let ec = Gf2p::new(8, 0x1D).unwrap();
    assert_eq!(Matrix::new_cauchy_matrix(&ec, 256, 1).err(), Some(Error::TooManyFragments));
    assert_eq!(Matrix::new_cauchy_matrix(&ec, 1, 300).err(), Some(Error::TooManyFragments));
    assert_eq!(Matrix::new_cauchy_matrix(&ec, 200, 56).err(), Some(Error::FieldCapacityExceeded));
    assert!(Matrix::new_cauchy_matrix(&ec, 200, 55).is_ok());
}

#[test]
fn identity_matrix() {
    assert_eq!(Matrix::new_identity_matrix(0).err(), Some(Error::ZeroSizeMatrix));
    let m = Matrix::new_identity_matrix(3).unwrap();
    assert_eq!(m.data(), &vec![vec![1, 0, 0], vec![0, 1, 0], vec![0, 0, 1]]);
}

#[test]
fn construction_and_flattening() {
    let m = Matrix::new(2, 3, 7u8);
    assert_eq!(m.get_row_size(), 2);
    assert_eq!(m.get_col_size(), 3);
    assert_eq!(m.data(), &vec![vec![7, 7, 7], vec![7, 7, 7]]);
    let v = Matrix::new_column_vector(vec![4u8, 5, 6]);
    assert_eq!(v.get_row_size(), 3);
    assert_eq!(v.get_col_size(), 1);
    assert_eq!(v.data(), &vec![vec![4], vec![5], vec![6]]);
    let f = Matrix::new_from_vec(vec![vec![1u8, 2], vec![3, 4], vec![5, 6]]);
    assert_eq!(f.to_vector(), vec![1, 2, 3, 4, 5, 6]);
    assert_eq!(f.to_vector_u8(), vec![1, 2, 3, 4, 5, 6]);
    assert_eq!(f.transpose().to_vector_u8(), vec![1, 3, 5, 2, 4, 6]);
}

#[test]
fn append_bottom_stacks_rows() {
    let top = Matrix::new_from_vec(vec![vec![1u8, 2]]);
    let bottom = Matrix::new_from_vec(vec![vec![3u8, 4], vec![5, 6]]);
    let m = top.append_bottom(&bottom).unwrap();
    assert_eq!(m.get_row_size(), 3);
    assert_eq!(m.data(), &vec![vec![1, 2], vec![3, 4], vec![5, 6]]);
    let narrow = Matrix::new_from_vec(vec![vec![1u8]]);
    assert_eq!(top.append_bottom(&narrow).err(), Some(Error::DimensionMismatch));
}

#[test]
fn field_product_contracts_columns() {
    let gf = Gf2p::new(3, 0x0B).unwrap();
    let a = Matrix::new_from_vec(vec![vec![1u8, 2], vec![3, 4]]);
    let b = Matrix::new_from_vec(vec![vec![5u8, 6]]);
    let p = a.mul_gf(&b, &gf).unwrap();
    assert_eq!(p.get_row_size(), 2);
    assert_eq!(p.get_col_size(), 1);
    assert_eq!(p.data(), &vec![vec![2], vec![1]]);
    let c = Matrix::new_column_vector(vec![5u8, 6]);
    assert_eq!(a.mul_gf(&c, &gf).err(), Some(Error::DimensionMismatch));
}
