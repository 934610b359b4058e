use gf_erasure::galois_field::Gf2p;

#[test]
fn it_works() {
    assert_eq!(2 + 2, 4);
    assert!(Gf2p::new(8, 0x1D).is_ok());
}
