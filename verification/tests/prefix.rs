use cmx_rdma::prefix::prefix_key;

#[test]
fn prefix_keys_are_little_endian_and_distinct() {
    let mut a = [0u8; 16];
    a[0] = 1;
    let mut b = [0u8; 16];
    b[15] = 1;
    assert_eq!(prefix_key(&a), 1u128);
    assert_eq!(prefix_key(&b), 1u128 << 120);
    assert_ne!(prefix_key(&a), prefix_key(&b));
}
