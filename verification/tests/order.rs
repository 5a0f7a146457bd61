use sphinx::order::{rank_bytes, rank_names, Rank};

#[test]
fn rank_names_orders_by_bytes() {
    assert_eq!(rank_names("a", "b"), Rank::Before);
    assert_eq!(rank_names("b", "a"), Rank::After);
    assert_eq!(rank_names("a", "a"), Rank::Same);
    assert_eq!(rank_names("a", "ab"), Rank::Before);
    assert_eq!(rank_names("Z", "a"), Rank::Before);
    assert_eq!(rank_names("", ""), Rank::Same);
}

#[test]
fn rank_bytes_agrees_with_slice_order() {
    assert_eq!(rank_bytes(&[1, 2, 3], &[1, 2, 4]), Rank::Before);
    assert_eq!(rank_bytes(&[1, 2, 3], &[1, 2]), Rank::After);
    assert_eq!(rank_bytes(&[], &[0]), Rank::Before);
}
