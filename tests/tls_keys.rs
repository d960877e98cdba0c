use http_rs::tls::{select_private_key, KeyError};

#[test]
fn exactly_one_key_is_selected() {
    assert_eq!(select_private_key(vec![]), Err(KeyError::NoKey));
    assert_eq!(select_private_key(vec![vec![1u8], vec![2u8]]), Err(KeyError::SeveralKeys));
    assert_eq!(select_private_key(vec![vec![7u8, 8u8]]), Ok(vec![7u8, 8u8]));
}
