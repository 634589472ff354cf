use elysian_mesh::util::CollectArray;

#[test]
fn collect_array_of_matching_length() {
    let v: Vec<u8> = vec![1, 2, 3];
    let r: Result<[u8; 3], Vec<u8>> = v.try_collect_array();
    assert_eq!(r, Ok([1, 2, 3]));
}

#[test]
fn collect_array_of_other_length_gives_items_back() {
    let v: Vec<u8> = vec![1, 2, 3, 4];
    let r: Result<[u8; 3], Vec<u8>> = v.try_collect_array();
    assert_eq!(r, Err(vec![1, 2, 3, 4]));
}

#[test]
fn collect_array_of_nothing() {
    let v: Vec<u8> = Vec::new();
    let r: Result<[u8; 0], Vec<u8>> = v.try_collect_array();
    assert_eq!(r, Ok([]));
}

#[test]
fn collect_array_unchecked() {
    let v: Vec<u16> = vec![7, 8];
    let a: [u16; 2] = v.collect_array();
    assert_eq!(a, [7, 8]);
}
