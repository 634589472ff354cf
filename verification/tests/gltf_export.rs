use elysian_mesh::gltf_export::{buffer_layout, to_data_uri, to_padded_byte_vector, words_to_bytes, Indices};

#[test]
fn words_are_little_endian() {
    assert_eq!(words_to_bytes(&vec![1, 0x0102_0304]), vec![1, 0, 0, 0, 4, 3, 2, 1]);
    assert_eq!(words_to_bytes(&vec![]), Vec::<u8>::new());
}

#[test]
fn padding_to_four_bytes() {
    assert_eq!(to_padded_byte_vector(vec![1, 2, 3, 4, 5]), vec![1, 2, 3, 4, 5, 0, 0, 0]);
    assert_eq!(to_padded_byte_vector(vec![1, 2, 3, 4]), vec![1, 2, 3, 4]);
    assert_eq!(to_padded_byte_vector(vec![]), Vec::<u8>::new());
}

#[test]
fn data_uri_is_base64_of_padded_bytes() {
    assert_eq!(to_data_uri(vec![1, 2, 3]), "data:model/gltf-binary;base64,AQIDAA==");
    assert_eq!(to_data_uri(vec![]), "data:model/gltf-binary;base64,");
}

#[test]
fn layout_of_two_floats() {
    let words = vec![1.0f32.to_bits(), 2.0f32.to_bits()];
    let layout = buffer_layout(&words, 1, 3, 5);
    assert_eq!(layout.byte_length, 8);
    assert_eq!(layout.byte_stride, 4);
    assert_eq!(layout.count, 2);
    assert_eq!(layout.buffer, 3);
    assert_eq!(layout.buffer_view, 5);
    assert_eq!(layout.uri, "data:model/gltf-binary;base64,AACAPwAAAEA=");
}

#[test]
fn layout_of_vectors() {
    let words: Vec<u32> = (0..6).collect();
    let layout = buffer_layout(&words, 3, 0, 0);
    assert_eq!(layout.byte_length, 24);
    assert_eq!(layout.byte_stride, 12);
    assert_eq!(layout.count, 2);
}

#[test]
fn indices_round_trip() {
    let i = Indices::from_vec(vec![0, 1, 3, 3, 1, 2]);
    assert_eq!(i.as_vec(), &vec![0, 1, 3, 3, 1, 2]);
    assert_eq!(i.into_vec(), vec![0, 1, 3, 3, 1, 2]);
}
