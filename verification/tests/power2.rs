use elysian_mesh::power2::{InvalidPowerOf2, Power2U16, Power2U8};

#[test]
fn powers_of_two_are_accepted() {
    for i in 0..8 {
        assert_eq!(Power2U8::new(1 << i).map(|p| p.get()), Some(1 << i));
    }
    for i in 0..16 {
        assert_eq!(Power2U16::new(1 << i).map(|p| p.get()), Some(1 << i));
    }
}

#[test]
fn other_values_are_refused() {
    assert!(Power2U8::new(0).is_none());
    assert!(Power2U8::new(3).is_none());
    assert!(Power2U8::new(255).is_none());
    assert!(Power2U16::new(0).is_none());
    assert!(Power2U16::new(0x300).is_none());
}

#[test]
fn conversions() {
    let p: Result<Power2U8, InvalidPowerOf2> = Power2U8::try_from(16u8);
    assert_eq!(p.map(|p| p.get()), Ok(16));
    assert!(Power2U8::try_from(6u8).is_err());
    assert_eq!(u8::from(Power2U8::new(64).unwrap()), 64);
    assert!(Power2U16::try_from(1024u16).is_ok());
    assert!(Power2U16::try_from(1025u16).is_err());
}

#[test]
fn error_message() {
    assert_eq!(InvalidPowerOf2.message(), "Invalid power of 2");
}
