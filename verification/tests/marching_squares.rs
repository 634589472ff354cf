use elysian_mesh::marching_squares::{Contour, Side};

#[test]
fn contour_sides() {
    assert!(Contour::EMPTY.sides().is_empty());
    assert!(Contour::FULL.sides().is_empty());
    assert_eq!(Contour::UL.sides(), vec![[Side::Upper, Side::Left]]);
    assert_eq!(Contour::INV_UL.sides(), vec![[Side::Upper, Side::Left]]);
    assert_eq!(Contour::UP.sides(), vec![[Side::Left, Side::Right]]);
    assert_eq!(Contour::RIGHT.sides(), vec![[Side::Upper, Side::Lower]]);
    assert_eq!(
        Contour::UL_DR.sides(),
        vec![[Side::Upper, Side::Left], [Side::Lower, Side::Right]]
    );
    assert_eq!(
        Contour::UR_DL.sides(),
        vec![[Side::Upper, Side::Right], [Side::Lower, Side::Left]]
    );
}

#[test]
fn complement_has_the_same_sides_but_saddles_swap() {
    for bits in 0..16usize {
        let c = Contour::from_bits(bits).unwrap();
        let n = !c;
        if c == Contour::UL_DR || c == Contour::UR_DL {
            assert_ne!(c.sides(), n.sides());
        } else {
            assert_eq!(c.sides(), n.sides());
        }
    }
}

#[test]
fn contour_from_samples() {
    assert_eq!(Contour::from_samples([true, false, false, false]), Contour::DL);
    assert_eq!(Contour::from_samples([false, false, false, true]), Contour::UR);
    assert_eq!(Contour::from_samples([true, true, false, false]), Contour::DOWN);
    assert_eq!(Contour::from_samples([true; 4]), Contour::FULL);
    assert_eq!(Contour::from_samples([false; 4]), Contour::EMPTY);
}

#[test]
fn contour_bits_and_sign_changes() {
    assert_eq!(Contour::UP.bits(), 0b0011);
    assert_eq!(Contour::from_bits(16), None);
    assert_eq!(Contour::from_bits_truncate(0b10011), Contour::UP);
    assert!(Contour::UL.has_sign_change(Contour::UP));
    assert!(!Contour::UP.has_sign_change(Contour::UP));
    assert!(Contour::UP.has_sign_change(Contour::LEFT));
    assert!(Contour::FULL.contains(Contour::UL));
    assert!(!Contour::UL.contains(Contour::UP));
    assert_eq!(Contour::UP.iter(), vec![Contour::UR, Contour::UL]);
    assert_eq!(Contour::UL | Contour::DR, Contour::UL_DR);
    assert_eq!(Contour::FULL & Contour::LEFT, Contour::LEFT);
    assert_eq!(Contour::UP ^ Contour::UL, Contour::UR);
    assert!(Contour::all().is_all());
    assert!(Contour::empty().is_empty());
}

#[test]
fn segments_join_exactly_the_sides_that_change_sign() {
    let flag = |s: Side| match s {
        Side::Upper => Contour::UP,
        Side::Lower => Contour::DOWN,
        Side::Left => Contour::LEFT,
        Side::Right => Contour::RIGHT,
    };
    for bits in 0..16usize {
        let c = Contour::from_bits(bits).unwrap();
        let joined: Vec<Side> = c.sides().into_iter().flat_map(|[a, b]| {
            assert_ne!(a, b);
            [a, b]
        }).collect();
        for s in [Side::Upper, Side::Lower, Side::Left, Side::Right] {
            let count = joined.iter().filter(|t| **t == s).count();
            assert_eq!(count, if c.has_sign_change(flag(s)) { 1 } else { 0 }, "contour {bits}, side {s:?}");
        }
    }
}
