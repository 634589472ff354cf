use std::ops::Not;

use elysian_mesh::marching_squares::Contour;

#[test]
fn test_contour_flags() {
    assert!(Contour::empty().neighbours(Contour::empty(), Contour::UP));
    assert!(Contour::empty().neighbours(Contour::empty(), Contour::LEFT));
    assert!(Contour::empty().neighbours(Contour::empty(), Contour::DOWN));
    assert!(Contour::empty().neighbours(Contour::empty(), Contour::RIGHT));

    assert!(Contour::empty().neighbours(Contour::UL, Contour::UP));
    assert!(Contour::empty().neighbours(Contour::UL, Contour::LEFT));
    assert!(!Contour::empty().neighbours(Contour::UL, Contour::DOWN));
    assert!(!Contour::empty().neighbours(Contour::UL, Contour::RIGHT));

    assert!(Contour::empty().neighbours(Contour::UR, Contour::UP));
    assert!(!Contour::empty().neighbours(Contour::UR, Contour::LEFT));
    assert!(!Contour::empty().neighbours(Contour::UR, Contour::DOWN));
    assert!(Contour::empty().neighbours(Contour::UR, Contour::RIGHT));

    assert!(Contour::empty().neighbours(Contour::UP, Contour::UP));
    assert!(!Contour::empty().neighbours(Contour::UP, Contour::LEFT));
    assert!(!Contour::empty().neighbours(Contour::UP, Contour::DOWN));
    assert!(!Contour::empty().neighbours(Contour::UP, Contour::RIGHT));

    assert!(!Contour::empty().neighbours(Contour::DR, Contour::UP));
    assert!(!Contour::empty().neighbours(Contour::DR, Contour::LEFT));
    assert!(Contour::empty().neighbours(Contour::DR, Contour::DOWN));
    assert!(Contour::empty().neighbours(Contour::DR, Contour::RIGHT));

    assert!(!Contour::empty().neighbours(Contour::DR | Contour::UL, Contour::UP));
    assert!(!Contour::empty().neighbours(Contour::DR | Contour::UL, Contour::LEFT));
    assert!(!Contour::empty().neighbours(Contour::DR | Contour::UL, Contour::DOWN));
    assert!(!Contour::empty().neighbours(Contour::DR | Contour::UL, Contour::RIGHT));

    assert!(!Contour::empty().neighbours(Contour::RIGHT, Contour::UP));
    assert!(!Contour::empty().neighbours(Contour::RIGHT, Contour::LEFT));
    assert!(!Contour::empty().neighbours(Contour::RIGHT, Contour::DOWN));
    assert!(Contour::empty().neighbours(Contour::RIGHT, Contour::RIGHT));

    assert!(!Contour::empty().neighbours(Contour::DL.not(), Contour::UP));
    assert!(!Contour::empty().neighbours(Contour::DL.not(), Contour::LEFT));
    assert!(!Contour::empty().neighbours(Contour::DL.not(), Contour::DOWN));
    assert!(!Contour::empty().neighbours(Contour::DL.not(), Contour::RIGHT));

    assert!(!Contour::empty().neighbours(Contour::DL, Contour::UP));
    assert!(Contour::empty().neighbours(Contour::DL, Contour::LEFT));
    assert!(Contour::empty().neighbours(Contour::DL, Contour::DOWN));
    assert!(!Contour::empty().neighbours(Contour::DL, Contour::RIGHT));

    assert!(!Contour::empty().neighbours(Contour::LEFT, Contour::UP));
    assert!(Contour::empty().neighbours(Contour::LEFT, Contour::LEFT));
    assert!(!Contour::empty().neighbours(Contour::LEFT, Contour::DOWN));
    assert!(!Contour::empty().neighbours(Contour::LEFT, Contour::RIGHT));

    assert!(!Contour::empty().neighbours(Contour::UR | Contour::DL, Contour::UP));
    assert!(!Contour::empty().neighbours(Contour::UR | Contour::DL, Contour::LEFT));
    assert!(!Contour::empty().neighbours(Contour::UR | Contour::DL, Contour::DOWN));
    assert!(!Contour::empty().neighbours(Contour::UR | Contour::DL, Contour::RIGHT));

    assert!(!Contour::empty().neighbours(Contour::DR.not(), Contour::UP));
    assert!(!Contour::empty().neighbours(Contour::DR.not(), Contour::LEFT));
    assert!(!Contour::empty().neighbours(Contour::DR.not(), Contour::DOWN));
    assert!(!Contour::empty().neighbours(Contour::DR.not(), Contour::RIGHT));

    assert!(!Contour::empty().neighbours(Contour::DOWN, Contour::UP));
    assert!(!Contour::empty().neighbours(Contour::DOWN, Contour::LEFT));
    assert!(Contour::empty().neighbours(Contour::DOWN, Contour::DOWN));
    assert!(!Contour::empty().neighbours(Contour::DOWN, Contour::RIGHT));

    assert!(!Contour::empty().neighbours(Contour::UR.not(), Contour::UP));
    assert!(!Contour::empty().neighbours(Contour::UR.not(), Contour::LEFT));
    assert!(!Contour::empty().neighbours(Contour::UR.not(), Contour::DOWN));
    assert!(!Contour::empty().neighbours(Contour::UR.not(), Contour::RIGHT));

    assert!(!Contour::empty().neighbours(Contour::UL.not(), Contour::UP));
    assert!(!Contour::empty().neighbours(Contour::UL.not(), Contour::LEFT));
    assert!(!Contour::empty().neighbours(Contour::UL.not(), Contour::DOWN));
    assert!(!Contour::empty().neighbours(Contour::UL.not(), Contour::RIGHT));

    assert!(!Contour::empty().neighbours(Contour::all(), Contour::UP));
    assert!(!Contour::empty().neighbours(Contour::all(), Contour::LEFT));
    assert!(!Contour::empty().neighbours(Contour::all(), Contour::DOWN));
    assert!(!Contour::empty().neighbours(Contour::all(), Contour::RIGHT));
}
