use grid_world::human::{BodyAccesory, BodyPart, BodySide, FingerType, Human};

#[test]
fn new_humans_are_alike() {
    assert_eq!(Human::new(), Human::new());
    let shown = format!("{:?}", Human::new());
    assert!(shown.contains("Bronze"));
    assert!(shown.contains("Brunette"));
    assert!(shown.contains("Hazel"));
    assert!(shown.contains("body_mods: []"));
}

#[test]
fn body_parts_compare_by_side_and_finger() {
    assert_eq!(
        BodyPart::Finger(BodySide::Left, FingerType::Ring),
        BodyPart::Finger(BodySide::Left, FingerType::Ring)
    );
    assert_ne!(
        BodyPart::Finger(BodySide::Left, FingerType::Ring),
        BodyPart::Finger(BodySide::Right, FingerType::Ring)
    );
    assert_ne!(BodyAccesory::Piercing, BodyAccesory::Tattoo);
}
