use boulder_dash::keys::Direction;

#[test]
fn direction_debug_names() {
    assert_eq!(format!("{:?}", Direction::Idle), "Idle");
    assert_eq!(format!("{:?}", Direction::Left), "Left");
    assert_eq!(format!("{:?}", Direction::Right), "Right");
    assert_eq!(format!("{:?}", Direction::Up), "Up");
    assert_eq!(format!("{:?}", Direction::Down), "Down");
}
