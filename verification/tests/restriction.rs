use raw_map::restriction::RestrictionType;

#[test]
fn every_kind() {
    for kind in ["no_left_turn", "no_right_turn", "no_straight_on", "no_u_turn", "no_anything"] {
        assert_eq!(RestrictionType::new(kind), RestrictionType::BanTurns);
    }
    for kind in ["only_left_turn", "only_right_turn", "only_straight_on"] {
        assert_eq!(RestrictionType::new(kind), RestrictionType::OnlyAllowTurns);
    }
}

#[test]
fn times_are_stripped() {
    assert_eq!(
        RestrictionType::new("no_left_turn @ (Mo-Fr 06:00-09:00, 15:00-18:30)"),
        RestrictionType::BanTurns
    );
    assert_eq!(
        RestrictionType::new("only_straight_on @ (Sa) @ (Su)"),
        RestrictionType::OnlyAllowTurns
    );
    assert_eq!(RestrictionType::new("no_u_turn @ "), RestrictionType::BanTurns);
}

#[test]
fn unknown_kinds() {
    for text in ["", "no_left_turn ", "no_left_turn @", "No_left_turn", " @ no_left_turn", "give_way"] {
        assert_eq!(RestrictionType::recognize(text), None);
    }
    assert_eq!(RestrictionType::recognize("no_u_turn@x"), None);
    assert_eq!(RestrictionType::recognize("\u{e9} @ no_u_turn"), None);
}
