use waypanel::{AppendMethod, PanelPosition, ZoneMap};

#[test]
fn new_mapping_has_no_zone() {
    let zones: ZoneMap<'_, String> = ZoneMap::new();
    assert!(zones.positions().is_empty());
    assert!(zones.get(PanelPosition::TopLeft).is_none());
    assert!(zones.get(PanelPosition::Background).is_none());
}

#[test]
fn elements_of_one_zone_keep_their_order() {
    let (a, b, c) = ("a".to_string(), "b".to_string(), "c".to_string());
    let mut zones = ZoneMap::new();
    zones.place(PanelPosition::TopRight, &a, AppendMethod::Append);
    zones.place(PanelPosition::TopLeft, &b, AppendMethod::Prepend);
    zones.place(PanelPosition::TopRight, &c, AppendMethod::SetContent);
    assert_eq!(zones.positions(), &vec![PanelPosition::TopRight, PanelPosition::TopLeft]);
    assert_eq!(
        zones.get(PanelPosition::TopRight).unwrap(),
        &vec![(&a, AppendMethod::Append), (&c, AppendMethod::SetContent)]
    );
    assert_eq!(zones.get(PanelPosition::TopLeft).unwrap(), &vec![(&b, AppendMethod::Prepend)]);
    assert!(zones.get(PanelPosition::BottomLeft).is_none());
}

#[test]
fn every_position_can_be_a_zone() {
    let element = 1u8;
    let all = [
        PanelPosition::TopLeft,
        PanelPosition::TopCenter,
        PanelPosition::TopRight,
        PanelPosition::BottomLeft,
        PanelPosition::BottomCenter,
        PanelPosition::BottomRight,
        PanelPosition::Background,
    ];
    let mut zones = ZoneMap::new();
    for position in all.iter() {
        zones.place(*position, &element, AppendMethod::Append);
    }
    assert_eq!(zones.positions().len(), 7);
    for position in all.iter() {
        assert_eq!(zones.get(*position).unwrap().len(), 1);
    }
}

#[test]
fn one_element_may_stand_twice() {
    let element = 3u8;
    let mut zones = ZoneMap::new();
    zones.place(PanelPosition::Background, &element, AppendMethod::Append);
    zones.place(PanelPosition::Background, &element, AppendMethod::Append);
    assert_eq!(
        zones.get(PanelPosition::Background).unwrap(),
        &vec![(&element, AppendMethod::Append), (&element, AppendMethod::Append)]
    );
}
