use dalbrack::actor::{FollowPath, Move1};
use dalbrack::grid::Pos;
use dalbrack::mob::CuriousAI;
use dalbrack::ui::DisplayMode;

#[test]
fn follow_path_steps_in_order() {
    assert!(FollowPath::try_new(Vec::new()).is_none());
    let mut f = FollowPath::try_new(vec![Pos::new(1, 0), Pos::new(2, 0), Pos::new(3, 1)]).unwrap();
    assert!(f.retain());
    assert_eq!(f.next_step(), Some(Pos::new(1, 0)));
    assert_eq!(f.next_step(), Some(Pos::new(2, 0)));
    assert!(f.retain());
    assert_eq!(f.next_step(), Some(Pos::new(3, 1)));
    assert!(!f.retain());
    assert_eq!(f.next_step(), None);
}

#[test]
fn small_types() {
    let m = Move1(Pos::new(4, 5));
    assert_eq!(m.0, Pos::new(4, 5));
    assert_eq!(CuriousAI::default().last_player_pos(), Pos::new(0, 0));
    assert_ne!(DisplayMode::Fixed(800, 600, 16), DisplayMode::FullScreen);
}
