use aoc::y18_army::{DamageType, Error as ArmyError, Group, Unit};
use aoc::y18_cave::{Error as CaveError, MapSetting};
use aoc::y18_marbles::MarbleGame;
use aoc::y18_points::{Error as PointError, Point};
use aoc::y18_water::{BlockRange, BlockRect, Error as WaterError};
use aoc::y19_nbody::{Body, Error as BodyError, Vec3};
use aoc::y19_reactions::{Error as ReactionError, Reaction};
use aoc::y19_shuffle::{Error as ShuffleError, ShuffleTech};

#[test]
fn point_is_read_with_signs() {
    let p = Point::try_from("-1,2,-3,40").unwrap();
    assert_eq!((p.x, p.y, p.z, p.w), (-1, 2, -3, 40));
    let q = Point::try_from(" 0,0,0,0 ").unwrap();
    assert_eq!(p.mht_dist(&q), 46);
}

#[test]
fn point_errors() {
    assert!(matches!(Point::try_from("1,2,3"), Err(PointError::NotMatchPointPattern(s)) if s == "1,2,3"));
    assert!(matches!(
        Point::try_from("99999999999999999999,0,0,0"),
        Err(PointError::NotMatchPointPattern(_))
    ));
}

#[test]
fn shuffle_techniques_are_read() {
    assert_eq!(ShuffleTech::try_from("deal into new stack").unwrap(), ShuffleTech::NewStack);
    assert_eq!(ShuffleTech::try_from("cut -4").unwrap(), ShuffleTech::Cut(-4));
    assert_eq!(ShuffleTech::try_from("cut 6").unwrap(), ShuffleTech::Cut(6));
    assert_eq!(ShuffleTech::try_from("deal with increment 7").unwrap(), ShuffleTech::Increment(7));
}

#[test]
fn shuffle_technique_errors() {
    assert!(matches!(ShuffleTech::try_from("cut 9999999999"), Err(ShuffleError::InvalidCut(s)) if s == "cut 9999999999"));
    assert!(matches!(
        ShuffleTech::try_from("deal with increment 9999999999"),
        Err(ShuffleError::InvalidIncrement(_))
    ));
    assert!(matches!(ShuffleTech::try_from("shuffle well"), Err(ShuffleError::InvalidTechStr(s)) if s == "shuffle well"));
}

#[test]
fn body_is_read_at_rest() {
    let b = Body::from_str("<x=-1, y=0, z=+2>").unwrap();
    assert_eq!(b.pos, Vec3::new(-1, 0, 2));
    assert_eq!(b.vel, Vec3::new(0, 0, 0));
    assert!(matches!(Body::from_str("<x=1, y=2>"), Err(BodyError::InvalidBodyDescription(_))));
    assert!(matches!(
        Body::from_str("<x=3000000000, y=0, z=0>"),
        Err(BodyError::InvalidBodyDescription(_))
    ));
}

#[test]
fn cave_setting_is_read() {
    let lines = vec!["depth: 510".to_string(), "target: 10,12".to_string()];
    let s = MapSetting::try_from(&lines[..]).unwrap();
    assert_eq!(s.depth, 510);
    assert_eq!((s.target.r, s.target.c), (12, 10));
}

#[test]
fn cave_setting_errors() {
    let no_depth = vec!["target: 10,10".to_string()];
    assert!(matches!(MapSetting::try_from(&no_depth[..]), Err(CaveError::NoDepthInInput)));
    let no_target = vec!["depth: 510".to_string()];
    assert!(matches!(MapSetting::try_from(&no_target[..]), Err(CaveError::NoTargetInInput)));
}

#[test]
fn block_ranges_are_read() {
    assert_eq!(BlockRange::try_from("495").unwrap(), BlockRange::beg_len(495, 1));
    assert_eq!(BlockRange::try_from("2..7").unwrap(), BlockRange::beg_end(2, 8));
    assert!(matches!(BlockRange::try_from("7..2"), Err(WaterError::BlockRangeParseError(_))));
    assert!(matches!(BlockRange::try_from("a"), Err(WaterError::BlockRangeParseError(s)) if s == "a"));
}

#[test]
fn block_rects_are_read() {
    let rect = BlockRect::try_from("x=495, y=2..7").unwrap();
    let mut rows = rect.rows();
    assert_eq!(rows.next(), Some((2, BlockRange::beg_len(495, 1))));
    let rect = BlockRect::try_from("y=7, x=495..501").unwrap();
    let mut rows = rect.rows();
    assert_eq!(rows.next(), Some((7, BlockRange::beg_end(495, 502))));
    assert_eq!(rows.next(), None);
    assert!(matches!(BlockRect::try_from("z=1"), Err(WaterError::BlockRectParseFormat(_))));
    assert!(matches!(BlockRect::try_from("x=1, y=5..3"), Err(WaterError::BlockRangeParseError(s)) if s == "5..3"));
}

#[test]
fn marble_game_is_read() {
    let g = MarbleGame::new("9 players; last marble is worth 25 points").unwrap();
    assert_eq!((g.player_n, g.last_marble_ind), (9, 25));
    assert_eq!(g.simulate().1, 32);
    assert!(MarbleGame::new("no game").is_none());
}

#[test]
fn damage_types_are_read() {
    assert_eq!(DamageType::try_from("fire").unwrap(), DamageType::Fire);
    assert_eq!(DamageType::try_from("bludgeoning").unwrap(), DamageType::Bludgeoning);
    assert!(matches!(DamageType::try_from("acid"), Err(ArmyError::UnknownDamageType(s)) if s == "acid"));
}

#[test]
fn group_is_read() {
    let g = Group::try_from(
        "18 units each with 729 hit points (weak to fire; immune to cold, slashing) with an attack that does 8 radiation damage at initiative 10",
    )
    .unwrap();
    assert_eq!(g.count(), 18);
    let u = g.unit();
    assert_eq!(u.health_point(), 729);
    assert_eq!(u.damage_point(), 8);
    assert_eq!(u.damage_type(), DamageType::Radiation);
    assert_eq!(u.initiative(), 10);
    assert_eq!(u.dmg_ratio(DamageType::Fire), 2);
    assert_eq!(u.dmg_ratio(DamageType::Cold), 0);
    assert_eq!(u.dmg_ratio(DamageType::Slashing), 0);
    assert_eq!(u.dmg_ratio(DamageType::Bludgeoning), 1);
}

#[test]
fn unit_without_traits_is_read() {
    let u = Unit::try_from("each with 10 hit points with an attack that does 2 fire damage at initiative 3").unwrap();
    assert_eq!(u.health_point(), 10);
    assert_eq!(u.dmg_ratio(DamageType::Cold), 1);
}

#[test]
fn army_errors() {
    assert!(matches!(Group::try_from("no group"), Err(ArmyError::NotMatchGroupPattern(_))));
    assert!(matches!(Group::try_from("3 units of nothing"), Err(ArmyError::NotMatchWithUnitPattern(_))));
    assert!(matches!(
        Unit::try_from("each with 10 hit points (weak to acid) with an attack that does 2 fire damage at initiative 3"),
        Err(ArmyError::UnknownDamageType(s)) if s == "acid"
    ));
}

#[test]
fn reaction_is_read() {
    let r = Reaction::try_from("7 A, 1 E => 1 FUEL").unwrap();
    assert_eq!(r.output.chemical.0, "FUEL");
    assert_eq!(r.output.unit_n, 1);
    assert_eq!(r.inputs.len(), 2);
    assert_eq!(r.inputs[0].chemical.0, "A");
    assert_eq!(r.inputs[0].unit_n, 7);
    assert_eq!(r.inputs[1].chemical.0, "E");
    assert!(matches!(Reaction::try_from("A => B"), Err(ReactionError::InvalidReactionStr(_))));
}
