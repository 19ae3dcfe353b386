use gridsight::creature::{Age, CreatureSize, Phenotype, Stance};
use gridsight::mobs::{PlayerAvatar, PlayerAvatarBundle};

#[test]
fn default_phenotype_is_medium() {
    let ph = Phenotype::default();
    assert_eq!(*ph.size(), CreatureSize::Medium);
    assert_eq!(ph.clone(), ph);
}

#[test]
fn creature_defaults() {
    assert_eq!(CreatureSize::default(), CreatureSize::Medium);
    assert_eq!(Stance::default(), Stance::Standing);
    assert_eq!(Age::default(), Age(0));
    assert!(CreatureSize::Insect < CreatureSize::Giant);
    assert_eq!(PlayerAvatarBundle::default().avatar, PlayerAvatar);
}

#[test]
fn texture_for_floor_and_wall() {
    assert_eq!(gridsight::tiles::texture_index_for_cell(true), 843);
    assert_eq!(gridsight::tiles::texture_index_for_cell(false), 0);
}
