//! Creature traits: size classes, stances, age, skills and phenotype.
use vstd::prelude::*;

verus! {

/// How large a creature is, smallest first.
#[derive(Clone, Copy, Debug, PartialEq, Eq, Structural, PartialOrd, Ord)]
pub enum CreatureSize {
    Insect,
    Tiny,
    Small,
    Medium,
    Large,
    Giant,
    Leviathan(),
}

impl Default for CreatureSize {
    /// An adult human's size.
    fn default() -> (r: Self)
        ensures
            r == CreatureSize::Medium,
    {
        CreatureSize::Medium
    }
}

/// Finer size classes, each named after a typical animal.
#[derive(Clone, Copy, Debug, PartialEq, Eq, Structural)]
pub enum Size {
    Bug,
    Cat,
    Monkey,
    Wolf,
    Man,
    Tiger,
    Bear,
    Horse,
    Bison,
    Hippopotamus,
    Elephant,
    Leviathan,
}

/// How a creature holds itself.
#[derive(Clone, Copy, Debug, PartialEq, Eq, Structural)]
pub enum Stance {
    Dynamic,
    Standing,
    Crouching,
    Kneeling,
    Prone,
}

impl Default for Stance {
    fn default() -> (r: Self)
        ensures
            r == Stance::Standing,
    {
        Stance::Standing
    }
}

/// Age in years.
#[derive(Clone, Copy, Debug, Default, PartialEq, Eq, Structural)]
pub struct Age(pub u16);

/// Skill levels, one per skill.
#[derive(Clone, Debug, Default)]
pub struct SkillList {
    survival: u8,
    alcoholism: u8,
    dagger: u8,
    sword: u8,
    listen: u8,
    notice: u8,
    sneak: u8,
    ambush: u8,
    climb: u8,
    athletics: u8,
    dueling: u8,
    melee: u8,
    daggers: u8,
    axes: u8,
    swords: u8,
    staves: u8,
    greatsword: u8,
    boxing: u8,
    kick: u8,
    grappling: u8,
    bow: u8,
    sling: u8,
    javelin: u8,
    fencing: u8,
    shield: u8,
    twofisted: u8,
    marksman: u8,
    pistol: u8,
    herbalism: u8,
    mycology: u8,
    zoology: u8,
    cooking: u8,
    husbandry: u8,
    alchemy: u8,
    poisons: u8,
    apothecary: u8,
    diagnosis: u8,
    first_aid: u8,
    surgery: u8,
    mining: u8,
    smithing: u8,
    gemcutting: u8,
    locks: u8,
    mechanics: u8,
    trapping: u8,
    carpentry: u8,
    leatherwork: u8,
    masonry: u8,
    attunement: u8,
    ritual: u8,
    divination: u8,
    summoning: u8,
    enchantment: u8,
    bargain: u8,
    law: u8,
    runes: u8,
    trance: u8,
}

/// Special abilities; none are defined yet.
#[derive(Clone, Debug, Default)]
pub struct AbilityList {}

/// What a creature is born with.
#[derive(Debug, PartialEq, Eq)]
pub struct Phenotype {
    size: CreatureSize,
    anatomy_template: (),
    natural_weapons: (),
    natural_armour: (),
    natural_inventory: (),
    innate_abilities: (),
    traits: (),
}

impl Phenotype {
    pub closed spec fn spec_size(&self) -> CreatureSize {
        self.size
    }

    /// The size class this phenotype gives.
    pub fn size(&self) -> (r: &CreatureSize)
        ensures
            *r == self.spec_size(),
    {
        &self.size
    }
}

impl Clone for Phenotype {
    fn clone(&self) -> (r: Self)
        ensures
            r.spec_size() == self.spec_size(),
    {
        Phenotype {
            size: self.size,
            anatomy_template: (),
            natural_weapons: (),
            natural_armour: (),
            natural_inventory: (),
            innate_abilities: (),
            traits: (),
        }
    }
}

impl Default for Phenotype {
    /// A phenotype of medium size.
    fn default() -> (r: Self)
        ensures
            r.spec_size() == CreatureSize::Medium,
    {
        Phenotype {
            size: CreatureSize::Medium,
            anatomy_template: (),
            natural_weapons: (),
            natural_armour: (),
            natural_inventory: (),
            innate_abilities: (),
            traits: (),
        }
    }
}

} // verus!
