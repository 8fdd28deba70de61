//! The body of a human character: its colours and what it wears on its skin.

use vstd::prelude::*;

verus! {

/// What can be worn on a part of the body.
#[derive(Debug, Clone, Copy, PartialEq, Eq, Structural)]
pub enum BodyAccesory {
    Piercing,
    Tattoo,
}

/// The left or the right half of the body.
#[derive(Debug, Clone, Copy, PartialEq, Eq, Structural)]
pub enum BodySide {
    Left,
    Right,
}

/// The upper or the lower one of a pair.
#[derive(Debug, Clone, Copy, PartialEq, Eq, Structural)]
pub enum BodyVertical {
    Upper,
    Lower,
}

/// A finger of a hand.
#[derive(Debug, Clone, Copy, PartialEq, Eq, Structural)]
pub enum FingerType {
    Thumb,
    Index,
    Middle,
    Ring,
    Pinky,
}

/// A toe of a foot.
#[derive(Debug, Clone, Copy, PartialEq, Eq, Structural)]
pub enum ToeType {
    Big,
    Second,
    Middle,
    Fourth,
    Little,
}

/// A part of the body, from the head down.
#[derive(Debug, Clone, Copy, PartialEq, Eq, Structural)]
pub enum BodyPart {
    Scalp,
    Forehead,
    Temple(BodySide),
    Eyebrow(BodySide),
    Eyelid(BodyVertical),
    Eye(BodySide),
    Ear(BodySide),
    Cheek(BodySide),
    Nose,
    Nostril(BodySide),
    Lip(BodyVertical),
    Teeth,
    Tongue,
    Jaw,
    Chin,
    Throat,
    Nape,
    NeckSide(BodySide),
    Chest,
    Breast(BodySide),
    Sternum,
    Abdomen,
    Navel,
    Pelvis,
    UpperBack,
    LowerBack,
    ShoulderBlade(BodySide),
    Spine,
    Rib(BodySide),
    Waist(BodySide),
    Shoulder(BodySide),
    UpperArm(BodySide),
    Elbow(BodySide),
    Forearm(BodySide),
    Wrist(BodySide),
    Hand(BodySide),
    Palm(BodySide),
    Finger(BodySide, FingerType),
    Knuckle(BodySide, FingerType),
    Hip(BodySide),
    Thigh(BodySide),
    Knee(BodySide),
    Shin(BodySide),
    Calf(BodySide),
    Ankle(BodySide),
    Foot(BodySide),
    Heel(BodySide),
    Sole(BodySide),
    Toe(BodySide, ToeType),
}

/// An accessory and the part of the body that wears it.
pub type BodyMod = (BodyPart, BodyAccesory);

#[derive(Debug, Clone, Copy, PartialEq, Eq, Structural)]
pub enum SkinColor {
    Bronze,
}

#[derive(Debug, Clone, Copy, PartialEq, Eq, Structural)]
pub enum EyeColor {
    Hazel,
    Gray,
}

#[derive(Debug, Clone, Copy, PartialEq, Eq, Structural)]
pub enum HairColor {
    Brunette,
}

/// The body of a human.
#[derive(Debug, PartialEq, Eq)]
pub struct HumanBody {
    skin_color: SkinColor,
    hair_color: HairColor,
    eye_color: EyeColor,
    body_mods: Vec<BodyMod>,
}

impl HumanBody {
    pub closed spec fn skin_color(&self) -> SkinColor {
        self.skin_color
    }

    pub closed spec fn hair_color(&self) -> HairColor {
        self.hair_color
    }

    pub closed spec fn eye_color(&self) -> EyeColor {
        self.eye_color
    }

    /// The accessories that the body wears, in the order in which it got
    /// them.
    pub closed spec fn body_mods(&self) -> Seq<BodyMod> {
        self.body_mods@
    }
}

/// A human character.
#[derive(Debug, PartialEq, Eq)]
pub struct Human {
    body: HumanBody,
}

impl Human {
    /// The body of this human.
    pub closed spec fn body(&self) -> HumanBody {
        self.body
    }

    /// A human with bronze skin, brunette hair and hazel eyes that wears no
    /// accessory.
    pub fn new() -> (h: Self)
        ensures
            h.body().skin_color() == SkinColor::Bronze,
            h.body().hair_color() == HairColor::Brunette,
            h.body().eye_color() == EyeColor::Hazel,
            h.body().body_mods() == Seq::<BodyMod>::empty(),
    {
        Human {
            body: HumanBody {
                skin_color: SkinColor::Bronze,
                hair_color: HairColor::Brunette,
                eye_color: EyeColor::Hazel,
                body_mods: Vec::new(),
            },
        }
    }
}

} // verus!
