//! The scenes that the viewer offers, and what its keys do.

use vstd::prelude::*;

verus! {

/// A scene to look at.
#[derive(Copy, Clone, Debug, PartialEq, Eq, Structural)]
pub enum SceneChoice {
    Plane,
    PlaneSubdivided,
    Ramp,
    FloorRampPlatform,
    StlLand,
    ObjNavTest,
    ObjDungeon,
    ObjUndulating,
}

/// How an imported mesh is brought into the scene.
#[derive(Copy, Clone, Debug, PartialEq, Eq, Structural)]
pub struct ImportOptions {
    /// The bits of the factor on every coordinate.
    pub scale: u64,
    /// Whether the mesh is turned from Y up to Z up.
    pub y_up_to_z_up: bool,
    /// Whether the mesh is moved to the origin.
    pub recenter_to_origin: bool,
}

/// Bits of the factor 0.03.
pub const LAND_SCALE_BITS: u64 = 0x3f9e_b851_eb85_1eb8;

/// Bits of the factor 1.0.
pub const UNIT_SCALE_BITS: u64 = 0x3ff0_0000_0000_0000;

impl Default for ImportOptions {
    fn default() -> (o: ImportOptions)
        ensures
            o == (ImportOptions {
                scale: LAND_SCALE_BITS,
                y_up_to_z_up: true,
                recenter_to_origin: true,
            }),
    {
        ImportOptions { scale: LAND_SCALE_BITS, y_up_to_z_up: true, recenter_to_origin: true }
    }
}

/// The name of a scene.
pub open spec fn label_of(s: SceneChoice) -> Seq<char> {
    match s {
        SceneChoice::Plane => "Plane (1 quad)"@,
        SceneChoice::PlaneSubdivided => "Plane (8\u{d7}8 subdivided)"@,
        SceneChoice::Ramp => "Ramp"@,
        SceneChoice::FloorRampPlatform => "Floor + Ramp + Platform"@,
        SceneChoice::StlLand => "STL: ./Land/Land1.stl"@,
        SceneChoice::ObjNavTest => "OBJ: ./nav_test.obj (Recast)"@,
        SceneChoice::ObjDungeon => "OBJ: ./dungeon.obj (Recast)"@,
        SceneChoice::ObjUndulating => "OBJ: ./undulating.obj (Recast)"@,
    }
}

/// The file of a scene that is read from disk.
pub open spec fn file_of(s: SceneChoice) -> Option<Seq<char>> {
    match s {
        SceneChoice::StlLand => Some("Land/Land1.stl"@),
        SceneChoice::ObjNavTest => Some("nav_test.obj"@),
        SceneChoice::ObjDungeon => Some("dungeon.obj"@),
        SceneChoice::ObjUndulating => Some("undulating.obj"@),
        _ => None,
    }
}

impl SceneChoice {
    /// The name of the scene.
    pub fn label(self) -> (s: &'static str)
        ensures
            s@ == label_of(self),
    {
        match self {
            SceneChoice::Plane => "Plane (1 quad)",
            SceneChoice::PlaneSubdivided => "Plane (8\u{d7}8 subdivided)",
            SceneChoice::Ramp => "Ramp",
            SceneChoice::FloorRampPlatform => "Floor + Ramp + Platform",
            SceneChoice::StlLand => "STL: ./Land/Land1.stl",
            SceneChoice::ObjNavTest => "OBJ: ./nav_test.obj (Recast)",
            SceneChoice::ObjDungeon => "OBJ: ./dungeon.obj (Recast)",
            SceneChoice::ObjUndulating => "OBJ: ./undulating.obj (Recast)",
        }
    }

    /// Whether the scene is read from disk.
    pub fn is_imported(self) -> (b: bool)
        ensures
            b == file_of(self) is Some,
    {
        match self {
            SceneChoice::StlLand => true,
            SceneChoice::ObjNavTest => true,
            SceneChoice::ObjDungeon => true,
            SceneChoice::ObjUndulating => true,
            _ => false,
        }
    }

    /// The file of the scene, if it is read from disk.
    pub fn file(self) -> (f: Option<&'static str>)
        ensures
            match f {
                None => file_of(self) is None,
                Some(s) => file_of(self) == Some(s@),
            },
    {
        match self {
            SceneChoice::StlLand => Some("Land/Land1.stl"),
            SceneChoice::ObjNavTest => Some("nav_test.obj"),
            SceneChoice::ObjDungeon => Some("dungeon.obj"),
            SceneChoice::ObjUndulating => Some("undulating.obj"),
            _ => None,
        }
    }

    /// The options that a scene starts with: meshes from the OBJ files are in
    /// the right unit already.
    pub fn default_import_options(self) -> (o: ImportOptions)
        ensures
            o.y_up_to_z_up && o.recenter_to_origin,
            o.scale == match self {
                SceneChoice::ObjNavTest => UNIT_SCALE_BITS,
                SceneChoice::ObjDungeon => UNIT_SCALE_BITS,
                SceneChoice::ObjUndulating => UNIT_SCALE_BITS,
                _ => LAND_SCALE_BITS,
            },
    {
        let scale: u64 = match self {
            SceneChoice::ObjNavTest => UNIT_SCALE_BITS,
            SceneChoice::ObjDungeon => UNIT_SCALE_BITS,
            SceneChoice::ObjUndulating => UNIT_SCALE_BITS,
            _ => LAND_SCALE_BITS,
        };
        ImportOptions { scale, y_up_to_z_up: true, recenter_to_origin: true }
    }
}

/// All scenes, in the order in which they are offered.
pub fn scene_options() -> (list: Vec<SceneChoice>)
    ensures
        list@ == seq![
            SceneChoice::Plane,
            SceneChoice::PlaneSubdivided,
            SceneChoice::Ramp,
            SceneChoice::FloorRampPlatform,
            SceneChoice::StlLand,
            SceneChoice::ObjNavTest,
            SceneChoice::ObjDungeon,
            SceneChoice::ObjUndulating,
        ],
{
    let list = vec![
        SceneChoice::Plane,
        SceneChoice::PlaneSubdivided,
        SceneChoice::Ramp,
        SceneChoice::FloorRampPlatform,
        SceneChoice::StlLand,
        SceneChoice::ObjNavTest,
        SceneChoice::ObjDungeon,
        SceneChoice::ObjUndulating,
    ];
    list
}

/// A key that can move the camera.
#[derive(Copy, Clone, Debug, PartialEq, Eq, Structural)]
pub enum MoveKey {
    W,
    S,
    A,
    D,
    Space,
    E,
    Q,
    Other,
}

/// The directions whose keys are held down.
#[derive(Copy, Clone, Debug, PartialEq, Eq, Structural)]
pub struct FpsKeys {
    pub forward: bool,
    pub back: bool,
    pub left: bool,
    pub right: bool,
    pub up: bool,
    pub down: bool,
}

impl FpsKeys {
    /// No key held down.
    pub fn new() -> (k: FpsKeys)
        ensures
            k == (FpsKeys {
                forward: false,
                back: false,
                left: false,
                right: false,
                up: false,
                down: false,
            }),
    {
        FpsKeys { forward: false, back: false, left: false, right: false, up: false, down: false }
    }

    /// Take note of a key; whether it moves the camera.
    pub fn apply(&mut self, key: MoveKey, down: bool) -> (handled: bool)
        ensures
            handled == (key != MoveKey::Other),
            *final(self) == match key {
                MoveKey::W => (FpsKeys { forward: down, ..*old(self) }),
                MoveKey::S => (FpsKeys { back: down, ..*old(self) }),
                MoveKey::A => (FpsKeys { left: down, ..*old(self) }),
                MoveKey::D => (FpsKeys { right: down, ..*old(self) }),
                MoveKey::Space => (FpsKeys { up: down, ..*old(self) }),
                MoveKey::E => (FpsKeys { up: down, ..*old(self) }),
                MoveKey::Q => (FpsKeys { down, ..*old(self) }),
                MoveKey::Other => *old(self),
            },
    {
        match key {
            MoveKey::W => {
                self.forward = down;
                true
            },
            MoveKey::S => {
                self.back = down;
                true
            },
            MoveKey::A => {
                self.left = down;
                true
            },
            MoveKey::D => {
                self.right = down;
                true
            },
            MoveKey::Space => {
                self.up = down;
                true
            },
            MoveKey::E => {
                self.up = down;
                true
            },
            MoveKey::Q => {
                self.down = down;
                true
            },
            MoveKey::Other => false,
        }
    }
}

} // verus!
