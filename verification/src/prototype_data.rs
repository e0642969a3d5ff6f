//! Descriptors of the kinds of entity that can be placed.

use crate::position::BoundingBox;
use crate::rcid::RcId;
use vstd::prelude::*;

verus! {

/// The largest distance a prototype may state, in map-space units: a thousand
/// tiles. It bounds the radii of a pole and the extent of a collision box.
pub const MAX_REACH: i64 = 1_000_000_000;

/// The most tiles that a footprint can be wide or high: as many as a
/// collision box within [`MAX_REACH`] of the position can overlap.
pub const MAX_TILES: u32 = 2_000;

/// What makes a prototype a pole, in map-space units.
#[derive(Clone, Copy, Debug, PartialEq, Eq, Structural)]
pub struct PoleData {
    /// Half the side of the square area that the pole powers.
    pub supply_radius: i64,
    /// The longest wire that the pole can hold.
    pub wire_distance: i64,
}

impl PoleData {
    /// Both radii lie between zero and [`MAX_REACH`].
    pub open spec fn wf(self) -> bool {
        &&& 0 <= self.supply_radius <= MAX_REACH
        &&& 0 <= self.wire_distance <= MAX_REACH
    }
}

/// An immutable description of one kind of entity.
#[derive(Debug)]
pub struct EntityPrototype {
    pub type_: String,
    pub name: String,
    pub tile_width: u32,
    pub tile_height: u32,
    /// The footprint about the entity's position, facing north.
    pub collision_box: BoundingBox,
    pub uses_power: bool,
    pub pole_data: Option<PoleData>,
}

/// What the game's data says of a kind of entity, as far as it is read;
/// distances in map-space units.
#[derive(Debug)]
pub struct RawPrototype {
    pub type_: String,
    pub name: String,
    pub tile_width: Option<u32>,
    pub tile_height: Option<u32>,
    pub collision_box: BoundingBox,
    /// The kind of its energy source, if it has one.
    pub energy_source: Option<String>,
    pub supply_area_distance: Option<i64>,
    pub maximum_wire_distance: Option<i64>,
}

impl EntityPrototype {
    /// The prototype that the game's data `raw` describes, found under the
    /// kind `kind`: a tile wide and high unless the data says otherwise; a
    /// power consumer if it is a generator or its energy source is electric;
    /// a pole, with radii of nought unless the data gives them, if its kind
    /// is that of electric poles.
    pub open spec fn spec_from_raw(kind: Seq<char>, raw: RawPrototype) -> EntityPrototype {
        EntityPrototype {
            type_: raw.type_,
            name: raw.name,
            tile_width: match raw.tile_width {
                Some(w) => w,
                None => 1,
            },
            tile_height: match raw.tile_height {
                Some(h) => h,
                None => 1,
            },
            collision_box: raw.collision_box,
            uses_power: kind == "generator"@ || (raw.energy_source is Some
                && raw.energy_source->0@ == "electric"@),
            pole_data: if kind == "electric-pole"@ {
                Some(
                    PoleData {
                        supply_radius: match raw.supply_area_distance {
                            Some(d) => d,
                            None => 0,
                        },
                        wire_distance: match raw.maximum_wire_distance {
                            Some(d) => d,
                            None => 0,
                        },
                    },
                )
            } else {
                None
            },
        }
    }

    /// The prototype that the game's data `raw` describes, found under the
    /// kind `kind`.
    pub fn from_raw(kind: &String, raw: RawPrototype) -> (r: EntityPrototype)
        ensures
            r == Self::spec_from_raw(kind@, raw),
    {
        let generator = *kind == "generator".to_owned();
        let pole = *kind == "electric-pole".to_owned();
        let electric = match &raw.energy_source {
            Some(source) => *source == "electric".to_owned(),
            None => false,
        };
        let pole_data = if pole {
            Some(
                PoleData {
                    supply_radius: match raw.supply_area_distance {
                        Some(d) => d,
                        None => 0,
                    },
                    wire_distance: match raw.maximum_wire_distance {
                        Some(d) => d,
                        None => 0,
                    },
                },
            )
        } else {
            None
        };
        EntityPrototype {
            type_: raw.type_,
            name: raw.name,
            tile_width: match raw.tile_width {
                Some(w) => w,
                None => 1,
            },
            tile_height: match raw.tile_height {
                Some(h) => h,
                None => 1,
            },
            collision_box: raw.collision_box,
            uses_power: generator || electric,
            pole_data,
        }
    }

    /// The collision box stays within [`MAX_REACH`] of the position, the
    /// footprint is between one and [`MAX_TILES`] tiles wide and high, and
    /// the pole data, if any, is well formed. A pole stands on its
    /// footprint: its collision box reaches to all four sides of its
    /// position.
    pub open spec fn wf(&self) -> bool {
        &&& 1 <= self.tile_width <= MAX_TILES
        &&& 1 <= self.tile_height <= MAX_TILES
        &&& -MAX_REACH <= self.collision_box.min.x <= MAX_REACH
        &&& -MAX_REACH <= self.collision_box.min.y <= MAX_REACH
        &&& -MAX_REACH <= self.collision_box.max.x <= MAX_REACH
        &&& -MAX_REACH <= self.collision_box.max.y <= MAX_REACH
        &&& self.pole_data is Some ==> self.pole_data->0.wf() && self.stands_on_footprint()
    }

    /// Whether the collision box reaches to all four sides of the position.
    pub open spec fn stands_on_footprint(&self) -> bool {
        &&& self.collision_box.min.x < 0 < self.collision_box.max.x
        &&& self.collision_box.min.y < 0 < self.collision_box.max.y
    }

    pub open spec fn spec_is_pole(&self) -> bool {
        self.pole_data is Some
    }

    /// Whether the prototype is well formed.
    pub fn is_valid(&self) -> (r: bool)
        ensures
            r == self.wf(),
    {
        let b = &self.collision_box;
        let boxed = -MAX_REACH <= b.min.x && b.min.x <= MAX_REACH && -MAX_REACH <= b.min.y && b.min.y
            <= MAX_REACH && -MAX_REACH <= b.max.x && b.max.x <= MAX_REACH && -MAX_REACH <= b.max.y
            && b.max.y <= MAX_REACH;
        let tiles = 1 <= self.tile_width && self.tile_width <= MAX_TILES && 1 <= self.tile_height
            && self.tile_height <= MAX_TILES;
        let pole = match self.pole_data {
            Some(p) => 0 <= p.supply_radius && p.supply_radius <= MAX_REACH && 0 <= p.wire_distance
                && p.wire_distance <= MAX_REACH && b.min.x < 0 && 0 < b.max.x && b.min.y < 0 && 0
                < b.max.y,
            None => true,
        };
        tiles && boxed && pole
    }

    /// Whether the kind of the prototype is that of an electric pole.
    pub open spec fn spec_is_electric_pole(&self) -> bool {
        self.type_@ == "electric-pole"@
    }

    /// Whether the kind of the prototype is that of an electric pole.
    pub fn is_electric_pole(&self) -> (r: bool)
        ensures
            r == self.spec_is_electric_pole(),
    {
        let kind = "electric-pole".to_owned();
        self.type_ == kind
    }

    /// Whether entities of this kind are poles.
    pub fn is_pole(&self) -> (r: bool)
        ensures
            r == self.spec_is_pole(),
    {
        self.pole_data.is_some()
    }
}

/// A shared handle to a prototype; handles compare by identity.
pub type EntityPrototypeRef = RcId<EntityPrototype>;

/// The catalogue of prototypes, looked up by exact name.
#[derive(Debug)]
pub struct EntityPrototypeDict(pub Vec<EntityPrototypeRef>);

impl EntityPrototypeDict {
    /// Whether the catalogue holds a prototype called `name`.
    pub open spec fn has(&self, name: Seq<char>) -> bool {
        exists|i: int| 0 <= i < self.0@.len() && (#[trigger] self.0@[i]).value().name@ == name
    }

    /// Whether the prototype at place `i` is the first called `name`.
    pub open spec fn is_first(&self, name: Seq<char>, i: int) -> bool {
        &&& 0 <= i < self.0@.len()
        &&& self.0@[i].value().name@ == name
        &&& forall|j: int| 0 <= j < i ==> (#[trigger] self.0@[j]).value().name@ != name
    }

    /// The first prototype called `name`.
    pub open spec fn spec_get(&self, name: Seq<char>) -> EntityPrototypeRef {
        self.0@[choose|i: int| self.is_first(name, i)]
    }

    /// The first prototype called `name`, if there is one.
    pub fn get(&self, name: &String) -> (r: Option<EntityPrototypeRef>)
        ensures
            r is Some <==> self.has(name@),
            r is Some ==> r->0 == self.spec_get(name@) && r->0.value().name@ == name@,
    {
        let mut i: usize = 0;
        while i < self.0.len()
            invariant
                0 <= i <= self.0@.len(),
                forall|j: int| 0 <= j < i ==> (#[trigger] self.0@[j]).value().name@ != name@,
            decreases self.0@.len() - i,
        {
            let same = *name == self.0[i].get().name;
            if same {
                proof {
                    assert(self.is_first(name@, i as int));
                    let k = choose|k: int| self.is_first(name@, k);
                    assert(self.is_first(name@, k));
                    if k < i {
                        assert(self.0@[k].value().name@ != name@);
                    }
                    if i < k {
                        assert(self.0@[i as int].value().name@ != name@);
                    }
                }
                return Some(self.0[i].share());
            }
            i = i + 1;
        }
        None
    }
}

} // verus!
