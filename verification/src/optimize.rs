//! The course of an optimisation: from the entities of a blueprint to the
//! candidate poles among which a solver chooses, and from the chosen poles
//! back to the model and the blueprint.

use crate::better_bp::BlueprintEntities;
use crate::better_bp::BlueprintEntity;
use crate::better_bp::EntityId;
use crate::bp_model::importable;
use crate::bp_model::spec_from_bp_entity;
use crate::bp_model::BpModel;
use crate::bp_model::ModelEntity;
use crate::bp_model::WorldEntity;
use crate::bp_model::cable_under;
use crate::bp_model::has_room;
use crate::bp_model::numbered_from;
use crate::bp_model::kept_of;
use crate::bp_model::number_in;
use crate::bp_model::numbered;
use crate::bp_model::spec_linkable;
use crate::pole_graph::count_added;
use crate::pole_graph::finds_room;
use crate::pole_graph::id_of;
use crate::pole_graph::node_id;
use crate::pole_graph::number_of;
use crate::pole_graph::wired;
use crate::pole_graph::WithPosition;
use crate::pole_solver::connections::geometry_ok;
use crate::pole_solver::connections::PoleConnector;
use crate::pole_solver::connections::PrettyPoleConnector;
use crate::pole_solver::connections::MAX_SPAN;
use crate::position::MapPosition;
use crate::position::TilePosition;
use crate::position::MAX_COORD;
use crate::position::UNITS_PER_TILE;
use crate::pole_graph::pair_length;
use crate::pole_graph::pole_index;
use crate::pole_graph::reach_pair;
use crate::pole_graph::CandPoleGraph;
use crate::position::TileBoundingBox;
use crate::prototype_data::EntityPrototype;
use crate::prototype_data::EntityPrototypeDict;
use crate::prototype_data::EntityPrototypeRef;
use crate::tables::id_map;
use crate::tables::IdMap;
use vstd::prelude::*;

verus! {

/// Why an optimisation could not go on.
#[derive(Debug)]
pub enum OptimizeError {
    /// The entity under this id has no prototype in the catalogue, or a
    /// prototype that is not well formed, or stands outside the world, or
    /// has the largest number there is.
    BadEntity(EntityId),
    /// The prototype at this place among the poles to use is not well
    /// formed or not square.
    BadPole(usize),
    /// The area to search reaches beyond the world.
    AreaTooLarge,
    /// A chosen pole is not well formed or stands outside the world, or an
    /// edge between two chosen poles is too long.
    BadSolution,
    /// Too few ids are left for the chosen poles.
    NoIdLeft,
}

/// The farthest from the origin that a side of the search area may lie,
/// in tiles.
pub const MAX_AREA_COORD: i32 = 1_999_000_000;

/// The most tiles by which the search area may be grown.
pub const MAX_EXPAND: i32 = 100_000_000;

/// Whether entity `e` of a blueprint can stand in a model.
pub open spec fn usable_entity(dict: &EntityPrototypeDict, e: BlueprintEntity) -> bool {
    importable(dict, e.data) && e.id.0 < u32::MAX
}

/// Whether poles of prototype `p` can be candidates.
pub open spec fn usable_pole(p: EntityPrototype) -> bool {
    &&& p.wf()
    &&& p.tile_width == p.tile_height
}

/// Whether every side of `area` lies within [`MAX_AREA_COORD`] of the origin.
pub open spec fn usable_area(area: TileBoundingBox) -> bool {
    &&& -MAX_AREA_COORD <= area.min.x <= MAX_AREA_COORD
    &&& -MAX_AREA_COORD <= area.min.y <= MAX_AREA_COORD
    &&& -MAX_AREA_COORD <= area.max.x <= MAX_AREA_COORD
    &&& -MAX_AREA_COORD <= area.max.y <= MAX_AREA_COORD
}

/// Whether `kinds` holds a prototype that says what `p` says.
pub open spec fn among_kinds(kinds: Seq<EntityPrototypeRef>, p: EntityPrototypeRef) -> bool {
    exists|k: int| 0 <= k < kinds.len() && (#[trigger] kinds[k]).value() == p.value()
}

/// The first entity of `bp` that cannot stand in a model, if there is one.
fn first_bad_entity(bp: &BlueprintEntities, dict: &EntityPrototypeDict) -> (r: Option<usize>)
    requires
        bp.wf(),
    ensures
        match r {
            None => forall|i: int|
                0 <= i < bp.list().len() ==> usable_entity(dict, #[trigger] bp.list()[i]),
            Some(at) => at < bp.list().len() && !usable_entity(dict, bp.list()[at as int])
                && forall|i: int| 0 <= i < at ==> usable_entity(dict, #[trigger] bp.list()[i]),
        },
{
    let mut i: usize = 0;
    while i < bp.len()
        invariant
            0 <= i <= bp.list().len(),
            forall|j: int| 0 <= j < i ==> usable_entity(dict, #[trigger] bp.list()[j]),
        decreases bp.list().len() - i,
    {
        let e = bp.at(i);
        let good = match dict.get(&e.data.name) {
            Some(_) => {
                let entity = WorldEntity::from_bp_entity(dict, &e.data);
                entity.is_valid() && e.id.0 < u32::MAX
            },
            None => false,
        };
        if !good {
            return Some(i);
        }
        i = i + 1;
    }
    None
}

/// The first prototype of `poles` of which no pole can be a candidate, if
/// there is one.
fn first_bad_pole(poles: &Vec<EntityPrototypeRef>) -> (r: Option<usize>)
    ensures
        match r {
            None => forall|i: int|
                0 <= i < poles@.len() ==> usable_pole((#[trigger] poles@[i]).value()),
            Some(at) => at < poles@.len() && !usable_pole(poles@[at as int].value()) && forall|
                i: int,
            |
                0 <= i < at ==> usable_pole((#[trigger] poles@[i]).value()),
        },
{
    let mut i: usize = 0;
    while i < poles.len()
        invariant
            0 <= i <= poles@.len(),
            forall|j: int| 0 <= j < i ==> usable_pole((#[trigger] poles@[j]).value()),
        decreases poles@.len() - i,
    {
        let p = poles[i].get();
        let good = p.is_valid() && p.tile_width == p.tile_height;
        if !good {
            return Some(i);
        }
        i = i + 1;
    }
    None
}

/// Whether `p` is one of `kinds`, by identity.
fn is_among(kinds: &Vec<EntityPrototypeRef>, p: &EntityPrototypeRef) -> (r: bool)
    ensures
        r ==> among_kinds(kinds@, *p),
{
    let mut i: usize = 0;
    while i < kinds.len()
        invariant
            0 <= i <= kinds@.len(),
        decreases kinds@.len() - i,
    {
        if kinds[i].ptr_eq(p) {
            assert(kinds@[i as int].value() == p.value());
            return true;
        }
        i = i + 1;
    }
    false
}

impl BpModel {
    /// Removes the entities whose prototype is one of `kinds`, by identity.
    /// Whether two handles are one is for the handles to tell; whatever they
    /// tell, an entity leaves only if its prototype reads as one of `kinds`
    /// does, and the entities that stay keep their places on every tile and
    /// their cables to poles that stay.
    pub fn remove_kinds(&mut self, kinds: &Vec<EntityPrototypeRef>)
        requires
            old(self).wf(),
        ensures
            final(self).wf(),
            final(self).spec_next_id() == old(self).spec_next_id(),
            forall|id: EntityId| #[trigger]
                final(self).has(id) ==> old(self).has(id) && final(self).entities()[id].entity
                    == old(self).entities()[id].entity && final(self).entities()[id].neighbors()
                    == old(self).entities()[id].neighbors().intersect(final(self).entities().dom()),
            forall|id: EntityId|
                #[trigger] final(self).has(id) && old(self).entities()[id].neighbors().subset_of(
                    final(self).entities().dom(),
                ) ==> final(self).entities()[id] == old(self).entities()[id],
            forall|id: EntityId|
                old(self).has(id) && !(#[trigger] final(self).has(id)) ==> among_kinds(
                    kinds@,
                    old(self).entities()[id].entity.prototype,
                ),
            kinds@.len() == 0 ==> forall|id: EntityId|
                old(self).has(id) ==> #[trigger] final(self).has(id),
            forall|t: TilePosition| #[trigger]
                final(self).bucket(t) == kept_of(old(self).bucket(t), final(self).entities().dom()),
    {
        let keep = |e: &ModelEntity| -> (b: bool)
            ensures
                !b ==> among_kinds(kinds@, e.entity.prototype),
            { !is_among(kinds, &e.entity.prototype) };
        self.retain(keep);
        proof {
            if kinds@.len() == 0 {
                assert forall|id: EntityId| old(self).has(id) implies #[trigger] self.has(id) by {
                    if !self.has(id) {
                        assert(among_kinds(kinds@, old(self).entities()[id].entity.prototype));
                    }
                }
            }
        }
    }
}

/// What the search for poles starts from.
pub struct Prepared {
    /// The entities of the blueprint that stay.
    pub model: BpModel,
    /// The area in which poles are looked for.
    pub bounding_box: TileBoundingBox,
    /// The model with every candidate pole on top.
    pub pole_model: BpModel,
    /// The node of every pole of `pole_model`, by its id.
    pub index: IdMap,
    /// The poles of `pole_model`, each with the consumers of `model` that
    /// it would power, and an edge between every two that a wire could join.
    pub candidates: CandPoleGraph,
}

/// Whether `area` is the tight bounding box of `model`, grown by `expand`
/// tiles on every side.
pub open spec fn is_search_area(model: &BpModel, expand: i32, area: TileBoundingBox) -> bool {
    exists|b: TileBoundingBox|
        #![trigger model.is_bounding_box(b)]
        {
            &&& model.is_bounding_box(b)
            &&& area.min.x == b.min.x - expand
            &&& area.min.y == b.min.y - expand
            &&& area.max.x == b.max.x + expand
            &&& area.max.y == b.max.y + expand
        }
}

/// Whether `model` holds entities of `bp` as `dict` describes them, and
/// all of them but some whose prototype says what one of `removed` says.
pub open spec fn models(
    bp: &BlueprintEntities,
    dict: &EntityPrototypeDict,
    removed: Seq<EntityPrototypeRef>,
    model: &BpModel,
) -> bool {
    &&& model.wf()
    &&& bp.is_next_id(model.spec_next_id())
    &&& forall|id: EntityId| #[trigger]
        model.has(id) ==> bp.has(id) && model.entities()[id].entity == spec_from_bp_entity(
            dict,
            bp.entity(id).data,
        )
    &&& forall|id: EntityId|
        bp.has(id) && !(#[trigger] model.has(id)) ==> among_kinds(
            removed,
            spec_from_bp_entity(dict, bp.entity(id).data).prototype,
        )
}

/// Whether `p` holds the candidate poles for `model` in its area: the
/// model with a pole of `poles` wherever one fits the area and overlaps
/// nothing, and the graph of all its poles.
pub open spec fn offers(p: Prepared, poles: Seq<EntityPrototypeRef>) -> bool {
    let idx = id_map(p.index);
    let graph = p.candidates;
    &&& p.pole_model.wf()
    &&& p.model.extended_by(
        &p.pole_model,
        p.model.fitting(p.model.placeable(BpModel::slots(p.bounding_box, poles))),
    )
    &&& graph.wf()
    &&& pole_index(&p.pole_model, graph.nodes(), idx)
    &&& forall|i: int|
        0 <= i < graph.nodes().len() ==> (#[trigger] graph.nodes()[i]).entity
            == p.pole_model.entities()[node_id(idx, i as u32)].entity && graph.nodes()[i].entity.wf()
            && graph.nodes()[i].powered() == p.model.spec_powered_by(graph.nodes()[i].entity)
    &&& forall|e: (u32, u32)| #[trigger]
        graph.links().contains_key(e) ==> reach_pair(&p.pole_model, idx, e) && graph.links()[e]
            == pair_length(&p.pole_model, idx, e)
    &&& crate::pole_graph::few_in_reach(&p.pole_model) || crate::pole_graph::roomy(
        p.pole_model.entities().dom().len(),
    ) ==> forall|a: EntityId, b: EntityId| #[trigger]
        crate::pole_graph::in_reach(&p.pole_model, a, b) ==> graph.links().contains_key(
            crate::graph::pair(idx[a], idx[b]),
        )
}

/// Two models that hold the same entities at the same places have the same
/// search area.
pub proof fn lemma_one_search_area(
    m1: &BpModel,
    m2: &BpModel,
    expand: i32,
    a1: TileBoundingBox,
    a2: TileBoundingBox,
)
    requires
        m1.wf(),
        m2.wf(),
        forall|id: EntityId| #[trigger] m1.has(id) <==> m2.has(id),
        forall|id: EntityId| #[trigger]
            m1.has(id) ==> m1.entities()[id].entity == m2.entities()[id].entity,
        is_search_area(m1, expand, a1),
        is_search_area(m2, expand, a2),
    ensures
        a1 == a2,
{
    assert forall|t: TilePosition|
        m1.buckets().contains_key(t.key()) <==> #[trigger] m2.buckets().contains_key(t.key()) by {
        if m1.buckets().contains_key(t.key()) {
            let id = m1.bucket(t)[0];
            assert(m1.bucket(t).contains(id));
            assert(m1.occupies(id, t));
            assert(m2.occupies(id, t));
            assert(m2.bucket(t).contains(id));
        }
        if m2.buckets().contains_key(t.key()) {
            let id = m2.bucket(t)[0];
            assert(m2.bucket(t).contains(id));
            assert(m2.occupies(id, t));
            assert(m1.has(id));
            assert(m1.occupies(id, t));
            assert(m1.bucket(t).contains(id));
        }
    }
    let b1 = choose|b: TileBoundingBox|
        #![trigger m1.is_bounding_box(b)]
        m1.is_bounding_box(b) && a1.min.x == b.min.x - expand && a1.min.y == b.min.y - expand
            && a1.max.x == b.max.x + expand && a1.max.y == b.max.y + expand;
    let b2 = choose|b: TileBoundingBox|
        #![trigger m2.is_bounding_box(b)]
        m2.is_bounding_box(b) && a2.min.x == b.min.x - expand && a2.min.y == b.min.y - expand
            && a2.max.x == b.max.x + expand && a2.max.y == b.max.y + expand;
    let none1 = m1.buckets().dom() =~= Set::empty();
    let none2 = m2.buckets().dom() =~= Set::empty();
    if !none1 {
        let k = choose|k: (i32, i32)| m1.buckets().dom().contains(k);
        let t = TilePosition { x: k.0, y: k.1 };
        assert(t.key() == k);
        assert(m2.buckets().contains_key(t.key()));
        assert(m2.buckets().dom().contains(k));
    }
    if !none2 {
        let k = choose|k: (i32, i32)| m2.buckets().dom().contains(k);
        let t = TilePosition { x: k.0, y: k.1 };
        assert(t.key() == k);
        assert(m2.buckets().contains_key(t.key()));
        assert(m1.buckets().contains_key(t.key()));
        assert(m1.buckets().dom().contains(k));
    }
    assert(none1 == none2);
    if !none1 {
        let t = choose|t: TilePosition| #[trigger]
            m1.buckets().contains_key(t.key()) && t.x == b1.min.x;
        assert(m2.buckets().contains_key(t.key()));
        assert(b2.contains(t));
        let t = choose|t: TilePosition| #[trigger]
            m2.buckets().contains_key(t.key()) && t.x == b2.min.x;
        assert(m1.buckets().contains_key(t.key()));
        assert(b1.contains(t));
        let t = choose|t: TilePosition| #[trigger]
            m1.buckets().contains_key(t.key()) && t.y == b1.min.y;
        assert(m2.buckets().contains_key(t.key()));
        assert(b2.contains(t));
        let t = choose|t: TilePosition| #[trigger]
            m2.buckets().contains_key(t.key()) && t.y == b2.min.y;
        assert(m1.buckets().contains_key(t.key()));
        assert(b1.contains(t));
        let t = choose|t: TilePosition| #[trigger]
            m1.buckets().contains_key(t.key()) && t.x + 1 == b1.max.x;
        assert(m2.buckets().contains_key(t.key()));
        assert(b2.contains(t));
        let t = choose|t: TilePosition| #[trigger]
            m2.buckets().contains_key(t.key()) && t.x + 1 == b2.max.x;
        assert(m1.buckets().contains_key(t.key()));
        assert(b1.contains(t));
        let t = choose|t: TilePosition| #[trigger]
            m1.buckets().contains_key(t.key()) && t.y + 1 == b1.max.y;
        assert(m2.buckets().contains_key(t.key()));
        assert(b2.contains(t));
        let t = choose|t: TilePosition| #[trigger]
            m2.buckets().contains_key(t.key()) && t.y + 1 == b2.max.y;
        assert(m1.buckets().contains_key(t.key()));
        assert(b1.contains(t));
    }
    assert(b1.min.x == b2.min.x && b1.min.y == b2.min.y && b1.max.x == b2.max.x && b1.max.y
        == b2.max.y);
}

/// What `prepare` answers to a blueprint `bp`, the catalogue `dict`, the
/// poles to remove and to use, and the tiles by which to grow the area.
pub open spec fn prepares(
    bp: &BlueprintEntities,
    dict: &EntityPrototypeDict,
    remove_poles: Seq<EntityPrototypeRef>,
    use_poles: Seq<EntityPrototypeRef>,
    expand: i32,
    r: Result<Prepared, OptimizeError>,
) -> bool {
    let entities_fit = forall|i: int|
        0 <= i < bp.list().len() ==> usable_entity(dict, #[trigger] bp.list()[i]);
    let poles_fit = forall|i: int|
        0 <= i < use_poles.len() ==> usable_pole((#[trigger] use_poles[i]).value());
    &&& remove_poles.len() == 0 && entities_fit && poles_fit && -MAX_EXPAND <= expand <= MAX_EXPAND
        && (exists|m: BpModel, a: TileBoundingBox| #[trigger]
        is_search_area(&m, expand, a) && models(bp, dict, remove_poles, &m) && usable_area(a))
        ==> r is Ok
    &&& match r {
        Err(OptimizeError::BadEntity(id)) => exists|at: int|
            0 <= at < bp.list().len() && (#[trigger] bp.list()[at]).id == id && !usable_entity(
                dict,
                bp.list()[at],
            ) && forall|i: int| 0 <= i < at ==> usable_entity(dict, #[trigger] bp.list()[i]),
        Err(OptimizeError::BadPole(at)) => entities_fit && at < use_poles.len() && !usable_pole(
            use_poles[at as int].value(),
        ) && forall|i: int| 0 <= i < at ==> usable_pole((#[trigger] use_poles[i]).value()),
        Err(OptimizeError::AreaTooLarge) => entities_fit && poles_fit && (!(-MAX_EXPAND <= expand
            <= MAX_EXPAND) || exists|m: BpModel, a: TileBoundingBox| #[trigger]
            is_search_area(&m, expand, a) && models(bp, dict, remove_poles, &m) && !usable_area(a)),
        Err(_) => false,
        Ok(p) => {
            &&& entities_fit
            &&& poles_fit
            &&& -MAX_EXPAND <= expand <= MAX_EXPAND
            &&& models(bp, dict, remove_poles, &p.model)
            &&& is_search_area(&p.model, expand, p.bounding_box)
            &&& usable_area(p.bounding_box)
            &&& offers(p, use_poles)
        },
    }
}

/// Builds the model of a blueprint, takes out the entities of the kinds
/// `remove_poles`, and lays out the candidate poles of the kinds `use_poles`
/// in the bounding box of what is left, grown by `expand` tiles.
///
/// The first entity that cannot stand in a model, or else the first
/// prototype of which no pole can be a candidate, is reported. With all of
/// them in order the result is the prepared search, unless `expand` is out
/// of range or the area of what is left does not fit the world. Where
/// nothing is to be removed, what is left is the whole blueprint.
pub fn prepare(
    bp: &BlueprintEntities,
    dict: &EntityPrototypeDict,
    remove_poles: &Vec<EntityPrototypeRef>,
    use_poles: &Vec<EntityPrototypeRef>,
    expand: i32,
) -> (r: Result<Prepared, OptimizeError>)
    requires
        bp.wf(),
    ensures
        prepares(bp, dict, remove_poles@, use_poles@, expand, r),
{
    match first_bad_entity(bp, dict) {
        Some(at) => {
            return Err(OptimizeError::BadEntity(bp.at(at).id()));
        },
        None => {},
    }
    match first_bad_pole(use_poles) {
        Some(at) => {
            return Err(OptimizeError::BadPole(at));
        },
        None => {},
    }
    let mut model = BpModel::from_bp_entities(bp, dict);
    let ghost whole = model;
    if remove_poles.len() > 0 {
        model.remove_kinds(remove_poles);
    }
    proof {
        assert(models(bp, dict, remove_poles@, &model)) by {
            assert forall|id: EntityId| #[trigger] model.has(id) implies bp.has(id)
                && model.entities()[id].entity == spec_from_bp_entity(dict, bp.entity(id).data) by {
                assert(whole.has(id));
            }
            assert forall|id: EntityId| bp.has(id) && !(#[trigger] model.has(id)) implies among_kinds(
                remove_poles@,
                spec_from_bp_entity(dict, bp.entity(id).data).prototype,
            ) by {
                assert(whole.has(id));
            }
        }
    }
    if expand < -MAX_EXPAND || expand > MAX_EXPAND {
        return Err(OptimizeError::AreaTooLarge);
    }
    let area = model.expanded_bounding_box(expand);
    proof {
        assert(is_search_area(&model, expand, area));
        if remove_poles@.len() == 0 {
            assert forall|m: BpModel, a: TileBoundingBox| #[trigger]
                is_search_area(&m, expand, a) && models(
                    bp,
                    dict,
                    remove_poles@,
                    &m,
                ) implies a == area by {
                assert forall|id: EntityId| #[trigger] m.has(id) <==> model.has(id) by {
                    if bp.has(id) && !m.has(id) {
                        assert(among_kinds(
                            remove_poles@,
                            spec_from_bp_entity(dict, bp.entity(id).data).prototype,
                        ));
                    }
                    if bp.has(id) && !model.has(id) {
                        assert(among_kinds(
                            remove_poles@,
                            spec_from_bp_entity(dict, bp.entity(id).data).prototype,
                        ));
                    }
                }
                lemma_one_search_area(&m, &model, expand, a, area);
            }
        }
    }
    if area.min.x < -MAX_AREA_COORD || area.min.x > MAX_AREA_COORD || area.min.y < -MAX_AREA_COORD
        || area.min.y > MAX_AREA_COORD || area.max.x < -MAX_AREA_COORD || area.max.x
        > MAX_AREA_COORD || area.max.y < -MAX_AREA_COORD || area.max.y > MAX_AREA_COORD {
        return Err(OptimizeError::AreaTooLarge);
    }
    let pole_model = model.with_all_candidate_poles(area, use_poles);
    let (graph, index) = pole_model.get_maximally_connected_pole_graph();
    proof {
        let idx = id_map(index);
        graph.lemma_wf();
        assert forall|i: int| 0 <= i < graph.nodes().len() implies (#[trigger] graph.nodes()[i])
            == pole_model.entities()[node_id(idx, i as u32)].entity && graph.nodes()[i].wf()
            && graph.nodes()[i].prototype.value().pole_data is Some by {
            let id = node_id(idx, i as u32);
            assert(idx.contains_key(id) && idx[id] == i as u32);
            assert(crate::pole_graph::is_pole(&pole_model, id));
            assert(pole_model.has(id));
        }
    }
    let candidates = model.to_cand_pole_graph(&graph);
    let r = Prepared { model, bounding_box: area, pole_model, index, candidates };
    proof {
        assert(candidates.links() == graph.links());
        assert(models(bp, dict, remove_poles@, &r.model)) by {
            assert forall|id: EntityId| #[trigger] r.model.has(id) implies bp.has(id)
                && r.model.entities()[id].entity == spec_from_bp_entity(dict, bp.entity(id).data) by {
                assert(whole.has(id));
            }
            assert forall|id: EntityId| bp.has(id) && !(#[trigger] r.model.has(id)) implies among_kinds(
                remove_poles@,
                spec_from_bp_entity(dict, bp.entity(id).data).prototype,
            ) by {
                assert(whole.has(id));
            }
        }
    }
    Ok(r)
}

/// Whether every pole of `chosen` is well formed and no edge is longer than
/// [`MAX_SPAN`] along either axis.
pub open spec fn usable_solution(chosen: &CandPoleGraph) -> bool {
    &&& forall|i: int| 0 <= i < chosen.nodes().len() ==> (#[trigger] chosen.nodes()[i]).entity.wf()
    &&& geometry_ok(chosen)
}

/// Whether the chosen poles can be wired and placed.
fn is_usable_solution(chosen: &CandPoleGraph) -> (r: bool)
    requires
        chosen.wf(),
    ensures
        r == usable_solution(chosen),
{
    proof {
        chosen.lemma_wf();
    }
    let n = chosen.node_count();
    let mut i: usize = 0;
    while i < n
        invariant
            0 <= i <= n,
            n == chosen.nodes().len(),
            n <= u32::MAX,
            forall|j: int| 0 <= j < i ==> (#[trigger] chosen.nodes()[j]).entity.wf(),
        decreases n - i,
    {
        if !chosen.node_weight(i as u32).entity.is_valid() {
            return false;
        }
        i = i + 1;
    }
    let edges = chosen.edge_list();
    let mut k: usize = 0;
    while k < edges.len()
        invariant
            0 <= k <= edges@.len(),
            edges@ == chosen.edges(),
            chosen.wf(),
            forall|j: int|
                0 <= j < chosen.nodes().len() ==> (#[trigger] chosen.nodes()[j]).entity.wf(),
            forall|j: int|
                0 <= j < k ==> crate::pole_solver::connections::spans(
                    chosen.nodes()[(#[trigger] chosen.edges()[j]).0 as int].spec_position(),
                    chosen.nodes()[chosen.edges()[j].1 as int].spec_position(),
                ),
        decreases edges@.len() - k,
    {
        let e = edges[k];
        proof {
            chosen.lemma_wf();
            assert(chosen.edges()[k as int].0 < chosen.nodes().len());
            assert(chosen.nodes()[e.0 as int].entity.wf());
            assert(chosen.nodes()[e.1 as int].entity.wf());
        }
        let p = chosen.node_weight(e.0).entity.position;
        let q = chosen.node_weight(e.1).entity.position;
        let dx = q.x - p.x;
        let dy = q.y - p.y;
        if dx < -MAX_SPAN || dx > MAX_SPAN || dy < -MAX_SPAN || dy > MAX_SPAN {
            return false;
        }
        k = k + 1;
    }
    true
}

/// Whether `after` is `before` without its poles: the other entities stay
/// as they are, and so does the order on every tile.
pub open spec fn strips(before: &BpModel, after: &BpModel) -> bool {
    &&& after.wf()
    &&& after.spec_next_id() == before.spec_next_id()
    &&& forall|id: EntityId| #[trigger]
        after.has(id) <==> (before.has(id)
            && !before.entities()[id].entity.prototype.value().spec_is_pole())
    &&& forall|id: EntityId| #[trigger]
        after.has(id) ==> after.entities()[id] == before.entities()[id]
    &&& forall|t: TilePosition| #[trigger]
        after.bucket(t) == kept_of(before.bucket(t), after.entities().dom())
}

/// Whether `after` is `before` with the poles of `graph` on top, as
/// `added` tells: each pole that found room when its turn came stands
/// under the next id, and two of them share a cable exactly if an edge joins
/// them and they are near enough for a wire.
pub open spec fn places(
    before: &BpModel,
    graph: &CandPoleGraph,
    after: &BpModel,
    added: Seq<Option<EntityId>>,
) -> bool {
    &&& after.wf()
    &&& added.len() == graph.nodes().len()
    &&& forall|id: EntityId| #[trigger]
        before.has(id) ==> after.has(id) && after.entities()[id] == before.entities()[id]
    &&& forall|i: int|
        0 <= i < added.len() ==> ((#[trigger] added[i]) is Some <==> finds_room(
            before,
            graph.nodes(),
            added,
            i,
        ))
    &&& forall|i: int|
        0 <= i < added.len() && (#[trigger] added[i]) is Some ==> !before.has(id_of(added, i))
            && after.has(id_of(added, i)) && after.entities()[id_of(added, i)].entity
            == graph.nodes()[i].entity && number_of(added[i]) == before.spec_next_id().0
            + count_added(added, i)
    &&& after.spec_next_id().0 == before.spec_next_id().0 + count_added(added, added.len() as int)
    &&& forall|id: EntityId| #[trigger]
        after.has(id) ==> before.has(id) || exists|i: int|
            0 <= i < added.len() && added[i] == Some(id)
    &&& forall|i: int, y: EntityId|
        0 <= i < added.len() && added[i] is Some ==> (#[trigger] after.cabled(id_of(added, i), y)
            <==> wired(graph.nodes(), graph.edges(), added, i, y))
}

/// What `place_chosen` answers and does to a model, given the chosen poles.
pub open spec fn places_chosen(
    before: &BpModel,
    chosen: &CandPoleGraph,
    after: &BpModel,
    r: Result<(CandPoleGraph, Vec<Option<EntityId>>), OptimizeError>,
) -> bool {
    let ids_left = before.spec_next_id().0 + chosen.nodes().len() < u32::MAX;
    match r {
        Err(OptimizeError::BadSolution) => !usable_solution(chosen) && *after == *before,
        Err(OptimizeError::NoIdLeft) => usable_solution(chosen) && !ids_left && *after == *before,
        Err(_) => false,
        Ok((graph, added)) => {
            &&& usable_solution(chosen)
            &&& ids_left
            &&& graph.wf()
            &&& graph.nodes() == chosen.nodes()
            &&& graph.edges() == PrettyPoleConnector::spec_default().spec_connect(
                chosen.nodes(),
                chosen.edges(),
            )
            &&& exists|stripped: BpModel| #[trigger]
                strips(before, &stripped) && places(&stripped, &graph, after, added@)
        },
    }
}

/// Chooses the wires between the chosen poles, takes every pole out of
/// the model, and puts the chosen poles in with their wires. The result is
/// the graph of the wires, and for every node the id under which its pole
/// was added. Nothing changes where the chosen poles cannot be used or
/// too few ids are left.
pub fn place_chosen(model: &mut BpModel, chosen: &CandPoleGraph) -> (r: Result<
    (CandPoleGraph, Vec<Option<EntityId>>),
    OptimizeError,
>)
    requires
        old(model).wf(),
        chosen.wf(),
    ensures
        places_chosen(old(model), chosen, final(model), r),
{
    if !is_usable_solution(chosen) {
        return Err(OptimizeError::BadSolution);
    }
    proof {
        chosen.lemma_wf();
    }
    if model.next_id().0 as u64 + chosen.node_count() as u64 >= u32::MAX as u64 {
        return Err(OptimizeError::NoIdLeft);
    }
    let connector = PrettyPoleConnector::default();
    let graph = connector.connect_poles(chosen);
    model.remove_all_poles();
    let ghost stripped = *model;
    let added = model.add_from_pole_graph(&graph);
    proof {
        assert(strips(old(model), &stripped));
        assert(places(&stripped, &graph, model, added@));
    }
    Ok((graph, added))
}

/// Whether `dict` knows the prototype of `e` as a pole.
pub open spec fn names_pole(dict: &EntityPrototypeDict, e: BlueprintEntity) -> bool {
    dict.has(e.data.name@) && dict.spec_get(e.data.name@).value().spec_is_pole()
}

/// Whether `after` is `before` without the poles: the other
/// entities stay as they are, in their order.
pub open spec fn drops_poles(
    before: &BlueprintEntities,
    dict: &EntityPrototypeDict,
    after: &BlueprintEntities,
) -> bool {
    &&& after.wf()
    &&& forall|id: EntityId| #[trigger]
        after.has(id) <==> before.has(id) && !names_pole(dict, before.entity(id))
    &&& forall|id: EntityId| #[trigger] after.has(id) ==> after.entity(id) == before.entity(id)
    &&& forall|a: EntityId, b: EntityId|
        after.has(a) && after.has(b) ==> (#[trigger] after.places()[a] < #[trigger] after.places()[b]
            <==> before.places()[a] < before.places()[b])
}

/// Whether `after` is `before` with the poles of `model` on top, each
/// under the number that `numbers` gives for its id: the numbers that
/// follow the largest in use, one after the other; under its number the
/// pole stands without circuit wires and with a cable to every other pole
/// that it shares one with in the model and that has a number too. Where
/// the blueprint has room for as many entities as the model holds, every
/// pole has a number.
pub open spec fn adds_poles(
    before: &BlueprintEntities,
    model: &BpModel,
    after: &BlueprintEntities,
    numbers: Map<EntityId, u32>,
) -> bool {
    &&& after.wf()
    &&& forall|id: EntityId| #[trigger]
        before.has(id) ==> after.has(id) && after.entity(id) == before.entity(id)
    &&& after.holds_poles(before, model, numbers)
    &&& forall|n: EntityId| #[trigger] after.has(n) ==> before.has(n) || numbered(numbers, n)
    &&& forall|p: EntityId| #[trigger]
        numbers.contains_key(p) ==> after.entity(number_in(numbers, p)).neighbours is Some
            && after.entity(number_in(numbers, p)).connections.0@ is None && after.entity(
            number_in(numbers, p),
        ).connections.1@ is None
    &&& forall|p: EntityId, y: EntityId|
        numbers.contains_key(p) ==> (#[trigger] after.entity(number_in(numbers, p)).cables().contains(
            y,
        ) <==> cable_under(model, numbers, p, y))
    &&& !after.full() ==> forall|p: EntityId|
        model.has(p) && model.entities()[p].entity.prototype.value().spec_is_pole()
            ==> #[trigger] numbers.contains_key(p)
    &&& has_room(before, model.entities().dom().len() as int) ==> forall|p: EntityId|
        model.has(p) && model.entities()[p].entity.prototype.value().spec_is_pole()
            ==> #[trigger] numbers.contains_key(p)
    &&& forall|n: EntityId| #[trigger]
        before.is_next_id(n) ==> numbered_from(after, before.list().len() as int, n.0 as int)
}

/// Takes the poles out of the blueprint and puts the poles of
/// `model` in, with the cables between them. The result gives, for the id
/// of every pole that was put in, its number in the blueprint.
pub fn rewrite(bp: &mut BlueprintEntities, dict: &EntityPrototypeDict, model: &BpModel) -> (r: IdMap)
    requires
        old(bp).wf(),
        model.wf(),
    ensures
        exists|kept: BlueprintEntities| #[trigger]
            drops_poles(old(bp), dict, &kept) && adds_poles(&kept, model, final(bp), id_map(r)),
{
    let keep = |e: &BlueprintEntity| -> (b: bool)
        ensures
            b == !names_pole(dict, *e),
        {
            match dict.get(&e.data.name) {
                Some(p) => !p.get().is_pole(),
                None => true,
            }
        };
    bp.retain(keep);
    let ghost kept = *bp;
    let numbers = bp.add_poles_from(model);
    proof {
        assert(drops_poles(old(bp), dict, &kept)) by {
            assert forall|id: EntityId| #[trigger]
                kept.has(id) <==> old(bp).has(id) && !names_pole(dict, old(bp).entity(id)) by {}
        }
        let nums = id_map(numbers);
        assert(adds_poles(&kept, model, bp, nums)) by {
            assert forall|p: EntityId, y: EntityId| nums.contains_key(p) implies (
            #[trigger] bp.entity(number_in(nums, p)).cables().contains(y) <==> cable_under(
                model,
                nums,
                p,
                y,
            )) by {
                if cable_under(model, nums, p, y) {
                    let q = choose|q: EntityId| #[trigger]
                        nums.contains_key(q) && nums[q] == y.0 && model.cabled(p, q);
                    assert(model.cabled(p, q));
                    assert(bp.entity(EntityId(nums[p])).cables().contains(EntityId(nums[q])));
                }
            }
        }
    }
    numbers
}

/// The point that lies the fraction `rel`, in millionths, of the way from
/// `low` to `high`, both in tiles; in map-space units, rounded down.
pub open spec fn spec_between(low: i32, high: i32, rel: i64) -> int {
    low * UNITS_PER_TILE + (high - low) * UNITS_PER_TILE * rel / 1_000_000
}

/// Whether `center_of` finds a point: the area is not inside out, and the
/// point lies in the world.
pub open spec fn has_center(area: TileBoundingBox, rel: (i64, i64)) -> bool {
    &&& area.min.x <= area.max.x
    &&& area.min.y <= area.max.y
    &&& -MAX_COORD <= spec_between(area.min.x, area.max.x, rel.0) <= MAX_COORD
    &&& -MAX_COORD <= spec_between(area.min.y, area.max.y, rel.1) <= MAX_COORD
}

/// The point that lies the fraction `rel`, in millionths, of the way from
/// `low` to `high`, if `low` is not above `high` and the point lies in the
/// world.
fn between(low: i32, high: i32, rel: i64) -> (r: Option<i64>)
    ensures
        r is Some <==> low <= high && -MAX_COORD <= spec_between(low, high, rel) <= MAX_COORD,
        r is Some ==> r->0 == spec_between(low, high, rel),
{
    if low > high {
        return None;
    }
    let span: i128 = (high as i128 - low as i128) * 1_000_000;
    let part: i128 = rel as i128;
    assert(-4_294_967_295_000_000 * 9_223_372_036_854_775_808 <= span * part
        <= 4_294_967_295_000_000 * 9_223_372_036_854_775_808) by (nonlinear_arith)
        requires
            0 <= span <= 4_294_967_295_000_000,
            -9_223_372_036_854_775_808 <= part <= 9_223_372_036_854_775_808,
    ;
    let product: i128 = span * part;
    let step: i128 = match product.checked_div_euclid(1_000_000) {
        Some(q) => q,
        None => 0,
    };
    let at: i128 = low as i128 * 1_000_000 + step;
    if at < -(MAX_COORD as i128) || at > MAX_COORD as i128 {
        None
    } else {
        Some(at as i64)
    }
}

/// The point of `area` that lies the fraction `rel`, in millionths along
/// each axis, of the way from its least to its largest corner.
pub fn center_of(area: TileBoundingBox, rel: (i64, i64)) -> (r: Option<MapPosition>)
    ensures
        r is Some <==> has_center(area, rel),
        r is Some ==> r->0.x == spec_between(area.min.x, area.max.x, rel.0) && r->0.y
            == spec_between(area.min.y, area.max.y, rel.1) && r->0.in_world(),
{
    match (between(area.min.x, area.max.x, rel.0), between(area.min.y, area.max.y, rel.1)) {
        (Some(x), Some(y)) => Some(MapPosition::new(x, y)),
        _ => None,
    }
}

/// The name of the pole that `name` stands for: the letters `s`, `m`, `b`
/// and `t` stand for the small, the medium and the big electric pole and
/// for the substation; any other name stands for itself.
pub open spec fn spec_pole_name(name: Seq<char>) -> Seq<char> {
    if name == "s"@ {
        "small-electric-pole"@
    } else if name == "m"@ {
        "medium-electric-pole"@
    } else if name == "b"@ {
        "big-electric-pole"@
    } else if name == "t"@ {
        "substation"@
    } else {
        name
    }
}

/// The name of the pole that `name` stands for.
pub fn pole_name(name: &String) -> (r: String)
    ensures
        r@ == spec_pole_name(name@),
{
    if *name == "s".to_owned() {
        "small-electric-pole".to_owned()
    } else if *name == "m".to_owned() {
        "medium-electric-pole".to_owned()
    } else if *name == "b".to_owned() {
        "big-electric-pole".to_owned()
    } else if *name == "t".to_owned() {
        "substation".to_owned()
    } else {
        name.clone()
    }
}

/// The prototype of the pole that `name` stands for, if the catalogue
/// knows it.
pub fn get_pole_prototype(name: &String, dict: &EntityPrototypeDict) -> (r: Option<
    EntityPrototypeRef,
>)
    ensures
        r is Some <==> dict.has(spec_pole_name(name@)),
        r is Some ==> r->0 == dict.spec_get(spec_pole_name(name@)),
{
    let real_name = pole_name(name);
    dict.get(&real_name)
}

/// The prototypes of the poles that `names` stand for, or the place of the
/// first name that the catalogue does not know.
pub fn get_pole_prototypes(names: &Vec<String>, dict: &EntityPrototypeDict) -> (r: Result<
    Vec<EntityPrototypeRef>,
    usize,
>)
    ensures
        match r {
            Ok(found) => found@.len() == names@.len() && forall|i: int|
                0 <= i < names@.len() ==> dict.has(spec_pole_name(names@[i]@)) && (
                #[trigger] found@[i]) == dict.spec_get(spec_pole_name(names@[i]@)),
            Err(at) => at < names@.len() && !dict.has(spec_pole_name(names@[at as int]@))
                && forall|i: int|
                0 <= i < at ==> dict.has(spec_pole_name((#[trigger] names@[i])@)),
        },
{
    let mut found: Vec<EntityPrototypeRef> = Vec::new();
    let mut i: usize = 0;
    while i < names.len()
        invariant
            0 <= i <= names@.len(),
            found@.len() == i,
            forall|j: int|
                0 <= j < i ==> dict.has(spec_pole_name(names@[j]@)) && (#[trigger] found@[j])
                    == dict.spec_get(spec_pole_name(names@[j]@)),
            forall|j: int| 0 <= j < i ==> dict.has(spec_pole_name((#[trigger] names@[j])@)),
        decreases names@.len() - i,
    {
        match get_pole_prototype(&names[i], dict) {
            Some(p) => {
                found.push(p);
            },
            None => {
                return Err(i);
            },
        }
        i = i + 1;
    }
    Ok(found)
}

/// The id under which an entity of `model` stands once the blueprint was
/// rewritten: a pole under its new number, anything else under its own id.
pub open spec fn renumbered(model: &BpModel, numbers: Map<EntityId, u32>, id: EntityId) -> EntityId {
    if model.entities()[id].entity.prototype.value().spec_is_pole() {
        number_in(numbers, id)
    } else {
        id
    }
}

/// A model that is written to its blueprint and read again comes back the
/// same but for the ids: every entity is there again under its new id,
/// different entities under different ids, nothing else is there, two
/// entities share a cable exactly if they did before, and an entity stands
/// on a tile exactly if it did before.
///
/// Here `model` is the model of the blueprint `bp`; `written` is `bp` rewritten
/// with the poles of `model`, under the numbers `numbers`, for which it had
/// room; and `again` is the model of `written`.
pub proof fn lemma_round_trip(
    dict: &EntityPrototypeDict,
    bp: &BlueprintEntities,
    model: &BpModel,
    kept: &BlueprintEntities,
    written: &BlueprintEntities,
    numbers: Map<EntityId, u32>,
    again: &BpModel,
)
    requires
        bp.wf(),
        model.wf(),
        forall|id: EntityId| #[trigger] model.has(id) <==> bp.has(id),
        forall|id: EntityId| #[trigger]
            model.has(id) ==> dict.has(bp.entity(id).data.name@) && model.entities()[id].entity
                == spec_from_bp_entity(dict, bp.entity(id).data),
        drops_poles(bp, dict, kept),
        adds_poles(kept, model, written, numbers),
        has_room(kept, model.entities().dom().len() as int),
        again.wf(),
        forall|id: EntityId| #[trigger] again.has(id) <==> written.has(id),
        forall|id: EntityId| #[trigger]
            again.has(id) ==> again.entities()[id].entity == spec_from_bp_entity(
                dict,
                written.entity(id).data,
            ),
        forall|a: EntityId, b: EntityId| #[trigger]
            again.cabled(a, b) ==> written.has(b) && (written.entity(a).cables().contains(b)
                || written.entity(b).cables().contains(a)),
        forall|a: EntityId, b: EntityId|
            written.has(a) && written.has(b) && a != b && written.entity(a).cables().contains(b)
                && spec_linkable(
                spec_from_bp_entity(dict, written.entity(a).data),
                spec_from_bp_entity(dict, written.entity(b).data),
            ) ==> #[trigger] again.cabled(a, b),
    ensures
        forall|id: EntityId| #[trigger]
            model.has(id) ==> again.has(renumbered(model, numbers, id)) && again.entities()[renumbered(
                model,
                numbers,
                id,
            )].entity == model.entities()[id].entity,
        forall|a: EntityId, b: EntityId|
            model.has(a) && model.has(b) && a != b ==> #[trigger] renumbered(model, numbers, a)
                != #[trigger] renumbered(model, numbers, b),
        forall|n: EntityId| #[trigger]
            again.has(n) ==> exists|id: EntityId|
                model.has(id) && #[trigger] renumbered(model, numbers, id) == n,
        forall|a: EntityId, b: EntityId|
            model.has(a) && model.has(b) ==> (#[trigger] model.cabled(a, b) <==> again.cabled(
                renumbered(model, numbers, a),
                renumbered(model, numbers, b),
            )),
        forall|t: TilePosition, id: EntityId|
            model.has(id) ==> (#[trigger] model.bucket(t).contains(id) <==> again.bucket(t).contains(
                renumbered(model, numbers, id),
            )),
{
    assert forall|t: TilePosition, id: EntityId| model.has(id) implies (#[trigger] model.bucket(
        t,
    ).contains(id) <==> again.bucket(t).contains(renumbered(model, numbers, id))) by {
        lemma_comes_back(dict, bp, model, kept, written, numbers, again, id);
        let n = renumbered(model, numbers, id);
        assert(model.bucket(t).contains(id) <==> model.occupies(id, t));
        assert(again.bucket(t).contains(n) <==> again.occupies(n, t));
    }
    assert forall|id: EntityId| #[trigger] model.has(id) implies again.has(
        renumbered(model, numbers, id),
    ) && again.entities()[renumbered(model, numbers, id)].entity == model.entities()[id].entity
        && comes_back(dict, bp, model, kept, written, numbers, id) by {
        lemma_comes_back(dict, bp, model, kept, written, numbers, again, id);
    }
    assert forall|a: EntityId, b: EntityId| model.has(a) && model.has(b) && a != b implies #[trigger] renumbered(
        model,
        numbers,
        a,
    ) != #[trigger] renumbered(model, numbers, b) by {
        lemma_comes_back(dict, bp, model, kept, written, numbers, again, a);
        lemma_comes_back(dict, bp, model, kept, written, numbers, again, b);
    }
    assert forall|n: EntityId| #[trigger] again.has(n) implies exists|id: EntityId|
        model.has(id) && #[trigger] renumbered(model, numbers, id) == n by {
        assert(written.has(n));
        if kept.has(n) {
            assert(bp.has(n) && !names_pole(dict, bp.entity(n)));
            assert(model.has(n));
            lemma_comes_back(dict, bp, model, kept, written, numbers, again, n);
            assert(renumbered(model, numbers, n) == n);
        } else {
            assert(numbered(numbers, n));
            let p = choose|p: EntityId| #[trigger] numbers.contains_key(p) && numbers[p] == n.0;
            assert(model.has(p));
            assert(renumbered(model, numbers, p) == n);
        }
    }
    assert forall|a: EntityId, b: EntityId| model.has(a) && model.has(b) implies (
    #[trigger] model.cabled(a, b) <==> again.cabled(
        renumbered(model, numbers, a),
        renumbered(model, numbers, b),
    )) by {
        lemma_comes_back(dict, bp, model, kept, written, numbers, again, a);
        lemma_comes_back(dict, bp, model, kept, written, numbers, again, b);
        let fa = renumbered(model, numbers, a);
        let fb = renumbered(model, numbers, b);
        let pole_a = model.entities()[a].entity.prototype.value().spec_is_pole();
        let pole_b = model.entities()[b].entity.prototype.value().spec_is_pole();
        assert(model.entities()[a].wf() && model.entities()[b].wf());
        assert(again.has(fa) && again.has(fb));
        assert(again.entities()[fa].wf() && again.entities()[fb].wf());
        if model.cabled(a, b) {
            assert(model.cabled(b, a) && a != b);
            assert(pole_a && pole_b);
            assert(spec_linkable(model.entities()[a].entity, model.entities()[b].entity));
            assert(numbers.contains_key(b) && numbers[b] == fb.0 && model.cabled(a, b));
            assert(cable_under(model, numbers, a, fb));
            assert(written.entity(fa).cables().contains(fb));
            assert(again.cabled(fa, fb));
        }
        if again.cabled(fa, fb) {
            assert(again.cabled(fb, fa) && fa != fb);
            assert(pole_a && pole_b);
            if written.entity(fa).cables().contains(fb) {
                assert(cable_under(model, numbers, a, fb));
                let q = choose|q: EntityId| #[trigger]
                    numbers.contains_key(q) && numbers[q] == fb.0 && model.cabled(a, q);
                assert(q == b);
            } else {
                assert(written.entity(fb).cables().contains(fa));
                assert(cable_under(model, numbers, b, fa));
                let q = choose|q: EntityId| #[trigger]
                    numbers.contains_key(q) && numbers[q] == fa.0 && model.cabled(b, q);
                assert(q == a);
                assert(model.cabled(b, a));
            }
        }
    }
}

/// Where an entity of `model` stands in the rewritten blueprint: a pole
/// under its new number, which the blueprint did not hold before; anything
/// else where it stood.
pub open spec fn comes_back(
    dict: &EntityPrototypeDict,
    bp: &BlueprintEntities,
    model: &BpModel,
    kept: &BlueprintEntities,
    written: &BlueprintEntities,
    numbers: Map<EntityId, u32>,
    id: EntityId,
) -> bool {
    let n = renumbered(model, numbers, id);
    &&& written.has(n)
    &&& spec_from_bp_entity(dict, written.entity(n).data) == model.entities()[id].entity
    &&& if model.entities()[id].entity.prototype.value().spec_is_pole() {
        numbers.contains_key(id) && !kept.has(n) && n == EntityId(numbers[id])
    } else {
        kept.has(n) && n == id
    }
}

/// An entity of a model that is written to its blueprint and read again is
/// there under its new id.
proof fn lemma_comes_back(
    dict: &EntityPrototypeDict,
    bp: &BlueprintEntities,
    model: &BpModel,
    kept: &BlueprintEntities,
    written: &BlueprintEntities,
    numbers: Map<EntityId, u32>,
    again: &BpModel,
    id: EntityId,
)
    requires
        bp.wf(),
        model.wf(),
        forall|id: EntityId| #[trigger] model.has(id) <==> bp.has(id),
        forall|id: EntityId| #[trigger]
            model.has(id) ==> dict.has(bp.entity(id).data.name@) && model.entities()[id].entity
                == spec_from_bp_entity(dict, bp.entity(id).data),
        drops_poles(bp, dict, kept),
        adds_poles(kept, model, written, numbers),
        has_room(kept, model.entities().dom().len() as int),
        forall|id: EntityId| #[trigger] again.has(id) <==> written.has(id),
        forall|id: EntityId| #[trigger]
            again.has(id) ==> again.entities()[id].entity == spec_from_bp_entity(
                dict,
                written.entity(id).data,
            ),
        model.has(id),
    ensures
        comes_back(dict, bp, model, kept, written, numbers, id),
        model.entities()[id].entity.prototype.value().spec_is_pole() == names_pole(
            dict,
            bp.entity(id),
        ),
        again.has(renumbered(model, numbers, id)),
        again.entities()[renumbered(model, numbers, id)].entity == model.entities()[id].entity,
{
    let entity = model.entities()[id].entity;
    let name = bp.entity(id).data.name@;
    assert(bp.has(id));
    assert(entity == spec_from_bp_entity(dict, bp.entity(id).data));
    let at = choose|i: int| dict.is_first(name, i);
    lemma_known_is_first(dict, name);
    assert(dict.is_first(name, at));
    assert(entity.prototype == dict.0@[at]);
    assert(entity.prototype.value().spec_is_pole() == names_pole(dict, bp.entity(id)));
    if entity.prototype.value().spec_is_pole() {
        assert(numbers.contains_key(id));
        let n = EntityId(numbers[id]);
        assert(written.has(n) && !kept.has(n));
        assert(crate::bp_model::describes(written.entity(n).data, entity));
        assert(entity.prototype.value().name@ == name);
        assert(written.entity(n).data.name@ == name);
        assert(spec_from_bp_entity(dict, written.entity(n).data) == entity);
        assert(again.has(n));
    } else {
        assert(kept.has(id));
        assert(kept.entity(id) == bp.entity(id));
        assert(written.has(id) && written.entity(id) == kept.entity(id));
        assert(again.has(id));
    }
}

/// A catalogue that knows a name has a first prototype of that name.
proof fn lemma_known_is_first(dict: &EntityPrototypeDict, name: Seq<char>)
    requires
        dict.has(name),
    ensures
        exists|i: int| dict.is_first(name, i),
{
    let w = choose|i: int| 0 <= i < dict.0@.len() && (#[trigger] dict.0@[i]).value().name@ == name;
    lemma_first_of(dict, name, w);
}

/// Before a prototype of some name stands a first one of that name, or it
/// is the first.
proof fn lemma_first_of(dict: &EntityPrototypeDict, name: Seq<char>, at: int)
    requires
        0 <= at < dict.0@.len(),
        dict.0@[at].value().name@ == name,
    ensures
        exists|i: int| dict.is_first(name, i),
    decreases at,
{
    if forall|j: int| 0 <= j < at ==> (#[trigger] dict.0@[j]).value().name@ != name {
        assert(dict.is_first(name, at));
    } else {
        let j = choose|j: int| 0 <= j < at && (#[trigger] dict.0@[j]).value().name@ == name;
        lemma_first_of(dict, name, j);
    }
}

} // verus!
