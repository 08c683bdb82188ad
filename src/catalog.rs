use vstd::prelude::*;

use crate::faction::Faction;
use crate::grid::{tile_index, Grid};
use crate::info::{
    AttackInfo, DefenseInfo, MovementClass, MovementClassInfo, MovementInfo, RangeKind, Role,
    RoleInfo, SpriteInfo, Terrain, TerrainInfo,
};
use crate::tile::Tile;
use crate::unit::{Unit, MAX_HEALTH};

verus! {

/// A range kind as written in the catalog: its name and the numbers that
/// kind needs.
#[derive(Clone, Debug)]
pub struct RangeSpec {
    pub kind: String,
    pub min: Option<u32>,
    pub max: Option<u32>,
    pub range: Option<u32>,
}

/// A sprite as written in the catalog.
#[derive(Clone, Debug)]
pub struct SpriteSpec {
    pub texture: String,
    pub area: Option<(u32, u32, u32, u32)>,
}

/// A unit kind's movement as written in the catalog: its budget and the
/// name of its movement class.
#[derive(Clone, Debug)]
pub struct MovementSpec {
    pub movement: u32,
    pub class: String,
}

/// What a range spec stands for, or `None` when it names no known kind or
/// lacks a number its kind needs.
pub open spec fn range_kind_of(spec: RangeSpec) -> Option<RangeKind> {
    if spec.kind@ == "melee"@ {
        Some(RangeKind::Melee)
    } else if spec.kind@ == "ranged"@ {
        match (spec.min, spec.max) {
            (Some(min), Some(max)) => Some(RangeKind::Ranged { min, max }),
            _ => None,
        }
    } else if spec.kind@ == "spear"@ {
        match spec.range {
            Some(range) => Some(RangeKind::Spear { range }),
            None => None,
        }
    } else {
        None
    }
}

impl RangeSpec {
    /// The range kind this spec describes; an error message when the kind
    /// is unknown or a number it needs is missing.
    pub fn to_info(&self) -> (r: Result<RangeKind, String>)
        ensures
            r is Ok <==> range_kind_of(*self) is Some,
            r matches Ok(k) ==> range_kind_of(*self) == Some(k),
    {
        proof {
            reveal_strlit("melee");
            reveal_strlit("ranged");
            reveal_strlit("spear");
        }
        if self.kind == "melee".to_owned() {
            Ok(RangeKind::Melee)
        } else if self.kind == "ranged".to_owned() {
            match (self.min, self.max) {
                (Some(min), Some(max)) => Ok(RangeKind::Ranged { min, max }),
                (None, _) => Err("missing field 'min' for ranged range".to_owned()),
                (_, None) => Err("missing field 'max' for ranged range".to_owned()),
            }
        } else if self.kind == "spear".to_owned() {
            match self.range {
                Some(range) => Ok(RangeKind::Spear { range }),
                None => Err("missing field 'range' for spear range".to_owned()),
            }
        } else {
            Err("unrecognized range kind".to_owned())
        }
    }
}

impl SpriteSpec {
    /// The sprite this spec describes.
    pub fn to_info(&self) -> (r: Result<SpriteInfo, String>)
        ensures
            r matches Ok(s) && s.texture@ == self.texture@ && s.area == self.area,
    {
        Ok(SpriteInfo { texture: self.texture.clone(), area: self.area })
    }
}

impl MovementSpec {
    /// The movement this spec describes, with its class looked up by name
    /// among `classes`; an error message when no class has that name.
    pub fn to_info(&self, classes: &Vec<MovementClass>) -> (r: Result<MovementInfo, String>)
        ensures
            r is Ok <==> exists|i: int| 0 <= i < classes@.len() && classes@[i].name@ == self.class@,
            r matches Ok(m) ==> m.movement == self.movement && m.class.name@ == self.class@,
    {
        let mut i: usize = 0;
        while i < classes.len()
            invariant
                i <= classes.len(),
                forall|j: int| 0 <= j < i ==> classes@[j].name@ != self.class@,
            decreases classes.len() - i,
        {
            if classes[i].name == self.class {
                return Ok(MovementInfo { movement: self.movement, class: classes[i].clone() });
            }
            i = i + 1;
        }
        Err("unrecognized movement class".to_owned())
    }
}

/// The faction a level's colour code names: none for 0, red for 1, blue
/// for 2.
pub fn to_faction(code: u32) -> (r: Option<Faction>)
    requires
        code <= 2,
    ensures
        r == if code == 0 {
            None
        } else if code == 1 {
            Some(Faction::Red)
        } else {
            Some(Faction::Blue)
        },
{
    if code == 0 {
        None
    } else if code == 1 {
        Some(Faction::Red)
    } else {
        Some(Faction::Blue)
    }
}

/// A point of a level layer: column, row and colour code. Two points are
/// the same point when their coordinates agree, whatever their colour.
#[derive(Clone, Copy, Debug)]
pub struct Point(pub i32, pub i32, pub u32);

impl PartialEq for Point {
    fn eq(&self, other: &Point) -> (r: bool)
        ensures
            r == (self.0 == other.0 && self.1 == other.1),
    {
        self.0 == other.0 && self.1 == other.1
    }
}

impl vstd::std_specs::cmp::PartialEqSpecImpl for Point {
    open spec fn obeys_eq_spec() -> bool {
        true
    }

    open spec fn eq_spec(&self, other: &Point) -> bool {
        self.0 == other.0 && self.1 == other.1
    }
}

impl Eq for Point {}

/// A layer as written in a level: tile-type names and their points.
pub type LayerSpec = Vec<(String, Vec<(i32, i32, u32)>)>;

/// A level as written: its name, schema, and named layers.
#[derive(Clone, Debug)]
pub struct LevelSpec {
    pub name: String,
    pub schema: String,
    pub layers: Vec<(String, LayerSpec)>,
}

/// A layer of a level: tile-type names and their points.
pub type Layer = Vec<(String, Vec<Point>)>;

/// A level: its name, schema, and named layers of points.
#[derive(Clone, Debug)]
pub struct Level {
    pub name: String,
    pub schema: String,
    pub layers: Vec<(String, Layer)>,
}

fn to_points(v: &Vec<(i32, i32, u32)>) -> (r: Vec<Point>)
    ensures
        r@.len() == v@.len(),
        forall|i: int|
            0 <= i < v@.len() ==> #[trigger] r@[i] == Point(v@[i].0, v@[i].1, v@[i].2),
{
    let mut r: Vec<Point> = Vec::new();
    let mut i: usize = 0;
    while i < v.len()
        invariant
            i <= v.len(),
            r@.len() == i,
            forall|j: int| 0 <= j < i ==> #[trigger] r@[j] == Point(v@[j].0, v@[j].1, v@[j].2),
        decreases v.len() - i,
    {
        let (x, y, c) = v[i];
        r.push(Point(x, y, c));
        i = i + 1;
    }
    r
}

fn to_layer(spec: &LayerSpec) -> (r: Layer)
    ensures
        r@.len() == spec@.len(),
        forall|i: int|
            0 <= i < spec@.len() ==> (#[trigger] r@[i]).0@ == spec@[i].0@ && r@[i].1@.len()
                == spec@[i].1@.len() && forall|j: int|
                0 <= j < spec@[i].1@.len() ==> #[trigger] r@[i].1@[j] == Point(
                    spec@[i].1@[j].0,
                    spec@[i].1@[j].1,
                    spec@[i].1@[j].2,
                ),
{
    let mut r: Layer = Vec::new();
    let mut i: usize = 0;
    while i < spec.len()
        invariant
            i <= spec.len(),
            r@.len() == i,
            forall|k: int|
                0 <= k < i ==> (#[trigger] r@[k]).0@ == spec@[k].0@ && r@[k].1@.len()
                    == spec@[k].1@.len() && forall|j: int|
                    0 <= j < spec@[k].1@.len() ==> #[trigger] r@[k].1@[j] == Point(
                        spec@[k].1@[j].0,
                        spec@[k].1@[j].1,
                        spec@[k].1@[j].2,
                    ),
        decreases spec.len() - i,
    {
        let name = spec[i].0.clone();
        let points = to_points(&spec[i].1);
        r.push((name, points));
        i = i + 1;
    }
    r
}

impl Level {
    /// The level a spec describes, its coordinate triples turned into
    /// points, layer by layer and name by name.
    pub fn from_spec(spec: LevelSpec) -> (r: Result<Level, String>)
        ensures
            r matches Ok(level) && level.name@ == spec.name@ && level.schema@ == spec.schema@
                && level.layers@.len() == spec.layers@.len() && forall|i: int|
                0 <= i < spec.layers@.len() ==> (#[trigger] level.layers@[i]).0@
                    == spec.layers@[i].0@ && level.layers@[i].1@.len() == spec.layers@[i].1@.len(),
    {
        let mut layers: Vec<(String, Layer)> = Vec::new();
        let mut i: usize = 0;
        while i < spec.layers.len()
            invariant
                i <= spec.layers.len(),
                layers@.len() == i,
                forall|k: int|
                    0 <= k < i ==> (#[trigger] layers@[k]).0@ == spec.layers@[k].0@
                        && layers@[k].1@.len() == spec.layers@[k].1@.len(),
            decreases spec.layers.len() - i,
        {
            let name = spec.layers[i].0.clone();
            let layer = to_layer(&spec.layers[i].1);
            layers.push((name, layer));
            i = i + 1;
        }
        Ok(Level { name: spec.name, schema: spec.schema, layers })
    }
}


/// The colour code of the first point of `points` at `(x, y)`.
pub open spec fn color_at(points: Seq<Point>, x: i32, y: i32) -> Option<u32>
    decreases points.len(),
{
    if points.len() == 0 {
        None
    } else if points[0].0 == x && points[0].1 == y {
        Some(points[0].2)
    } else {
        color_at(points.drop_first(), x, y)
    }
}

/// The first tile type of `layer` with a point at `(x, y)`, and that
/// point's colour code.
pub open spec fn type_at(layer: Seq<(String, Vec<Point>)>, x: i32, y: i32) -> Option<(Seq<char>, u32)>
    decreases layer.len(),
{
    if layer.len() == 0 {
        None
    } else {
        match color_at(layer[0].1@, x, y) {
            Some(c) => Some((layer[0].0@, c)),
            None => type_at(layer.drop_first(), x, y),
        }
    }
}

/// The index of the first entry of `entries` named `name`.
pub open spec fn index_named<T>(entries: Seq<(String, T)>, name: Seq<char>) -> Option<int>
    decreases entries.len(),
{
    if entries.len() == 0 {
        None
    } else if entries[0].0@ == name {
        Some(0)
    } else {
        match index_named(entries.drop_first(), name) {
            Some(i) => Some(i + 1),
            None => None,
        }
    }
}

proof fn lemma_color_at(points: Seq<Point>, x: i32, y: i32) -> (k: int)
    requires
        color_at(points, x, y) is Some,
    ensures
        0 <= k < points.len(),
        points[k].2 == color_at(points, x, y)->0,
    decreases points.len(),
{
    if points[0].0 == x && points[0].1 == y {
        0
    } else {
        let k = lemma_color_at(points.drop_first(), x, y);
        k + 1
    }
}

fn find_color(points: &Vec<Point>, x: i32, y: i32) -> (r: Option<u32>)
    ensures
        r == color_at(points@, x, y),
{
    let mut i: usize = 0;
    assert(points@.skip(0) =~= points@);
    while i < points.len()
        invariant
            i <= points.len(),
            color_at(points@, x, y) == color_at(points@.skip(i as int), x, y),
        decreases points.len() - i,
    {
        assert(points@.skip(i as int).drop_first() =~= points@.skip(i as int + 1));
        if points[i].0 == x && points[i].1 == y {
            return Some(points[i].2);
        }
        i = i + 1;
    }
    None
}

fn find_type(layer: &Layer, x: i32, y: i32) -> (r: Option<(usize, u32)>)
    ensures
        r matches Some((i, c)) ==> i < layer@.len() && type_at(layer@, x, y) == Some(
            (layer@[i as int].0@, c),
        ) && color_at(layer@[i as int].1@, x, y) == Some(c),
        r is None ==> type_at(layer@, x, y) is None,
{
    let mut i: usize = 0;
    assert(layer@.skip(0) =~= layer@);
    while i < layer.len()
        invariant
            i <= layer.len(),
            type_at(layer@, x, y) == type_at(layer@.skip(i as int), x, y),
        decreases layer.len() - i,
    {
        assert(layer@.skip(i as int).drop_first() =~= layer@.skip(i as int + 1));
        assert(layer@.skip(i as int)[0] == layer@[i as int]);
        if let Some(c) = find_color(&layer[i].1, x, y) {
            return Some((i, c));
        }
        i = i + 1;
    }
    None
}

proof fn lemma_index_named<T>(entries: Seq<(String, T)>, name: Seq<char>)
    ensures
        index_named(entries, name) matches Some(i) ==> 0 <= i < entries.len() && entries[i].0@
            == name,
    decreases entries.len(),
{
    if entries.len() > 0 {
        lemma_index_named(entries.drop_first(), name);
    }
}

proof fn lemma_index_named_exists<T>(entries: Seq<(String, T)>, name: Seq<char>)
    ensures
        index_named(entries, name) is Some <==> exists|j: int|
            0 <= j < entries.len() && #[trigger] entries[j].0@ == name,
        index_named(entries, name) matches Some(i) ==> 0 <= i < entries.len() && entries[i].0@
            == name,
    decreases entries.len(),
{
    lemma_index_named(entries, name);
    if entries.len() > 0 {
        lemma_index_named_exists(entries.drop_first(), name);
        if index_named(entries, name) is None {
            assert forall|j: int| 0 <= j < entries.len() implies #[trigger] entries[j].0@ != name by {
                if j > 0 {
                    assert(entries.drop_first()[j - 1] == entries[j]);
                }
            }
        }
    }
}

fn find_named<T>(entries: &Vec<(String, T)>, name: &String) -> (r: Option<usize>)
    ensures
        r matches Some(i) ==> index_named(entries@, name@) == Some(i as int) && i < entries@.len()
            && entries@[i as int].0@ == name@,
        r is None ==> index_named(entries@, name@) is None,
{
    let mut i: usize = 0;
    assert(entries@.skip(0) =~= entries@);
    proof {
        lemma_index_named(entries@, name@);
    }
    while i < entries.len()
        invariant
            i <= entries.len(),
            index_named(entries@, name@) == match index_named(entries@.skip(i as int), name@) {
                Some(j) => Some(j + i),
                None => None,
            },
        decreases entries.len() - i,
    {
        assert(entries@.skip(i as int).drop_first() =~= entries@.skip(i as int + 1));
        assert(entries@.skip(i as int)[0] == entries@[i as int]);
        if entries[i].0 == *name {
            return Some(i);
        }
        i = i + 1;
    }
    None
}


/// The catalog a match is played with: terrain kinds, unit kinds and
/// movement classes by name, and the defense classes.
#[derive(Clone, Debug)]
pub struct GameInfo {
    pub movement_classes: Vec<(String, MovementClass)>,
    pub roles: Vec<(String, Role)>,
    pub terrain: Vec<(String, Terrain)>,
    pub defense_classes: Vec<String>,
}

/// Point `k` of entry `e` of layer `l` of `level`.
pub open spec fn point_of(level: Level, l: int, e: int, k: int) -> Point {
    level.layers@[l].1@[e].1@[k]
}

/// Whether `(l, e, k)` names a point of `level`.
pub open spec fn is_point(level: Level, l: int, e: int, k: int) -> bool {
    &&& 0 <= l < level.layers@.len()
    &&& 0 <= e < level.layers@[l].1@.len()
    &&& 0 <= k < level.layers@[l].1@[e].1@.len()
}

/// The layer of `level` named `name`, if any.
pub open spec fn layer_named(level: Level, name: Seq<char>) -> Option<Seq<(String, Vec<Point>)>> {
    match index_named(level.layers@, name) {
        Some(i) => Some(level.layers@[i].1@),
        None => None,
    }
}

/// Whether some point of `level` lies on each of the four given edges.
pub open spec fn attained(level: Level, min_x: i32, max_x: i32, min_y: i32, max_y: i32) -> bool {
    &&& exists|l: int, e: int, k: int| is_point(level, l, e, k) && #[trigger] point_of(level, l, e, k).0 == min_x
    &&& exists|l: int, e: int, k: int| is_point(level, l, e, k) && #[trigger] point_of(level, l, e, k).0 == max_x
    &&& exists|l: int, e: int, k: int| is_point(level, l, e, k) && #[trigger] point_of(level, l, e, k).1 == min_y
    &&& exists|l: int, e: int, k: int| is_point(level, l, e, k) && #[trigger] point_of(level, l, e, k).1 == max_y
}

/// Bounds of a level: the least and greatest column and row of its points.
struct Bounds {
    pub min_x: i32,
    pub max_x: i32,
    pub min_y: i32,
    pub max_y: i32,
}

/// The least and greatest coordinates over every point of every layer.
fn bounds(level: &Level) -> (r: Bounds)
    requires
        coords_fit(*level),
    ensures
        r.min_x == i32::MAX || r.min_x >= -16384,
        r.max_x == i32::MIN || r.max_x <= 16383,
        r.min_y == i32::MAX || r.min_y >= -16384,
        r.max_y == i32::MIN || r.max_y <= 16383,
        has_point(*level) ==> attained(*level, r.min_x, r.max_x, r.min_y, r.max_y),
        forall|l: int, e: int, k: int|
            #![trigger point_of(*level, l, e, k)]
            is_point(*level, l, e, k) ==> r.min_x <= point_of(*level, l, e, k).0 <= r.max_x
                && r.min_y <= point_of(*level, l, e, k).1 <= r.max_y,
{
    let mut b = Bounds { min_x: i32::MAX, max_x: i32::MIN, min_y: i32::MAX, max_y: i32::MIN };
    let ghost mut seen = false;
    let mut l: usize = 0;
    while l < level.layers.len()
        invariant
            b.min_x == i32::MAX || b.min_x >= -16384,
            b.max_x == i32::MIN || b.max_x <= 16383,
            b.min_y == i32::MAX || b.min_y >= -16384,
            b.max_y == i32::MIN || b.max_y <= 16383,
            coords_fit(*level),
            seen ==> attained(*level, b.min_x, b.max_x, b.min_y, b.max_y),
            !seen ==> b.min_x == i32::MAX && b.max_x == i32::MIN && b.min_y == i32::MAX && b.max_y
                == i32::MIN,
            !seen ==> forall|ll: int, e: int, k: int|
                #[trigger] is_point(*level, ll, e, k) ==> ll >= l,
            l <= level.layers@.len(),
            forall|ll: int, e: int, k: int|
                #![trigger point_of(*level, ll, e, k)]
                is_point(*level, ll, e, k) && ll < l ==> b.min_x <= point_of(*level, ll, e, k).0
                    <= b.max_x && b.min_y <= point_of(*level, ll, e, k).1 <= b.max_y,
        decreases level.layers@.len() - l,
    {
        let layer = &level.layers[l].1;
        let mut e: usize = 0;
        while e < layer.len()
            invariant
            b.min_x == i32::MAX || b.min_x >= -16384,
            b.max_x == i32::MIN || b.max_x <= 16383,
            b.min_y == i32::MAX || b.min_y >= -16384,
            b.max_y == i32::MIN || b.max_y <= 16383,
            coords_fit(*level),
                seen ==> attained(*level, b.min_x, b.max_x, b.min_y, b.max_y),
            !seen ==> b.min_x == i32::MAX && b.max_x == i32::MIN && b.min_y == i32::MAX && b.max_y
                == i32::MIN,
                !seen ==> forall|ll: int, ee: int, k: int|
                    #[trigger] is_point(*level, ll, ee, k) ==> ll > l || (ll == l && ee >= e),
                l < level.layers@.len(),
                *layer == level.layers@[l as int].1,
                e <= layer@.len(),
                forall|ll: int, ee: int, k: int|
                    #![trigger point_of(*level, ll, ee, k)]
                    is_point(*level, ll, ee, k) && (ll < l || (ll == l && ee < e)) ==> b.min_x
                        <= point_of(*level, ll, ee, k).0 <= b.max_x && b.min_y
                        <= point_of(*level, ll, ee, k).1 <= b.max_y,
            decreases layer@.len() - e,
        {
            let points = &layer[e].1;
            let mut k: usize = 0;
            while k < points.len()
                invariant
            b.min_x == i32::MAX || b.min_x >= -16384,
            b.max_x == i32::MIN || b.max_x <= 16383,
            b.min_y == i32::MAX || b.min_y >= -16384,
            b.max_y == i32::MIN || b.max_y <= 16383,
            coords_fit(*level),
                    seen ==> attained(*level, b.min_x, b.max_x, b.min_y, b.max_y),
            !seen ==> b.min_x == i32::MAX && b.max_x == i32::MIN && b.min_y == i32::MAX && b.max_y
                == i32::MIN,
                    !seen ==> forall|ll: int, ee: int, kk: int|
                        #[trigger] is_point(*level, ll, ee, kk) ==> ll > l || (ll == l && ee > e) || (ll
                            == l && ee == e && kk >= k),
                    l < level.layers@.len(),
                    *layer == level.layers@[l as int].1,
                    e < layer@.len(),
                    *points == layer@[e as int].1,
                    k <= points@.len(),
                    forall|ll: int, ee: int, kk: int|
                        #![trigger point_of(*level, ll, ee, kk)]
                        is_point(*level, ll, ee, kk) && (ll < l || (ll == l && ee < e) || (ll == l
                            && ee == e && kk < k)) ==> b.min_x <= point_of(*level, ll, ee, kk).0
                            <= b.max_x && b.min_y <= point_of(*level, ll, ee, kk).1 <= b.max_y,
                decreases points@.len() - k,
            {
                let p = points[k];
                assert(p == point_of(*level, l as int, e as int, k as int));
                let ghost was_seen = seen;
                let ghost ob = (b.min_x, b.max_x, b.min_y, b.max_y);
                if p.0 < b.min_x {
                    b.min_x = p.0;
                }
                if p.0 > b.max_x {
                    b.max_x = p.0;
                }
                if p.1 < b.min_y {
                    b.min_y = p.1;
                }
                if p.1 > b.max_y {
                    b.max_y = p.1;
                }
                proof {
                    let q = point_of(*level, l as int, e as int, k as int);
                    assert(is_point(*level, l as int, e as int, k as int));
                    if was_seen {
                        assert(attained(*level, ob.0, ob.1, ob.2, ob.3));
                    }
                    if b.min_x == p.0 {
                        assert(q.0 == b.min_x);
                    } else {
                        assert(b.min_x == ob.0);
                        let (l1, e1, k1) = choose|l1: int, e1: int, k1: int|
                            is_point(*level, l1, e1, k1) && #[trigger] point_of(*level, l1, e1, k1).0 == ob.0;
                        assert(point_of(*level, l1, e1, k1).0 == b.min_x);
                    }
                    if b.max_x == p.0 {
                        assert(q.0 == b.max_x);
                    } else {
                        assert(b.max_x == ob.1);
                        let (l1, e1, k1) = choose|l1: int, e1: int, k1: int|
                            is_point(*level, l1, e1, k1) && #[trigger] point_of(*level, l1, e1, k1).0 == ob.1;
                        assert(point_of(*level, l1, e1, k1).0 == b.max_x);
                    }
                    if b.min_y == p.1 {
                        assert(q.1 == b.min_y);
                    } else {
                        assert(b.min_y == ob.2);
                        let (l1, e1, k1) = choose|l1: int, e1: int, k1: int|
                            is_point(*level, l1, e1, k1) && #[trigger] point_of(*level, l1, e1, k1).1 == ob.2;
                        assert(point_of(*level, l1, e1, k1).1 == b.min_y);
                    }
                    if b.max_y == p.1 {
                        assert(q.1 == b.max_y);
                    } else {
                        assert(b.max_y == ob.3);
                        let (l1, e1, k1) = choose|l1: int, e1: int, k1: int|
                            is_point(*level, l1, e1, k1) && #[trigger] point_of(*level, l1, e1, k1).1 == ob.3;
                        assert(point_of(*level, l1, e1, k1).1 == b.max_y);
                    }
                    assert(attained(*level, b.min_x, b.max_x, b.min_y, b.max_y));
                    seen = true;
                }
                k = k + 1;
            }
            e = e + 1;
        }
        l = l + 1;
    }
    b
}


/// Spec view of [`to_faction`].
pub open spec fn faction_code(code: u32) -> Option<Faction> {
    if code == 0 {
        None
    } else if code == 1 {
        Some(Faction::Red)
    } else {
        Some(Faction::Blue)
    }
}

/// The tile a level puts at `(x, y)`: the terrain of the first entry of
/// its terrain layer with a point there, owned as that point's colour
/// says; default terrain, unowned, where there is none.
pub open spec fn expected_tile(level: Level, info: GameInfo, x: int, y: int) -> Tile {
    let default = info.terrain@[index_named(info.terrain@, "default"@)->0].1;
    match layer_named(level, "terrain"@) {
        Some(layer) => match type_at(layer, x as i32, y as i32) {
            Some((name, c)) => Tile {
                terrain: info.terrain@[index_named(info.terrain@, name)->0].1,
                faction: faction_code(c),
                capture: None,
            },
            None => Tile { terrain: default, faction: None, capture: None },
        },
        None => Tile { terrain: default, faction: None, capture: None },
    }
}

/// Every coordinate of every point of `level` lies in -16384..=16383, so
/// that the grid it spans has at most 2^30 tiles.
pub open spec fn coords_fit(level: Level) -> bool {
    forall|l: int, e: int, k: int|
        #![trigger point_of(level, l, e, k)]
        is_point(level, l, e, k) ==> -16384 <= point_of(level, l, e, k).0 <= 16383 && -16384
            <= point_of(level, l, e, k).1 <= 16383
}

/// What a level needs of the catalog to be built: a default terrain, a
/// known terrain and a colour code of at most 2 for every entry of its
/// terrain layer.
pub open spec fn terrain_known(level: Level, info: GameInfo) -> bool {
    &&& index_named(info.terrain@, "default"@) is Some
    &&& layer_named(level, "terrain"@) matches Some(layer) ==> forall|e: int, k: int|
        #![trigger layer[e].1@[k]]
        0 <= e < layer.len() && 0 <= k < layer[e].1@.len() ==> index_named(
            info.terrain@,
            layer[e].0@,
        ) is Some && layer[e].1@[k].2 <= 2
}

/// The grid holds the tiles that `level` describes, shifted so that
/// `(ox, oy)` is its bottom-left corner, and every point of the level
/// lies on it.
pub open spec fn tiles_built(grid: Grid, level: Level, info: GameInfo, ox: int, oy: int) -> bool {
    &&& forall|l: int, e: int, k: int|
        #![trigger point_of(level, l, e, k)]
        is_point(level, l, e, k) ==> crate::grid::in_bounds(
            grid.spec_size(),
            point_of(level, l, e, k).0 - ox,
            point_of(level, l, e, k).1 - oy,
        )
    &&& forall|p: (u32, u32)|
        grid.contains(p) ==> #[trigger] grid.tile_at(p) == expected_tile(level, info, p.0 + ox, p.1 + oy)
}

impl Level {
    fn build_tiles(&self, info: &GameInfo, b: &Bounds, w: u32, h: u32) -> (r: Vec<Tile>)
        requires
            w == b.max_x - b.min_x + 1,
            h == b.max_y - b.min_y + 1,
            1 <= w <= 32768,
            1 <= h <= 32768,
            -16384 <= b.min_x,
            b.max_x <= 16383,
            -16384 <= b.min_y,
            b.max_y <= 16383,
            terrain_known(*self, *info),
        ensures
            r@.len() == w * h,
            forall|j: int|
                0 <= j < w * h ==> #[trigger] r@[j] == expected_tile(
                    *self,
                    *info,
                    j % (w as int) + b.min_x,
                    j / (w as int) + b.min_y,
                ),
    {
        proof {
            reveal_strlit("terrain");
            reveal_strlit("default");
        }
        let terrain_layer = find_named(&self.layers, &"terrain".to_owned());
        let default_index = find_named(&info.terrain, &"default".to_owned()).unwrap();
        assert(w * h <= 32768 * 32768) by (nonlinear_arith)
            requires
                w <= 32768,
                h <= 32768,
        ;
        let n: usize = w as usize * h as usize;
        let mut tiles: Vec<Tile> = Vec::new();
        let mut j: usize = 0;
        while j < n
            invariant
                n == w * h,
                1 <= w,
                j <= n,
                tiles@.len() == j,
                terrain_known(*self, *info),
                b.min_x <= b.max_x,
                w == b.max_x - b.min_x + 1,
                h == b.max_y - b.min_y + 1,
                -16384 <= b.min_x,
                b.max_x <= 16383,
                -16384 <= b.min_y,
                b.max_y <= 16383,
                terrain_layer matches Some(i) ==> index_named(self.layers@, "terrain"@) == Some(i as int)
                    && i < self.layers@.len(),
                default_index < info.terrain@.len(),
                terrain_layer is None ==> index_named(self.layers@, "terrain"@) is None,
                index_named(info.terrain@, "default"@) == Some(default_index as int),
                forall|i: int|
                    0 <= i < j ==> #[trigger] tiles@[i] == expected_tile(
                        *self,
                        *info,
                        i % (w as int) + b.min_x,
                        i / (w as int) + b.min_y,
                    ),
            decreases n - j,
        {
            let x = (j % w as usize) as i32 + b.min_x;
            let ghost yy = (j as int) / (w as int);
            assert(yy < h) by (nonlinear_arith)
                requires
                    yy == (j as int) / (w as int),
                    j < w * h,
                    w >= 1,
            ;
            let y = (j / w as usize) as i32 + b.min_y;
            let default = Tile {
                terrain: info.terrain[default_index].1.clone(),
                faction: None,
                capture: None,
            };
            let tile = match terrain_layer {
                Some(li) => match find_type(&self.layers[li].1, x, y) {
                    Some((e, c)) => {
                        proof {
                            let layer = self.layers@[li as int].1@;
                            let k = lemma_color_at(layer[e as int].1@, x, y);
                            assert(layer[e as int].1@[k].2 == c);
                        }
                        let name = &self.layers[li].1[e].0;
                        let ti = find_named(&info.terrain, name).unwrap();
                        Tile {
                            terrain: info.terrain[ti].1.clone(),
                            faction: to_faction(c),
                            capture: None,
                        }
                    },
                    None => default,
                },
                None => default,
            };
            tiles.push(tile);
            j = j + 1;
        }
        tiles
    }
}


/// Where point `pt` lands on a grid whose bottom-left corner is `(ox, oy)`.
pub open spec fn shifted(pt: Point, ox: int, oy: int) -> (u32, u32) {
    ((pt.0 - ox) as u32, (pt.1 - oy) as u32)
}

/// What a level needs of the catalog to place its units: a units layer
/// whose kinds are all known, whose colours name a faction, and no two of
/// whose points share a tile.
pub open spec fn units_known(level: Level, info: GameInfo) -> bool {
    &&& layer_named(level, "units"@) is Some
    &&& {
        let u = layer_named(level, "units"@)->0;
        &&& forall|e: int, k: int|
            #![trigger u[e].1@[k]]
            0 <= e < u.len() && 0 <= k < u[e].1@.len() ==> index_named(info.roles@, u[e].0@)
                is Some && 1 <= u[e].1@[k].2 <= 2
        &&& forall|e1: int, k1: int, e2: int, k2: int|
            #![trigger u[e1].1@[k1], u[e2].1@[k2]]
            0 <= e1 < u.len() && 0 <= k1 < u[e1].1@.len() && 0 <= e2 < u.len() && 0 <= k2
                < u[e2].1@.len() && (e1 != e2 || k1 != k2) ==> !(u[e1].1@[k1].0 == u[e2].1@[k2].0
                && u[e1].1@[k1].1 == u[e2].1@[k2].1)
    }
}

/// The unit a point of the units layer stands for: a fresh unit of the
/// kind its entry names, of the faction its colour names.
pub open spec fn expected_unit(info: GameInfo, kind: Seq<char>, pt: Point) -> Unit {
    Unit {
        health: MAX_HEALTH,
        faction: faction_code(pt.2)->0,
        spent: false,
        kind: info.roles@[index_named(info.roles@, kind)->0].1,
    }
}

/// The grid holds exactly the units of the level's units layer, shifted
/// so that `(ox, oy)` is its bottom-left corner.
pub open spec fn units_placed(grid: Grid, level: Level, info: GameInfo, ox: int, oy: int) -> bool {
    let u = layer_named(level, "units"@)->0;
    &&& forall|e: int, k: int|
        #![trigger u[e].1@[k]]
        0 <= e < u.len() && 0 <= k < u[e].1@.len() ==> grid.unit_at(shifted(u[e].1@[k], ox, oy))
            == Some(expected_unit(info, u[e].0@, u[e].1@[k]))
    &&& forall|p: (u32, u32)|
        (forall|e: int, k: int|
            #![trigger u[e].1@[k]]
            0 <= e < u.len() && 0 <= k < u[e].1@.len() ==> shifted(u[e].1@[k], ox, oy) != p)
            ==> #[trigger] grid.unit_at(p) is None
}


impl Level {
    fn place_units(&self, info: &GameInfo, grid: &mut Grid, ox: i32, oy: i32)
        requires
            old(grid).wf(),
            units_known(*self, *info),
            forall|p: (u32, u32)| #[trigger] old(grid).unit_at(p) is None,
            forall|l: int, e: int, k: int|
                #![trigger point_of(*self, l, e, k)]
                is_point(*self, l, e, k) ==> crate::grid::in_bounds(
                    old(grid).spec_size(),
                    point_of(*self, l, e, k).0 - ox,
                    point_of(*self, l, e, k).1 - oy,
                ),
        ensures
            final(grid).wf(),
            final(grid).spec_size() == old(grid).spec_size(),
            forall|p: (u32, u32)| final(grid).tile_at(p) == old(grid).tile_at(p),
            units_placed(*final(grid), *self, *info, ox as int, oy as int),
    {
        proof {
            reveal_strlit("units");
        }
        let ui = find_named(&self.layers, &"units".to_owned()).unwrap();
        let units = &self.layers[ui].1;
        let ghost u = units@;
        let ghost size = grid.spec_size();
        let mut e: usize = 0;
        while e < units.len()
            invariant
                grid.wf(),
                grid.spec_size() == size,
                u == units@,
                u == layer_named(*self, "units"@)->0,
                ui < self.layers@.len() && self.layers@[ui as int].1@ == u,
                units_known(*self, *info),
                forall|p: (u32, u32)| grid.tile_at(p) == old(grid).tile_at(p),
                forall|l: int, ee: int, k: int|
                    #![trigger point_of(*self, l, ee, k)]
                    is_point(*self, l, ee, k) ==> crate::grid::in_bounds(
                        size,
                        point_of(*self, l, ee, k).0 - ox,
                        point_of(*self, l, ee, k).1 - oy,
                    ),
                e <= u.len(),
                forall|e2: int, k2: int|
                    #![trigger u[e2].1@[k2]]
                    0 <= e2 < e && 0 <= k2 < u[e2].1@.len() ==> grid.unit_at(
                        shifted(u[e2].1@[k2], ox as int, oy as int),
                    ) == Some(expected_unit(*info, u[e2].0@, u[e2].1@[k2])),
                forall|p: (u32, u32)|
                    (forall|e2: int, k2: int|
                        #![trigger u[e2].1@[k2]]
                        0 <= e2 < e && 0 <= k2 < u[e2].1@.len() ==> shifted(u[e2].1@[k2], ox as int, oy as int) != p)
                        ==> #[trigger] grid.unit_at(p) is None,
            decreases u.len() - e,
        {
            let entry = &units[e];
            let mut k: usize = 0;
            while k < entry.1.len()
                invariant
                    grid.wf(),
                    grid.spec_size() == size,
                    u == units@,
                    e < u.len(),
                    *entry == u[e as int],
                    u == layer_named(*self, "units"@)->0,
                    ui < self.layers@.len() && self.layers@[ui as int].1@ == u,
                    units_known(*self, *info),
                    forall|p: (u32, u32)| grid.tile_at(p) == old(grid).tile_at(p),
                    forall|l: int, ee: int, kk: int|
                        #![trigger point_of(*self, l, ee, kk)]
                        is_point(*self, l, ee, kk) ==> crate::grid::in_bounds(
                            size,
                            point_of(*self, l, ee, kk).0 - ox,
                            point_of(*self, l, ee, kk).1 - oy,
                        ),
                    k <= entry.1@.len(),
                    forall|e2: int, k2: int|
                        #![trigger u[e2].1@[k2]]
                        0 <= e2 < u.len() && 0 <= k2 < u[e2].1@.len() && (e2 < e || (e2 == e && k2
                            < k)) ==> grid.unit_at(shifted(u[e2].1@[k2], ox as int, oy as int))
                            == Some(expected_unit(*info, u[e2].0@, u[e2].1@[k2])),
                    forall|p: (u32, u32)|
                        (forall|e2: int, k2: int|
                            #![trigger u[e2].1@[k2]]
                            0 <= e2 < u.len() && 0 <= k2 < u[e2].1@.len() && (e2 < e || (e2 == e
                                && k2 < k)) ==> shifted(u[e2].1@[k2], ox as int, oy as int) != p)
                            ==> #[trigger] grid.unit_at(p) is None,
                decreases entry.1@.len() - k,
            {
                let pt = entry.1[k];
                proof {
                    assert(u[e as int].1@[k as int] == pt);
                    assert(point_of(*self, ui as int, e as int, k as int) == pt);
                }
                let ri = find_named(&info.roles, &entry.0).unwrap();
                let faction = to_faction(pt.2).unwrap();
                let pos = ((pt.0 as i64 - ox as i64) as u32, (pt.1 as i64 - oy as i64) as u32);
                let ghost here = u[e as int].1@[k as int];
                proof {
                    assert(pos == shifted(pt, ox as int, oy as int));
                    assert forall|e2: int, k2: int|
                        #![trigger u[e2].1@[k2]]
                        0 <= e2 < u.len() && 0 <= k2 < u[e2].1@.len() && (e2 < e || (e2 == e && k2
                            < k)) implies shifted(u[e2].1@[k2], ox as int, oy as int) != pos by {
                        let q = u[e2].1@[k2];
                        assert(point_of(*self, ui as int, e2, k2) == q);
                        assert(u[e2].1@[k2] != here || e2 != e || k2 != k);
                        if shifted(q, ox as int, oy as int) == pos {
                            assert(q.0 == pt.0 && q.1 == pt.1);
                        }
                    }
                }
                grid.add_unit(Unit::new(info.roles[ri].1.clone(), faction), pos);
                proof {
                    assert forall|e2: int, k2: int|
                        #![trigger u[e2].1@[k2]]
                        0 <= e2 < u.len() && 0 <= k2 < u[e2].1@.len() && (e2 < e || (e2 == e && k2
                            < k + 1)) implies grid.unit_at(shifted(u[e2].1@[k2], ox as int, oy as int))
                        == Some(expected_unit(*info, u[e2].0@, u[e2].1@[k2])) by {
                        if e2 != e || k2 != k {
                            let q = u[e2].1@[k2];
                            assert(point_of(*self, ui as int, e2, k2) == q);
                            if shifted(q, ox as int, oy as int) == pos {
                                assert(q.0 == pt.0 && q.1 == pt.1);
                            }
                        }
                    }
                }
                k = k + 1;
            }
            e = e + 1;
        }
    }
}


/// Whether `level` has at least one point.
pub open spec fn has_point(level: Level) -> bool {
    exists|l: int, e: int, k: int| #[trigger] is_point(level, l, e, k)
}

impl Level {
    /// Builds the grid the level describes: just large enough to hold every
    /// point of every layer (points lie on all four of its edges), its
    /// tiles taken from the terrain layer (the default terrain elsewhere)
    /// and its units from the units layer.
    pub fn create_grid(&self, info: &GameInfo) -> (r: Grid)
        requires
            has_point(*self),
            coords_fit(*self),
            terrain_known(*self, *info),
            units_known(*self, *info),
        ensures
            r.wf(),
            exists|ox: i32, oy: i32|
                tiles_built(r, *self, *info, ox as int, oy as int) && units_placed(
                    r,
                    *self,
                    *info,
                    ox as int,
                    oy as int,
                ) && attained(
                    *self,
                    ox,
                    (ox + r.spec_size().0 - 1) as i32,
                    oy,
                    (oy + r.spec_size().1 - 1) as i32,
                ),
    {
        let b = bounds(self);
        proof {
            let (l, e, k) = choose|l: int, e: int, k: int| is_point(*self, l, e, k);
            assert(b.min_x <= point_of(*self, l, e, k).0 <= b.max_x);
            assert(b.min_y <= point_of(*self, l, e, k).1 <= b.max_y);
        }
        let w = (b.max_x as i64 - b.min_x as i64 + 1) as u32;
        let h = (b.max_y as i64 - b.min_y as i64 + 1) as u32;
        let tiles = self.build_tiles(info, &b, w, h);
        let ghost t = tiles@;
        let mut grid = Grid::new((w, h), tiles);
        proof {
            assert forall|p: (u32, u32)| grid.contains(p) implies #[trigger] grid.tile_at(p)
                == expected_tile(*self, *info, p.0 + b.min_x, p.1 + b.min_y) by {
                let j = tile_index((w, h), p);
                vstd::arithmetic::div_mod::lemma_fundamental_div_mod_converse(
                    j,
                    w as int,
                    p.1 as int,
                    p.0 as int,
                );
                assert(t[j] == expected_tile(*self, *info, j % (w as int) + b.min_x, j / (w as int) + b.min_y));
            }
            assert forall|p: (u32, u32)| #[trigger] grid.unit_at(p) is None by {}
        }
        self.place_units(info, &mut grid, b.min_x, b.min_y);
        proof {
            assert(tiles_built(grid, *self, *info, b.min_x as int, b.min_y as int));
        }
        grid
    }
}


/// A terrain kind as written in the catalog; `defense` in hundredths.
#[derive(Clone, Debug)]
pub struct TerrainSpec {
    pub defense: i32,
    pub capture: u32,
    pub sprite: Option<SpriteSpec>,
}

/// An attack as written in the catalog; damage and modifiers in hundredths.
#[derive(Clone, Debug)]
pub struct AttackSpec {
    pub damage: u32,
    pub range: RangeSpec,
    pub modifiers: Vec<(String, u32)>,
}

/// A defense as written in the catalog; `defense` in hundredths.
#[derive(Clone, Debug)]
pub struct DefenseSpec {
    pub defense: i32,
    pub class: String,
}

/// A unit kind as written in the catalog.
#[derive(Clone, Debug)]
pub struct RoleSpec {
    pub attack: AttackSpec,
    pub defense: DefenseSpec,
    pub movement: MovementSpec,
    pub capture: u32,
    pub sprite: SpriteSpec,
}

/// The whole catalog as written: movement classes (each a cost per
/// terrain name), unit kinds, terrain kinds and defense classes, by name.
#[derive(Clone, Debug)]
pub struct Spec {
    pub movement_classes: Vec<(String, Vec<(String, u32)>)>,
    pub roles: Vec<(String, RoleSpec)>,
    pub terrain: Vec<(String, TerrainSpec)>,
    pub defense_classes: Vec<String>,
}

/// Whether movement class `costs` prices exactly the terrain kinds of
/// `terrain`: each entry names a terrain kind, each terrain kind has an
/// entry.
pub open spec fn class_matches(costs: Seq<(String, u32)>, terrain: Seq<(String, TerrainSpec)>) -> bool {
    &&& forall|e: int| 0 <= e < costs.len() ==> index_named(terrain, #[trigger] costs[e].0@) is Some
    &&& forall|t: int| 0 <= t < terrain.len() ==> index_named(costs, #[trigger] terrain[t].0@) is Some
}

/// Whether unit kind `role` is well formed against movement classes
/// `classes`: its range kind is known and complete, its movement class
/// exists.
pub open spec fn role_valid(role: RoleSpec, classes: Seq<(String, Vec<(String, u32)>)>) -> bool {
    &&& range_kind_of(role.attack.range) is Some
    &&& index_named(classes, role.movement.class@) is Some
}

/// Whether the catalog cross-references hold.
pub open spec fn spec_valid(spec: Spec) -> bool {
    &&& forall|c: int|
        0 <= c < spec.movement_classes@.len() ==> class_matches(
            (#[trigger] spec.movement_classes@[c]).1@,
            spec.terrain@,
        )
    &&& forall|r: int|
        0 <= r < spec.roles@.len() ==> role_valid((#[trigger] spec.roles@[r]).1, spec.movement_classes@)
}

fn class_costs(costs: &Vec<(String, u32)>, terrain: &Vec<(String, TerrainSpec)>) -> (r: Result<Vec<u32>, String>)
    ensures
        r is Ok <==> class_matches(costs@, terrain@),
        r matches Ok(v) ==> v@.len() == terrain@.len() && forall|t: int|
            0 <= t < terrain@.len() ==> #[trigger] v@[t] == costs@[index_named(costs@, terrain@[t].0@)->0].1,
{
    let mut e: usize = 0;
    while e < costs.len()
        invariant
            e <= costs@.len(),
            forall|j: int| 0 <= j < e ==> index_named(terrain@, #[trigger] costs@[j].0@) is Some,
        decreases costs@.len() - e,
    {
        if find_named(terrain, &costs[e].0).is_none() {
            return Err("unrecognized terrain for movement class".to_owned());
        }
        e = e + 1;
    }
    let mut v: Vec<u32> = Vec::new();
    let mut t: usize = 0;
    while t < terrain.len()
        invariant
            t <= terrain@.len(),
            v@.len() == t,
            forall|j: int| 0 <= j < costs@.len() ==> index_named(terrain@, #[trigger] costs@[j].0@) is Some,
            forall|j: int| 0 <= j < t ==> index_named(costs@, #[trigger] terrain@[j].0@) is Some,
            forall|j: int|
                0 <= j < t ==> #[trigger] v@[j] == costs@[index_named(costs@, terrain@[j].0@)->0].1,
        decreases terrain@.len() - t,
    {
        match find_named(costs, &terrain[t].0) {
            Some(i) => v.push(costs[i].1),
            None => {
                return Err("movement class is missing terrain".to_owned());
            },
        }
        t = t + 1;
    }
    Ok(v)
}

impl Spec {
    /// Checks the catalog's cross-references and builds the catalog: every
    /// movement class must price exactly the known terrain kinds, every
    /// unit kind must have a known, complete range kind and a known
    /// movement class. Terrain kinds are numbered in the order given, and
    /// each movement class lists its costs in that order.
    pub fn to_info(&self) -> (r: Result<GameInfo, String>)
        ensures
            r is Ok <==> spec_valid(*self),
            r matches Ok(info) ==> {
                &&& info.terrain@.len() == self.terrain@.len()
                &&& forall|t: int|
                    0 <= t < self.terrain@.len() ==> (#[trigger] info.terrain@[t]).0@ == self.terrain@[t].0@
                        && info.terrain@[t].1.id == t && info.terrain@[t].1.name@ == self.terrain@[t].0@
                        && info.terrain@[t].1.defense == self.terrain@[t].1.defense
                        && info.terrain@[t].1.capture == self.terrain@[t].1.capture
                &&& info.movement_classes@.len() == self.movement_classes@.len()
                &&& forall|c: int|
                    0 <= c < self.movement_classes@.len() ==> (#[trigger] info.movement_classes@[c]).0@
                        == self.movement_classes@[c].0@ && info.movement_classes@[c].1.costs@.len()
                        == self.terrain@.len()
                &&& info.roles@.len() == self.roles@.len()
                &&& forall|i: int|
                    0 <= i < self.roles@.len() ==> (#[trigger] info.roles@[i]).0@ == self.roles@[i].0@
                        && Some(info.roles@[i].1.attack.range) == range_kind_of(self.roles@[i].1.attack.range)
            },
    {
        let mut terrain: Vec<(String, Terrain)> = Vec::new();
        let mut t: usize = 0;
        while t < self.terrain.len()
            invariant
                t <= self.terrain@.len(),
                terrain@.len() == t,
                forall|j: int|
                    0 <= j < t ==> (#[trigger] terrain@[j]).0@ == self.terrain@[j].0@ && terrain@[j].1.id
                        == j && terrain@[j].1.name@ == self.terrain@[j].0@ && terrain@[j].1.defense
                        == self.terrain@[j].1.defense && terrain@[j].1.capture
                        == self.terrain@[j].1.capture,
            decreases self.terrain@.len() - t,
        {
            let (name, spec) = (&self.terrain[t].0, &self.terrain[t].1);
            let sprite = match &spec.sprite {
                Some(s) => Some(SpriteInfo { texture: s.texture.clone(), area: s.area }),
                None => None,
            };
            let info = TerrainInfo {
                name: name.clone(),
                id: t,
                defense: spec.defense,
                capture: spec.capture,
                sprite,
            };
            terrain.push((name.clone(), std::rc::Rc::new(info)));
            t = t + 1;
        }
        let mut classes: Vec<(String, MovementClass)> = Vec::new();
        let mut plain: Vec<MovementClass> = Vec::new();
        let mut c: usize = 0;
        while c < self.movement_classes.len()
            invariant
                c <= self.movement_classes@.len(),
                classes@.len() == c,
                plain@.len() == c,
                forall|j: int|
                    0 <= j < c ==> class_matches(
                        (#[trigger] self.movement_classes@[j]).1@,
                        self.terrain@,
                    ),
                forall|j: int|
                    0 <= j < c ==> (#[trigger] classes@[j]).0@ == self.movement_classes@[j].0@
                        && classes@[j].1.costs@.len() == self.terrain@.len() && plain@[j]
                        == classes@[j].1 && classes@[j].1.name@ == self.movement_classes@[j].0@,
            decreases self.movement_classes@.len() - c,
        {
            let name = &self.movement_classes[c].0;
            let costs = match class_costs(&self.movement_classes[c].1, &self.terrain) {
                Ok(v) => v,
                Err(e) => {
                    return Err(e);
                },
            };
            let class = std::rc::Rc::new(MovementClassInfo { name: name.clone(), costs });
            classes.push((name.clone(), class.clone()));
            plain.push(class);
            c = c + 1;
        }
        assert forall|j: int|
            0 <= j < self.movement_classes@.len() implies (#[trigger] plain@[j]).name@
                == self.movement_classes@[j].0@ by {
            assert(classes@[j].1.name@ == self.movement_classes@[j].0@);
        }
        let mut roles: Vec<(String, Role)> = Vec::new();
        let mut i: usize = 0;
        while i < self.roles.len()
            invariant
                i <= self.roles@.len(),
                roles@.len() == i,
                plain@.len() == self.movement_classes@.len(),
                forall|j: int|
                    0 <= j < self.movement_classes@.len() ==> (#[trigger] plain@[j]).name@
                        == self.movement_classes@[j].0@,
                forall|j: int|
                    0 <= j < self.movement_classes@.len() ==> class_matches(
                        (#[trigger] self.movement_classes@[j]).1@,
                        self.terrain@,
                    ),
                forall|j: int| 0 <= j < i ==> role_valid((#[trigger] self.roles@[j]).1, self.movement_classes@),
                forall|j: int|
                    0 <= j < i ==> (#[trigger] roles@[j]).0@ == self.roles@[j].0@ && Some(
                        roles@[j].1.attack.range,
                    ) == range_kind_of(self.roles@[j].1.attack.range),
            decreases self.roles@.len() - i,
        {
            let (name, spec) = (&self.roles[i].0, &self.roles[i].1);
            let range = match spec.attack.range.to_info() {
                Ok(k) => k,
                Err(e) => {
                    return Err(e);
                },
            };
            proof {
                lemma_index_named_exists(self.movement_classes@, spec.movement.class@);
            }
            let movement = match spec.movement.to_info(&plain) {
                Ok(m) => m,
                Err(e) => {
                    proof {
                        if index_named(self.movement_classes@, spec.movement.class@) is Some {
                            let j = index_named(self.movement_classes@, spec.movement.class@)->0;
                            assert(plain@[j].name@ == spec.movement.class@);
                        }
                    }
                    return Err(e);
                },
            };
            proof {
                let j = choose|j: int| 0 <= j < plain@.len() && plain@[j].name@ == spec.movement.class@;
                assert(self.movement_classes@[j].0@ == spec.movement.class@);
            }
            let sprite = SpriteInfo { texture: spec.sprite.texture.clone(), area: spec.sprite.area };
            let info = RoleInfo {
                name: name.clone(),
                attack: AttackInfo { damage: spec.attack.damage, range, modifiers: spec.attack.modifiers.clone() },
                defense: DefenseInfo { defense: spec.defense.defense, class: spec.defense.class.clone() },
                movement,
                capture: spec.capture,
                sprite,
            };
            roles.push((name.clone(), std::rc::Rc::new(info)));
            i = i + 1;
        }
        Ok(GameInfo {
            movement_classes: classes,
            roles,
            terrain,
            defense_classes: self.defense_classes.clone(),
        })
    }
}

} // verus!
