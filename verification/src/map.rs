//! The board: geometry both peers agree on, and the path creeps walk.
//!
//! A map is *data*, loaded and validated before a match exists. Every lane runs
//! from a spawn point to one goal, and a creep that reaches the goal *leaks*: it
//! leaves the match and costs a life. The point of the game is therefore that
//! nothing may reach the goal.
//!
//! | Concept | Meaning |
//! |---------|---------|
//! | [`Lane`] | One spawn point and the polyline from it to the goal |
//! | [`Goal`] | Where a lane ends, and where a leak happens |
//! | [`Zone`] | A named rectangle of the board. Decoration |
//!
//! The grid is centred on the origin. Nothing here is server-only: the client
//! loads the same file, which is why the map is hashed into the protocol
//! version, and a peer with a different board is refused rather than allowed to
//! draw a lie.

use crate::data::balance::above;
use crate::message::{plain, Message, PieceView};
use crate::order::{
    absolute, at_most, clamped, half, largest, less, one, place, smaller, zero,
};
use crate::scalar::{
    difference, from_whole, nearest_whole, product, quotient, sum, Scalar,
};
use crate::text::{decimal, number, signed_decimal, signed_number};
use crate::vector::{between, displacement, finite_point, gap, inner, scaled, shifted, IVec2, Vec2};
use vstd::prelude::*;

pub mod laws;

verus! {

/// Where maps are read from when nothing says otherwise.
pub const DEFAULT_MAP_DIR: &'static str = "assets/maps";

/// Environment variable naming the map directory.
pub const MAP_DIR_ENV: &'static str = "GREENTD_MAP_DIR";

/// The board that ships.
pub const DEFAULT_MAP_ID: &'static str = "green_td_v36";

/// The map field a startup refusal names when the board and the towers disagree
/// about how close a tower may stand to a lane.
pub const PATH_CLEARANCE_KEY: &'static str = "path_clearance";

// ---------------------------------------------------------------------------
// The file
// ---------------------------------------------------------------------------

/// One map asset.
#[derive(Clone, PartialEq, Eq, Debug)]
pub struct MapDef {
    pub id: String,
    pub name: String,
    pub tiles_x: i32,
    pub tiles_y: i32,
    pub tile_size: Scalar,
    /// A cell whose centre is within this of any lane cannot hold a tower.
    pub path_clearance: Scalar,
    pub goal: GoalDef,
    pub lanes: Vec<LaneDef>,
    pub zones: Vec<ZoneDef>,
}

/// The goal a lane ends at: where a creep leaves the match.
#[derive(Clone, PartialEq, Eq, Debug)]
pub struct GoalDef {
    pub name: String,
    pub x: Scalar,
    pub y: Scalar,
    pub half_w: Scalar,
    pub half_h: Scalar,
}

/// One lane: a name, the point creeps enter, and the waypoints they follow.
#[derive(Clone, PartialEq, Eq, Debug)]
pub struct LaneDef {
    pub name: String,
    pub spawn: Vec2,
    pub waypoints: Vec<Vec2>,
}

/// A named rectangle of the board.
#[derive(Clone, PartialEq, Eq, Debug)]
pub struct ZoneDef {
    pub name: String,
    pub min: Vec2,
    pub max: Vec2,
}

/// A lane definition, as a value.
pub ghost struct LaneDefView {
    pub name: Seq<char>,
    pub spawn: Vec2,
    pub waypoints: Seq<Vec2>,
}

impl View for LaneDef {
    type V = LaneDefView;

    open spec fn view(&self) -> LaneDefView {
        LaneDefView {
            name: self.name@,
            spawn: self.spawn,
            waypoints: self.waypoints@,
        }
    }
}

/// A rectangle of ground, as a value.
pub ghost struct ZoneView {
    pub name: Seq<char>,
    pub min: Vec2,
    pub max: Vec2,
}

impl View for ZoneDef {
    type V = ZoneView;

    open spec fn view(&self) -> ZoneView {
        ZoneView { name: self.name@, min: self.min, max: self.max }
    }
}

/// The goal, as a value.
pub ghost struct GoalView {
    pub name: Seq<char>,
    pub centre: Vec2,
    pub half: Vec2,
}

impl View for GoalDef {
    type V = GoalView;

    open spec fn view(&self) -> GoalView {
        GoalView {
            name: self.name@,
            centre: Vec2 { x: self.x, y: self.y },
            half: Vec2 { x: self.half_w, y: self.half_h },
        }
    }
}

/// A map asset, as a value.
pub ghost struct MapDefView {
    pub id: Seq<char>,
    pub name: Seq<char>,
    pub tiles_x: i32,
    pub tiles_y: i32,
    pub tile_size: Scalar,
    pub path_clearance: Scalar,
    pub goal: GoalView,
    pub lanes: Seq<LaneDefView>,
    pub zones: Seq<ZoneView>,
}

impl View for MapDef {
    type V = MapDefView;

    open spec fn view(&self) -> MapDefView {
        MapDefView {
            id: self.id@,
            name: self.name@,
            tiles_x: self.tiles_x,
            tiles_y: self.tiles_y,
            tile_size: self.tile_size,
            path_clearance: self.path_clearance,
            goal: self.goal@,
            lanes: self.lanes@.map_values(|l: LaneDef| l@),
            zones: self.zones@.map_values(|z: ZoneDef| z@),
        }
    }
}

// ---------------------------------------------------------------------------
// The board
// ---------------------------------------------------------------------------

/// Where a creep that finishes its lane leaves the match.
#[derive(Clone, PartialEq, Eq, Debug)]
pub struct Goal {
    pub name: String,
    pub centre: Vec2,
    pub half: Vec2,
}

impl View for Goal {
    type V = GoalView;

    open spec fn view(&self) -> GoalView {
        GoalView { name: self.name@, centre: self.centre, half: self.half }
    }
}

/// A named rectangle of ground.
#[derive(Clone, PartialEq, Eq, Debug)]
pub struct Zone {
    pub name: String,
    pub min: Vec2,
    pub max: Vec2,
}

impl View for Zone {
    type V = ZoneView;

    open spec fn view(&self) -> ZoneView {
        ZoneView { name: self.name@, min: self.min, max: self.max }
    }
}

impl Zone {
    /// The middle of the rectangle.
    pub fn centre(&self) -> (p: Vec2)
        ensures
            p == scaled(shifted(self.min, self.max), half()),
    {
        self.min.plus(self.max).times(half())
    }

    /// The sides of the rectangle.
    pub fn size(&self) -> (p: Vec2)
        ensures
            p == displacement(self.max, self.min),
    {
        self.max.minus(self.min)
    }
}

/// A lane as the sim uses it: waypoints plus the prefix lengths that turn
/// "distance travelled" into a position.
///
/// A lane *ends*: a creep whose distance passes [`Lane::total`] has arrived at
/// the goal.
#[derive(Clone, PartialEq, Eq, Debug)]
pub struct Lane {
    pub name: String,
    pub points: Vec<Vec2>,
    /// The distance walked up to each waypoint.
    pub cumulative: Vec<Scalar>,
    pub total: Scalar,
}

/// A lane, as a value.
pub ghost struct LaneView {
    pub name: Seq<char>,
    pub points: Seq<Vec2>,
}

impl View for Lane {
    type V = LaneView;

    open spec fn view(&self) -> LaneView {
        LaneView { name: self.name@, points: self.points@ }
    }
}

/// The distance walked along a polyline up to its waypoint `i`.
pub open spec fn walked(points: Seq<Vec2>, i: int) -> Scalar
    decreases i,
{
    if i <= 0 {
        zero()
    } else {
        sum(walked(points, i - 1), gap(points[i - 1], points[i]))
    }
}

/// The length of a polyline.
pub open spec fn length(points: Seq<Vec2>) -> Scalar {
    walked(points, points.len() - 1)
}

/// Among the first `n` waypoints, the last that has been reached after a
/// distance; the first where none has.
pub open spec fn reached(points: Seq<Vec2>, d: Scalar, n: int) -> int
    decreases n,
{
    if n <= 1 {
        0
    } else if place(walked(points, n - 1)) <= place(d) {
        n - 1
    } else {
        reached(points, d, n - 1)
    }
}

/// Where a creep is after a distance that lies within the lane.
pub open spec fn along(points: Seq<Vec2>, d: Scalar) -> Vec2 {
    let last = reached(points, d, points.len() as int);
    let i = if last > points.len() - 2 { points.len() - 2 } else { last };
    let start = walked(points, i);
    let long = difference(walked(points, i + 1), start);
    let t = if less(zero(), long) { quotient(difference(d, start), long) } else { zero() };
    between(points[i], points[i + 1], t)
}

/// Where a creep is after travelling a distance. A distance past the end reads
/// as the end, and one that is not a finite number as the spawn point.
pub open spec fn location(points: Seq<Vec2>, dist: Scalar) -> Vec2 {
    if !dist.finite() {
        points[0]
    } else {
        along(points, clamped(dist, zero(), length(points)))
    }
}

/// The distance from a point to a segment.
pub open spec fn segment_distance(a: Vec2, b: Vec2, p: Vec2) -> Scalar {
    let ab = displacement(b, a);
    let square = inner(ab, ab);
    let t = if less(zero(), square) {
        clamped(quotient(inner(displacement(p, a), ab), square), zero(), one())
    } else {
        zero()
    };
    gap(p, shifted(a, scaled(ab, t)))
}

/// The shortest distance from a point to the first `n` segments of a polyline.
pub open spec fn polyline_distance(points: Seq<Vec2>, p: Vec2, n: int) -> Scalar
    decreases n,
{
    if n <= 0 {
        largest()
    } else {
        smaller(polyline_distance(points, p, n - 1), segment_distance(points[n - 1], points[n], p))
    }
}

impl Lane {
    /// The prefix lengths are those of the waypoints, of which there are at
    /// least two, and the lane has a length.
    pub open spec fn wf(&self) -> bool {
        &&& self.points@.len() >= 2
        &&& self.cumulative@.len() == self.points@.len()
        &&& forall|i: int| 0 <= i < self.points@.len() ==> #[trigger] self.cumulative@[i] == walked(self.points@, i)
        &&& self.total == length(self.points@)
        &&& at_most(zero(), self.total)
    }

    fn new(name: String, points: Vec<Vec2>) -> (lane: Lane)
        requires
            points@.len() >= 2,
        ensures
            lane.name == name,
            lane.points == points,
            lane.total == length(points@),
            at_most(zero(), lane.total) ==> lane.wf(),
    {
        let mut cumulative: Vec<Scalar> = Vec::new();
        let mut acc = zero();
        cumulative.push(acc);
        let mut i: usize = 1;
        while i < points.len()
            invariant
                1 <= i <= points@.len(),
                cumulative@.len() == i,
                acc == walked(points@, i - 1),
                forall|k: int| 0 <= k < i ==> #[trigger] cumulative@[k] == walked(points@, k),
            decreases points@.len() - i,
        {
            acc = acc.plus(points[i - 1].distance(points[i]));
            cumulative.push(acc);
            i = i + 1;
        }
        Lane { name, points, cumulative, total: acc }
    }

    /// Where a creep is after travelling `dist` along this lane.
    ///
    /// A distance past the end reads as the goal, and a distance that is not a
    /// finite number reads as the spawn point.
    pub fn sample(&self, dist: Scalar) -> (p: Vec2)
        requires
            self.wf(),
        ensures
            p == location(self.points@, dist),
    {
        if !dist.is_finite() {
            return self.points[0];
        }
        let d = dist.clamp(zero(), self.total);
        let mut n: usize = self.points.len();
        while n > 1 && !self.cumulative[n - 1].no_later(d)
            invariant
                self.wf(),
                1 <= n <= self.points@.len(),
                reached(self.points@, d, self.points@.len() as int) == reached(self.points@, d, n as int),
            decreases n,
        {
            n = n - 1;
        }
        let last: usize = n - 1;
        let i: usize = if last > self.points.len() - 2 { self.points.len() - 2 } else { last };
        let start = self.cumulative[i];
        let long = self.cumulative[i + 1].minus(start);
        let t = if long.gt(zero()) { d.minus(start).over(long) } else { zero() };
        self.points[i].lerp(self.points[i + 1], t)
    }

    /// Shortest distance from a world point to this lane.
    pub fn distance_to(&self, p: Vec2) -> (best: Scalar)
        requires
            self.wf(),
        ensures
            best == polyline_distance(self.points@, p, self.points@.len() - 1),
    {
        let mut best = largest();
        let mut n: usize = 1;
        while n < self.points.len()
            invariant
                1 <= n <= self.points@.len(),
                best == polyline_distance(self.points@, p, n - 1),
            decreases self.points@.len() - n,
        {
            let a = self.points[n - 1];
            let b = self.points[n];
            let ab = b.minus(a);
            let square = ab.dot(ab);
            let t = if square.gt(zero()) {
                p.minus(a).dot(ab).over(square).clamp(zero(), one())
            } else {
                zero()
            };
            best = best.min(p.distance(a.plus(ab.times(t))));
            n = n + 1;
        }
        best
    }

    /// Where creeps of this lane enter the board.
    pub fn spawn(&self) -> (p: Vec2)
        requires
            self.wf(),
        ensures
            p == self.points@[0],
    {
        self.points[0]
    }
}

/// A loaded, validated board.
#[derive(Clone, PartialEq, Eq, Debug)]
pub struct MapData {
    pub id: String,
    pub name: String,
    pub tiles_x: i32,
    pub tiles_y: i32,
    pub tile_size: Scalar,
    pub path_clearance: Scalar,
    pub goal: Goal,
    pub lanes: Vec<Lane>,
    pub zones: Vec<Zone>,
}

/// A board, as a value.
#[verifier::ext_equal]
pub ghost struct MapView {
    pub id: Seq<char>,
    pub name: Seq<char>,
    pub tiles_x: i32,
    pub tiles_y: i32,
    pub tile_size: Scalar,
    pub path_clearance: Scalar,
    pub goal: GoalView,
    pub lanes: Seq<LaneView>,
    pub zones: Seq<ZoneView>,
}

impl View for MapData {
    type V = MapView;

    open spec fn view(&self) -> MapView {
        MapView {
            id: self.id@,
            name: self.name@,
            tiles_x: self.tiles_x,
            tiles_y: self.tiles_y,
            tile_size: self.tile_size,
            path_clearance: self.path_clearance,
            goal: self.goal@,
            lanes: self.lanes@.map_values(|l: Lane| l@),
            zones: self.zones@.map_values(|z: Zone| z@),
        }
    }
}

/// Half the sides of a board of this many tiles.
pub open spec fn extents(tiles_x: i32, tiles_y: i32, tile_size: Scalar) -> Vec2 {
    Vec2 {
        x: product(product(from_whole(tiles_x as int), tile_size), half()),
        y: product(product(from_whole(tiles_y as int), tile_size), half()),
    }
}

// ---------------------------------------------------------------------------
// Validation
// ---------------------------------------------------------------------------

/// `lanes[i]`.
pub open spec fn lane_path(i: int) -> Seq<char> {
    "lanes["@ + decimal(i as nat) + "]"@
}

/// `lanes[i].waypoints[j]`.
pub open spec fn waypoint_path(i: int, j: int) -> Seq<char> {
    lane_path(i) + ".waypoints["@ + decimal(j as nat) + "]"@
}

/// What is wrong with one waypoint.
pub open spec fn waypoint_fault(def: MapDefView, i: int, j: int) -> Option<Seq<PieceView>> {
    let p = def.lanes[i].waypoints[j];
    let most = extents(def.tiles_x, def.tiles_y, def.tile_size);
    if !finite_point(p) {
        Some(plain(waypoint_path(i, j) + ": not a finite point"@))
    } else if less(most.x, absolute(p.x)) || less(most.y, absolute(p.y)) {
        Some(
            seq![
                PieceView::Words(waypoint_path(i, j) + ": ("@),
                PieceView::Number(p.x),
                PieceView::Words(", "@),
                PieceView::Number(p.y),
                PieceView::Words(
                    ") is off a "@ + signed_decimal(def.tiles_x as int) + "x"@ + signed_decimal(def.tiles_y as int)
                        + " board"@,
                ),
            ],
        )
    } else {
        None
    }
}

/// The first wrong waypoint of a lane from `j` on.
pub open spec fn waypoints_fault(def: MapDefView, i: int, j: int) -> Option<Seq<PieceView>>
    decreases def.lanes[i].waypoints.len() - j,
{
    if j >= def.lanes[i].waypoints.len() {
        None
    } else if waypoint_fault(def, i, j) is Some {
        waypoint_fault(def, i, j)
    } else {
        waypoints_fault(def, i, j + 1)
    }
}

/// What is wrong with one lane: its waypoints, its spawn point, its end, or its
/// length.
pub open spec fn lane_fault(def: MapDefView, i: int) -> Option<Seq<PieceView>> {
    let lane = def.lanes[i];
    let points = lane.waypoints;
    if points.len() < 2 {
        Some(
            plain(
                lane_path(i) + ".waypoints: a lane needs a spawn and a goal (got "@ + decimal(points.len()) + ")"@,
            ),
        )
    } else if waypoints_fault(def, i, 0) is Some {
        waypoints_fault(def, i, 0)
    } else if less(def.tile_size, gap(lane.spawn, points[0])) {
        Some(
            seq![
                PieceView::Words(lane_path(i) + ".spawn: ("@),
                PieceView::Number(lane.spawn.x),
                PieceView::Words(", "@),
                PieceView::Number(lane.spawn.y),
                PieceView::Words(") is not the first waypoint ("@),
                PieceView::Number(points[0].x),
                PieceView::Words(", "@),
                PieceView::Number(points[0].y),
                PieceView::Words(")"@),
            ],
        )
    } else if less(def.tile_size, gap(points.last(), def.goal.centre)) {
        Some(
            seq![
                PieceView::Words(lane_path(i) + ": ends at ("@),
                PieceView::Number(points.last().x),
                PieceView::Words(", "@),
                PieceView::Number(points.last().y),
                PieceView::Words(") rather than at the goal "@ + def.goal.name),
            ],
        )
    } else if !less(def.tile_size, length(points)) {
        Some(
            seq![
                PieceView::Words(lane_path(i) + ": is "@),
                PieceView::Number(length(points)),
                PieceView::Words(" units long, which is shorter than a tile"@),
            ],
        )
    } else {
        None
    }
}

/// The first wrong lane from `i` on.
pub open spec fn lanes_fault(def: MapDefView, i: int) -> Option<Seq<PieceView>>
    decreases def.lanes.len() - i,
{
    if i >= def.lanes.len() {
        None
    } else if lane_fault(def, i) is Some {
        lane_fault(def, i)
    } else {
        lanes_fault(def, i + 1)
    }
}

/// The first thing wrong with a map.
pub open spec fn map_fault(def: MapDefView) -> Option<Seq<PieceView>> {
    if def.tiles_x < 1 || def.tiles_y < 1 {
        Some(
            plain(
                "tiles_x/tiles_y must be at least 1 (got "@ + signed_decimal(def.tiles_x as int) + "x"@ + signed_decimal(
                    def.tiles_y as int,
                ) + ")"@,
            ),
        )
    } else if !less(zero(), def.tile_size) {
        Some(
            seq![
                PieceView::Words("tile_size must be positive (got "@),
                PieceView::Number(def.tile_size),
                PieceView::Words(")"@),
            ],
        )
    } else if !less(zero(), def.path_clearance) {
        Some(
            seq![
                PieceView::Words("path_clearance must be positive (got "@),
                PieceView::Number(def.path_clearance),
                PieceView::Words(")"@),
            ],
        )
    } else if def.lanes.len() == 0 {
        Some(plain("lanes: a map needs at least one lane"@))
    } else if !less(zero(), def.goal.half.x) || !less(zero(), def.goal.half.y) {
        Some(
            seq![
                PieceView::Words("goal: half_w and half_h must be positive (got "@),
                PieceView::Number(def.goal.half.x),
                PieceView::Words("x"@),
                PieceView::Number(def.goal.half.y),
                PieceView::Words(")"@),
            ],
        )
    } else if !finite_point(def.goal.half) {
        Some(plain("goal: half_w and half_h must be finite"@))
    } else if !finite_point(def.goal.centre) {
        Some(plain("goal: not a finite point"@))
    } else {
        lanes_fault(def, 0)
    }
}

/// A lane that creeps can walk: at least two waypoints, all finite and on the
/// board, starting at the spawn point and ending at the goal, longer than a
/// tile.
pub open spec fn good_lane(def: MapDefView, i: int) -> bool {
    let lane = def.lanes[i];
    let points = lane.waypoints;
    let most = extents(def.tiles_x, def.tiles_y, def.tile_size);
    &&& points.len() >= 2
    &&& forall|j: int|
        0 <= j < points.len() ==> finite_point(#[trigger] points[j]) && !less(most.x, absolute(points[j].x)) && !less(
            most.y,
            absolute(points[j].y),
        )
    &&& !less(def.tile_size, gap(lane.spawn, points[0]))
    &&& !less(def.tile_size, gap(points.last(), def.goal.centre))
    &&& less(def.tile_size, length(points))
}

/// A board that can be played: it has tiles and lanes, its sizes are positive,
/// and no point that peers compare is infinite or "not a number".
pub open spec fn playable(def: MapDefView) -> bool {
    &&& def.tiles_x >= 1 && def.tiles_y >= 1
    &&& less(zero(), def.tile_size)
    &&& less(zero(), def.path_clearance)
    &&& def.lanes.len() > 0
    &&& less(zero(), def.goal.half.x) && less(zero(), def.goal.half.y)
    &&& finite_point(def.goal.half)
    &&& finite_point(def.goal.centre)
    &&& forall|i: int| 0 <= i < def.lanes.len() ==> good_lane(def, i)
}

proof fn lemma_waypoints(def: MapDefView, i: int, j: int)
    requires
        0 <= j <= def.lanes[i].waypoints.len(),
    ensures
        waypoints_fault(def, i, j) is None <==> (forall|k: int|
            j <= k < def.lanes[i].waypoints.len() ==> waypoint_fault(def, i, k) is None),
    decreases def.lanes[i].waypoints.len() - j,
{
    if j < def.lanes[i].waypoints.len() {
        lemma_waypoints(def, i, j + 1);
    }
}

proof fn lemma_good_lane(def: MapDefView, i: int)
    ensures
        lane_fault(def, i) is None <==> good_lane(def, i),
{
    let points = def.lanes[i].waypoints;
    lemma_waypoints(def, i, 0);
    if good_lane(def, i) {
        assert forall|k: int| 0 <= k < points.len() implies waypoint_fault(def, i, k) is None by {
            assert(finite_point(points[k]));
        }
    }
    if lane_fault(def, i) is None {
        let most = extents(def.tiles_x, def.tiles_y, def.tile_size);
        assert forall|j: int| 0 <= j < points.len() implies finite_point(#[trigger] points[j]) && !less(
            most.x,
            absolute(points[j].x),
        ) && !less(most.y, absolute(points[j].y)) by {
            assert(waypoint_fault(def, i, j) is None);
        }
    }
}

proof fn lemma_good_lanes(def: MapDefView, i: int)
    requires
        0 <= i <= def.lanes.len(),
    ensures
        lanes_fault(def, i) is None <==> (forall|k: int| i <= k < def.lanes.len() ==> good_lane(def, k)),
    decreases def.lanes.len() - i,
{
    if i < def.lanes.len() {
        lemma_good_lane(def, i);
        lemma_good_lanes(def, i + 1);
    }
}

/// Nothing is wrong with a map exactly when it can be played.
pub proof fn law_faultless_maps_are_playable(def: MapDefView)
    ensures
        map_fault(def) is None <==> playable(def),
{
    lemma_good_lanes(def, 0);
}

/// Validation lets no point through to the comparison that is not finite: the
/// goal, its size, and every waypoint of a map without a fault. Nor is a tile
/// infinite, because no lane would be longer than it.
pub proof fn law_nothing_boundless_gets_through(def: MapDefView, i: int, j: int)
    requires
        map_fault(def) is None,
        0 <= i < def.lanes.len(),
        0 <= j < def.lanes[i].waypoints.len(),
    ensures
        def.tile_size.finite(),
        finite_point(def.goal.centre),
        finite_point(def.goal.half),
        finite_point(def.lanes[i].waypoints[j]),
{
    law_faultless_maps_are_playable(def);
    assert(good_lane(def, i));
}

/// The board that a map describes.
pub open spec fn board(def: MapDefView) -> MapView {
    MapView {
        id: def.id,
        name: def.name,
        tiles_x: def.tiles_x,
        tiles_y: def.tiles_y,
        tile_size: def.tile_size,
        path_clearance: def.path_clearance,
        goal: def.goal,
        lanes: def.lanes.map_values(|l: LaneDefView| LaneView { name: l.name, points: l.waypoints }),
        zones: def.zones,
    }
}

fn lane_text(i: usize) -> (path: String)
    ensures
        path@ == lane_path(i as int),
{
    let mut path = "lanes[".to_owned();
    path.append(number(i as u64).as_str());
    path.append("]");
    path
}

fn waypoint_text(i: usize, j: usize) -> (path: String)
    ensures
        path@ == waypoint_path(i as int, j as int),
{
    let mut path = lane_text(i);
    path.append(".waypoints[");
    path.append(number(j as u64).as_str());
    path.append("]");
    path
}

impl MapData {
    /// The board has tiles and lanes, and every lane can be walked.
    pub open spec fn wf(&self) -> bool {
        &&& self.tiles_x >= 1 && self.tiles_y >= 1
        &&& less(zero(), self.tile_size)
        &&& self.lanes@.len() > 0
        &&& forall|i: int| 0 <= i < self.lanes@.len() ==> (#[trigger] self.lanes@[i]).wf()
    }

    fn check_waypoints(def: &MapDef, i: usize) -> (r: Result<(), Message>)
        requires
            i < def.lanes@.len(),
        ensures
            match r {
                Ok(_) => waypoints_fault(def@, i as int, 0) is None,
                Err(why) => waypoints_fault(def@, i as int, 0) == Some(why@),
            },
    {
        let tile = def.tile_size;
        let most = Vec2::new(
            Scalar::from_i32(def.tiles_x).times(tile).times(half()),
            Scalar::from_i32(def.tiles_y).times(tile).times(half()),
        );
        let points = &def.lanes[i].waypoints;
        assert(def@.lanes[i as int].waypoints == points@);
        let mut j: usize = 0;
        while j < points.len()
            invariant
                i < def.lanes@.len(),
                def@.lanes[i as int].waypoints == points@,
                j <= points@.len(),
                most == extents(def.tiles_x, def.tiles_y, def.tile_size),
                waypoints_fault(def@, i as int, 0) == waypoints_fault(def@, i as int, j as int),
            decreases points@.len() - j,
        {
            let p = points[j];
            if !p.is_finite() {
                let mut words = waypoint_text(i, j);
                words.append(": not a finite point");
                return Err(Message::new(words.as_str()));
            }
            if p.x.abs().gt(most.x) || p.y.abs().gt(most.y) {
                let mut head = waypoint_text(i, j);
                head.append(": (");
                let mut tail = ") is off a ".to_owned();
                tail.append(signed_number(def.tiles_x).as_str());
                tail.append("x");
                tail.append(signed_number(def.tiles_y).as_str());
                tail.append(" board");
                let why = Message::new(head.as_str()).number(p.x).words(", ").number(p.y).words(tail.as_str());
                assert(why@ =~= waypoint_fault(def@, i as int, j as int)->0);
                return Err(why);
            }
            j = j + 1;
        }
        Ok(())
    }

    fn check_lane(def: &MapDef, i: usize) -> (r: Result<Lane, Message>)
        requires
            i < def.lanes@.len(),
            less(zero(), def.tile_size),
        ensures
            match r {
                Ok(lane) => lane_fault(def@, i as int) is None && lane.wf() && lane@ == (LaneView {
                    name: def@.lanes[i as int].name,
                    points: def@.lanes[i as int].waypoints,
                }),
                Err(why) => lane_fault(def@, i as int) == Some(why@),
            },
    {
        let lane = &def.lanes[i];
        let ghost v = def@.lanes[i as int];
        assert(v == lane@);
        let n: usize = lane.waypoints.len();
        if n < 2 {
            let mut words = lane_text(i);
            words.append(".waypoints: a lane needs a spawn and a goal (got ");
            words.append(number(n as u64).as_str());
            words.append(")");
            return Err(Message::new(words.as_str()));
        }
        if let Err(why) = Self::check_waypoints(def, i) {
            return Err(why);
        }
        let start = lane.waypoints[0];
        if lane.spawn.distance(start).gt(def.tile_size) {
            let mut head = lane_text(i);
            head.append(".spawn: (");
            let why = Message::new(head.as_str()).number(lane.spawn.x).words(", ").number(lane.spawn.y).words(
                ") is not the first waypoint (",
            ).number(start.x).words(", ").number(start.y).words(")");
            assert(why@ =~= lane_fault(def@, i as int)->0);
            return Err(why);
        }
        let last = lane.waypoints[n - 1];
        let centre = Vec2::new(def.goal.x, def.goal.y);
        if last.distance(centre).gt(def.tile_size) {
            let mut head = lane_text(i);
            head.append(": ends at (");
            let mut tail = ") rather than at the goal ".to_owned();
            tail.append(def.goal.name.as_str());
            let why = Message::new(head.as_str()).number(last.x).words(", ").number(last.y).words(tail.as_str());
            assert(why@ =~= lane_fault(def@, i as int)->0);
            return Err(why);
        }
        let built = Lane::new(lane.name.clone(), copy_points(&lane.waypoints));
        if !above(built.total, def.tile_size) {
            let mut head = lane_text(i);
            head.append(": is ");
            let why = Message::new(head.as_str()).number(built.total).words(
                " units long, which is shorter than a tile",
            );
            assert(why@ =~= lane_fault(def@, i as int)->0);
            return Err(why);
        }
        Ok(built)
    }

    /// Validate and lower a parsed map.
    ///
    /// Every refusal names the field, because a hand-written map is a thing a
    /// person debugs.
    pub fn from_def(def: MapDef) -> (r: Result<MapData, Message>)
        ensures
            r is Ok <==> playable(def@),
            match r {
                Ok(map) => map_fault(def@) is None && map.wf() && map@ == board(def@),
                Err(why) => map_fault(def@) == Some(why@),
            },
    {
        proof {
            law_faultless_maps_are_playable(def@);
        }
        if def.tiles_x < 1 || def.tiles_y < 1 {
            let mut words = "tiles_x/tiles_y must be at least 1 (got ".to_owned();
            words.append(signed_number(def.tiles_x).as_str());
            words.append("x");
            words.append(signed_number(def.tiles_y).as_str());
            words.append(")");
            return Err(Message::new(words.as_str()));
        }
        if !above(def.tile_size, zero()) {
            let why = Message::new("tile_size must be positive (got ").number(def.tile_size).words(")");
            assert(why@ =~= map_fault(def@)->0);
            return Err(why);
        }
        if !above(def.path_clearance, zero()) {
            let why = Message::new("path_clearance must be positive (got ").number(def.path_clearance).words(")");
            assert(why@ =~= map_fault(def@)->0);
            return Err(why);
        }
        if def.lanes.len() == 0 {
            return Err(Message::new("lanes: a map needs at least one lane"));
        }
        if !above(def.goal.half_w, zero()) || !above(def.goal.half_h, zero()) {
            let why = Message::new("goal: half_w and half_h must be positive (got ").number(def.goal.half_w).words(
                "x",
            ).number(def.goal.half_h).words(")");
            assert(why@ =~= map_fault(def@)->0);
            return Err(why);
        }
        if !Vec2::new(def.goal.half_w, def.goal.half_h).is_finite() {
            return Err(Message::new("goal: half_w and half_h must be finite"));
        }
        if !Vec2::new(def.goal.x, def.goal.y).is_finite() {
            return Err(Message::new("goal: not a finite point"));
        }
        let mut lanes: Vec<Lane> = Vec::new();
        let mut i: usize = 0;
        while i < def.lanes.len()
            invariant
                i <= def.lanes@.len(),
                less(zero(), def.tile_size),
                map_fault(def@) == lanes_fault(def@, 0),
                lanes_fault(def@, 0) == lanes_fault(def@, i as int),
                map_fault(def@) is None <==> playable(def@),
                lanes@.len() == i,
                forall|k: int|
                    0 <= k < i ==> (#[trigger] lanes@[k]).wf() && lanes@[k]@ == board(def@).lanes[k],
            decreases def.lanes@.len() - i,
        {
            match Self::check_lane(&def, i) {
                Ok(lane) => {
                    lanes.push(lane);
                },
                Err(why) => {
                    return Err(why);
                },
            }
            i = i + 1;
        }
        let mut zones: Vec<Zone> = Vec::new();
        let mut i: usize = 0;
        while i < def.zones.len()
            invariant
                i <= def.zones@.len(),
                zones@.len() == i,
                forall|k: int| 0 <= k < i ==> (#[trigger] zones@[k])@ == def.zones@[k]@,
            decreases def.zones@.len() - i,
        {
            let z = &def.zones[i];
            zones.push(Zone { name: z.name.clone(), min: z.min, max: z.max });
            i = i + 1;
        }
        let ghost v = def@;
        let map = MapData {
            id: def.id,
            name: def.name,
            tiles_x: def.tiles_x,
            tiles_y: def.tiles_y,
            tile_size: def.tile_size,
            path_clearance: def.path_clearance,
            goal: Goal {
                name: def.goal.name,
                centre: Vec2::new(def.goal.x, def.goal.y),
                half: Vec2::new(def.goal.half_w, def.goal.half_h),
            },
            lanes,
            zones,
        };
        assert(map@.lanes =~= board(v).lanes);
        assert(map@.zones =~= board(v).zones);
        assert(map@ =~= board(v));
        Ok(map)
    }
}

fn copy_points(points: &Vec<Vec2>) -> (copy: Vec<Vec2>)
    ensures
        copy@ == points@,
{
    let mut copy: Vec<Vec2> = Vec::new();
    let mut i: usize = 0;
    while i < points.len()
        invariant
            i <= points@.len(),
            copy@ == points@.subrange(0, i as int),
        decreases points@.len() - i,
    {
        copy.push(points[i]);
        assert(copy@ =~= points@.subrange(0, i + 1));
        i = i + 1;
    }
    assert(copy@ =~= points@);
    copy
}

// ---------------------------------------------------------------------------
// Errors
// ---------------------------------------------------------------------------

/// Why a map would not load. Fatal, and printed as a startup error.
#[derive(Clone, PartialEq, Eq, Debug)]
pub enum MapError {
    /// The file could not be read.
    Read { path: String, message: String },
    /// The file does not parse.
    Parse { path: String, message: String },
    /// The file parsed but describes a board that cannot be played.
    Invalid { id: String, why: Message },
}

impl MapError {
    /// The error as a person reads it.
    pub fn text(&self) -> (text: Message)
        ensures
            text@ == (match *self {
                MapError::Read { path, message } => plain("map: "@ + path@ + ": "@ + message@),
                MapError::Parse { path, message } => plain("map: "@ + path@ + ": "@ + message@),
                MapError::Invalid { id, why } => plain("map: "@ + id@ + ": "@) + why@,
            }),
    {
        match self {
            MapError::Read { path, message } => {
                let mut words = "map: ".to_owned();
                words.append(path.as_str());
                words.append(": ");
                words.append(message.as_str());
                Message::new(words.as_str())
            },
            MapError::Parse { path, message } => {
                let mut words = "map: ".to_owned();
                words.append(path.as_str());
                words.append(": ");
                words.append(message.as_str());
                Message::new(words.as_str())
            },
            MapError::Invalid { id, why } => {
                let mut words = "map: ".to_owned();
                words.append(id.as_str());
                words.append(": ");
                Message::new(words.as_str()).followed_by(why)
            },
        }
    }
}

// ---------------------------------------------------------------------------
// Grid
// ---------------------------------------------------------------------------

/// The cell is one of a board's.
pub open spec fn on_board(tiles_x: i32, tiles_y: i32, cell: IVec2) -> bool {
    0 <= cell.x < tiles_x && 0 <= cell.y < tiles_y
}

/// The middle of a row of tiles, in tiles from the first.
pub open spec fn middle(tiles: i32) -> Scalar {
    product(difference(from_whole(tiles as int), one()), half())
}

/// The coordinate of the centre of a tile.
pub open spec fn centre_of(at: i32, tiles: i32, tile_size: Scalar) -> Scalar {
    product(difference(from_whole(at as int), middle(tiles)), tile_size)
}

/// The tile whose centre is nearest to a coordinate.
pub open spec fn tile_at(x: Scalar, tiles: i32, tile_size: Scalar) -> int {
    nearest_whole(sum(quotient(x, tile_size), middle(tiles)))
}

/// The centre of a cell.
pub open spec fn cell_centre(map: MapView, cell: IVec2) -> Vec2 {
    Vec2 {
        x: centre_of(cell.x, map.tiles_x, map.tile_size),
        y: centre_of(cell.y, map.tiles_y, map.tile_size),
    }
}

/// The shortest distance from a point to any of the first `n` lanes.
pub open spec fn lanes_distance(lanes: Seq<LaneView>, p: Vec2, n: int) -> Scalar
    decreases n,
{
    if n <= 0 {
        largest()
    } else {
        smaller(
            lanes_distance(lanes, p, n - 1),
            polyline_distance(lanes[n - 1].points, p, lanes[n - 1].points.len() - 1),
        )
    }
}

/// The whole placement rule: on the board, and farther from every lane than the
/// clearance.
pub open spec fn buildable(map: MapView, cell: IVec2) -> bool {
    on_board(map.tiles_x, map.tiles_y, cell) && less(
        map.path_clearance,
        lanes_distance(map.lanes, cell_centre(map, cell), map.lanes.len() as int),
    )
}

// ---------------------------------------------------------------------------
// What peers compare
// ---------------------------------------------------------------------------

/// A coordinate for comparison: the two zeros are one, and what is not finite
/// counts as zero, because "not a number" never equals itself.
pub open spec fn canonical(x: Scalar) -> Scalar {
    if !x.finite() || x.zero() {
        zero()
    } else {
        x
    }
}

/// `Vec2(x, y)`.
pub open spec fn point_text(p: Vec2) -> Seq<PieceView> {
    seq![
        PieceView::Words("Vec2("@),
        PieceView::Literal(canonical(p.x)),
        PieceView::Words(", "@),
        PieceView::Literal(canonical(p.y)),
        PieceView::Words(")"@),
    ]
}

/// The first `n` waypoints of a lane.
pub open spec fn points_text(points: Seq<Vec2>, n: int) -> Seq<PieceView>
    decreases n,
{
    if n <= 0 {
        seq![]
    } else {
        points_text(points, n - 1) + point_text(points[n - 1])
    }
}

/// The first `n` lanes.
pub open spec fn lanes_text(lanes: Seq<LaneView>, n: int) -> Seq<PieceView>
    decreases n,
{
    if n <= 0 {
        seq![]
    } else {
        let lane = lanes[n - 1];
        lanes_text(lanes, n - 1) + plain(lane.name + ":"@) + points_text(lane.points, lane.points.len() as int) + plain(
            ";"@,
        )
    }
}

/// The geometry of a board, as the text that peers hash: its grid, its goal and
/// its lanes.
pub open spec fn geometry_text(map: MapView) -> Seq<PieceView> {
    plain(map.id + "|"@ + signed_decimal(map.tiles_x as int) + "x"@ + signed_decimal(map.tiles_y as int) + "|"@)
        + seq![PieceView::Number(map.tile_size)] + plain("|"@ + map.goal.name + "|"@) + point_text(map.goal.centre)
        + plain("|"@) + point_text(map.goal.half) + plain(";"@) + lanes_text(map.lanes, map.lanes.len() as int)
}

fn canon(x: Scalar) -> (r: Scalar)
    ensures
        r == canonical(x),
{
    if !x.is_finite() || x.same(zero()) {
        zero()
    } else {
        x
    }
}

fn say_point(m: Message, p: Vec2) -> (r: Message)
    ensures
        r@ == m@ + point_text(p),
{
    let r = m.words("Vec2(").literal(canon(p.x)).words(", ").literal(canon(p.y)).words(")");
    assert(r@ =~= m@ + point_text(p));
    r
}

impl MapData {
    /// Half the sides of the board.
    pub fn half_extents(&self) -> (p: Vec2)
        ensures
            p == extents(self.tiles_x, self.tiles_y, self.tile_size),
    {
        Vec2::new(
            Scalar::from_i32(self.tiles_x).times(self.tile_size).times(half()),
            Scalar::from_i32(self.tiles_y).times(self.tile_size).times(half()),
        )
    }

    /// The cell is on the board.
    pub fn in_bounds(&self, cell: IVec2) -> (yes: bool)
        ensures
            yes == on_board(self.tiles_x, self.tiles_y, cell),
    {
        cell.x >= 0 && cell.y >= 0 && cell.x < self.tiles_x && cell.y < self.tiles_y
    }

    /// Centre of a grid cell, in world space. The grid is centred on the origin.
    pub fn cell_to_world(&self, cell: IVec2) -> (p: Vec2)
        ensures
            p == cell_centre(self@, cell),
    {
        Vec2::new(
            Scalar::from_i32(cell.x).minus(Scalar::from_i32(self.tiles_x).minus(one()).times(half())).times(
                self.tile_size,
            ),
            Scalar::from_i32(cell.y).minus(Scalar::from_i32(self.tiles_y).minus(one()).times(half())).times(
                self.tile_size,
            ),
        )
    }

    /// The cell whose centre is nearest to a point.
    pub fn world_to_cell(&self, p: Vec2) -> (cell: IVec2)
        ensures
            cell.x == tile_at(p.x, self.tiles_x, self.tile_size),
            cell.y == tile_at(p.y, self.tiles_y, self.tile_size),
    {
        IVec2 {
            x: p.x.over(self.tile_size).plus(
                Scalar::from_i32(self.tiles_x).minus(one()).times(half()),
            ).round_to_i32(),
            y: p.y.over(self.tile_size).plus(
                Scalar::from_i32(self.tiles_y).minus(one()).times(half()),
            ).round_to_i32(),
        }
    }

    /// How close this point is to the nearest lane, in world units.
    pub fn path_distance(&self, p: Vec2) -> (best: Scalar)
        requires
            self.wf(),
        ensures
            best == lanes_distance(self@.lanes, p, self@.lanes.len() as int),
    {
        let mut best = largest();
        let mut n: usize = 0;
        while n < self.lanes.len()
            invariant
                self.wf(),
                n <= self.lanes@.len(),
                best == lanes_distance(self@.lanes, p, n as int),
            decreases self.lanes@.len() - n,
        {
            assert(self@.lanes[n as int] == self.lanes@[n as int]@);
            best = best.min(self.lanes[n].distance_to(p));
            n = n + 1;
        }
        best
    }

    /// The whole placement rule: the board is one open field, and the only thing
    /// you may not build on is the path.
    pub fn is_buildable(&self, cell: IVec2) -> (yes: bool)
        requires
            self.wf(),
        ensures
            yes == buildable(self@, cell),
    {
        self.in_bounds(cell) && self.path_distance(self.cell_to_world(cell)).gt(self.path_clearance)
    }

    /// The geometry as the text that two peers hash. Two peers with the same
    /// text are walking the same lanes to the same goal.
    pub fn geometry(&self) -> (text: Message)
        ensures
            text@ == geometry_text(self@),
    {
        let mut head = self.id.clone();
        head.append("|");
        head.append(signed_number(self.tiles_x).as_str());
        head.append("x");
        head.append(signed_number(self.tiles_y).as_str());
        head.append("|");
        let mut goal = "|".to_owned();
        goal.append(self.goal.name.as_str());
        goal.append("|");
        let mut text = Message::new(head.as_str()).number(self.tile_size).words(goal.as_str());
        text = say_point(text, self.goal.centre);
        text = text.words("|");
        text = say_point(text, self.goal.half);
        text = text.words(";");
        let ghost front = text@;
        proof {
            assert(front + lanes_text(self@.lanes, 0) =~= front);
            assert(front =~= plain(self@.id + "|"@ + signed_decimal(self.tiles_x as int) + "x"@ + signed_decimal(
                self.tiles_y as int,
            ) + "|"@) + seq![PieceView::Number(self.tile_size)] + plain("|"@ + self@.goal.name + "|"@) + point_text(
                self@.goal.centre,
            ) + plain("|"@) + point_text(self@.goal.half) + plain(";"@));
        }
        let mut n: usize = 0;
        while n < self.lanes.len()
            invariant
                n <= self.lanes@.len(),
                text@ == front + lanes_text(self@.lanes, n as int),
            decreases self.lanes@.len() - n,
        {
            let lane = &self.lanes[n];
            assert(self@.lanes[n as int] == lane@);
            let mut name = lane.name.clone();
            name.append(":");
            let ghost before = text@;
            text = text.words(name.as_str());
            let ghost named = text@;
            let mut k: usize = 0;
            assert(named + points_text(lane.points@, 0) =~= named);
            while k < lane.points.len()
                invariant
                    k <= lane.points@.len(),
                    text@ == named + points_text(lane.points@, k as int),
                decreases lane.points@.len() - k,
            {
                text = say_point(text, lane.points[k]);
                assert(text@ =~= named + points_text(lane.points@, k + 1));
                k = k + 1;
            }
            text = text.words(";");
            assert(text@ =~= front + lanes_text(self@.lanes, n + 1));
            n = n + 1;
        }
        text
    }
}

} // verus!
