//! OSM objects of a layer's working set, and the geometry built from them.
use vstd::prelude::*;
use std::collections::BTreeMap;
use crate::layer::{
    patterns_view, tag_get, tags_match, values_view, GeomKind, IncludeValue, LayerDef,
    LayerModel, PatternModel, Tags,
};
use crate::rings::{
    all_paths, assemble, connect_ways, extract, find_ring, first_closed, is_closed, splice,
    MemberModel,
};
use crate::text::{decimal, i64_to_string, str_is};

verus! {

/// Position of a node in WGS-84, in units of 1e-7 degree.
#[derive(Clone, Copy, Debug, PartialEq, Eq, Structural)]
pub struct Pos {
    pub lat: i32,
    pub lon: i32,
}

/// Kind of an OSM object.
#[derive(Clone, Copy, Debug, PartialEq, Eq, Structural)]
pub enum ObjKind {
    Node,
    Way,
    Relation,
}

/// OSM node
#[derive(Clone, Debug)]
pub struct Node {
    pub id: i64,
    pub pos: Pos,
    pub tags: Tags,
}

/// OSM way: an ordered list of node ids
#[derive(Clone, Debug)]
pub struct Way {
    pub id: i64,
    pub nodes: Vec<i64>,
    pub tags: Tags,
}

/// Member of an OSM relation
#[derive(Clone, Debug)]
pub struct Member {
    pub kind: ObjKind,
    pub id: i64,
    pub role: String,
}

/// OSM relation
#[derive(Clone, Debug)]
pub struct Relation {
    pub id: i64,
    pub members: Vec<Member>,
    pub tags: Tags,
}

pub open spec fn node_ids(s: Seq<Node>) -> Seq<i64> {
    s.map_values(|n: Node| n.id)
}

pub open spec fn way_ids(s: Seq<Way>) -> Seq<i64> {
    s.map_values(|w: Way| w.id)
}

pub open spec fn relation_ids(s: Seq<Relation>) -> Seq<i64> {
    s.map_values(|r: Relation| r.id)
}

/// Ids in strictly increasing order.
pub open spec fn increasing(ids: Seq<i64>) -> bool {
    forall|a: int, b: int| 0 <= a < b < ids.len() ==> ids[a] < ids[b]
}

/// Working set of a layer: its objects and their dependencies, each kind in
/// id order.
pub struct ObjMap {
    nodes: Vec<Node>,
    ways: Vec<Way>,
    relations: Vec<Relation>,
    node_index: BTreeMap<i64, usize>,
    way_index: BTreeMap<i64, usize>,
}

impl ObjMap {
    pub closed spec fn spec_nodes(&self) -> Seq<Node> {
        self.nodes@
    }

    pub closed spec fn spec_ways(&self) -> Seq<Way> {
        self.ways@
    }

    pub closed spec fn spec_relations(&self) -> Seq<Relation> {
        self.relations@
    }

    /// Ids of each kind are strictly increasing.
    pub open spec fn wf(&self) -> bool {
        &&& increasing(node_ids(self.spec_nodes()))
        &&& increasing(way_ids(self.spec_ways()))
        &&& increasing(relation_ids(self.spec_relations()))
        &&& self.keys_match()
    }

    /// The index maps lead from each node and way id to its position.
    pub closed spec fn keys_match(&self) -> bool {
        &&& indexes(self.node_index@, node_ids(self.nodes@))
        &&& indexes(self.way_index@, way_ids(self.ways@))
    }
}

/// Whether ids are strictly increasing, checked pair by pair.
fn check_increasing(ids: &Vec<i64>) -> (r: bool)
    ensures
        r == increasing(ids@),
{
    let mut i: usize = 1;
    if ids.len() == 0 {
        return true;
    }
    while i < ids.len()
        invariant
            1 <= i <= ids@.len(),
            forall|a: int, b: int| 0 <= a < b < i ==> ids@[a] < ids@[b],
        decreases ids@.len() - i,
    {
        if ids[i - 1] >= ids[i] {
            return false;
        }
        i = i + 1;
    }
    true
}

/// Position of a node id, when the working set holds that node.
pub open spec fn pos_of(nodes: Seq<Node>, id: i64) -> Option<Pos> {
    if exists|k: int| 0 <= k < nodes.len() && nodes[k].id == id {
        Some(nodes[choose|k: int| 0 <= k < nodes.len() && nodes[k].id == id].pos)
    } else {
        None
    }
}

/// Positions of node ids; empty when any node is missing.
pub open spec fn lookup_spec(nodes: Seq<Node>, ids: Seq<i64>) -> Seq<Pos> {
    if forall|i: int| 0 <= i < ids.len() ==> (#[trigger] pos_of(nodes, ids[i])) is Some {
        ids.map_values(|id: i64| pos_of(nodes, id)->Some_0)
    } else {
        Seq::empty()
    }
}

/// Nodes of a member way with at least two nodes; empty otherwise.
pub open spec fn member_nodes(ways: Seq<Way>, kind: ObjKind, id: i64) -> Seq<i64> {
    if kind == ObjKind::Way && exists|k: int| 0 <= k < ways.len() && ways[k].id == id {
        let w = ways[choose|k: int| 0 <= k < ways.len() && ways[k].id == id];
        if w.nodes@.len() > 1 { w.nodes@ } else { Seq::empty() }
    } else {
        Seq::empty()
    }
}

/// Role of a member: `Some(true)` outer, `Some(false)` inner.
pub open spec fn role_of(role: Seq<char>) -> Option<bool> {
    if role == seq!['o', 'u', 't', 'e', 'r'] {
        Some(true)
    } else if role == seq!['i', 'n', 'n', 'e', 'r'] {
        Some(false)
    } else {
        None
    }
}

pub open spec fn members_spec(ways: Seq<Way>, members: Seq<Member>) -> Seq<MemberModel> {
    members.map_values(|m: Member| (role_of(m.role@), member_nodes(ways, m.kind, m.id)))
}

/// The tag name whose value is the OSM id of the object.
pub open spec fn osm_id_tag() -> Seq<char> {
    seq!['o', 's', 'm', '_', 'i', 'd']
}

/// Value captured for one pattern: none unless the pattern is included;
/// the `osm_id` tag captures the object's id.
pub open spec fn captured(p: PatternModel, id: i64, tags: Seq<(Seq<char>, Seq<char>)>) -> Option<Seq<char>> {
    if p.inclusion == IncludeValue::Yes {
        if p.tag == osm_id_tag() { Some(decimal(id as int)) } else { tag_get(tags, p.tag) }
    } else {
        None
    }
}

/// Values for one object, parallel to the layer's patterns.
pub open spec fn values_spec(l: LayerModel, id: i64, tags: Seq<(Seq<char>, Seq<char>)>) -> Seq<Option<Seq<char>>> {
    l.patterns.map_values(|p: PatternModel| captured(p, id, tags))
}

/// Whether some two consecutive node ids differ
pub fn has_distinct_step(ids: &Vec<i64>) -> (r: bool)
    ensures
        r == has_step(ids@),
{
    let n = ids.len();
    if n < 2 {
        return false;
    }
    let mut i: usize = 0;
    while i < n - 1
        invariant
            n == ids@.len(),
            n >= 2,
            i <= n - 1,
            forall|k: int| 0 <= k < i ==> !(#[trigger] ids@[k] != ids@[k + 1]),
        decreases n - 1 - i,
    {
        if ids[i] != ids[i + 1] {
            return true;
        }
        i = i + 1;
    }
    false
}

/// Point geometry with its property values
#[derive(Clone, Debug)]
pub struct PointGeom {
    pub values: Vec<Option<String>>,
    pub pos: Pos,
}

/// Linestring geometry with its property values
#[derive(Clone, Debug)]
pub struct LineGeom {
    pub values: Vec<Option<String>>,
    pub pts: Vec<Pos>,
}

/// Polygon ring; `outer` is false for a hole
#[derive(Clone, Debug)]
pub struct Ring {
    pub outer: bool,
    pub pts: Vec<Pos>,
}

/// Polygon geometry with its property values
#[derive(Clone, Debug)]
pub struct PolygonGeom {
    pub values: Vec<Option<String>>,
    pub rings: Vec<Ring>,
}

pub open spec fn rings_view(rings: Seq<Ring>) -> Seq<(bool, Seq<Pos>)> {
    rings.map_values(|r: Ring| (r.outer, r.pts@))
}

/// Rings with their positions looked up.
pub open spec fn materialize(nodes: Seq<Node>, rings: Seq<(bool, Seq<i64>)>) -> Seq<(bool, Seq<Pos>)> {
    rings.map_values(|r: (bool, Seq<i64>)| (r.0, lookup_spec(nodes, r.1)))
}

/// Point of a node.
pub open spec fn node_point_spec(l: LayerModel, n: Node) -> (Seq<Option<Seq<char>>>, Pos) {
    (values_spec(l, n.id, n.tags@), n.pos)
}

/// Some two consecutive node ids differ.
pub open spec fn has_step(ids: Seq<i64>) -> bool {
    exists|i: int| 0 <= i < ids.len() - 1 && #[trigger] ids[i] != ids[i + 1]
}

/// Linestring of a way: none when it has no two distinct consecutive nodes
/// or a node is missing.
pub open spec fn way_linestring_spec(l: LayerModel, nodes: Seq<Node>, w: Way) -> Option<(Seq<Option<Seq<char>>>, Seq<Pos>)> {
    if has_step(w.nodes@) && lookup_spec(nodes, w.nodes@).len() > 0 {
        Some((values_spec(l, w.id, w.tags@), lookup_spec(nodes, w.nodes@)))
    } else {
        None
    }
}

/// Polygon of a closed way: none when it is open or a node is missing.
pub open spec fn way_polygon_spec(l: LayerModel, nodes: Seq<Node>, w: Way) -> Option<(Seq<Option<Seq<char>>>, Seq<(bool, Seq<Pos>)>)> {
    if is_closed(w.nodes@) && lookup_spec(nodes, w.nodes@).len() > 0 {
        Some((values_spec(l, w.id, w.tags@), seq![(true, lookup_spec(nodes, w.nodes@))]))
    } else {
        None
    }
}

/// Every ring's nodes are all in the working set.
pub open spec fn rings_resolved(nodes: Seq<Node>, rings: Seq<(bool, Seq<i64>)>) -> bool {
    forall|i: int| 0 <= i < rings.len() ==> (#[trigger] lookup_spec(nodes, rings[i].1)).len() > 0
}

/// Polygon of a multipolygon relation: none when candidates are left over,
/// no ring was found, or a ring has a missing node.
pub open spec fn rel_polygon_spec(l: LayerModel, nodes: Seq<Node>, ways: Seq<Way>, r: Relation) -> Option<(Seq<Option<Seq<char>>>, Seq<(bool, Seq<Pos>)>)> {
    let (rest, rings) = assemble(members_spec(ways, r.members@));
    if rest.len() == 0 && rings.len() > 0 && rings_resolved(nodes, rings) {
        Some((values_spec(l, r.id, r.tags@), materialize(nodes, rings)))
    } else {
        None
    }
}

/// The map leads from every id to a position that holds it.
pub open spec fn indexes(m: Map<i64, usize>, ids: Seq<i64>) -> bool {
    &&& forall|id: i64| #[trigger] m.contains_key(id) ==> m[id] < ids.len() && ids[m[id] as int] == id
    &&& forall|k: int| 0 <= k < ids.len() ==> #[trigger] m.contains_key(ids[k])
}

/// Map from each id to its position
fn build_index(ids: &Vec<i64>) -> (r: BTreeMap<i64, usize>)
    ensures
        indexes(r@, ids@),
{
    let mut m: BTreeMap<i64, usize> = BTreeMap::new();
    let mut i: usize = 0;
    while i < ids.len()
        invariant
            i <= ids@.len(),
            forall|id: i64| #[trigger] m@.contains_key(id) ==> m@[id] < i && ids@[m@[id] as int] == id,
            forall|k: int| 0 <= k < i ==> #[trigger] m@.contains_key(ids@[k]),
        decreases ids@.len() - i,
    {
        m.insert(ids[i], i);
        i = i + 1;
    }
    m
}

/// Position of an id
fn find_index(index: &BTreeMap<i64, usize>, Ghost(ids): Ghost<Seq<i64>>, id: i64) -> (r: Option<usize>)
    requires
        indexes(index@, ids),
    ensures
        match r {
            Some(k) => k < ids.len() && ids[k as int] == id,
            None => forall|k: int| 0 <= k < ids.len() ==> ids[k] != id,
        },
{
    match index.get(&id) {
        Some(k) => Some(*k),
        None => {
            proof {
                assert forall|k: int| 0 <= k < ids.len() implies ids[k] != id by {
                    assert(index@.contains_key(ids[k]));
                }
            }
            None
        },
    }
}

proof fn lemma_node_index(nodes: Seq<Node>, k: int)
    requires
        increasing(node_ids(nodes)),
        0 <= k < nodes.len(),
    ensures
        pos_of(nodes, nodes[k].id) == Some(nodes[k].pos),
{
    let id = nodes[k].id;
    assert(exists|m: int| 0 <= m < nodes.len() && nodes[m].id == id);
    let c = choose|m: int| 0 <= m < nodes.len() && nodes[m].id == id;
    if c != k {
        assert(node_ids(nodes)[c] == nodes[c].id);
        assert(node_ids(nodes)[k] == nodes[k].id);
    }
}

proof fn lemma_way_index(ways: Seq<Way>, k: int)
    requires
        increasing(way_ids(ways)),
        0 <= k < ways.len(),
    ensures
        ways[choose|m: int| 0 <= m < ways.len() && ways[m].id == ways[k].id] == ways[k],
{
    let id = ways[k].id;
    assert(exists|m: int| 0 <= m < ways.len() && ways[m].id == id);
    let c = choose|m: int| 0 <= m < ways.len() && ways[m].id == id;
    if c != k {
        assert(way_ids(ways)[c] == ways[c].id);
        assert(way_ids(ways)[k] == ways[k].id);
    }
}

fn node_keys_of(nodes: &Vec<Node>) -> (r: Vec<i64>)
    ensures
        r@ == node_ids(nodes@),
{
    let mut out: Vec<i64> = Vec::new();
    let mut i: usize = 0;
    while i < nodes.len()
        invariant
            i <= nodes@.len(),
            out@ == node_ids(nodes@).take(i as int),
        decreases nodes@.len() - i,
    {
        out.push(nodes[i].id);
        assert(out@ =~= node_ids(nodes@).take(i + 1));
        i = i + 1;
    }
    assert(node_ids(nodes@).take(i as int) =~= node_ids(nodes@));
    out
}

fn way_keys_of(ways: &Vec<Way>) -> (r: Vec<i64>)
    ensures
        r@ == way_ids(ways@),
{
    let mut out: Vec<i64> = Vec::new();
    let mut i: usize = 0;
    while i < ways.len()
        invariant
            i <= ways@.len(),
            out@ == way_ids(ways@).take(i as int),
        decreases ways@.len() - i,
    {
        out.push(ways[i].id);
        assert(out@ =~= way_ids(ways@).take(i + 1));
        i = i + 1;
    }
    assert(way_ids(ways@).take(i as int) =~= way_ids(ways@));
    out
}

fn relation_keys_of(relations: &Vec<Relation>) -> (r: Vec<i64>)
    ensures
        r@ == relation_ids(relations@),
{
    let mut out: Vec<i64> = Vec::new();
    let mut i: usize = 0;
    while i < relations.len()
        invariant
            i <= relations@.len(),
            out@ == relation_ids(relations@).take(i as int),
        decreases relations@.len() - i,
    {
        out.push(relations[i].id);
        assert(out@ =~= relation_ids(relations@).take(i + 1));
        i = i + 1;
    }
    assert(relation_ids(relations@).take(i as int) =~= relation_ids(relations@));
    out
}

impl ObjMap {
    /// Create a working set; none unless the ids of each kind are strictly
    /// increasing
    pub fn new(nodes: Vec<Node>, ways: Vec<Way>, relations: Vec<Relation>) -> (r: Option<ObjMap>)
        ensures
            match r {
                Some(m) => m.wf() && m.spec_nodes() == nodes@ && m.spec_ways() == ways@
                    && m.spec_relations() == relations@,
                None => !(increasing(node_ids(nodes@)) && increasing(way_ids(ways@))
                    && increasing(relation_ids(relations@))),
            },
    {
        let node_keys = node_keys_of(&nodes);
        let way_keys = way_keys_of(&ways);
        let node_index = build_index(&node_keys);
        let way_index = build_index(&way_keys);
        let rel_keys = relation_keys_of(&relations);
        if check_increasing(&node_keys) && check_increasing(&way_keys) && check_increasing(&rel_keys) {
            Some(ObjMap { nodes, ways, relations, node_index, way_index })
        } else {
            None
        }
    }

    /// Nodes in id order
    pub fn nodes(&self) -> (r: &Vec<Node>)
        ensures
            r@ == self.spec_nodes(),
    {
        &self.nodes
    }

    /// Ways in id order
    pub fn ways(&self) -> (r: &Vec<Way>)
        ensures
            r@ == self.spec_ways(),
    {
        &self.ways
    }

    /// Relations in id order
    pub fn relations(&self) -> (r: &Vec<Relation>)
        ensures
            r@ == self.spec_relations(),
    {
        &self.relations
    }

    /// Position of a node
    pub fn node_pos(&self, id: i64) -> (r: Option<Pos>)
        requires
            self.wf(),
        ensures
            r == pos_of(self.spec_nodes(), id),
    {
        match find_index(&self.node_index, Ghost(node_ids(self.nodes@)), id) {
            Some(k) => {
                proof {
                    lemma_node_index(self.nodes@, k as int);
                }
                Some(self.nodes[k].pos)
            },
            None => {
                proof {
                    if exists|m: int| 0 <= m < self.nodes@.len() && self.nodes@[m].id == id {
                        let m = choose|m: int| 0 <= m < self.nodes@.len() && self.nodes@[m].id == id;
                        assert(node_ids(self.nodes@)[m] == id);
                    }
                }
                None
            },
        }
    }

    /// Nodes of a member way, when it is a way of at least two nodes
    pub fn way_nodes(&self, kind: ObjKind, id: i64) -> (r: Vec<i64>)
        requires
            self.wf(),
        ensures
            r@ == member_nodes(self.spec_ways(), kind, id),
    {
        if kind != ObjKind::Way {
            return Vec::new();
        }
        match find_index(&self.way_index, Ghost(way_ids(self.ways@)), id) {
            Some(k) => {
                proof {
                    lemma_way_index(self.ways@, k as int);
                }
                if self.ways[k].nodes.len() > 1 {
                    self.ways[k].nodes.clone()
                } else {
                    Vec::new()
                }
            },
            None => {
                proof {
                    if exists|m: int| 0 <= m < self.ways@.len() && self.ways@[m].id == id {
                        let m = choose|m: int| 0 <= m < self.ways@.len() && self.ways@[m].id == id;
                        assert(way_ids(self.ways@)[m] == id);
                    }
                }
                Vec::new()
            },
        }
    }

    /// Positions for a list of nodes; empty when a node is missing
    pub fn lookup_nodes(&self, ids: &Vec<i64>) -> (r: Vec<Pos>)
        requires
            self.wf(),
        ensures
            r@ == lookup_spec(self.spec_nodes(), ids@),
    {
        let mut pts: Vec<Pos> = Vec::new();
        let mut i: usize = 0;
        while i < ids.len()
            invariant
                self.wf(),
                i <= ids@.len(),
                pts@.len() == i,
                forall|k: int| 0 <= k < i ==> (#[trigger] pos_of(self.spec_nodes(), ids@[k])) == Some(pts@[k]),
            decreases ids@.len() - i,
        {
            match self.node_pos(ids[i]) {
                Some(pos) => pts.push(pos),
                None => {
                    return Vec::new();
                },
            }
            i = i + 1;
        }
        proof {
            assert(pts@ =~= ids@.map_values(|id: i64| pos_of(self.spec_nodes(), id)->Some_0));
        }
        pts
    }
}

} // verus!

verus! {

/// Whether an object belongs in a layer: point layers take nodes, linestring
/// layers ways, and polygon layers relations and ways; the tags must match.
pub open spec fn check_obj_spec(l: LayerModel, kind: ObjKind, tags: Seq<(Seq<char>, Seq<char>)>) -> bool {
    let kind_ok = match l.geom {
        GeomKind::Point => kind == ObjKind::Node,
        GeomKind::Linestring => kind == ObjKind::Way,
        GeomKind::Polygon => kind == ObjKind::Way || kind == ObjKind::Relation,
    };
    kind_ok && tags_match(l.patterns, tags)
}

impl LayerDef {
    /// Check if an OSM object matches a layer
    pub fn check_obj(&self, kind: ObjKind, tags: &Tags) -> (r: bool)
        ensures
            r == check_obj_spec(self@, kind, tags@),
    {
        let kind_ok = match self.geom_tp() {
            GeomKind::Point => kind == ObjKind::Node,
            GeomKind::Linestring => kind == ObjKind::Way,
            GeomKind::Polygon => kind == ObjKind::Way || kind == ObjKind::Relation,
        };
        kind_ok && self.check_tags(tags)
    }
}

pub open spec fn point_view(p: PointGeom) -> (Seq<Option<Seq<char>>>, Pos) {
    (values_view(p.values@), p.pos)
}

pub open spec fn line_view(l: LineGeom) -> (Seq<Option<Seq<char>>>, Seq<Pos>) {
    (values_view(l.values@), l.pts@)
}

pub open spec fn polygon_view(p: PolygonGeom) -> (Seq<Option<Seq<char>>>, Seq<(bool, Seq<Pos>)>) {
    (values_view(p.values@), rings_view(p.rings@))
}

/// Geometry layer maker
pub struct GeometryMaker {
    layer: LayerDef,
    objs: ObjMap,
}

impl GeometryMaker {
    pub closed spec fn spec_layer(&self) -> LayerModel {
        self.layer@
    }

    pub closed spec fn spec_objs(&self) -> ObjMap {
        self.objs
    }

    pub open spec fn spec_nodes(&self) -> Seq<Node> {
        self.spec_objs().spec_nodes()
    }

    pub open spec fn spec_ways(&self) -> Seq<Way> {
        self.spec_objs().spec_ways()
    }

    pub open spec fn wf(&self) -> bool {
        self.spec_objs().wf()
    }

    /// Create a new geometry layer maker
    pub fn new(layer: LayerDef, objs: ObjMap) -> (r: GeometryMaker)
        requires
            objs.wf(),
        ensures
            r.wf(),
            r.spec_layer() == layer@,
            r.spec_objs() == objs,
    {
        GeometryMaker { layer, objs }
    }

    /// Get the layer
    pub fn layer(&self) -> (r: &LayerDef)
        ensures
            r@ == self.spec_layer(),
    {
        &self.layer
    }

    /// Values for one object, parallel to the layer's patterns
    pub fn tag_values(&self, id: i64, tags: &Tags) -> (r: Vec<Option<String>>)
        ensures
            values_view(r@) == values_spec(self.spec_layer(), id, tags@),
    {
        let patterns = self.layer.patterns();
        let ghost vs = values_spec(self.spec_layer(), id, tags@);
        let mut out: Vec<Option<String>> = Vec::new();
        let mut i: usize = 0;
        proof {
            reveal_strlit("osm_id");
            assert("osm_id"@ =~= osm_id_tag());
        }
        while i < patterns.len()
            invariant
                i <= patterns@.len(),
                patterns_view(patterns@) == self.spec_layer().patterns,
                vs == values_spec(self.spec_layer(), id, tags@),
                "osm_id"@ == osm_id_tag(),
                values_view(out@) == vs.take(i as int),
            decreases patterns@.len() - i,
        {
            let ghost before = out@;
            let pattern = &patterns[i];
            proof {
                assert(self.spec_layer().patterns[i as int] == pattern@);
                assert(vs[i as int] == captured(pattern@, id, tags@));
            }
            let v = match pattern.include_key() {
                Some(tag) => {
                    if str_is(tag.as_str(), "osm_id") {
                        Some(i64_to_string(id))
                    } else {
                        match tags.get(tag.as_str()) {
                            Some(v) => Some(v.clone()),
                            None => None,
                        }
                    }
                },
                None => None,
            };
            proof {
                assert((match v { Some(s) => Some(s@), None => None::<Seq<char>> }) == vs[i as int]);
            }
            out.push(v);
            proof {
                assert(values_view(out@) =~= values_view(before).push(vs[i as int]));
                assert(vs.take(i + 1) =~= vs.take(i as int).push(vs[i as int]));
            }
            i = i + 1;
        }
        proof {
            assert(vs.take(i as int) =~= vs);
        }
        out
    }

    /// Make point geometry from a node
    pub fn node_point(&self, node: &Node) -> (r: PointGeom)
        ensures
            point_view(r) == node_point_spec(self.spec_layer(), *node),
    {
        let values = self.tag_values(node.id, &node.tags);
        PointGeom { values, pos: node.pos }
    }

    /// Make linestring geometry from a way
    pub fn way_linestring(&self, way: &Way) -> (r: Option<LineGeom>)
        requires
            self.wf(),
        ensures
            match r {
                Some(g) => way_linestring_spec(self.spec_layer(), self.spec_nodes(), *way) == Some(line_view(g)),
                None => way_linestring_spec(self.spec_layer(), self.spec_nodes(), *way) is None,
            },
    {
        if !has_distinct_step(&way.nodes) {
            return None;
        }
        let pts = self.objs.lookup_nodes(&way.nodes);
        if pts.len() == 0 {
            return None;
        }
        let values = self.tag_values(way.id, &way.tags);
        Some(LineGeom { values, pts })
    }

    /// Make polygon geometry from a closed way
    pub fn way_polygon(&self, way: &Way) -> (r: Option<PolygonGeom>)
        requires
            self.wf(),
        ensures
            match r {
                Some(g) => way_polygon_spec(self.spec_layer(), self.spec_nodes(), *way) == Some(polygon_view(g)),
                None => way_polygon_spec(self.spec_layer(), self.spec_nodes(), *way) is None,
            },
    {
        if way.nodes.len() < 2 {
            return None;
        }
        let (w0, w1) = crate::rings::end_points(&way.nodes);
        if w0 != w1 {
            return None;
        }
        let pts = self.objs.lookup_nodes(&way.nodes);
        if pts.len() == 0 {
            return None;
        }
        let values = self.tag_values(way.id, &way.tags);
        let mut rings: Vec<Ring> = Vec::new();
        rings.push(Ring { outer: true, pts });
        let r = PolygonGeom { values, rings };
        proof {
            assert(rings_view(r.rings@) =~= seq![(true, lookup_spec(self.spec_nodes(), way.nodes@))]);
        }
        Some(r)
    }
}

} // verus!

verus! {

pub open spec fn ways_view(ways: Seq<Vec<i64>>) -> Seq<Seq<i64>> {
    ways.map_values(|w: Vec<i64>| w@)
}

/// Role of a member as `Some(true)` outer, `Some(false)` inner, `None` other
fn member_role(role: &String) -> (r: Option<bool>)
    ensures
        r == role_of(role@),
{
    proof {
        reveal_strlit("outer");
        reveal_strlit("inner");
        assert("outer"@ =~= seq!['o', 'u', 't', 'e', 'r']);
        assert("inner"@ =~= seq!['i', 'n', 'n', 'e', 'r']);
    }
    if str_is(role.as_str(), "outer") {
        Some(true)
    } else if str_is(role.as_str(), "inner") {
        Some(false)
    } else {
        None
    }
}

/// Join candidates until one is left or no pair shares an end
fn splice_ways(ways: &mut Vec<Vec<i64>>)
    requires
        all_paths(ways_view(old(ways)@)),
    ensures
        all_paths(ways_view(final(ways)@)),
        ways_view(final(ways)@) == splice(ways_view(old(ways)@)),
{
    while ways.len() > 1
        invariant
            all_paths(ways_view(ways@)),
            splice(ways_view(ways@)) == splice(ways_view(old(ways)@)),
        decreases ways@.len(),
    {
        let ghost before = ways_view(ways@);
        if !connect_ways(ways) {
            return;
        }
        proof {
            assert(ways_view(ways@).len() < before.len());
        }
    }
}

/// Take out closed candidates, in order, until none is left
fn extract_rings(ways: &mut Vec<Vec<i64>>) -> (r: Vec<Vec<i64>>)
    requires
        all_paths(ways_view(old(ways)@)),
    ensures
        (ways_view(final(ways)@), ways_view(r@)) == extract(ways_view(old(ways)@)),
        all_paths(ways_view(final(ways)@)),
{
    let mut rings: Vec<Vec<i64>> = Vec::new();
    loop
        invariant
            all_paths(ways_view(ways@)),
            extract(ways_view(old(ways)@)) == (
                extract(ways_view(ways@)).0,
                ways_view(rings@) + extract(ways_view(ways@)).1,
            ),
        decreases ways@.len(),
    {
        let ghost before = ways_view(ways@);
        let ghost taken = ways_view(rings@);
        match find_ring(ways) {
            Some(ring) => {
                let ghost i = first_closed(before);
                rings.push(ring);
                proof {
                    assert(ways_view(rings@) =~= taken.push(before[i]));
                    assert(taken.push(before[i]) + extract(ways_view(ways@)).1 =~= taken + (seq![before[i]] + extract(ways_view(ways@)).1));
                }
            },
            None => {
                proof {
                    assert(ways_view(rings@) + Seq::<Seq<i64>>::empty() =~= ways_view(rings@));
                }
                return rings;
            },
        }
    }
}

impl GeometryMaker {
    /// Make polygon geometry from a multipolygon relation
    #[verifier::rlimit(60)]
    pub fn rel_polygon(&self, rel: &Relation) -> (r: Option<PolygonGeom>)
        requires
            self.wf(),
        ensures
            match r {
                Some(g) => rel_polygon_spec(self.spec_layer(), self.spec_nodes(), self.spec_ways(), *rel)
                    == Some(polygon_view(g)),
                None => rel_polygon_spec(self.spec_layer(), self.spec_nodes(), self.spec_ways(), *rel) is None,
            },
    {
        let ghost ms = members_spec(self.spec_ways(), rel.members@);
        let mut ways: Vec<Vec<i64>> = Vec::new();
        let mut rings: Vec<Ring> = Vec::new();
        let ghost mut ring_ids: Seq<(bool, Seq<i64>)> = Seq::empty();
        let mut resolved = true;
        let mut i: usize = 0;
        proof {
            assert(ms.take(0) =~= Seq::<MemberModel>::empty());
            assert(ways_view(ways@) =~= Seq::<Seq<i64>>::empty());
            assert(rings_view(rings@) =~= materialize(self.spec_nodes(), ring_ids));
        }
        while i < rel.members.len()
            invariant
                self.wf(),
                i <= rel.members@.len(),
                ms == members_spec(self.spec_ways(), rel.members@),
                all_paths(ways_view(ways@)),
                assemble(ms.take(i as int)) == (ways_view(ways@), ring_ids),
                rings_view(rings@) == materialize(self.spec_nodes(), ring_ids),
                resolved == rings_resolved(self.spec_nodes(), ring_ids),
            decreases rel.members@.len() - i,
        {
            let member = &rel.members[i];
            proof {
                assert(ms.take(i + 1).drop_last() =~= ms.take(i as int));
                assert(ms.take(i + 1).last() == ms[i as int]);
            }
            let role = member_role(&member.role);
            if let Some(outer) = role {
                let nodes = self.objs.way_nodes(member.kind, member.id);
                if nodes.len() > 0 {
                    let ghost w0 = ways@;
                    ways.push(nodes);
                    proof {
                        assert(ways_view(ways@) =~= ways_view(w0).push(nodes@));
                        assert(ms[i as int] == (Some(outer), nodes@));
                    }
                    splice_ways(&mut ways);
                    let found = extract_rings(&mut ways);
                    let ghost found_ids = ways_view(found@);
                    let mut k: usize = 0;
                    let ghost start_ids = ring_ids;
                    let ghost start_len = rings@.len();
                    while k < found.len()
                        invariant
                            self.wf(),
                            k <= found@.len(),
                            found_ids == ways_view(found@),
                            ring_ids == start_ids + found_ids.take(k as int).map_values(|r: Seq<i64>| (outer, r)),
                            rings_view(rings@) == materialize(self.spec_nodes(), ring_ids),
                            resolved == rings_resolved(self.spec_nodes(), ring_ids),
                        decreases found@.len() - k,
                    {
                        let pts = self.objs.lookup_nodes(&found[k]);
                        let ghost before = rings@;
                        let ghost was_resolved = resolved;
                        if pts.len() == 0 {
                            resolved = false;
                        }
                        rings.push(Ring { outer, pts });
                        proof {
                            let prev = ring_ids;
                            ring_ids = ring_ids.push((outer, found@[k as int]@));
                            assert(found_ids.take(k + 1).map_values(|r: Seq<i64>| (outer, r))
                                =~= found_ids.take(k as int).map_values(|r: Seq<i64>| (outer, r)).push((outer, found_ids[k as int])));
                            assert(rings_view(rings@) =~= rings_view(before).push((outer, pts@)));
                            assert(materialize(self.spec_nodes(), ring_ids) =~= materialize(self.spec_nodes(), prev).push(
                                (outer, lookup_spec(self.spec_nodes(), found@[k as int]@))));
                            assert(ring_ids[prev.len() as int] == (outer, found@[k as int]@));
                            if was_resolved && pts@.len() > 0 {
                                assert forall|m: int| 0 <= m < ring_ids.len() implies
                                    (#[trigger] lookup_spec(self.spec_nodes(), ring_ids[m].1)).len() > 0 by {
                                    if m < prev.len() {
                                        assert(ring_ids[m] == prev[m]);
                                    }
                                }
                            }
                            if !resolved {
                                if was_resolved {
                                    assert(lookup_spec(self.spec_nodes(), ring_ids[prev.len() as int].1).len() == 0);
                                } else {
                                    let m = choose|m: int| 0 <= m < prev.len() && !((#[trigger] lookup_spec(self.spec_nodes(), prev[m].1)).len() > 0);
                                    assert(ring_ids[m] == prev[m]);
                                }
                            }
                        }
                        k = k + 1;
                    }
                    proof {
                        assert(found_ids.take(k as int) =~= found_ids);
                    }
                }
            }
            i = i + 1;
        }
        proof {
            assert(ms.take(i as int) =~= ms);
        }
        if ways.len() == 0 && rings.len() > 0 && resolved {
            let values = self.tag_values(rel.id, &rel.tags);
            Some(PolygonGeom { values, rings })
        } else {
            None
        }
    }
}

} // verus!

verus! {

pub type ValuesModel = Seq<Option<Seq<char>>>;

/// Points of the nodes that match the layer's tags, in id order.
pub open spec fn points_spec(l: LayerModel, nodes: Seq<Node>) -> Seq<(ValuesModel, Pos)>
    decreases nodes.len(),
{
    if nodes.len() == 0 {
        Seq::empty()
    } else {
        let r = points_spec(l, nodes.drop_last());
        if tags_match(l.patterns, nodes.last().tags@) { r.push(node_point_spec(l, nodes.last())) } else { r }
    }
}

/// Linestrings of the ways that match the layer's tags and make one, in id
/// order.
pub open spec fn lines_spec(l: LayerModel, nodes: Seq<Node>, ways: Seq<Way>) -> Seq<(ValuesModel, Seq<Pos>)>
    decreases ways.len(),
{
    if ways.len() == 0 {
        Seq::empty()
    } else {
        let r = lines_spec(l, nodes, ways.drop_last());
        if tags_match(l.patterns, ways.last().tags@) {
            match way_linestring_spec(l, nodes, ways.last()) {
                Some(g) => r.push(g),
                None => r,
            }
        } else {
            r
        }
    }
}

/// Polygons of the matching closed ways, in id order.
pub open spec fn way_polygons_spec(l: LayerModel, nodes: Seq<Node>, ways: Seq<Way>) -> Seq<(ValuesModel, Seq<(bool, Seq<Pos>)>)>
    decreases ways.len(),
{
    if ways.len() == 0 {
        Seq::empty()
    } else {
        let r = way_polygons_spec(l, nodes, ways.drop_last());
        let w = ways.last();
        if tags_match(l.patterns, w.tags@) {
            match way_polygon_spec(l, nodes, w) {
                Some(g) => r.push(g),
                None => r,
            }
        } else {
            r
        }
    }
}

/// Polygons of the matching relations that assemble, in id order.
pub open spec fn rel_polygons_spec(l: LayerModel, nodes: Seq<Node>, ways: Seq<Way>, rels: Seq<Relation>) -> Seq<(ValuesModel, Seq<(bool, Seq<Pos>)>)>
    decreases rels.len(),
{
    if rels.len() == 0 {
        Seq::empty()
    } else {
        let r = rel_polygons_spec(l, nodes, ways, rels.drop_last());
        let rel = rels.last();
        if tags_match(l.patterns, rel.tags@) {
            match rel_polygon_spec(l, nodes, ways, rel) {
                Some(g) => r.push(g),
                None => r,
            }
        } else {
            r
        }
    }
}

/// Geometry of a layer, of the layer's kind
#[derive(Debug)]
pub enum Geometries {
    Points(Vec<PointGeom>),
    Linestrings(Vec<LineGeom>),
    Polygons(Vec<PolygonGeom>),
}

impl Geometries {
    /// Number of geometries
    pub fn len(&self) -> (r: usize)
        ensures
            r == match self {
                Geometries::Points(v) => v@.len(),
                Geometries::Linestrings(v) => v@.len(),
                Geometries::Polygons(v) => v@.len(),
            },
    {
        match self {
            Geometries::Points(v) => v.len(),
            Geometries::Linestrings(v) => v.len(),
            Geometries::Polygons(v) => v.len(),
        }
    }
}

impl GeometryMaker {
    /// Make all points for a layer: the nodes that match its tags
    pub fn make_points(&self) -> (r: Vec<PointGeom>)
        requires
            self.wf(),
        ensures
            r@.map_values(|g: PointGeom| point_view(g)) == points_spec(self.spec_layer(), self.spec_nodes()),
    {
        let nodes = self.objs.nodes();
        let mut out: Vec<PointGeom> = Vec::new();
        let mut i: usize = 0;
        while i < nodes.len()
            invariant
                i <= nodes@.len(),
                nodes@ == self.spec_nodes(),
                out@.map_values(|g: PointGeom| point_view(g)) == points_spec(self.spec_layer(), nodes@.take(i as int)),
            decreases nodes@.len() - i,
        {
            let ghost before = out@;
            proof {
                assert(nodes@.take(i + 1).drop_last() =~= nodes@.take(i as int));
                assert(nodes@.take(i + 1).last() == nodes@[i as int]);
            }
            if self.layer.check_tags(&nodes[i].tags) {
                let g = self.node_point(&nodes[i]);
                out.push(g);
                proof {
                    assert(out@.map_values(|g: PointGeom| point_view(g)) =~= before.map_values(|g: PointGeom| point_view(g)).push(point_view(g)));
                }
            }
            i = i + 1;
        }
        proof {
            assert(nodes@.take(i as int) =~= nodes@);
        }
        out
    }

    /// Make all linestrings for a layer: the ways that match its tags
    pub fn make_linestrings(&self) -> (r: Vec<LineGeom>)
        requires
            self.wf(),
        ensures
            r@.map_values(|g: LineGeom| line_view(g)) == lines_spec(self.spec_layer(), self.spec_nodes(), self.spec_ways()),
    {
        let ways = self.objs.ways();
        let mut out: Vec<LineGeom> = Vec::new();
        let mut i: usize = 0;
        while i < ways.len()
            invariant
                self.wf(),
                i <= ways@.len(),
                ways@ == self.spec_ways(),
                out@.map_values(|g: LineGeom| line_view(g)) == lines_spec(self.spec_layer(), self.spec_nodes(), ways@.take(i as int)),
            decreases ways@.len() - i,
        {
            proof {
                assert(ways@.take(i + 1).drop_last() =~= ways@.take(i as int));
                assert(ways@.take(i + 1).last() == ways@[i as int]);
            }
            let ghost before = out@;
            if self.layer.check_tags(&ways[i].tags) {
                if let Some(g) = self.way_linestring(&ways[i]) {
                    out.push(g);
                    proof {
                        assert(out@.map_values(|g: LineGeom| line_view(g)) =~= before.map_values(|g: LineGeom| line_view(g)).push(line_view(g)));
                    }
                }
            }
            i = i + 1;
        }
        proof {
            assert(ways@.take(i as int) =~= ways@);
        }
        out
    }

    /// Make all polygons for a layer: closed ways first, then relations;
    /// each must match the layer's tags
    pub fn make_polygons(&self) -> (r: Vec<PolygonGeom>)
        requires
            self.wf(),
        ensures
            r@.map_values(|g: PolygonGeom| polygon_view(g)) == way_polygons_spec(self.spec_layer(), self.spec_nodes(), self.spec_ways())
                + rel_polygons_spec(self.spec_layer(), self.spec_nodes(), self.spec_ways(), self.spec_objs().spec_relations()),
    {
        let ways = self.objs.ways();
        let rels = self.objs.relations();
        let mut out: Vec<PolygonGeom> = Vec::new();
        let mut i: usize = 0;
        while i < ways.len()
            invariant
                self.wf(),
                i <= ways@.len(),
                ways@ == self.spec_ways(),
                out@.map_values(|g: PolygonGeom| polygon_view(g)) == way_polygons_spec(self.spec_layer(), self.spec_nodes(), ways@.take(i as int)),
            decreases ways@.len() - i,
        {
            proof {
                assert(ways@.take(i + 1).drop_last() =~= ways@.take(i as int));
                assert(ways@.take(i + 1).last() == ways@[i as int]);
            }
            let ghost before = out@;
            if self.layer.check_tags(&ways[i].tags) {
                if let Some(g) = self.way_polygon(&ways[i]) {
                    out.push(g);
                    proof {
                        assert(out@.map_values(|g: PolygonGeom| polygon_view(g)) =~= before.map_values(|g: PolygonGeom| polygon_view(g)).push(polygon_view(g)));
                    }
                }
            }
            i = i + 1;
        }
        proof {
            assert(ways@.take(i as int) =~= ways@);
        }
        let ghost head = out@.map_values(|g: PolygonGeom| polygon_view(g));
        let mut j: usize = 0;
        proof {
            assert(rels@.take(0) =~= Seq::<Relation>::empty());
            assert(head + Seq::<(ValuesModel, Seq<(bool, Seq<Pos>)>)>::empty() =~= head);
        }
        while j < rels.len()
            invariant
                self.wf(),
                j <= rels@.len(),
                rels@ == self.spec_objs().spec_relations(),
                out@.map_values(|g: PolygonGeom| polygon_view(g)) == head + rel_polygons_spec(self.spec_layer(), self.spec_nodes(), self.spec_ways(), rels@.take(j as int)),
            decreases rels@.len() - j,
        {
            proof {
                assert(rels@.take(j + 1).drop_last() =~= rels@.take(j as int));
                assert(rels@.take(j + 1).last() == rels@[j as int]);
            }
            let ghost before = out@;
            // relations are checked again: the working set also holds the
            // relations that others depend on
            if self.layer.check_tags(&rels[j].tags) {
                if let Some(g) = self.rel_polygon(&rels[j]) {
                    out.push(g);
                    proof {
                        assert(out@.map_values(|g: PolygonGeom| polygon_view(g)) =~= before.map_values(|g: PolygonGeom| polygon_view(g)).push(polygon_view(g)));
                    }
                }
            }
            j = j + 1;
        }
        proof {
            assert(rels@.take(j as int) =~= rels@);
        }
        out
    }

    /// Make all geometry for a layer, of the layer's kind
    pub fn make_geometry(&self) -> (r: Geometries)
        requires
            self.wf(),
        ensures
            match r {
                Geometries::Points(v) => self.spec_layer().geom == GeomKind::Point
                    && v@.map_values(|g: PointGeom| point_view(g)) == points_spec(self.spec_layer(), self.spec_nodes()),
                Geometries::Linestrings(v) => self.spec_layer().geom == GeomKind::Linestring
                    && v@.map_values(|g: LineGeom| line_view(g)) == lines_spec(self.spec_layer(), self.spec_nodes(), self.spec_ways()),
                Geometries::Polygons(v) => self.spec_layer().geom == GeomKind::Polygon
                    && v@.map_values(|g: PolygonGeom| polygon_view(g)) == way_polygons_spec(self.spec_layer(), self.spec_nodes(), self.spec_ways())
                    + rel_polygons_spec(self.spec_layer(), self.spec_nodes(), self.spec_ways(), self.spec_objs().spec_relations()),
            },
    {
        match self.layer.geom_tp() {
            GeomKind::Point => Geometries::Points(self.make_points()),
            GeomKind::Linestring => Geometries::Linestrings(self.make_linestrings()),
            GeomKind::Polygon => Geometries::Polygons(self.make_polygons()),
        }
    }
}

} // verus!
