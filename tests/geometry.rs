use earthwyrm::osm::{Member, Node, ObjKind, Pos, Relation, Way};
use earthwyrm::rings::{connect_ways, end_points, find_ring, reversed};
use earthwyrm::tile::{encode_polygon, TilePt};
use earthwyrm::{GeomKind, GeometryMaker, LayerCfg, LayerDef, ObjMap, PropValue, Tags};

fn layer(geom: &str, tags: &[&str]) -> LayerDef {
    let cfg = LayerCfg {
        name: "city".to_string(),
        source: "osm".to_string(),
        geom_type: geom.to_string(),
        zoom: "1+".to_string(),
        tags: tags.iter().map(|s| s.to_string()).collect(),
    };
    LayerDef::from_cfg(&cfg).unwrap()
}

fn city() -> LayerDef {
    layer("polygon", &["?name", "$population", "boundary=administrative", "admin_level=8"])
}

fn tags(pairs: &[(&str, &str)]) -> Tags {
    let mut t = Tags::new();
    for (k, v) in pairs {
        t.push(k, v);
    }
    t
}

fn node(id: i64, lat: i32, lon: i32) -> Node {
    Node { id, pos: Pos { lat, lon }, tags: Tags::new() }
}

fn way(id: i64, nodes: &[i64]) -> Way {
    Way { id, nodes: nodes.to_vec(), tags: Tags::new() }
}

fn member(id: i64, role: &str) -> Member {
    Member { kind: ObjKind::Way, id, role: role.to_string() }
}

fn nodes(n: i64) -> Vec<Node> {
    (1..=n).map(|i| node(i, i as i32 * 10, i as i32 * 20)).collect()
}

fn city_tags(admin_level: &str) -> Tags {
    tags(&[
        ("boundary", "administrative"),
        ("admin_level", admin_level),
        ("name", "Saint Paul"),
        ("population", "311527"),
    ])
}

#[test]
fn ends_and_reverse() {
    assert_eq!(end_points(&vec![4, 5, 6]), (4, 6));
    assert_eq!(reversed(&vec![1, 2, 3]), vec![3, 2, 1]);
}

#[test]
fn connect_two_open_ways() {
    let mut ways = vec![vec![1, 2, 3], vec![5, 4, 3]];
    assert!(connect_ways(&mut ways));
    assert_eq!(ways, vec![vec![1, 2, 3, 4, 5]]);
    let mut ways = vec![vec![3, 2, 1], vec![3, 4, 5]];
    assert!(connect_ways(&mut ways));
    assert_eq!(ways, vec![vec![1, 2, 3, 4, 5]]);
    let mut ways = vec![vec![1, 2], vec![3, 4]];
    assert!(!connect_ways(&mut ways));
    assert_eq!(ways, vec![vec![1, 2], vec![3, 4]]);
}

#[test]
fn find_first_ring() {
    let mut ways = vec![vec![1, 2], vec![3, 4, 3], vec![5, 6, 5]];
    assert_eq!(find_ring(&mut ways), Some(vec![3, 4, 3]));
    assert_eq!(ways, vec![vec![1, 2], vec![5, 6, 5]]);
    let mut ways = vec![vec![1, 2]];
    assert_eq!(find_ring(&mut ways), None);
}

fn objs(n: Vec<Node>, w: Vec<Way>, r: Vec<Relation>) -> ObjMap {
    ObjMap::new(n, w, r).unwrap()
}

#[test]
fn obj_map_needs_increasing_ids() {
    assert!(ObjMap::new(vec![node(2, 0, 0), node(1, 0, 0)], vec![], vec![]).is_none());
    assert!(ObjMap::new(vec![node(1, 0, 0), node(1, 0, 0)], vec![], vec![]).is_none());
    let m = objs(nodes(3), vec![], vec![]);
    assert_eq!(m.node_pos(2), Some(Pos { lat: 20, lon: 40 }));
    assert_eq!(m.node_pos(9), None);
}

#[test]
fn minimum_viable_pattern() {
    let rel = Relation {
        id: 100,
        members: vec![member(10, "outer"), member(11, "outer")],
        tags: city_tags("8"),
    };
    let ways = vec![way(10, &[1, 2, 3, 1]), way(11, &[4, 5, 6, 4])];
    let maker = GeometryMaker::new(city(), objs(nodes(6), ways, vec![rel]));
    let polys = maker.make_polygons();
    assert_eq!(polys.len(), 1);
    assert_eq!(polys[0].rings.len(), 2);
    assert!(polys[0].rings.iter().all(|r| r.outer));
    let props = maker.layer().properties(&polys[0].values);
    assert_eq!(props.len(), 2);
    assert_eq!(props[0].tag, "name");
    assert_eq!(props[0].value, PropValue::Str("Saint Paul".to_string()));
    assert_eq!(props[1].tag, "population");
    assert_eq!(props[1].value, PropValue::Sint(311527));
}

#[test]
fn non_matching_relation() {
    let rel = Relation {
        id: 100,
        members: vec![member(10, "outer"), member(11, "outer")],
        tags: tags(&[("boundary", "administrative"), ("name", "Saint Paul")]),
    };
    let ways = vec![way(10, &[1, 2, 3, 1]), way(11, &[4, 5, 6, 4])];
    let maker = GeometryMaker::new(city(), objs(nodes(6), ways, vec![rel]));
    assert_eq!(maker.make_geometry().len(), 0);
}

#[test]
fn inner_ring() {
    let rel = Relation {
        id: 7,
        members: vec![member(10, "outer"), member(11, "inner")],
        tags: city_tags("8"),
    };
    let ways = vec![way(10, &[1, 2, 3, 4, 1]), way(11, &[5, 6, 7, 5])];
    let maker = GeometryMaker::new(city(), objs(nodes(7), ways, vec![rel.clone()]));
    let poly = maker.rel_polygon(&rel).unwrap();
    assert_eq!(poly.rings.len(), 2);
    assert!(poly.rings[0].outer);
    assert!(!poly.rings[1].outer);
    assert_eq!(poly.rings[0].pts.len(), 5);
    assert_eq!(poly.rings[1].pts.len(), 4);
    let to_tile = |pts: &Vec<Pos>| pts.iter().map(|p| TilePt { x: p.lon, y: p.lat }).collect::<Vec<_>>();
    let rings: Vec<Vec<TilePt>> = poly.rings.iter().map(|r| to_tile(&r.pts)).collect();
    let encoded = encode_polygon(&rings);
    assert_eq!(encoded.len(), 2);
    assert_eq!(encoded[0].len(), 4);
    assert_eq!(encoded[1].len(), 3);
}

#[test]
fn ring_from_two_open_ways() {
    let rel = Relation {
        id: 7,
        members: vec![member(10, "outer"), member(11, "outer"), member(12, "subarea")],
        tags: city_tags("8"),
    };
    let ways = vec![way(10, &[1, 2, 3]), way(11, &[3, 4, 1]), way(12, &[5, 6])];
    let maker = GeometryMaker::new(city(), objs(nodes(6), ways, vec![rel.clone()]));
    let poly = maker.rel_polygon(&rel).unwrap();
    assert_eq!(poly.rings.len(), 1);
    assert_eq!(poly.rings[0].pts.len(), 5);
}

#[test]
fn missing_way_breaks_relation() {
    let rel = Relation {
        id: 7,
        members: vec![member(10, "outer"), member(11, "outer")],
        tags: city_tags("8"),
    };
    let ways = vec![way(10, &[1, 2, 3])];
    let maker = GeometryMaker::new(city(), objs(nodes(6), ways, vec![rel.clone()]));
    assert!(maker.rel_polygon(&rel).is_none());
    assert_eq!(maker.make_polygons().len(), 0);
}

#[test]
fn closed_way_polygon_and_osm_id() {
    let l = layer("polygon", &["building", "?osm_id"]);
    let mut w = way(5, &[1, 2, 3, 1]);
    w.tags = tags(&[("building", "yes")]);
    let open = Way { id: 6, nodes: vec![1, 2, 3], tags: tags(&[("building", "yes")]) };
    let maker = GeometryMaker::new(l, objs(nodes(3), vec![w, open], vec![]));
    let polys = maker.make_polygons();
    assert_eq!(polys.len(), 1);
    assert_eq!(polys[0].values, vec![None, Some("5".to_string())]);
    assert_eq!(polys[0].rings[0].pts.len(), 4);
}

#[test]
fn linestrings_drop_short_and_unresolved() {
    let l = layer("linestring", &["highway", "?ref"]);
    let ways = vec![
        Way { id: 1, nodes: vec![1, 2, 3], tags: tags(&[("highway", "primary"), ("ref", "US 52")]) },
        Way { id: 2, nodes: vec![1], tags: tags(&[("highway", "primary")]) },
        Way { id: 3, nodes: vec![1, 99], tags: tags(&[("highway", "primary")]) },
    ];
    let maker = GeometryMaker::new(l, objs(nodes(3), ways, vec![]));
    let lines = maker.make_linestrings();
    assert_eq!(lines.len(), 1);
    assert_eq!(lines[0].pts.len(), 3);
    assert_eq!(lines[0].values, vec![None, Some("US 52".to_string())]);
}

#[test]
fn points_from_nodes() {
    let l = layer("point", &["amenity", "?name"]);
    let mut n = node(3, -450, 930);
    n.tags = tags(&[("amenity", "cafe"), ("name", "Nook")]);
    assert!(l.check_obj(ObjKind::Node, &n.tags));
    assert!(!l.check_obj(ObjKind::Way, &n.tags));
    assert_eq!(l.geom_tp(), GeomKind::Point);
    let maker = GeometryMaker::new(l, objs(vec![n], vec![], vec![]));
    let pts = maker.make_points();
    assert_eq!(pts.len(), 1);
    assert_eq!(pts[0].pos, Pos { lat: -450, lon: 930 });
    assert_eq!(pts[0].values, vec![None, Some("Nook".to_string())]);
}

#[test]
fn only_matching_nodes_and_ways() {
    let l = layer("point", &["amenity", "?name"]);
    let mut cafe = node(1, 0, 0);
    cafe.tags = tags(&[("amenity", "cafe")]);
    let plain = node(2, 5, 5);
    let maker = GeometryMaker::new(l, objs(vec![cafe, plain], vec![], vec![]));
    assert_eq!(maker.make_points().len(), 1);
    let l = layer("linestring", &["highway"]);
    let road = Way { id: 1, nodes: vec![1, 2], tags: tags(&[("highway", "primary")]) };
    let other = way(2, &[1, 2]);
    let stuck = Way { id: 3, nodes: vec![1, 1, 1], tags: tags(&[("highway", "primary")]) };
    let maker = GeometryMaker::new(l, objs(nodes(2), vec![road, other, stuck], vec![]));
    assert_eq!(maker.make_linestrings().len(), 1);
}

#[test]
fn ring_with_missing_node_drops_relation() {
    let rel = Relation { id: 7, members: vec![member(10, "outer")], tags: city_tags("8") };
    let ways = vec![way(10, &[1, 2, 99, 1])];
    let maker = GeometryMaker::new(city(), objs(nodes(3), ways, vec![rel.clone()]));
    assert!(maker.rel_polygon(&rel).is_none());
}

#[test]
fn values_parallel_to_patterns() {
    let maker = GeometryMaker::new(city(), objs(vec![], vec![], vec![]));
    let v = maker.tag_values(1, &city_tags("8"));
    assert_eq!(v, vec![Some("Saint Paul".to_string()), Some("311527".to_string()), None, None]);
}
