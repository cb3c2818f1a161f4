use earthwyrm::tile::{
    clip_box, encode_linestring, encode_points, finish_tile, TileBox, TilePt,
};
use earthwyrm::{Error, LayerCfg, LayerGroupCfg, Outcome, TileId, Wyrm, WyrmCfg};

fn cfg(zoom: &str) -> WyrmCfg {
    WyrmCfg {
        bind_address: "127.0.0.1:3030".to_string(),
        tile_extent: 4096,
        edge_extent: 6,
        layer_group: vec![LayerGroupCfg {
            name: "osm".to_string(),
            layer: vec![LayerCfg {
                name: "highway".to_string(),
                source: "osm".to_string(),
                geom_type: "linestring".to_string(),
                zoom: zoom.to_string(),
                tags: vec!["highway".to_string(), "?ref".to_string()],
            }],
        }],
    }
}

fn pt(x: i32, y: i32) -> TilePt {
    TilePt { x, y }
}

#[test]
fn tile_id_validity() {
    assert!(TileId::new(246, 368, 10).is_ok());
    assert_eq!(TileId::new(1024, 0, 10), Err(Error::InvalidTileId));
    assert!(TileId::new(0, 0, 0).is_ok());
    assert_eq!(TileId::new(1, 0, 0), Err(Error::InvalidTileId));
    assert!(TileId::new((1 << 30) - 1, 0, 30).is_ok());
    assert_eq!(TileId::new(0, 0, 31), Err(Error::InvalidTileId));
}

#[test]
fn route_format() {
    let tid = TileId::from_route("10", "246", "368.mvt").unwrap();
    assert_eq!((tid.z(), tid.x(), tid.y()), (10, 246, 368));
    assert_eq!(TileId::from_route("10", "246", "abc.mvt"), Err(Error::InvalidTileId));
    assert_eq!(TileId::from_route("10", "246", "368.png"), Err(Error::InvalidTileId));
    assert_eq!(TileId::from_route("10", "2000", "368.mvt"), Err(Error::InvalidTileId));
    let wyrm = Wyrm::from_cfg(&cfg("1+")).unwrap();
    let err = wyrm.plan_tile("xyz", tid).unwrap_err();
    assert_eq!(err, Error::UnknownGroupName);
    assert_eq!(Outcome::of_error(&err).status(), 404);
    assert_eq!(Outcome::of_error(&Error::InvalidTileId).status(), 404);
}

#[test]
fn edge_extent_clipping() {
    let wyrm = Wyrm::from_cfg(&cfg("1+")).unwrap();
    let plan = wyrm.plan_tile("osm", TileId::new(246, 368, 10).unwrap()).unwrap();
    assert_eq!(plan.clip, TileBox { x_min: -6, y_min: -6, x_max: 4102, y_max: 4102 });
    assert_eq!(plan.layers, vec![0]);
    let near = pt(4096 + 3, 100);
    let far = pt(4096 + 9, 100);
    assert_eq!(encode_points(&vec![near, far], plan.clip), vec![near]);
}

#[test]
fn zoom_out_of_range() {
    let wyrm = Wyrm::from_cfg(&cfg("12-16")).unwrap();
    let plan = wyrm.plan_tile("osm", TileId::new(246, 368, 10).unwrap()).unwrap();
    assert!(plan.layers.is_empty());
    let err = finish_tile(&vec![]).unwrap_err();
    assert_eq!(err, Error::TileEmpty);
    assert_eq!(Outcome::of_error(&err).status(), 204);
    let plan = wyrm.plan_tile("osm", TileId::new(0, 0, 12).unwrap()).unwrap();
    assert_eq!(plan.layers, vec![0]);
}

#[test]
fn empty_layers_dropped() {
    assert_eq!(finish_tile(&vec![0, 3, 0, 1]), Ok(vec![1, 3]));
    assert_eq!(finish_tile(&vec![0, 0]), Err(Error::TileEmpty));
    assert_eq!(Outcome::Tile.status(), 200);
    assert_eq!(Outcome::of_error(&Error::UnknownDataSource).status(), 500);
}

#[test]
fn linestring_runs() {
    let b = clip_box(100, 0);
    let line = vec![pt(10, 10), pt(20, 10), pt(500, 500), pt(600, 600), pt(50, 50), pt(60, 60)];
    let runs = encode_linestring(&line, b);
    assert_eq!(runs, vec![
        vec![pt(10, 10), pt(20, 10), pt(500, 500)],
        vec![pt(600, 600), pt(50, 50), pt(60, 60)],
    ]);
    assert!(encode_linestring(&vec![pt(1, 1)], b).is_empty());
    assert!(encode_linestring(&vec![pt(200, 200), pt(300, 300)], b).is_empty());
}

#[test]
fn config_errors_surface() {
    assert_eq!(Wyrm::from_cfg(&cfg("31")).err(), Some(Error::InvalidZoomLevel(31)));
    let c = cfg("1+");
    assert_eq!(c.loam_path("highway"), "loam/highway.loam");
    assert_eq!(c.bind_address(), "127.0.0.1:3030");
    assert_eq!(c.layer_groups()[0].name(), "osm");
    assert_eq!(c.layer_groups()[0].describe(), "osm: highway");
    let w = Wyrm::from_cfg(&c).unwrap();
    assert_eq!(w.groups()[0].layers().len(), 1);
    assert_eq!((w.tile_extent(), w.edge_extent()), (4096, 6));
}

#[test]
fn composition_is_deterministic() {
    let wyrm = Wyrm::from_cfg(&cfg("1+")).unwrap();
    let tid = TileId::new(246, 368, 10).unwrap();
    let a = wyrm.plan_tile("osm", tid).unwrap();
    let b = wyrm.plan_tile("osm", tid).unwrap();
    assert_eq!((a.group, a.clip, a.layers.clone()), (b.group, b.clip, b.layers.clone()));
    let line = vec![pt(-50, 10), pt(20, 10), pt(5000, 10)];
    assert_eq!(encode_linestring(&line, a.clip), encode_linestring(&line, b.clip));
}

#[test]
fn error_messages() {
    assert_eq!(Error::DuplicatePattern("?name".to_string()).message(), "Duplicate pattern: ?name");
    assert_eq!(Error::TileEmpty.message(), "Tile empty");
    assert_eq!(Error::UnknownGroupName.message(), "Unknown group name");
    assert_eq!(Outcome::of_error(&Error::MvtEncode).status(), 500);
}

#[test]
fn segment_must_cross_the_box() {
    let b = clip_box(100, 0);
    assert!(encode_linestring(&vec![pt(-10, 5), pt(5, -10)], b).is_empty());
    assert_eq!(encode_linestring(&vec![pt(-10, 50), pt(50, -10)], b), vec![vec![pt(-10, 50), pt(50, -10)]]);
    assert_eq!(encode_linestring(&vec![pt(-10, 10), pt(10, -10)], b), vec![vec![pt(-10, 10), pt(10, -10)]]);
    assert_eq!(encode_linestring(&vec![pt(-50, 50), pt(150, 50)], b).len(), 1);
    assert!(encode_linestring(&vec![pt(101, -5), pt(101, 200)], b).is_empty());
}
