use earthwyrm::layer::{
    parse_geom_type, parse_patterns, parse_source, parse_zoom, parse_zoom_range, Equality,
    FeatureType, IncludeValue, MustMatch,
};
use earthwyrm::{DataSource, Error, GeomKind, LayerCfg, LayerDef, PropValue, TagPattern, Tags};

fn strings(v: &[&str]) -> Vec<String> {
    v.iter().map(|s| s.to_string()).collect()
}

fn layer_cfg(name: &str, geom: &str, zoom: &str, tags: &[&str]) -> LayerCfg {
    LayerCfg {
        name: name.to_string(),
        source: "osm".to_string(),
        geom_type: geom.to_string(),
        zoom: zoom.to_string(),
        tags: strings(tags),
    }
}

fn tags(pairs: &[(&str, &str)]) -> Tags {
    let mut t = Tags::new();
    for (k, v) in pairs {
        t.push(k, v);
    }
    t
}

#[test]
fn parse_rule_prefixes() {
    let (m, i, f, rest) = TagPattern::parse_rule(".name");
    assert_eq!((m, i, f, rest.as_str()), (MustMatch::Yes, IncludeValue::Yes, FeatureType::MvtString, "name"));
    let (m, i, f, rest) = TagPattern::parse_rule("?name");
    assert_eq!((m, i, f, rest.as_str()), (MustMatch::No, IncludeValue::Yes, FeatureType::MvtString, "name"));
    let (m, i, f, rest) = TagPattern::parse_rule("$population");
    assert_eq!((m, i, f, rest.as_str()), (MustMatch::No, IncludeValue::Yes, FeatureType::MvtSint, "population"));
    let (m, i, f, rest) = TagPattern::parse_rule("highway");
    assert_eq!((m, i, f, rest.as_str()), (MustMatch::Yes, IncludeValue::No, FeatureType::MvtString, "highway"));
}

#[test]
fn parse_equality_forms() {
    let (t, e, v) = TagPattern::parse_equality("boundary=administrative");
    assert_eq!((t.as_str(), e, v.as_str()), ("boundary", Equality::Equal, "administrative"));
    let (t, e, v) = TagPattern::parse_equality("access!=private|no");
    assert_eq!((t.as_str(), e, v.as_str()), ("access", Equality::NotEqual, "private|no"));
    let (t, e, v) = TagPattern::parse_equality("name");
    assert_eq!((t.as_str(), e, v.as_str()), ("name", Equality::NotEqual, "_"));
    let (t, e, v) = TagPattern::parse_equality("a=b=c");
    assert_eq!((t.as_str(), e, v.as_str()), ("a", Equality::Equal, "b=c"));
}

#[test]
fn parse_values_split() {
    assert_eq!(TagPattern::parse_values("a|b|c"), strings(&["a", "b", "c"]));
    assert_eq!(TagPattern::parse_values("x"), strings(&["x"]));
    assert_eq!(TagPattern::parse_values("a||"), strings(&["a", "", ""]));
}

#[test]
fn pattern_to_string_canonical() {
    for p in ["?name", "$population", ".ref", "boundary=administrative", "access!=private|no", "highway", "..x"] {
        assert_eq!(TagPattern::parse(p).to_string(), p);
    }
    assert_eq!(TagPattern::parse("name!=_").to_string(), "name");
    assert_eq!(TagPattern::parse("name!=_|x").to_string(), "name!=_|x");
}

#[test]
fn pattern_round_trip() {
    for p in ["?name", "a!=_|b", "x=1|2|3", "$pop", "a!!=c", "", "=", "!="] {
        let once = TagPattern::parse(p);
        let twice = TagPattern::parse(&once.to_string());
        assert_eq!(twice.to_string(), once.to_string());
        assert_eq!(twice.tag(), once.tag());
        assert_eq!(twice.values(), once.values());
    }
}

#[test]
fn pattern_keys() {
    let p = TagPattern::parse("?name");
    assert_eq!(p.match_key(), None);
    assert_eq!(p.include_key().map(|s| s.as_str()), Some("name"));
    let p = TagPattern::parse("highway=primary");
    assert_eq!(p.match_key().map(|s| s.as_str()), Some("highway"));
    assert_eq!(p.include_key(), None);
    assert_eq!(p.tag(), "highway");
}

#[test]
fn matches_value_equal_and_not_equal() {
    let eq = TagPattern::parse("admin_level=8");
    let neq = TagPattern::parse("admin_level!=8");
    let eight = "8".to_string();
    let six = "6".to_string();
    assert!(eq.matches_value(Some(&eight)));
    assert!(!eq.matches_value(Some(&six)));
    assert!(!eq.matches_value(None));
    for v in [Some(&eight), Some(&six), None] {
        assert_eq!(eq.matches_value(v), !neq.matches_value(v));
    }
}

#[test]
fn matches_absent_value() {
    let present = TagPattern::parse("name");
    assert!(!present.matches_value(None));
    assert!(present.matches_value(Some(&"x".to_string())));
    let absent = TagPattern::parse("name=_");
    assert!(absent.matches_value(None));
    assert!(absent.matches_value_option(None));
}

#[test]
fn zoom_levels() {
    assert_eq!(parse_zoom("12"), Ok(12));
    assert_eq!(parse_zoom("30"), Ok(30));
    assert_eq!(parse_zoom("31"), Err(Error::InvalidZoomLevel(31)));
    assert_eq!(parse_zoom("x"), Err(Error::InvalidZoom("x".to_string())));
    assert_eq!(parse_zoom_range("12-16"), Ok((12, 16)));
    assert_eq!(parse_zoom_range("1+"), Ok((1, 30)));
    assert_eq!(parse_zoom_range("7"), Ok((7, 7)));
    assert_eq!(parse_zoom_range("16-12"), Err(Error::InvalidZoomLevel(16)));
    assert_eq!(parse_zoom_range("12-40"), Err(Error::InvalidZoomLevel(40)));
    assert_eq!(parse_zoom_range("+"), Err(Error::InvalidZoom("".to_string())));
}

#[test]
fn duplicate_pattern_refused() {
    let r = parse_patterns(&strings(&["?name", "highway", ".name"]));
    assert_eq!(r.err(), Some(Error::DuplicatePattern(".name".to_string())));
    let r = parse_patterns(&strings(&["?name", "highway"]));
    assert_eq!(r.map(|p| p.len()), Ok(2));
}

#[test]
fn source_and_geometry_kinds() {
    assert_eq!(parse_source("osm"), Ok(DataSource::Osm));
    assert_eq!(parse_source("json"), Ok(DataSource::Json));
    assert_eq!(parse_source("csv"), Err(Error::UnknownDataSource));
    assert_eq!(parse_geom_type("point"), Ok(GeomKind::Point));
    assert_eq!(parse_geom_type("linestring"), Ok(GeomKind::Linestring));
    assert_eq!(parse_geom_type("polygon"), Ok(GeomKind::Polygon));
    assert_eq!(parse_geom_type("circle"), Err(Error::UnknownGeometryType));
}

#[test]
fn layer_from_cfg_and_zoom_gate() {
    let l = LayerDef::from_cfg(&layer_cfg("highway", "linestring", "12-16", &["highway", "?ref"])).unwrap();
    assert_eq!(l.name(), "highway");
    assert_eq!(l.geom_tp(), GeomKind::Linestring);
    assert_eq!(l.source(), DataSource::Osm);
    assert!(!l.check_zoom(11));
    assert!(l.check_zoom(12));
    assert!(l.check_zoom(16));
    assert!(!l.check_zoom(17));
    assert!(LayerDef::from_cfg(&layer_cfg("x", "blob", "1", &[])).is_err());
}

#[test]
fn check_tags_matches_all() {
    let l = LayerDef::from_cfg(&layer_cfg("city", "polygon", "1+", &["?name", "?population", "boundary=administrative", "admin_level=8"])).unwrap();
    assert!(l.check_tags(&tags(&[("boundary", "administrative"), ("admin_level", "8"), ("name", "Saint Paul")])));
    assert!(!l.check_tags(&tags(&[("boundary", "administrative"), ("name", "Saint Paul")])));
    assert!(!l.check_tags(&tags(&[("boundary", "administrative"), ("admin_level", "6")])));
}

#[test]
fn empty_value_counts_as_absent() {
    let l = LayerDef::from_cfg(&layer_cfg("named", "point", "1", &["name"])).unwrap();
    assert!(!l.check_tags(&tags(&[("name", "")])));
    assert!(l.check_tags(&tags(&[("name", "x")])));
    let t = tags(&[("name", "")]);
    assert_eq!(t.get("name").map(|s| s.as_str()), Some(""));
    let empty = String::new();
    let present = TagPattern::parse("name");
    assert!(!present.matches_value(Some(&empty)));
    assert!(TagPattern::parse("name=_").matches_value(Some(&empty)));
}

#[test]
fn tag_values_and_properties() {
    let l = LayerDef::from_cfg(&layer_cfg("city", "polygon", "1+", &["?name", "$population", "boundary=administrative"])).unwrap();
    assert_eq!(l.tags(), strings(&["name", "population"]));
    let values = vec![Some("Saint Paul".to_string()), Some("311527".to_string()), None];
    let tv = l.tag_values(&values);
    assert_eq!(tv, vec![
        ("name".to_string(), "Saint Paul".to_string(), false),
        ("population".to_string(), "311527".to_string(), true),
    ]);
    let props = l.properties(&values);
    assert_eq!(props.len(), 2);
    assert_eq!(props[0].tag, "name");
    assert_eq!(props[0].value, PropValue::Str("Saint Paul".to_string()));
    assert_eq!(props[1].tag, "population");
    assert_eq!(props[1].value, PropValue::Sint(311527));
}

#[test]
fn invalid_sint_dropped() {
    let l = LayerDef::from_cfg(&layer_cfg("city", "point", "1+", &["?name", "$population"])).unwrap();
    let values = vec![None, Some("lots".to_string())];
    assert!(l.properties(&values).is_empty());
    let values = vec![Some("A".to_string()), Some("-12".to_string())];
    let props = l.properties(&values);
    assert_eq!(props[1].value, PropValue::Sint(-12));
}
