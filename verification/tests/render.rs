use protomaps2d::draw::PathCommand;
use protomaps2d::render::{draw_ops, drawable, label_candidates, labels_ok, Brush, LabelKind};
use protomaps2d::vector_tile::{Feature, GeomType, Layer, Tile, Value};
use protomaps2d::{highway_size, small_size, Style, FONT_SIZE_BIG, TILE_SIZE};

fn text(s: &str) -> Value {
    Value {
        string_value: Some(String::from(s)),
        float_bits: None,
        double_bits: None,
        int_value: None,
        uint_value: None,
        sint_value: None,
        bool_value: None,
    }
}

fn feature(geom_type: GeomType, geometry: Vec<u32>, tags: Vec<u32>) -> Feature {
    Feature { id: 0, tags, geom_type, geometry }
}

fn layer(name: &str, features: Vec<Feature>, keys: Vec<&str>, values: Vec<Value>) -> Layer {
    Layer {
        version: 2,
        name: String::from(name),
        features,
        keys: keys.into_iter().map(String::from).collect(),
        values,
        extent: 4096,
    }
}

fn sample_tile() -> Tile {
    let square = vec![9, 0, 0, 26, 2, 0, 0, 2, 1, 0, 15];
    let line = vec![9, 0, 0, 10, 4, 4];
    Tile {
        layers: vec![
            layer("roads", vec![feature(GeomType::LineString, line.clone(), vec![])], vec![], vec![]),
            layer(
                "water",
                vec![
                    feature(GeomType::Polygon, square.clone(), vec![]),
                    feature(GeomType::LineString, line.clone(), vec![]),
                ],
                vec![],
                vec![],
            ),
            layer("landuse", vec![feature(GeomType::Polygon, square.clone(), vec![])], vec![], vec![]),
            layer("admin", vec![feature(GeomType::LineString, line.clone(), vec![])], vec![], vec![]),
            layer(
                "places",
                vec![
                    feature(GeomType::Point, vec![9, 100, 200], vec![0, 0, 1, 1]),
                    feature(GeomType::Point, vec![9, 4, 6], vec![0, 2, 1, 3]),
                    feature(GeomType::Point, vec![9, 8, 8], vec![0, 4]),
                    feature(GeomType::Point, vec![9, 8, 8], vec![1, 1]),
                ],
                vec!["name", "place"],
                vec![text("France"), text("country"), text("Paris"), text("city"), text("Nowhere")],
            ),
            layer(
                "poi",
                vec![feature(GeomType::Point, vec![9, 2, 2], vec![0, 0])],
                vec!["name"],
                vec![text("Louvre")],
            ),
        ],
    }
}

#[test]
fn draw_ops_follow_drawing_order() {
    let tile = sample_tile();
    assert!(drawable(&tile));
    let ops = draw_ops(&tile);
    let brushes: Vec<Brush> = ops.iter().map(|o| o.brush).collect();
    // landuse park, water, roads, admin; the water line and the points are not drawn
    assert_eq!(brushes, vec![Brush::Park, Brush::Water, Brush::Road, Brush::MidGray]);
    assert_eq!(ops[0].stroke_width, None);
    assert_eq!(ops[2].stroke_width, Some(1));
    assert_eq!(ops[3].stroke_width, Some(1));
    assert_eq!(ops[2].path.commands, vec![PathCommand::MoveTo(0, 0), PathCommand::LineTo(2, 2)]);
    assert_eq!(ops[0].path.scale, 2);
}

#[test]
fn truncated_drawn_geometry_is_not_drawable() {
    let mut tile = sample_tile();
    tile.layers[1].features[0].geometry = vec![9, 0];
    assert!(!drawable(&tile));
    // a truncated geometry that no pass draws does no harm
    let mut tile = sample_tile();
    tile.layers[1].features[1].geometry = vec![9, 0];
    assert!(drawable(&tile));
}

#[test]
fn label_candidates_in_order() {
    let tile = sample_tile();
    let style = Style { labels: true, name: String::from("name") };
    assert!(labels_ok(&tile, &style));
    let labels = label_candidates(&tile, &style);
    let kinds: Vec<LabelKind> = labels.iter().map(|l| l.kind).collect();
    assert_eq!(
        kinds,
        vec![LabelKind::Country, LabelKind::City, LabelKind::OtherPlace, LabelKind::Poi]
    );
    assert_eq!(labels[0].name, "France");
    assert_eq!((labels[0].x, labels[0].y, labels[0].scale), (50, 100, 2));
    assert_eq!(labels[1].name, "Paris");
    assert_eq!((labels[1].x, labels[1].y), (2, 3));
    assert_eq!(labels[3].name, "Louvre");
}

#[test]
fn no_labels_when_turned_off() {
    let tile = sample_tile();
    let style = Style { labels: false, name: String::from("name") };
    assert!(labels_ok(&tile, &style));
    assert!(label_candidates(&tile, &style).is_empty());
}

#[test]
fn labels_named_by_style_tag() {
    let tile = sample_tile();
    let style = Style { labels: true, name: String::from("place") };
    let labels = label_candidates(&tile, &style);
    let names: Vec<&str> = labels.iter().map(|l| l.name.as_str()).collect();
    assert_eq!(names, vec!["country", "city", "country", "Louvre"]);
}

#[test]
fn short_label_geometry_is_refused() {
    let mut tile = sample_tile();
    tile.layers[5].features[0].geometry = vec![9, 2];
    let style = Style { labels: true, name: String::from("name") };
    assert!(!labels_ok(&tile, &style));
    let style = Style { labels: false, name: String::from("name") };
    assert!(labels_ok(&tile, &style));
}

#[test]
fn label_kind_layout() {
    assert!(LabelKind::Country.uses_big_font());
    assert!(LabelKind::Poi.uses_big_font());
    assert!(!LabelKind::City.uses_big_font());
    assert!(!LabelKind::OtherPlace.uses_big_font());
    assert_eq!(LabelKind::Poi.halo_width(), 4);
    assert_eq!(LabelKind::City.halo_width(), 8);
    assert_eq!(LabelKind::Country.halo_width(), 8);
}

#[test]
fn brush_colors() {
    assert_eq!(Brush::Background.rgba(), (0xF6, 0xE7, 0xD4, 0xFF));
    assert_eq!(Brush::Park.rgba(), (0xBB, 0xDB, 0xC4, 0xFF));
    assert_eq!(Brush::Water.rgba(), (0xA5, 0xBC, 0xCB, 0xFF));
    assert_eq!(Brush::Text.rgba(), (0x44, 0x44, 0x44, 0xFF));
}

#[test]
fn font_and_highway_sizes() {
    assert_eq!(small_size(0), 30);
    assert_eq!(small_size(7), 30);
    assert_eq!(small_size(8), 36);
    assert_eq!(small_size(20), 36);
    assert_eq!(highway_size(15), (16, 30));
    assert_eq!(highway_size(14), (10, 20));
    assert_eq!(highway_size(13), (8, 16));
    assert_eq!(highway_size(12), (7, 12));
    assert_eq!(highway_size(10), (5, 10));
    assert_eq!(highway_size(7), (4, 8));
    assert_eq!(highway_size(5), (1, 0));
    assert_eq!(highway_size(16), (1, 0));
    assert_eq!(FONT_SIZE_BIG, 20);
    assert_eq!(TILE_SIZE, 2048);
}
