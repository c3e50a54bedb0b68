//! What drawing a tile amounts to: the geometry it fills and strokes, in
//! drawing order, and the labels it offers for placement.
use crate::draw::decode_commands;
use crate::draw::geometry_complete;
use crate::draw::path;
use crate::draw::spec_extent_scale;
use crate::draw::spec_zig_zag;
use crate::draw::zig_zag;
use crate::draw::Path;
use crate::draw::PathCommand;
use crate::vector_tile::geom_type_eq;
use crate::vector_tile::GeomType;
use crate::vector_tile::Layer;
use crate::vector_tile::SpecFeature;
use crate::vector_tile::SpecLayer;
use crate::vector_tile::SpecTile;
use crate::vector_tile::Tile;
use crate::tile::key_lookup_in_range;
use crate::tile::key_lookup_ok;
use crate::tile::tag_string;
use crate::tile::taggetstr;
use vstd::prelude::*;

verus! {

/// The paints a tile is drawn with.
#[derive(Clone, Copy, Debug, PartialEq, Eq)]
pub enum Brush {
    Background,
    Text,
    TextHalo,
    MidGray,
    Road,
    Park,
    Water,
    Buildings,
}

/// The color of each paint, as red, green, blue and alpha.
pub open spec fn brush_rgba(b: Brush) -> (u8, u8, u8, u8) {
    match b {
        Brush::Background => (0xF6, 0xE7, 0xD4, 0xFF),
        Brush::Text => (0x44, 0x44, 0x44, 0xFF),
        Brush::TextHalo => (0xFF, 0xFF, 0xFF, 0xFF),
        Brush::MidGray => (0x55, 0x55, 0x55, 0xFF),
        Brush::Road => (0xFF, 0xFF, 0xFF, 0xFF),
        Brush::Park => (0xBB, 0xDB, 0xC4, 0xFF),
        Brush::Water => (0xA5, 0xBC, 0xCB, 0xFF),
        Brush::Buildings => (0xCC, 0xCC, 0xCC, 0xFF),
    }
}

impl Brush {
    /// The color of the paint, as red, green, blue and alpha.
    pub fn rgba(&self) -> (c: (u8, u8, u8, u8))
        ensures
            c == brush_rgba(*self),
    {
        match self {
            Brush::Background => (0xF6, 0xE7, 0xD4, 0xFF),
            Brush::Text => (0x44, 0x44, 0x44, 0xFF),
            Brush::TextHalo => (0xFF, 0xFF, 0xFF, 0xFF),
            Brush::MidGray => (0x55, 0x55, 0x55, 0xFF),
            Brush::Road => (0xFF, 0xFF, 0xFF, 0xFF),
            Brush::Park => (0xBB, 0xDB, 0xC4, 0xFF),
            Brush::Water => (0xA5, 0xBC, 0xCB, 0xFF),
            Brush::Buildings => (0xCC, 0xCC, 0xCC, 0xFF),
        }
    }
}

/// One geometry drawing: a path, filled with a paint (`stroke_width` is
/// `None`) or stroked with it that many pixels wide.
pub struct DrawOp {
    pub path: Path,
    pub brush: Brush,
    pub stroke_width: Option<u32>,
}

/// The mathematical value of a `DrawOp`.
pub struct SpecDrawOp {
    pub commands: Seq<PathCommand>,
    pub scale: u32,
    pub brush: Brush,
    pub stroke_width: Option<u32>,
}

impl View for DrawOp {
    type V = SpecDrawOp;

    open spec fn view(&self) -> SpecDrawOp {
        SpecDrawOp {
            commands: self.path.commands@,
            scale: self.path.scale,
            brush: self.brush,
            stroke_width: self.stroke_width,
        }
    }
}

pub open spec fn ops_view(v: Seq<DrawOp>) -> Seq<SpecDrawOp> {
    v.map_values(|o: DrawOp| o@)
}

/// The drawing of a feature's geometry in a layer of extent `extent`.
pub open spec fn feature_op(f: SpecFeature, extent: u32, brush: Brush, stroke: Option<u32>) -> SpecDrawOp {
    SpecDrawOp {
        commands: decode_commands(f.geometry).unwrap(),
        scale: spec_extent_scale(extent),
        brush,
        stroke_width: stroke,
    }
}

/// The drawings of those features of `fs`, in order, whose geometry is of
/// type `geom`.
pub open spec fn features_ops(
    fs: Seq<SpecFeature>,
    extent: u32,
    geom: GeomType,
    brush: Brush,
    stroke: Option<u32>,
) -> Seq<SpecDrawOp>
    decreases fs.len(),
{
    if fs.len() == 0 {
        Seq::empty()
    } else {
        features_ops(fs.drop_last(), extent, geom, brush, stroke) + if fs.last().geom_type == geom {
            seq![feature_op(fs.last(), extent, brush, stroke)]
        } else {
            Seq::empty()
        }
    }
}

/// The drawings of one pass over the layers: in each layer named `name`,
/// in layer order, the features whose geometry is of type `geom`.
pub open spec fn layers_ops(
    ls: Seq<SpecLayer>,
    name: Seq<char>,
    geom: GeomType,
    brush: Brush,
    stroke: Option<u32>,
) -> Seq<SpecDrawOp>
    decreases ls.len(),
{
    if ls.len() == 0 {
        Seq::empty()
    } else {
        layers_ops(ls.drop_last(), name, geom, brush, stroke) + if ls.last().name == name {
            features_ops(ls.last().features, ls.last().extent, geom, brush, stroke)
        } else {
            Seq::empty()
        }
    }
}

proof fn lemma_features_ops_has(
    fs: Seq<SpecFeature>,
    extent: u32,
    geom: GeomType,
    brush: Brush,
    stroke: Option<u32>,
    j: int,
)
    requires
        0 <= j < fs.len(),
        fs[j].geom_type == geom,
    ensures
        features_ops(fs, extent, geom, brush, stroke).contains(feature_op(fs[j], extent, brush, stroke)),
    decreases fs.len(),
{
    let head = features_ops(fs.drop_last(), extent, geom, brush, stroke);
    let x = feature_op(fs[j], extent, brush, stroke);
    let all = features_ops(fs, extent, geom, brush, stroke);
    if j == fs.len() - 1 {
        assert(all[head.len() as int] == x);
    } else {
        lemma_features_ops_has(fs.drop_last(), extent, geom, brush, stroke, j);
        assert(fs.drop_last()[j] == fs[j]);
        let k = choose|k: int| 0 <= k < head.len() && head[k] == x;
        assert(all[k] == x);
    }
}

proof fn lemma_layers_ops_has(
    ls: Seq<SpecLayer>,
    name: Seq<char>,
    geom: GeomType,
    brush: Brush,
    stroke: Option<u32>,
    i: int,
    j: int,
)
    requires
        0 <= i < ls.len(),
        ls[i].name == name,
        0 <= j < ls[i].features.len(),
        ls[i].features[j].geom_type == geom,
    ensures
        layers_ops(ls, name, geom, brush, stroke).contains(
            feature_op(ls[i].features[j], ls[i].extent, brush, stroke),
        ),
    decreases ls.len(),
{
    let head = layers_ops(ls.drop_last(), name, geom, brush, stroke);
    let x = feature_op(ls[i].features[j], ls[i].extent, brush, stroke);
    let all = layers_ops(ls, name, geom, brush, stroke);
    if i == ls.len() - 1 {
        lemma_features_ops_has(ls[i].features, ls[i].extent, geom, brush, stroke, j);
        let tail = features_ops(ls[i].features, ls[i].extent, geom, brush, stroke);
        let k = choose|k: int| 0 <= k < tail.len() && tail[k] == x;
        assert(all[head.len() + k] == x);
    } else {
        lemma_layers_ops_has(ls.drop_last(), name, geom, brush, stroke, i, j);
        assert(ls.drop_last()[i] == ls[i]);
        let k = choose|k: int| 0 <= k < head.len() && head[k] == x;
        assert(all[k] == x);
    }
}

proof fn lemma_contains_concat<A>(a: Seq<A>, b: Seq<A>, x: A)
    requires
        a.contains(x) || b.contains(x),
    ensures
        (a + b).contains(x),
{
    if a.contains(x) {
        let k = choose|k: int| 0 <= k < a.len() && a[k] == x;
        assert((a + b)[k] == x);
    } else {
        let k = choose|k: int| 0 <= k < b.len() && b[k] == x;
        assert((a + b)[a.len() + k] == x);
    }
}

/// Whether `ops` holds a drawing of the geometry `geometry` of a layer of
/// extent `extent`, stroked that wide (or filled, for `None`), in a paint
/// of color `color`.
pub open spec fn draws(
    ops: Seq<SpecDrawOp>,
    geometry: Seq<u32>,
    extent: u32,
    stroke: Option<u32>,
    color: (u8, u8, u8, u8),
) -> bool {
    exists|k: int|
        0 <= k < ops.len() && (#[trigger] ops[k]).commands == decode_commands(geometry).unwrap()
            && ops[k].scale == extent / 2048 && ops[k].stroke_width == stroke && brush_rgba(
            ops[k].brush,
        ) == color
}

/// Each feature a tile's drawing draws is drawn in the paint of its layer:
/// landuse and natural polygons are filled in park green (BB DB C4), water
/// polygons in water blue (A5 BC CB), building polygons in building gray
/// (CC CC CC); roads are stroked one pixel wide in white (FF FF FF) and
/// administrative lines one pixel wide in mid gray (55 55 55).
pub proof fn lemma_feature_paint(t: SpecTile, i: int, j: int)
    requires
        0 <= i < t.layers.len(),
        0 <= j < t.layers[i].features.len(),
    ensures
        ({
            let l = t.layers[i];
            let f = l.features[j];
            let ops = tile_ops(t);
            &&& (l.name == "landuse"@ || l.name == "natural"@) && f.geom_type == GeomType::Polygon
                ==> draws(ops, f.geometry, l.extent, None, (0xBB, 0xDB, 0xC4, 0xFF))
            &&& l.name == "water"@ && f.geom_type == GeomType::Polygon ==> draws(
                ops,
                f.geometry,
                l.extent,
                None,
                (0xA5, 0xBC, 0xCB, 0xFF),
            )
            &&& l.name == "roads"@ && f.geom_type == GeomType::LineString ==> draws(
                ops,
                f.geometry,
                l.extent,
                Some(1u32),
                (0xFF, 0xFF, 0xFF, 0xFF),
            )
            &&& l.name == "buildings"@ && f.geom_type == GeomType::Polygon ==> draws(
                ops,
                f.geometry,
                l.extent,
                None,
                (0xCC, 0xCC, 0xCC, 0xFF),
            )
            &&& l.name == "admin"@ && f.geom_type == GeomType::LineString ==> draws(
                ops,
                f.geometry,
                l.extent,
                Some(1u32),
                (0x55, 0x55, 0x55, 0xFF),
            )
        }),
{
    let l = t.layers[i];
    let f = l.features[j];
    let ls = t.layers;
    let p1 = layers_ops(ls, "landuse"@, GeomType::Polygon, Brush::Park, None);
    let p2 = layers_ops(ls, "natural"@, GeomType::Polygon, Brush::Park, None);
    let p3 = layers_ops(ls, "water"@, GeomType::Polygon, Brush::Water, None);
    let p4 = layers_ops(ls, "roads"@, GeomType::LineString, Brush::Road, Some(1u32));
    let p5 = layers_ops(ls, "buildings"@, GeomType::Polygon, Brush::Buildings, None);
    let p6 = layers_ops(ls, "admin"@, GeomType::LineString, Brush::MidGray, Some(1u32));
    assert(tile_ops(t) == p1 + p2 + p3 + p4 + p5 + p6);
    let ops = tile_ops(t);
    if (l.name == "landuse"@ || l.name == "natural"@) && f.geom_type == GeomType::Polygon {
        let x = feature_op(f, l.extent, Brush::Park, None);
        if l.name == "landuse"@ {
            lemma_layers_ops_has(ls, "landuse"@, GeomType::Polygon, Brush::Park, None, i, j);
        } else {
            lemma_layers_ops_has(ls, "natural"@, GeomType::Polygon, Brush::Park, None, i, j);
        }
        lemma_contains_concat(p1, p2, x);
        lemma_contains_concat(p1 + p2, p3, x);
        lemma_contains_concat(p1 + p2 + p3, p4, x);
        lemma_contains_concat(p1 + p2 + p3 + p4, p5, x);
        lemma_contains_concat(p1 + p2 + p3 + p4 + p5, p6, x);
        let k = choose|k: int| 0 <= k < ops.len() && ops[k] == x;
        assert(ops[k] == x);
    }
    if l.name == "water"@ && f.geom_type == GeomType::Polygon {
        let x = feature_op(f, l.extent, Brush::Water, None);
        lemma_layers_ops_has(ls, "water"@, GeomType::Polygon, Brush::Water, None, i, j);
        lemma_contains_concat(p1 + p2, p3, x);
        lemma_contains_concat(p1 + p2 + p3, p4, x);
        lemma_contains_concat(p1 + p2 + p3 + p4, p5, x);
        lemma_contains_concat(p1 + p2 + p3 + p4 + p5, p6, x);
        let k = choose|k: int| 0 <= k < ops.len() && ops[k] == x;
        assert(ops[k] == x);
    }
    if l.name == "roads"@ && f.geom_type == GeomType::LineString {
        let x = feature_op(f, l.extent, Brush::Road, Some(1u32));
        lemma_layers_ops_has(ls, "roads"@, GeomType::LineString, Brush::Road, Some(1u32), i, j);
        lemma_contains_concat(p1 + p2 + p3, p4, x);
        lemma_contains_concat(p1 + p2 + p3 + p4, p5, x);
        lemma_contains_concat(p1 + p2 + p3 + p4 + p5, p6, x);
        let k = choose|k: int| 0 <= k < ops.len() && ops[k] == x;
        assert(ops[k] == x);
    }
    if l.name == "buildings"@ && f.geom_type == GeomType::Polygon {
        let x = feature_op(f, l.extent, Brush::Buildings, None);
        lemma_layers_ops_has(ls, "buildings"@, GeomType::Polygon, Brush::Buildings, None, i, j);
        lemma_contains_concat(p1 + p2 + p3 + p4, p5, x);
        lemma_contains_concat(p1 + p2 + p3 + p4 + p5, p6, x);
        let k = choose|k: int| 0 <= k < ops.len() && ops[k] == x;
        assert(ops[k] == x);
    }
    if l.name == "admin"@ && f.geom_type == GeomType::LineString {
        let x = feature_op(f, l.extent, Brush::MidGray, Some(1u32));
        lemma_layers_ops_has(ls, "admin"@, GeomType::LineString, Brush::MidGray, Some(1u32), i, j);
        lemma_contains_concat(p1 + p2 + p3 + p4 + p5, p6, x);
        let k = choose|k: int| 0 <= k < ops.len() && ops[k] == x;
        assert(ops[k] == x);
    }
}

/// Whether every feature that a pass draws has a complete geometry.
pub open spec fn pass_drawable(ls: Seq<SpecLayer>, name: Seq<char>, geom: GeomType) -> bool {
    forall|i: int, j: int|
        0 <= i < ls.len() && ls[i].name == name && 0 <= j < ls[i].features.len()
            && ls[i].features[j].geom_type == geom ==> (decode_commands(
            #[trigger] ls[i].features[j].geometry,
        ) is Some)
}

/// The geometry drawings of a tile, in drawing order: landuse and natural
/// polygons filled as parks, water polygons, roads stroked one pixel wide,
/// building polygons, then administrative lines stroked one pixel wide.
pub open spec fn tile_ops(t: SpecTile) -> Seq<SpecDrawOp> {
    layers_ops(t.layers, "landuse"@, GeomType::Polygon, Brush::Park, None) + layers_ops(
        t.layers,
        "natural"@,
        GeomType::Polygon,
        Brush::Park,
        None,
    ) + layers_ops(t.layers, "water"@, GeomType::Polygon, Brush::Water, None) + layers_ops(
        t.layers,
        "roads"@,
        GeomType::LineString,
        Brush::Road,
        Some(1u32),
    ) + layers_ops(t.layers, "buildings"@, GeomType::Polygon, Brush::Buildings, None) + layers_ops(
        t.layers,
        "admin"@,
        GeomType::LineString,
        Brush::MidGray,
        Some(1u32),
    )
}

/// Whether every feature that the tile's drawing draws has a complete
/// geometry.
pub open spec fn tile_drawable(t: SpecTile) -> bool {
    &&& pass_drawable(t.layers, "landuse"@, GeomType::Polygon)
    &&& pass_drawable(t.layers, "natural"@, GeomType::Polygon)
    &&& pass_drawable(t.layers, "water"@, GeomType::Polygon)
    &&& pass_drawable(t.layers, "roads"@, GeomType::LineString)
    &&& pass_drawable(t.layers, "buildings"@, GeomType::Polygon)
    &&& pass_drawable(t.layers, "admin"@, GeomType::LineString)
}

fn append_layer_ops(
    layer: &Layer,
    geom: GeomType,
    brush: Brush,
    stroke: Option<u32>,
    ops: &mut Vec<DrawOp>,
)
    requires
        forall|j: int|
            0 <= j < layer@.features.len() && layer@.features[j].geom_type == geom ==> (
            decode_commands(#[trigger] layer@.features[j].geometry) is Some),
    ensures
        ops_view(final(ops)@) == ops_view(old(ops)@) + features_ops(
            layer@.features,
            layer@.extent,
            geom,
            brush,
            stroke,
        ),
{
    let ghost start = ops_view(ops@);
    let ghost fs = layer@.features;
    let n = layer.features.len();
    let mut j: usize = 0;
    assert(fs.take(0) =~= Seq::<SpecFeature>::empty());
    assert(start + Seq::<SpecDrawOp>::empty() =~= start);
    while j < n
        invariant
            fs == layer@.features,
            n == fs.len(),
            j <= n,
            forall|k: int|
                0 <= k < fs.len() && fs[k].geom_type == geom ==> (decode_commands(
                    #[trigger] fs[k].geometry,
                ) is Some),
            ops_view(ops@) == start + features_ops(fs.take(j as int), layer@.extent, geom, brush, stroke),
        decreases n - j,
    {
        let feature = &layer.features[j];
        assert(fs.take(j + 1).drop_last() =~= fs.take(j as int));
        assert(fs.take(j + 1).last() == fs[j as int]);
        assert(feature@ == fs[j as int]);
        let ghost before = ops_view(ops@);
        if geom_type_eq(feature.geom_type, geom) {
            assert(decode_commands(fs[j as int].geometry) is Some);
            let p = path(&feature.geometry, layer.extent);
            let op = DrawOp { path: p, brush, stroke_width: stroke };
            let ghost opv = op@;
            ops.push(op);
            assert(ops_view(ops@) =~= before.push(opv));
        }
        j = j + 1;
    }
    assert(fs.take(n as int) =~= fs);
}

/// Appends the drawings of one pass over the tile's layers (see
/// `layers_ops`).
fn append_pass(
    tile: &Tile,
    name: &str,
    geom: GeomType,
    brush: Brush,
    stroke: Option<u32>,
    ops: &mut Vec<DrawOp>,
)
    requires
        pass_drawable(tile@.layers, name@, geom),
    ensures
        ops_view(final(ops)@) == ops_view(old(ops)@) + layers_ops(
            tile@.layers,
            name@,
            geom,
            brush,
            stroke,
        ),
{
    let ghost start = ops_view(ops@);
    let ghost ls = tile@.layers;
    let name_s = name.to_owned();
    let n = tile.layers.len();
    let mut i: usize = 0;
    assert(ls.take(0) =~= Seq::<SpecLayer>::empty());
    assert(start + Seq::<SpecDrawOp>::empty() =~= start);
    while i < n
        invariant
            ls == tile@.layers,
            n == ls.len(),
            i <= n,
            name_s@ == name@,
            pass_drawable(ls, name@, geom),
            ops_view(ops@) == start + layers_ops(ls.take(i as int), name@, geom, brush, stroke),
        decreases n - i,
    {
        let layer = &tile.layers[i];
        assert(ls.take(i + 1).drop_last() =~= ls.take(i as int));
        assert(ls.take(i + 1).last() == ls[i as int]);
        assert(layer@ == ls[i as int]);
        let ghost before = ops_view(ops@);
        if layer.name == name_s {
            proof {
                assert forall|j: int|
                    0 <= j < layer@.features.len() && layer@.features[j].geom_type
                        == geom implies (decode_commands(#[trigger] layer@.features[j].geometry) is Some) by {
                    assert(ls[i as int].features[j] == layer@.features[j]);
                }
            }
            append_layer_ops(layer, geom, brush, stroke, ops);
            assert(before + features_ops(layer@.features, layer@.extent, geom, brush, stroke)
                =~= start + layers_ops(ls.take(i + 1), name@, geom, brush, stroke));
        } else {
            assert(before =~= start + layers_ops(ls.take(i + 1), name@, geom, brush, stroke));
        }
        i = i + 1;
    }
    assert(ls.take(n as int) =~= ls);
}

/// The geometry drawings of a tile, in drawing order (see `tile_ops`).
pub fn draw_ops(tile: &Tile) -> (ops: Vec<DrawOp>)
    requires
        tile_drawable(tile@),
    ensures
        ops_view(ops@) == tile_ops(tile@),
{
    let mut ops: Vec<DrawOp> = Vec::new();
    assert(ops_view(ops@) =~= Seq::<SpecDrawOp>::empty());
    append_pass(tile, "landuse", GeomType::Polygon, Brush::Park, None, &mut ops);
    append_pass(tile, "natural", GeomType::Polygon, Brush::Park, None, &mut ops);
    append_pass(tile, "water", GeomType::Polygon, Brush::Water, None, &mut ops);
    append_pass(tile, "roads", GeomType::LineString, Brush::Road, Some(1), &mut ops);
    append_pass(tile, "buildings", GeomType::Polygon, Brush::Buildings, None, &mut ops);
    append_pass(tile, "admin", GeomType::LineString, Brush::MidGray, Some(1), &mut ops);
    assert(ops_view(ops@) =~= tile_ops(tile@));
    ops
}

/// Whether every feature that one pass draws has a complete geometry.
fn pass_ok(tile: &Tile, name: &str, geom: GeomType) -> (ok: bool)
    ensures
        ok == pass_drawable(tile@.layers, name@, geom),
{
    let ghost ls = tile@.layers;
    let name_s = name.to_owned();
    let n = tile.layers.len();
    let mut i: usize = 0;
    while i < n
        invariant
            ls == tile@.layers,
            n == ls.len(),
            i <= n,
            name_s@ == name@,
            forall|a: int, b: int|
                0 <= a < i && ls[a].name == name@ && 0 <= b < ls[a].features.len()
                    && ls[a].features[b].geom_type == geom ==> (decode_commands(
                    #[trigger] ls[a].features[b].geometry,
                ) is Some),
        decreases n - i,
    {
        let layer = &tile.layers[i];
        assert(layer@ == ls[i as int]);
        if layer.name == name_s {
            let m = layer.features.len();
            let mut j: usize = 0;
            while j < m
                invariant
                    ls == tile@.layers,
                    n == ls.len(),
                    i < n,
                    layer@ == ls[i as int],
                    ls[i as int].name == name@,
                    m == layer@.features.len(),
                    j <= m,
                    forall|b: int|
                        0 <= b < j && ls[i as int].features[b].geom_type == geom ==> (decode_commands(
                            #[trigger] ls[i as int].features[b].geometry,
                        ) is Some),
                decreases m - j,
            {
                let feature = &layer.features[j];
                assert(feature@ == ls[i as int].features[j as int]);
                if geom_type_eq(feature.geom_type, geom) && !geometry_complete(&feature.geometry) {
                    assert(!pass_drawable(ls, name@, geom)) by {
                        assert(decode_commands(ls[i as int].features[j as int].geometry) is None);
                    }
                    return false;
                }
                j = j + 1;
            }
        }
        assert forall|a: int, b: int|
            0 <= a < i + 1 && ls[a].name == name@ && 0 <= b < ls[a].features.len()
                && ls[a].features[b].geom_type == geom implies (decode_commands(
                #[trigger] ls[a].features[b].geometry,
            ) is Some) by {
            if a == i {
            }
        }
        i = i + 1;
    }
    true
}

/// Whether every feature that the tile's drawing draws has a complete
/// geometry (see `tile_drawable`).
pub fn drawable(tile: &Tile) -> (ok: bool)
    ensures
        ok == tile_drawable(tile@),
{
    pass_ok(tile, "landuse", GeomType::Polygon) && pass_ok(tile, "natural", GeomType::Polygon)
        && pass_ok(tile, "water", GeomType::Polygon) && pass_ok(tile, "roads", GeomType::LineString)
        && pass_ok(tile, "buildings", GeomType::Polygon) && pass_ok(
        tile,
        "admin",
        GeomType::LineString,
    )
}

// ---------------------------------------------------------------- labels

/// What a label names: a country, a city or another place (from a
/// "places" layer), or a point of interest (from a "poi" layer).
#[derive(Clone, Copy, Debug, PartialEq, Eq)]
pub enum LabelKind {
    Country,
    City,
    OtherPlace,
    Poi,
}

/// The kind of a place, by the string of its "place" tag.
pub open spec fn place_kind(place: Option<Seq<char>>) -> LabelKind {
    if place == Some("country"@) {
        LabelKind::Country
    } else if place == Some("city"@) {
        LabelKind::City
    } else {
        LabelKind::OtherPlace
    }
}

/// Whether labels of this kind are set in the big font and centered on
/// their point (countries and points of interest), rather than set in the
/// small font to the right of it.
pub open spec fn spec_uses_big_font(kind: LabelKind) -> bool {
    kind == LabelKind::Country || kind == LabelKind::Poi
}

/// The width, in pixels, of the halo stroked around labels of this kind:
/// 4 for points of interest, 8 for places.
pub open spec fn spec_halo_width(kind: LabelKind) -> u32 {
    if kind == LabelKind::Poi {
        4
    } else {
        8
    }
}

impl LabelKind {
    /// Whether the label is set in the big font and centered on its point.
    pub fn uses_big_font(&self) -> (b: bool)
        ensures
            b == spec_uses_big_font(*self),
    {
        match self {
            LabelKind::Country => true,
            LabelKind::Poi => true,
            _ => false,
        }
    }

    /// The width, in pixels, of the halo stroked around the label.
    pub fn halo_width(&self) -> (w: u32)
        ensures
            w == spec_halo_width(*self),
    {
        match self {
            LabelKind::Poi => 4,
            _ => 8,
        }
    }
}

/// A label offered for placement: its text, its kind, and its point (the
/// first parameters of its feature's geometry, in tile units, to be divided
/// by `scale` units per pixel).
pub struct LabelCandidate {
    pub name: String,
    pub kind: LabelKind,
    pub x: i32,
    pub y: i32,
    pub scale: u32,
}

/// The mathematical value of a `LabelCandidate`.
pub struct SpecLabel {
    pub name: Seq<char>,
    pub kind: LabelKind,
    pub x: i32,
    pub y: i32,
    pub scale: u32,
}

impl View for LabelCandidate {
    type V = SpecLabel;

    open spec fn view(&self) -> SpecLabel {
        SpecLabel { name: self.name@, kind: self.kind, x: self.x, y: self.y, scale: self.scale }
    }
}

pub open spec fn labels_view(v: Seq<LabelCandidate>) -> Seq<SpecLabel> {
    v.map_values(|c: LabelCandidate| c@)
}

/// The label of a feature: named by the string of its tag `key`, none when
/// it has no such string. Points of interest are of kind `Poi`; places are
/// of the kind their "place" tag gives.
pub open spec fn feature_label(l: SpecLayer, f: SpecFeature, poi: bool, key: Seq<char>) -> Option<
    SpecLabel,
> {
    match tag_string(l, f, key) {
        Some(n) => Some(
            SpecLabel {
                name: n,
                kind: if poi {
                    LabelKind::Poi
                } else {
                    place_kind(tag_string(l, f, "place"@))
                },
                x: spec_zig_zag(f.geometry[1]) as i32,
                y: spec_zig_zag(f.geometry[2]) as i32,
                scale: spec_extent_scale(l.extent),
            },
        ),
        None => None,
    }
}

/// Whether finding a feature's label reads only what exists: its point,
/// and the tags it looks up.
pub open spec fn feature_label_ok(l: SpecLayer, f: SpecFeature, poi: bool, key: Seq<char>) -> bool {
    &&& f.geometry.len() >= 3
    &&& key_lookup_in_range(l, f.tags, key)
    &&& !poi ==> key_lookup_in_range(l, f.tags, "place"@)
}

/// The labels of the features of `fs`, in order.
pub open spec fn features_labels(l: SpecLayer, fs: Seq<SpecFeature>, poi: bool, key: Seq<char>) -> Seq<
    SpecLabel,
>
    decreases fs.len(),
{
    if fs.len() == 0 {
        Seq::empty()
    } else {
        features_labels(l, fs.drop_last(), poi, key) + match feature_label(l, fs.last(), poi, key) {
            Some(x) => seq![x],
            None => Seq::empty(),
        }
    }
}

/// The labels of the features of the layers named `name`, in layer order.
pub open spec fn layers_labels(ls: Seq<SpecLayer>, name: Seq<char>, poi: bool, key: Seq<char>) -> Seq<
    SpecLabel,
>
    decreases ls.len(),
{
    if ls.len() == 0 {
        Seq::empty()
    } else {
        layers_labels(ls.drop_last(), name, poi, key) + if ls.last().name == name {
            features_labels(ls.last(), ls.last().features, poi, key)
        } else {
            Seq::empty()
        }
    }
}

/// Whether finding the labels of the layers named `name` reads only what
/// exists.
pub open spec fn layers_labels_ok(ls: Seq<SpecLayer>, name: Seq<char>, poi: bool, key: Seq<char>) -> bool {
    forall|i: int, j: int|
        0 <= i < ls.len() && ls[i].name == name && 0 <= j < ls[i].features.len()
            ==> feature_label_ok(ls[i], #[trigger] ls[i].features[j], poi, key)
}

/// The labels a tile offers, in order: none unless labels are on; else
/// the places (named by the tag `name_key`), then the points of interest
/// (named by their "name" tag).
pub open spec fn tile_labels(t: SpecTile, labels: bool, name_key: Seq<char>) -> Seq<SpecLabel> {
    if labels {
        layers_labels(t.layers, "places"@, false, name_key) + layers_labels(
            t.layers,
            "poi"@,
            true,
            "name"@,
        )
    } else {
        Seq::empty()
    }
}

/// Whether finding a tile's labels reads only what exists.
pub open spec fn tile_labels_ok(t: SpecTile, labels: bool, name_key: Seq<char>) -> bool {
    labels ==> layers_labels_ok(t.layers, "places"@, false, name_key) && layers_labels_ok(
        t.layers,
        "poi"@,
        true,
        "name"@,
    )
}

proof fn lemma_features_labels_has(l: SpecLayer, fs: Seq<SpecFeature>, poi: bool, key: Seq<char>, j: int)
    requires
        0 <= j < fs.len(),
        feature_label(l, fs[j], poi, key) is Some,
    ensures
        features_labels(l, fs, poi, key).contains(feature_label(l, fs[j], poi, key).unwrap()),
    decreases fs.len(),
{
    let head = features_labels(l, fs.drop_last(), poi, key);
    let x = feature_label(l, fs[j], poi, key).unwrap();
    let all = features_labels(l, fs, poi, key);
    if j == fs.len() - 1 {
        assert(all[head.len() as int] == x);
    } else {
        lemma_features_labels_has(l, fs.drop_last(), poi, key, j);
        assert(fs.drop_last()[j] == fs[j]);
        let k = choose|k: int| 0 <= k < head.len() && head[k] == x;
        assert(all[k] == x);
    }
}

proof fn lemma_layers_labels_has(
    ls: Seq<SpecLayer>,
    name: Seq<char>,
    poi: bool,
    key: Seq<char>,
    i: int,
    j: int,
)
    requires
        0 <= i < ls.len(),
        ls[i].name == name,
        0 <= j < ls[i].features.len(),
        feature_label(ls[i], ls[i].features[j], poi, key) is Some,
    ensures
        layers_labels(ls, name, poi, key).contains(
            feature_label(ls[i], ls[i].features[j], poi, key).unwrap(),
        ),
    decreases ls.len(),
{
    let head = layers_labels(ls.drop_last(), name, poi, key);
    let x = feature_label(ls[i], ls[i].features[j], poi, key).unwrap();
    let all = layers_labels(ls, name, poi, key);
    if i == ls.len() - 1 {
        lemma_features_labels_has(ls[i], ls[i].features, poi, key, j);
        let tail = features_labels(ls[i], ls[i].features, poi, key);
        let k = choose|k: int| 0 <= k < tail.len() && tail[k] == x;
        assert(all[head.len() + k] == x);
    } else {
        lemma_layers_labels_has(ls.drop_last(), name, poi, key, i, j);
        assert(ls.drop_last()[i] == ls[i]);
        let k = choose|k: int| 0 <= k < head.len() && head[k] == x;
        assert(all[k] == x);
    }
}

/// Whether `labels` holds a label with text `name`, anchored at the
/// decoded parameters `x` and `y`, of kind `kind`.
pub open spec fn offers(labels: Seq<SpecLabel>, name: Seq<char>, x: u32, y: u32, kind: LabelKind) -> bool {
    exists|k: int|
        0 <= k < labels.len() && (#[trigger] labels[k]).name == name && labels[k].x
            == spec_zig_zag(x) as i32 && labels[k].y == spec_zig_zag(y) as i32 && labels[k].kind
            == kind
}

/// With labels on, every feature of a "places" layer that has a string
/// under the style's name tag is offered as a label with that text at its
/// point: a country when its "place" tag's string is "country", a city
/// when it is "city", another place for every other value or none. Every
/// feature of a "poi" layer with a "name" string is offered as a point of
/// interest.
pub proof fn lemma_label_kinds(t: SpecTile, name_key: Seq<char>, i: int, j: int)
    requires
        0 <= i < t.layers.len(),
        0 <= j < t.layers[i].features.len(),
    ensures
        ({
            let l = t.layers[i];
            let f = l.features[j];
            let labels = tile_labels(t, true, name_key);
            let place = tag_string(l, f, "place"@);
            &&& l.name == "places"@ && tag_string(l, f, name_key) is Some ==> offers(
                labels,
                tag_string(l, f, name_key).unwrap(),
                f.geometry[1],
                f.geometry[2],
                if place == Some("country"@) {
                    LabelKind::Country
                } else if place == Some("city"@) {
                    LabelKind::City
                } else {
                    LabelKind::OtherPlace
                },
            )
            &&& l.name == "places"@ && tag_string(l, f, name_key) is Some ==> (offers(
                labels,
                tag_string(l, f, name_key).unwrap(),
                f.geometry[1],
                f.geometry[2],
                LabelKind::Country,
            ) || offers(
                labels,
                tag_string(l, f, name_key).unwrap(),
                f.geometry[1],
                f.geometry[2],
                LabelKind::City,
            ) || offers(
                labels,
                tag_string(l, f, name_key).unwrap(),
                f.geometry[1],
                f.geometry[2],
                LabelKind::OtherPlace,
            ))
            &&& l.name == "poi"@ && tag_string(l, f, "name"@) is Some ==> offers(
                labels,
                tag_string(l, f, "name"@).unwrap(),
                f.geometry[1],
                f.geometry[2],
                LabelKind::Poi,
            )
        }),
{
    let l = t.layers[i];
    let f = l.features[j];
    let ls = t.layers;
    let a = layers_labels(ls, "places"@, false, name_key);
    let b = layers_labels(ls, "poi"@, true, "name"@);
    let labels = tile_labels(t, true, name_key);
    assert(labels == a + b);
    if l.name == "places"@ && tag_string(l, f, name_key) is Some {
        lemma_layers_labels_has(ls, "places"@, false, name_key, i, j);
        let x = feature_label(l, f, false, name_key).unwrap();
        lemma_contains_concat(a, b, x);
        let k = choose|k: int| 0 <= k < labels.len() && labels[k] == x;
        assert(labels[k] == x);
    }
    if l.name == "poi"@ && tag_string(l, f, "name"@) is Some {
        lemma_layers_labels_has(ls, "poi"@, true, "name"@, i, j);
        let x = feature_label(l, f, true, "name"@).unwrap();
        lemma_contains_concat(a, b, x);
        let k = choose|k: int| 0 <= k < labels.len() && labels[k] == x;
        assert(labels[k] == x);
    }
}

fn label_of(layer: &Layer, j: usize, poi: bool, key: &str) -> (res: Option<LabelCandidate>)
    requires
        j < layer@.features.len(),
        feature_label_ok(layer@, layer@.features[j as int], poi, key@),
    ensures
        match feature_label(layer@, layer@.features[j as int], poi, key@) {
            Some(x) => res matches Some(c) && c@ == x,
            None => res is None,
        },
{
    let feature = &layer.features[j];
    let x = zig_zag(feature.geometry[1]);
    let y = zig_zag(feature.geometry[2]);
    let nam = taggetstr(layer, feature, key);
    let kind = if poi {
        LabelKind::Poi
    } else {
        let kind_val = taggetstr(layer, feature, "place");
        let country = "country".to_owned();
        let city = "city".to_owned();
        match kind_val {
            Some(k) => {
                if *k == country {
                    LabelKind::Country
                } else if *k == city {
                    LabelKind::City
                } else {
                    LabelKind::OtherPlace
                }
            },
            None => LabelKind::OtherPlace,
        }
    };
    match nam {
        Some(n) => Some(LabelCandidate { name: n.clone(), kind, x, y, scale: layer.extent / 2048 }),
        None => None,
    }
}

fn append_layer_labels(layer: &Layer, poi: bool, key: &str, out: &mut Vec<LabelCandidate>)
    requires
        forall|j: int|
            0 <= j < layer@.features.len() ==> feature_label_ok(
                layer@,
                #[trigger] layer@.features[j],
                poi,
                key@,
            ),
    ensures
        labels_view(final(out)@) == labels_view(old(out)@) + features_labels(
            layer@,
            layer@.features,
            poi,
            key@,
        ),
{
    let ghost start = labels_view(out@);
    let ghost fs = layer@.features;
    let n = layer.features.len();
    let mut j: usize = 0;
    assert(fs.take(0) =~= Seq::<SpecFeature>::empty());
    assert(start + Seq::<SpecLabel>::empty() =~= start);
    while j < n
        invariant
            fs == layer@.features,
            n == fs.len(),
            j <= n,
            forall|k: int| 0 <= k < fs.len() ==> feature_label_ok(layer@, #[trigger] fs[k], poi, key@),
            labels_view(out@) == start + features_labels(layer@, fs.take(j as int), poi, key@),
        decreases n - j,
    {
        assert(fs.take(j + 1).drop_last() =~= fs.take(j as int));
        assert(fs.take(j + 1).last() == fs[j as int]);
        assert(feature_label_ok(layer@, fs[j as int], poi, key@));
        let ghost before = labels_view(out@);
        match label_of(layer, j, poi, key) {
            Some(c) => {
                let ghost cv = c@;
                out.push(c);
                assert(labels_view(out@) =~= before.push(cv));
                assert(before.push(cv) =~= before + seq![cv]);
            },
            None => {
                assert(before =~= before + Seq::<SpecLabel>::empty());
            },
        }
        j = j + 1;
    }
    assert(fs.take(n as int) =~= fs);
}

fn append_labels(tile: &Tile, name: &str, poi: bool, key: &str, out: &mut Vec<LabelCandidate>)
    requires
        layers_labels_ok(tile@.layers, name@, poi, key@),
    ensures
        labels_view(final(out)@) == labels_view(old(out)@) + layers_labels(
            tile@.layers,
            name@,
            poi,
            key@,
        ),
{
    let ghost start = labels_view(out@);
    let ghost ls = tile@.layers;
    let name_s = name.to_owned();
    let n = tile.layers.len();
    let mut i: usize = 0;
    assert(ls.take(0) =~= Seq::<SpecLayer>::empty());
    assert(start + Seq::<SpecLabel>::empty() =~= start);
    while i < n
        invariant
            ls == tile@.layers,
            n == ls.len(),
            i <= n,
            name_s@ == name@,
            layers_labels_ok(ls, name@, poi, key@),
            labels_view(out@) == start + layers_labels(ls.take(i as int), name@, poi, key@),
        decreases n - i,
    {
        let layer = &tile.layers[i];
        assert(ls.take(i + 1).drop_last() =~= ls.take(i as int));
        assert(ls.take(i + 1).last() == ls[i as int]);
        assert(layer@ == ls[i as int]);
        let ghost before = labels_view(out@);
        if layer.name == name_s {
            proof {
                assert forall|j: int|
                    0 <= j < layer@.features.len() implies feature_label_ok(
                    layer@,
                    #[trigger] layer@.features[j],
                    poi,
                    key@,
                ) by {
                    assert(ls[i as int].features[j] == layer@.features[j]);
                }
            }
            append_layer_labels(layer, poi, key, out);
            assert(before + features_labels(layer@, layer@.features, poi, key@) =~= start
                + layers_labels(ls.take(i + 1), name@, poi, key@));
        } else {
            assert(before =~= start + layers_labels(ls.take(i + 1), name@, poi, key@));
        }
        i = i + 1;
    }
    assert(ls.take(n as int) =~= ls);
}

/// The labels a tile offers for placement, in order (see `tile_labels`).
pub fn label_candidates(tile: &Tile, style: &crate::Style) -> (out: Vec<LabelCandidate>)
    requires
        tile_labels_ok(tile@, style.labels, style.name@),
    ensures
        labels_view(out@) == tile_labels(tile@, style.labels, style.name@),
{
    let mut out: Vec<LabelCandidate> = Vec::new();
    assert(labels_view(out@) =~= Seq::<SpecLabel>::empty());
    if style.labels {
        append_labels(tile, "places", false, style.name.as_str(), &mut out);
        append_labels(tile, "poi", true, "name", &mut out);
        assert(labels_view(out@) =~= tile_labels(tile@, style.labels, style.name@));
    }
    out
}

fn layers_labels_check(tile: &Tile, name: &str, poi: bool, key: &str) -> (ok: bool)
    ensures
        ok == layers_labels_ok(tile@.layers, name@, poi, key@),
{
    let ghost ls = tile@.layers;
    let name_s = name.to_owned();
    let n = tile.layers.len();
    let mut i: usize = 0;
    while i < n
        invariant
            ls == tile@.layers,
            n == ls.len(),
            i <= n,
            name_s@ == name@,
            forall|a: int, b: int|
                0 <= a < i && ls[a].name == name@ && 0 <= b < ls[a].features.len()
                    ==> feature_label_ok(ls[a], #[trigger] ls[a].features[b], poi, key@),
        decreases n - i,
    {
        let layer = &tile.layers[i];
        assert(layer@ == ls[i as int]);
        if layer.name == name_s {
            let m = layer.features.len();
            let mut j: usize = 0;
            while j < m
                invariant
                    ls == tile@.layers,
                    n == ls.len(),
                    i < n,
                    layer@ == ls[i as int],
                    ls[i as int].name == name@,
                    m == layer@.features.len(),
                    j <= m,
                    forall|b: int|
                        0 <= b < j ==> feature_label_ok(
                            ls[i as int],
                            #[trigger] ls[i as int].features[b],
                            poi,
                            key@,
                        ),
                decreases m - j,
            {
                let feature = &layer.features[j];
                assert(feature@ == ls[i as int].features[j as int]);
                let ok = feature.geometry.len() >= 3 && key_lookup_ok(layer, feature, key) && (poi
                    || key_lookup_ok(layer, feature, "place"));
                if !ok {
                    assert(!layers_labels_ok(ls, name@, poi, key@)) by {
                        assert(!feature_label_ok(ls[i as int], ls[i as int].features[j as int], poi, key@));
                    }
                    return false;
                }
                j = j + 1;
            }
        }
        assert forall|a: int, b: int|
            0 <= a < i + 1 && ls[a].name == name@ && 0 <= b < ls[a].features.len()
                implies feature_label_ok(ls[a], #[trigger] ls[a].features[b], poi, key@) by {
            if a == i {
            }
        }
        i = i + 1;
    }
    true
}

/// Whether finding the tile's labels reads only what exists (see
/// `tile_labels_ok`).
pub fn labels_ok(tile: &Tile, style: &crate::Style) -> (ok: bool)
    ensures
        ok == tile_labels_ok(tile@, style.labels, style.name@),
{
    if !style.labels {
        return true;
    }
    layers_labels_check(tile, "places", false, style.name.as_str()) && layers_labels_check(
        tile,
        "poi",
        true,
        "name",
    )
}

} // verus!
