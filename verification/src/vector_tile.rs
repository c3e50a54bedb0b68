//! The vector tile format: a tile is a protocol buffer message holding
//! layers, a layer holds features and the keys and values of their tags.
use crate::wire::lemma_fold_push;
use crate::wire::lemma_parse_fields_end;
use crate::wire::lemma_parse_fields_start;
use crate::wire::lemma_parse_fields_step;
use crate::wire::lemma_parse_fields_concat;
use crate::wire::lemma_readers_stable;
use crate::wire::lemma_tagged_field_stable;
use crate::wire::lemma_varint_len;
use crate::wire::parse_fields;
use crate::wire::prefixed;
use crate::wire::read_bool;
use crate::wire::read_delimited;
use crate::wire::read_fixed32;
use crate::wire::read_fixed64;
use crate::wire::read_int32;
use crate::wire::read_int64;
use crate::wire::read_packed_u32;
use crate::wire::read_sint64;
use crate::wire::read_string;
use crate::wire::read_uint64;
use crate::wire::read_varint32;
use crate::wire::rest_of;
use crate::wire::skip_unknown;
use crate::wire::spec_delimited;
use crate::wire::spec_fixed32;
use crate::wire::spec_fixed64;
use crate::wire::spec_packed_u32;
use crate::wire::spec_skip_unknown;
use crate::wire::spec_string;
use crate::wire::spec_varint32;
use crate::wire::spec_varint64;
use crate::wire::tagged_field;
use crate::wire::zig_zag64;
use crate::wire::varint_len_from;
use crate::wire::varint_sum;
use vstd::prelude::*;
use vstd::slice::slice_subrange;

verus! {

/// The kind of geometry a feature holds.
#[derive(Clone, Copy, Debug, PartialEq, Eq)]
pub enum GeomType {
    Unknown,
    Point,
    LineString,
    Polygon,
}

/// The geometry type an enum number stands for; numbers other than 1, 2
/// and 3 stand for `Unknown`.
pub open spec fn geom_type_of(v: i32) -> GeomType {
    if v == 1 {
        GeomType::Point
    } else if v == 2 {
        GeomType::LineString
    } else if v == 3 {
        GeomType::Polygon
    } else {
        GeomType::Unknown
    }
}

/// The geometry type an enum number stands for.
pub fn geom_type_from(v: i32) -> (t: GeomType)
    ensures
        t == geom_type_of(v),
{
    if v == 1 {
        GeomType::Point
    } else if v == 2 {
        GeomType::LineString
    } else if v == 3 {
        GeomType::Polygon
    } else {
        GeomType::Unknown
    }
}

/// Whether two geometry types are the same.
pub fn geom_type_eq(a: GeomType, b: GeomType) -> (r: bool)
    ensures
        r == (a == b),
{
    match (a, b) {
        (GeomType::Unknown, GeomType::Unknown) => true,
        (GeomType::Point, GeomType::Point) => true,
        (GeomType::LineString, GeomType::LineString) => true,
        (GeomType::Polygon, GeomType::Polygon) => true,
        _ => false,
    }
}

// ---------------------------------------------------------------- values

/// A tag value: each kind of value it may hold, `None` where absent. The
/// `float` and `double` kinds are held as their IEEE 754 bits.
pub struct Value {
    pub string_value: Option<String>,
    pub float_bits: Option<u32>,
    pub double_bits: Option<u64>,
    pub int_value: Option<i64>,
    pub uint_value: Option<u64>,
    pub sint_value: Option<i64>,
    pub bool_value: Option<bool>,
}

/// The mathematical value of a `Value`.
pub struct SpecValue {
    pub string_value: Option<Seq<char>>,
    pub float_bits: Option<u32>,
    pub double_bits: Option<u64>,
    pub int_value: Option<i64>,
    pub uint_value: Option<u64>,
    pub sint_value: Option<i64>,
    pub bool_value: Option<bool>,
}

impl View for Value {
    type V = SpecValue;

    open spec fn view(&self) -> SpecValue {
        SpecValue {
            string_value: match self.string_value {
                Some(s) => Some(s@),
                None => None,
            },
            float_bits: self.float_bits,
            double_bits: self.double_bits,
            int_value: self.int_value,
            uint_value: self.uint_value,
            sint_value: self.sint_value,
            bool_value: self.bool_value,
        }
    }
}

/// One field of an encoded value.
pub enum ValueField {
    Str(Seq<char>),
    Float(u32),
    Double(u64),
    Int(i64),
    UInt(u64),
    SInt(i64),
    Bool(bool),
    Unknown,
}

/// A value's field, given its tag, at the start of `r`: strings (field 1),
/// floats (2), doubles (3), int64 (4), uint64 (5), sint64 (6), bools (7);
/// any other tag is an unknown field and is skipped.
pub open spec fn value_field_value(r: Seq<u8>, tag: u32) -> Option<(ValueField, nat)> {
    if tag == 10 {
        match spec_string(r) {
            Some((s, n)) => Some((ValueField::Str(s), n)),
            None => None,
        }
    } else if tag == 21 {
        match spec_fixed32(r) {
            Some((v, n)) => Some((ValueField::Float(v), n)),
            None => None,
        }
    } else if tag == 25 {
        match spec_fixed64(r) {
            Some((v, n)) => Some((ValueField::Double(v), n)),
            None => None,
        }
    } else if tag == 32 {
        match spec_varint64(r) {
            Some((v, n)) => Some((ValueField::Int(v as i64), n)),
            None => None,
        }
    } else if tag == 40 {
        match spec_varint64(r) {
            Some((v, n)) => Some((ValueField::UInt(v), n)),
            None => None,
        }
    } else if tag == 48 {
        match spec_varint64(r) {
            Some((v, n)) => Some((ValueField::SInt(zig_zag64(v) as i64), n)),
            None => None,
        }
    } else if tag == 56 {
        match spec_varint32(r) {
            Some((v, n)) => Some((ValueField::Bool(v != 0), n)),
            None => None,
        }
    } else {
        match spec_skip_unknown(r, tag) {
            Some(n) => Some((ValueField::Unknown, n)),
            None => None,
        }
    }
}

pub open spec fn value_field_fn() -> spec_fn(Seq<u8>) -> Option<(ValueField, nat)> {
    |s: Seq<u8>| tagged_field(s, |r: Seq<u8>, tag: u32| value_field_value(r, tag))
}

/// A value with one more field read: the field's kind is set to it.
pub open spec fn value_step(v: SpecValue, f: ValueField) -> SpecValue {
    match f {
        ValueField::Str(s) => SpecValue { string_value: Some(s), ..v },
        ValueField::Float(x) => SpecValue { float_bits: Some(x), ..v },
        ValueField::Double(x) => SpecValue { double_bits: Some(x), ..v },
        ValueField::Int(x) => SpecValue { int_value: Some(x), ..v },
        ValueField::UInt(x) => SpecValue { uint_value: Some(x), ..v },
        ValueField::SInt(x) => SpecValue { sint_value: Some(x), ..v },
        ValueField::Bool(x) => SpecValue { bool_value: Some(x), ..v },
        ValueField::Unknown => v,
    }
}

pub open spec fn value_step_fn() -> spec_fn(SpecValue, ValueField) -> SpecValue {
    |v: SpecValue, f: ValueField| value_step(v, f)
}

/// The value with no kind set.
pub open spec fn empty_value() -> SpecValue {
    SpecValue {
        string_value: None,
        float_bits: None,
        double_bits: None,
        int_value: None,
        uint_value: None,
        sint_value: None,
        bool_value: None,
    }
}

/// The value that the bytes `s` encode: its fields read in order, a later
/// field of a kind replacing an earlier one.
pub open spec fn spec_decode_value(s: Seq<u8>) -> Option<SpecValue> {
    match parse_fields(s, value_field_fn()) {
        Some(fs) => Some(fs.fold_left(empty_value(), value_step_fn())),
        None => None,
    }
}

fn read_value_field(buf: &[u8], acc: &mut Value) -> (res: Option<usize>)
    ensures
        match value_field_fn()(buf@) {
            Some((f, n)) => 0 < n <= buf@.len() && res == Some((buf@.len() - n) as usize) && final(acc)@ == value_step(
                old(acc)@,
                f,
            ),
            None => res is None,
        },
{
    let blen = buf.len();
    let (tag, rem) = match read_varint32(buf) {
        None => {
            return None;
        },
        Some(p) => p,
    };
    proof {
        lemma_varint_len(buf@);
    }
    let r = rest_of(buf, rem);
    proof {
        lemma_varint_len(r@);
    }
    if tag == 10 {
        match read_string(r) {
            None => None,
            Some((s, rem2)) => {
                acc.string_value = Some(s);
                Some(rem2)
            },
        }
    } else if tag == 21 {
        match read_fixed32(r) {
            None => None,
            Some((v, rem2)) => {
                acc.float_bits = Some(v);
                Some(rem2)
            },
        }
    } else if tag == 25 {
        match read_fixed64(r) {
            None => None,
            Some((v, rem2)) => {
                acc.double_bits = Some(v);
                Some(rem2)
            },
        }
    } else if tag == 32 {
        match read_int64(r) {
            None => None,
            Some((v, rem2)) => {
                acc.int_value = Some(v);
                Some(rem2)
            },
        }
    } else if tag == 40 {
        match read_uint64(r) {
            None => None,
            Some((v, rem2)) => {
                acc.uint_value = Some(v);
                Some(rem2)
            },
        }
    } else if tag == 48 {
        match read_sint64(r) {
            None => None,
            Some((v, rem2)) => {
                acc.sint_value = Some(v);
                Some(rem2)
            },
        }
    } else if tag == 56 {
        match read_bool(r) {
            None => None,
            Some((v, rem2)) => {
                acc.bool_value = Some(v);
                Some(rem2)
            },
        }
    } else {
        skip_unknown(r, tag)
    }
}

/// Decodes an encoded tag value; `None` when the bytes are not one.
pub fn decode_value(buf: &[u8]) -> (res: Option<Value>)
    ensures
        match spec_decode_value(buf@) {
            Some(v) => res matches Some(x) && x@ == v,
            None => res is None,
        },
{
    let mut acc = Value {
        string_value: None,
        float_bits: None,
        double_bits: None,
        int_value: None,
        uint_value: None,
        sint_value: None,
        bool_value: None,
    };
    let len = buf.len();
    let mut pos: usize = 0;
    let ghost mut done: Seq<ValueField> = Seq::empty();
    proof {
        lemma_parse_fields_start(buf@, value_field_fn());
    }
    while pos < len
        invariant
            len == buf@.len(),
            pos <= len,
            parse_fields(buf@, value_field_fn()) == prefixed(
                done,
                parse_fields(buf@.skip(pos as int), value_field_fn()),
            ),
            acc@ == done.fold_left(empty_value(), value_step_fn()),
        decreases len - pos,
    {
        let r = slice_subrange(buf, pos, len);
        assert(r@ =~= buf@.skip(pos as int));
        match read_value_field(r, &mut acc) {
            None => {
                assert(parse_fields(buf@.skip(pos as int), value_field_fn()) is None);
                return None;
            },
            Some(rrem) => {
                proof {
                    let (f, n) = value_field_fn()(r@).unwrap();
                    lemma_varint_len(r@);
                    lemma_parse_fields_step(buf@, value_field_fn(), pos as int, done, f, n);
                    lemma_fold_push(done, f, empty_value(), value_step_fn());
                    done = done.push(f);
                }
                pos = len - rrem;
            },
        }
    }
    proof {
        lemma_parse_fields_end(buf@, value_field_fn(), done);
    }
    Some(acc)
}

// -------------------------------------------------------------- features

/// A feature: its id, its tags (pairs of indexes into its layer's keys and
/// values), the kind of its geometry, and its geometry command stream.
pub struct Feature {
    pub id: u64,
    pub tags: Vec<u32>,
    pub geom_type: GeomType,
    pub geometry: Vec<u32>,
}

/// The mathematical value of a `Feature`.
pub struct SpecFeature {
    pub id: u64,
    pub tags: Seq<u32>,
    pub geom_type: GeomType,
    pub geometry: Seq<u32>,
}

impl View for Feature {
    type V = SpecFeature;

    open spec fn view(&self) -> SpecFeature {
        SpecFeature {
            id: self.id,
            tags: self.tags@,
            geom_type: self.geom_type,
            geometry: self.geometry@,
        }
    }
}

/// One field of an encoded feature.
pub enum FeatureField {
    Id(u64),
    Tags(Seq<u32>),
    Type(GeomType),
    Geometry(Seq<u32>),
    Unknown,
}

/// A feature's field, given its tag, at the start of `r`: the id (field 1),
/// the packed tags (2), the geometry type (3), the packed geometry (4); any
/// other tag is an unknown field and is skipped.
pub open spec fn feature_field_value(r: Seq<u8>, tag: u32) -> Option<(FeatureField, nat)> {
    if tag == 8 {
        match spec_varint64(r) {
            Some((v, n)) => Some((FeatureField::Id(v), n)),
            None => None,
        }
    } else if tag == 18 {
        match spec_packed_u32(r) {
            Some((v, n)) => Some((FeatureField::Tags(v), n)),
            None => None,
        }
    } else if tag == 24 {
        match spec_varint32(r) {
            Some((v, n)) => Some((FeatureField::Type(geom_type_of(v as i32)), n)),
            None => None,
        }
    } else if tag == 34 {
        match spec_packed_u32(r) {
            Some((v, n)) => Some((FeatureField::Geometry(v), n)),
            None => None,
        }
    } else {
        match spec_skip_unknown(r, tag) {
            Some(n) => Some((FeatureField::Unknown, n)),
            None => None,
        }
    }
}

pub open spec fn feature_field_fn() -> spec_fn(Seq<u8>) -> Option<(FeatureField, nat)> {
    |s: Seq<u8>| tagged_field(s, |r: Seq<u8>, tag: u32| feature_field_value(r, tag))
}

/// A feature with one more field read: the field replaces the earlier one.
pub open spec fn feature_step(v: SpecFeature, f: FeatureField) -> SpecFeature {
    match f {
        FeatureField::Id(x) => SpecFeature { id: x, ..v },
        FeatureField::Tags(x) => SpecFeature { tags: x, ..v },
        FeatureField::Type(x) => SpecFeature { geom_type: x, ..v },
        FeatureField::Geometry(x) => SpecFeature { geometry: x, ..v },
        FeatureField::Unknown => v,
    }
}

pub open spec fn feature_step_fn() -> spec_fn(SpecFeature, FeatureField) -> SpecFeature {
    |v: SpecFeature, f: FeatureField| feature_step(v, f)
}

/// The feature before any field is read: id 0, no tags, unknown type, no
/// geometry.
pub open spec fn empty_feature() -> SpecFeature {
    SpecFeature { id: 0, tags: Seq::empty(), geom_type: GeomType::Unknown, geometry: Seq::empty() }
}

/// The feature that the bytes `s` encode.
pub open spec fn spec_decode_feature(s: Seq<u8>) -> Option<SpecFeature> {
    match parse_fields(s, feature_field_fn()) {
        Some(fs) => Some(fs.fold_left(empty_feature(), feature_step_fn())),
        None => None,
    }
}

fn read_feature_field(buf: &[u8], acc: &mut Feature) -> (res: Option<usize>)
    ensures
        match feature_field_fn()(buf@) {
            Some((f, n)) => 0 < n <= buf@.len() && res == Some((buf@.len() - n) as usize)
                && final(acc)@ == feature_step(old(acc)@, f),
            None => res is None,
        },
{
    let blen = buf.len();
    let (tag, rem) = match read_varint32(buf) {
        None => {
            return None;
        },
        Some(p) => p,
    };
    proof {
        lemma_varint_len(buf@);
    }
    let r = rest_of(buf, rem);
    proof {
        lemma_varint_len(r@);
    }
    if tag == 8 {
        match read_uint64(r) {
            None => None,
            Some((v, rem2)) => {
                acc.id = v;
                Some(rem2)
            },
        }
    } else if tag == 18 {
        match read_packed_u32(r) {
            None => None,
            Some((v, rem2)) => {
                acc.tags = v;
                Some(rem2)
            },
        }
    } else if tag == 24 {
        match read_int32(r) {
            None => None,
            Some((v, rem2)) => {
                acc.geom_type = geom_type_from(v);
                Some(rem2)
            },
        }
    } else if tag == 34 {
        match read_packed_u32(r) {
            None => None,
            Some((v, rem2)) => {
                acc.geometry = v;
                Some(rem2)
            },
        }
    } else {
        skip_unknown(r, tag)
    }
}

/// Decodes an encoded feature; `None` when the bytes are not one.
pub fn decode_feature(buf: &[u8]) -> (res: Option<Feature>)
    ensures
        match spec_decode_feature(buf@) {
            Some(v) => res matches Some(x) && x@ == v,
            None => res is None,
        },
{
    let mut acc = Feature {
        id: 0,
        tags: Vec::new(),
        geom_type: GeomType::Unknown,
        geometry: Vec::new(),
    };
    let len = buf.len();
    let mut pos: usize = 0;
    let ghost mut done: Seq<FeatureField> = Seq::empty();
    proof {
        lemma_parse_fields_start(buf@, feature_field_fn());
    }
    assert(acc@ == empty_feature());
    while pos < len
        invariant
            len == buf@.len(),
            pos <= len,
            parse_fields(buf@, feature_field_fn()) == prefixed(
                done,
                parse_fields(buf@.skip(pos as int), feature_field_fn()),
            ),
            acc@ == done.fold_left(empty_feature(), feature_step_fn()),
        decreases len - pos,
    {
        let r = slice_subrange(buf, pos, len);
        assert(r@ =~= buf@.skip(pos as int));
        match read_feature_field(r, &mut acc) {
            None => {
                assert(parse_fields(buf@.skip(pos as int), feature_field_fn()) is None);
                return None;
            },
            Some(rrem) => {
                proof {
                    let (f, n) = feature_field_fn()(r@).unwrap();
                    lemma_parse_fields_step(buf@, feature_field_fn(), pos as int, done, f, n);
                    lemma_fold_push(done, f, empty_feature(), feature_step_fn());
                    done = done.push(f);
                }
                pos = len - rrem;
            },
        }
    }
    proof {
        lemma_parse_fields_end(buf@, feature_field_fn(), done);
    }
    Some(acc)
}

// ---------------------------------------------------------------- layers

/// A layer: its version, its name, its features, the keys and values that
/// its features' tags index, and its extent (the tile's width in the units
/// of its geometry).
pub struct Layer {
    pub version: u32,
    pub name: String,
    pub features: Vec<Feature>,
    pub keys: Vec<String>,
    pub values: Vec<Value>,
    pub extent: u32,
}

/// The mathematical value of a `Layer`.
pub struct SpecLayer {
    pub version: u32,
    pub name: Seq<char>,
    pub features: Seq<SpecFeature>,
    pub keys: Seq<Seq<char>>,
    pub values: Seq<SpecValue>,
    pub extent: u32,
}

pub open spec fn features_view(v: Seq<Feature>) -> Seq<SpecFeature> {
    v.map_values(|f: Feature| f@)
}

pub open spec fn keys_view(v: Seq<String>) -> Seq<Seq<char>> {
    v.map_values(|k: String| k@)
}

pub open spec fn values_view(v: Seq<Value>) -> Seq<SpecValue> {
    v.map_values(|x: Value| x@)
}

impl View for Layer {
    type V = SpecLayer;

    open spec fn view(&self) -> SpecLayer {
        SpecLayer {
            version: self.version,
            name: self.name@,
            features: features_view(self.features@),
            keys: keys_view(self.keys@),
            values: values_view(self.values@),
            extent: self.extent,
        }
    }
}

/// One field of an encoded layer.
pub enum LayerField {
    Version(u32),
    Name(Seq<char>),
    Feature(SpecFeature),
    Key(Seq<char>),
    Value(SpecValue),
    Extent(u32),
    Unknown,
}

/// A layer's field, given its tag, at the start of `r`: the name (field 1),
/// a feature (2), a key (3), a value (4), the extent (5), the version (15);
/// any other tag is an unknown field and is skipped.
pub open spec fn layer_field_value(r: Seq<u8>, tag: u32) -> Option<(LayerField, nat)> {
    if tag == 120 {
        match spec_varint32(r) {
            Some((v, n)) => Some((LayerField::Version(v), n)),
            None => None,
        }
    } else if tag == 10 {
        match spec_string(r) {
            Some((v, n)) => Some((LayerField::Name(v), n)),
            None => None,
        }
    } else if tag == 18 {
        match spec_delimited(r) {
            Some((b, n)) => match spec_decode_feature(b) {
                Some(f) => Some((LayerField::Feature(f), n)),
                None => None,
            },
            None => None,
        }
    } else if tag == 26 {
        match spec_string(r) {
            Some((v, n)) => Some((LayerField::Key(v), n)),
            None => None,
        }
    } else if tag == 34 {
        match spec_delimited(r) {
            Some((b, n)) => match spec_decode_value(b) {
                Some(f) => Some((LayerField::Value(f), n)),
                None => None,
            },
            None => None,
        }
    } else if tag == 40 {
        match spec_varint32(r) {
            Some((v, n)) => Some((LayerField::Extent(v), n)),
            None => None,
        }
    } else {
        match spec_skip_unknown(r, tag) {
            Some(n) => Some((LayerField::Unknown, n)),
            None => None,
        }
    }
}

pub open spec fn layer_field_fn() -> spec_fn(Seq<u8>) -> Option<(LayerField, nat)> {
    |s: Seq<u8>| tagged_field(s, |r: Seq<u8>, tag: u32| layer_field_value(r, tag))
}

/// A layer with one more field read: features, keys and values are
/// appended, the other fields replace the earlier ones.
pub open spec fn layer_step(v: SpecLayer, f: LayerField) -> SpecLayer {
    match f {
        LayerField::Version(x) => SpecLayer { version: x, ..v },
        LayerField::Name(x) => SpecLayer { name: x, ..v },
        LayerField::Feature(x) => SpecLayer { features: v.features.push(x), ..v },
        LayerField::Key(x) => SpecLayer { keys: v.keys.push(x), ..v },
        LayerField::Value(x) => SpecLayer { values: v.values.push(x), ..v },
        LayerField::Extent(x) => SpecLayer { extent: x, ..v },
        LayerField::Unknown => v,
    }
}

pub open spec fn layer_step_fn() -> spec_fn(SpecLayer, LayerField) -> SpecLayer {
    |v: SpecLayer, f: LayerField| layer_step(v, f)
}

/// The layer before any field is read: version 1, an empty name, nothing
/// in it, extent 4096.
pub open spec fn empty_layer() -> SpecLayer {
    SpecLayer {
        version: 1,
        name: Seq::empty(),
        features: Seq::empty(),
        keys: Seq::empty(),
        values: Seq::empty(),
        extent: 4096,
    }
}

/// The layer that the bytes `s` encode.
pub open spec fn spec_decode_layer(s: Seq<u8>) -> Option<SpecLayer> {
    match parse_fields(s, layer_field_fn()) {
        Some(fs) => Some(fs.fold_left(empty_layer(), layer_step_fn())),
        None => None,
    }
}

fn read_layer_field(buf: &[u8], acc: &mut Layer) -> (res: Option<usize>)
    ensures
        match layer_field_fn()(buf@) {
            Some((f, n)) => 0 < n <= buf@.len() && res == Some((buf@.len() - n) as usize)
                && final(acc)@ == layer_step(old(acc)@, f),
            None => res is None,
        },
{
    let blen = buf.len();
    let (tag, rem) = match read_varint32(buf) {
        None => {
            return None;
        },
        Some(p) => p,
    };
    proof {
        lemma_varint_len(buf@);
    }
    let r = rest_of(buf, rem);
    read_layer_value(r, tag, acc)
}

fn read_layer_value(r: &[u8], tag: u32, acc: &mut Layer) -> (res: Option<usize>)
    ensures
        match layer_field_value(r@, tag) {
            Some((f, n)) => 0 < n <= r@.len() && res == Some((r@.len() - n) as usize)
                && final(acc)@ == layer_step(old(acc)@, f),
            None => res is None,
        },
{
    proof {
        lemma_varint_len(r@);
    }
    if tag == 18 || tag == 26 || tag == 34 {
        return read_layer_item(r, tag, acc);
    }
    if tag == 120 {
        match read_varint32(r) {
            None => None,
            Some((v, rem2)) => {
                acc.version = v;
                Some(rem2)
            },
        }
    } else if tag == 10 {
        match read_string(r) {
            None => None,
            Some((v, rem2)) => {
                acc.name = v;
                Some(rem2)
            },
        }
    } else if tag == 40 {
        match read_varint32(r) {
            None => None,
            Some((v, rem2)) => {
                acc.extent = v;
                Some(rem2)
            },
        }
    } else {
        skip_unknown(r, tag)
    }
}

fn read_layer_item(r: &[u8], tag: u32, acc: &mut Layer) -> (res: Option<usize>)
    requires
        tag == 18 || tag == 26 || tag == 34,
    ensures
        match layer_field_value(r@, tag) {
            Some((f, n)) => 0 < n <= r@.len() && res == Some((r@.len() - n) as usize)
                && final(acc)@ == layer_step(old(acc)@, f),
            None => res is None,
        },
{
    proof {
        lemma_varint_len(r@);
    }
    let ghost before = acc@;
    if tag == 18 {
        match read_delimited(r) {
            None => None,
            Some((b, rem2)) => match decode_feature(b) {
                None => None,
                Some(f) => {
                    let ghost fv = f@;
                    acc.features.push(f);
                    assert(features_view(acc.features@) =~= before.features.push(fv));
                    Some(rem2)
                },
            },
        }
    } else if tag == 26 {
        match read_string(r) {
            None => None,
            Some((v, rem2)) => {
                let ghost kv = v@;
                acc.keys.push(v);
                assert(keys_view(acc.keys@) =~= before.keys.push(kv));
                Some(rem2)
            },
        }
    } else {
        match read_delimited(r) {
            None => None,
            Some((b, rem2)) => match decode_value(b) {
                None => None,
                Some(x) => {
                    let ghost xv = x@;
                    acc.values.push(x);
                    assert(values_view(acc.values@) =~= before.values.push(xv));
                    Some(rem2)
                },
            },
        }
    }
}

/// Decodes an encoded layer; `None` when the bytes are not one.
#[verifier::rlimit(40)]
pub fn decode_layer(buf: &[u8]) -> (res: Option<Layer>)
    ensures
        match spec_decode_layer(buf@) {
            Some(v) => res matches Some(x) && x@ == v,
            None => res is None,
        },
{
    let mut acc = Layer {
        version: 1,
        name: String::new(),
        features: Vec::new(),
        keys: Vec::new(),
        values: Vec::new(),
        extent: 4096,
    };
    assert(features_view(acc.features@) =~= Seq::empty());
    assert(keys_view(acc.keys@) =~= Seq::empty());
    assert(values_view(acc.values@) =~= Seq::empty());
    assert(acc@ == empty_layer());
    let len = buf.len();
    let mut pos: usize = 0;
    let ghost mut done: Seq<LayerField> = Seq::empty();
    proof {
        lemma_parse_fields_start(buf@, layer_field_fn());
    }
    while pos < len
        invariant
            len == buf@.len(),
            pos <= len,
            parse_fields(buf@, layer_field_fn()) == prefixed(
                done,
                parse_fields(buf@.skip(pos as int), layer_field_fn()),
            ),
            acc@ == done.fold_left(empty_layer(), layer_step_fn()),
        decreases len - pos,
    {
        let r = slice_subrange(buf, pos, len);
        assert(r@ =~= buf@.skip(pos as int));
        match read_layer_field(r, &mut acc) {
            None => {
                assert(parse_fields(buf@.skip(pos as int), layer_field_fn()) is None);
                return None;
            },
            Some(rrem) => {
                proof {
                    let (f, n) = layer_field_fn()(r@).unwrap();
                    lemma_parse_fields_step(buf@, layer_field_fn(), pos as int, done, f, n);
                    lemma_fold_push(done, f, empty_layer(), layer_step_fn());
                    done = done.push(f);
                }
                pos = len - rrem;
            },
        }
    }
    proof {
        lemma_parse_fields_end(buf@, layer_field_fn(), done);
    }
    Some(acc)
}

// ----------------------------------------------------------------- tiles

/// A tile: its layers, in the order they are encoded.
pub struct Tile {
    pub layers: Vec<Layer>,
}

/// The mathematical value of a `Tile`.
pub struct SpecTile {
    pub layers: Seq<SpecLayer>,
}

pub open spec fn layers_view(v: Seq<Layer>) -> Seq<SpecLayer> {
    v.map_values(|l: Layer| l@)
}

impl View for Tile {
    type V = SpecTile;

    open spec fn view(&self) -> SpecTile {
        SpecTile { layers: layers_view(self.layers@) }
    }
}

/// One field of an encoded tile.
pub enum TileField {
    Layer(SpecLayer),
    Unknown,
}

/// A tile's field, given its tag, at the start of `r`: a layer (field 3);
/// any other tag is an unknown field and is skipped.
pub open spec fn tile_field_value(r: Seq<u8>, tag: u32) -> Option<(TileField, nat)> {
    if tag == 26 {
        match spec_delimited(r) {
            Some((b, n)) => match spec_decode_layer(b) {
                Some(l) => Some((TileField::Layer(l), n)),
                None => None,
            },
            None => None,
        }
    } else {
        match spec_skip_unknown(r, tag) {
            Some(n) => Some((TileField::Unknown, n)),
            None => None,
        }
    }
}

pub open spec fn tile_value_fn() -> spec_fn(Seq<u8>, u32) -> Option<(TileField, nat)> {
    |r: Seq<u8>, tag: u32| tile_field_value(r, tag)
}

pub open spec fn tile_field_fn() -> spec_fn(Seq<u8>) -> Option<(TileField, nat)> {
    |s: Seq<u8>| tagged_field(s, tile_value_fn())
}

/// A tile with one more field read: layers are appended.
pub open spec fn tile_step(v: SpecTile, f: TileField) -> SpecTile {
    match f {
        TileField::Layer(x) => SpecTile { layers: v.layers.push(x) },
        TileField::Unknown => v,
    }
}

pub open spec fn tile_step_fn() -> spec_fn(SpecTile, TileField) -> SpecTile {
    |v: SpecTile, f: TileField| tile_step(v, f)
}

/// The tile that the bytes `s` encode.
pub open spec fn spec_decode_tile(s: Seq<u8>) -> Option<SpecTile> {
    match parse_fields(s, tile_field_fn()) {
        Some(fs) => Some(fs.fold_left(SpecTile { layers: Seq::empty() }, tile_step_fn())),
        None => None,
    }
}

fn read_tile_field(buf: &[u8], acc: &mut Tile) -> (res: Option<usize>)
    ensures
        match tile_field_fn()(buf@) {
            Some((f, n)) => 0 < n <= buf@.len() && res == Some((buf@.len() - n) as usize)
                && final(acc)@ == tile_step(old(acc)@, f),
            None => res is None,
        },
{
    let blen = buf.len();
    let (tag, rem) = match read_varint32(buf) {
        None => {
            return None;
        },
        Some(p) => p,
    };
    proof {
        lemma_varint_len(buf@);
    }
    let r = rest_of(buf, rem);
    proof {
        lemma_varint_len(r@);
    }
    let ghost before = acc@;
    if tag == 26 {
        match read_delimited(r) {
            None => None,
            Some((b, rem2)) => match decode_layer(b) {
                None => None,
                Some(l) => {
                    let ghost lv = l@;
                    acc.layers.push(l);
                    assert(layers_view(acc.layers@) =~= before.layers.push(lv));
                    Some(rem2)
                },
            },
        }
    } else {
        skip_unknown(r, tag)
    }
}

/// Decodes an encoded tile; `None` when the bytes are not one.
#[verifier::rlimit(40)]
pub fn decode_tile(buf: &[u8]) -> (res: Option<Tile>)
    ensures
        match spec_decode_tile(buf@) {
            Some(v) => res matches Some(x) && x@ == v,
            None => res is None,
        },
{
    let mut acc = Tile { layers: Vec::new() };
    assert(layers_view(acc.layers@) =~= Seq::empty());
    let len = buf.len();
    let mut pos: usize = 0;
    let ghost mut done: Seq<TileField> = Seq::empty();
    proof {
        lemma_parse_fields_start(buf@, tile_field_fn());
    }
    while pos < len
        invariant
            len == buf@.len(),
            pos <= len,
            parse_fields(buf@, tile_field_fn()) == prefixed(
                done,
                parse_fields(buf@.skip(pos as int), tile_field_fn()),
            ),
            acc@ == done.fold_left(SpecTile { layers: Seq::empty() }, tile_step_fn()),
        decreases len - pos,
    {
        let r = slice_subrange(buf, pos, len);
        assert(r@ =~= buf@.skip(pos as int));
        match read_tile_field(r, &mut acc) {
            None => {
                assert(parse_fields(buf@.skip(pos as int), tile_field_fn()) is None);
                return None;
            },
            Some(rrem) => {
                proof {
                    let (f, n) = tile_field_fn()(r@).unwrap();
                    lemma_parse_fields_step(buf@, tile_field_fn(), pos as int, done, f, n);
                    lemma_fold_push(done, f, SpecTile { layers: Seq::empty() }, tile_step_fn());
                    done = done.push(f);
                }
                pos = len - rrem;
            },
        }
    }
    proof {
        lemma_parse_fields_end(buf@, tile_field_fn(), done);
    }
    Some(acc)
}

proof fn lemma_tile_field_stable(a: Seq<u8>, b: Seq<u8>)
    ensures
        tile_field_fn()(a) is Some ==> tile_field_fn()(a + b) == tile_field_fn()(a),
{
    if tile_field_fn()(a) is Some {
        assert forall|r: Seq<u8>, tag: u32|
            #![trigger tile_value_fn()(r + b, tag)]
            tile_value_fn()(r, tag) is Some implies tile_value_fn()(r + b, tag) == tile_value_fn()(
            r,
            tag,
        ) by {
            lemma_readers_stable(r, b);
        }
        lemma_tagged_field_stable(tile_value_fn(), a, b);
    }
}

proof fn lemma_tile_fold(fs: Seq<TileField>, init: Seq<SpecLayer>)
    ensures
        fs.fold_left(SpecTile { layers: init }, tile_step_fn()).layers == init + fs.fold_left(
            SpecTile { layers: Seq::empty() },
            tile_step_fn(),
        ).layers,
    decreases fs.len(),
{
    if fs.len() == 0 {
        assert(init + Seq::<SpecLayer>::empty() =~= init);
    } else {
        lemma_tile_fold(fs.drop_last(), init);
        let rest = fs.drop_last().fold_left(SpecTile { layers: Seq::empty() }, tile_step_fn()).layers;
        match fs.last() {
            TileField::Layer(x) => {
                assert(init + rest.push(x) =~= (init + rest).push(x));
            },
            TileField::Unknown => {},
        }
    }
}

/// Encoded tiles concatenate: the bytes of one tile followed by those of
/// another decode to a tile with the first tile's layers, then the
/// second's.
pub proof fn lemma_decode_tile_concat(a: Seq<u8>, b: Seq<u8>)
    requires
        spec_decode_tile(a) is Some,
        spec_decode_tile(b) is Some,
    ensures
        spec_decode_tile(a + b) matches Some(t) && t.layers == spec_decode_tile(a).unwrap().layers
            + spec_decode_tile(b).unwrap().layers,
{
    assert forall|x: Seq<u8>| #![trigger tile_field_fn()(x + b)]
        tile_field_fn()(x) is Some implies tile_field_fn()(x + b) == tile_field_fn()(x) by {
        lemma_tile_field_stable(x, b);
    }
    lemma_parse_fields_concat(tile_field_fn(), a, b);
    let fa = parse_fields(a, tile_field_fn()).unwrap();
    let fb = parse_fields(b, tile_field_fn()).unwrap();
    let fs = fa + fb;
    let empty = SpecTile { layers: Seq::empty() };
    fs.lemma_fold_left_split(empty, tile_step_fn(), fa.len() as int);
    assert(fs.subrange(0, fa.len() as int) =~= fa);
    assert(fs.subrange(fa.len() as int, fs.len() as int) =~= fb);
    lemma_tile_fold(fb, fa.fold_left(empty, tile_step_fn()).layers);
}

proof fn lemma_one_byte_varint(s: Seq<u8>)
    requires
        s.len() > 0,
        s[0] < 0x80,
    ensures
        spec_varint32(s) == Some((s[0] as u32, 1nat)),
        spec_varint64(s) == Some((s[0] as u64, 1nat)),
{
    assert(varint_len_from(s, 0) == Some(1nat));
    assert(vstd::arithmetic::power::pow(128, 0) == 1) by {
        reveal_with_fuel(vstd::arithmetic::power::pow, 1);
    }
    assert(varint_sum(s, 0) == 0);
    assert(varint_sum(s, 1) == s[0] % 128);
}

/// A feature encoded as its geometry type field alone, with any one-byte
/// enum number, decodes to a feature of that type and nothing else: 1 is
/// a point, 2 a line string, 3 a polygon, every other number unknown.
pub proof fn lemma_type_field(v: u8)
    requires
        v < 0x80,
    ensures
        spec_decode_feature(seq![24u8, v]) matches Some(f) && f.geom_type == (if v == 1 {
            GeomType::Point
        } else if v == 2 {
            GeomType::LineString
        } else if v == 3 {
            GeomType::Polygon
        } else {
            GeomType::Unknown
        }) && f.id == 0 && f.tags.len() == 0 && f.geometry.len() == 0,
{
    let s = seq![24u8, v];
    lemma_one_byte_varint(s);
    let r = s.skip(1);
    assert(r =~= seq![v]);
    lemma_one_byte_varint(r);
    let t = geom_type_of(v as u32 as i32);
    assert((v as u32 as i32) == v as i32);
    assert(feature_field_value(r, 24) == Some((FeatureField::Type(t), 1nat)));
    assert(feature_field_fn()(s) == Some((FeatureField::Type(t), 2nat)));
    assert(s.skip(2) =~= Seq::<u8>::empty());
    assert(parse_fields(s.skip(2), feature_field_fn()) == Some(Seq::<FeatureField>::empty()));
    assert(seq![FeatureField::Type(t)] + Seq::<FeatureField>::empty() =~= seq![FeatureField::Type(t)]);
    assert(parse_fields(s, feature_field_fn()) == Some(seq![FeatureField::Type(t)]));
    let fs = seq![FeatureField::Type(t)];
    assert(Seq::<FeatureField>::empty().push(FeatureField::Type(t)) =~= fs);
    lemma_fold_push(Seq::<FeatureField>::empty(), FeatureField::Type(t), empty_feature(), feature_step_fn());
    assert(Seq::<FeatureField>::empty().fold_left(empty_feature(), feature_step_fn()) == empty_feature());
    assert(fs.fold_left(empty_feature(), feature_step_fn()) == feature_step(empty_feature(), FeatureField::Type(t)));
}

} // verus!
