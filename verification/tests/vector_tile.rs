use protomaps2d::vector_tile::{decode_feature, decode_layer, decode_tile, decode_value, GeomType};
use protomaps2d::wire::{read_delimited, read_packed_u32, read_string};

fn varint(mut v: u64, out: &mut Vec<u8>) {
    loop {
        let b = (v & 0x7f) as u8;
        v >>= 7;
        if v == 0 {
            out.push(b);
            return;
        }
        out.push(b | 0x80);
    }
}

fn field_varint(tag: u64, v: u64, out: &mut Vec<u8>) {
    varint(tag, out);
    varint(v, out);
}

fn field_bytes(tag: u64, b: &[u8], out: &mut Vec<u8>) {
    varint(tag, out);
    varint(b.len() as u64, out);
    out.extend_from_slice(b);
}

fn packed(vs: &[u32]) -> Vec<u8> {
    let mut out = Vec::new();
    for v in vs {
        varint(*v as u64, &mut out);
    }
    out
}

fn sample_feature() -> Vec<u8> {
    let mut f = Vec::new();
    field_varint(8, 42, &mut f);
    field_bytes(18, &packed(&[0, 0, 1, 1]), &mut f);
    field_varint(24, 3, &mut f);
    field_bytes(34, &packed(&[9, 6, 12, 18, 10, 12, 24, 44, 15]), &mut f);
    f
}

fn sample_layer() -> Vec<u8> {
    let mut l = Vec::new();
    field_varint(120, 2, &mut l);
    field_bytes(10, b"water", &mut l);
    field_bytes(18, &sample_feature(), &mut l);
    field_bytes(26, b"name", &mut l);
    field_bytes(26, b"rank", &mut l);
    let mut v1 = Vec::new();
    field_bytes(10, b"Lake", &mut v1);
    field_bytes(34, &v1, &mut l);
    let mut v2 = Vec::new();
    field_varint(32, 7, &mut v2);
    field_bytes(34, &v2, &mut l);
    field_varint(40, 8192, &mut l);
    l
}

#[test]
fn varints_in_fields() {
    // a two-byte varint: 150
    let l = decode_layer(&[120, 0x96, 0x01]).unwrap();
    assert_eq!(l.version, 150);
    // a varint that ends past the buffer
    assert!(decode_layer(&[120, 0x96]).is_none());
    // ten continuation bytes are refused
    let mut b = vec![40];
    b.extend_from_slice(&[0xff; 10]);
    assert!(decode_layer(&b).is_none());
    // bits beyond 32 are dropped from a 32-bit field
    let l = decode_layer(&[40, 0x80, 0x80, 0x80, 0x80, 0x10]).unwrap();
    assert_eq!(l.extent, 0);
    // a 64-bit field keeps all 64 bits
    let mut b = vec![8];
    b.extend_from_slice(&[0xff, 0xff, 0xff, 0xff, 0xff, 0xff, 0xff, 0xff, 0xff, 0x01]);
    assert_eq!(decode_feature(&b).unwrap().id, u64::MAX);
}

#[test]
fn fixed_and_signed_fields() {
    let mut b = vec![21, 0x01, 0x02, 0x03, 0x04];
    b.extend_from_slice(&[25, 1, 0, 0, 0, 0, 0, 0, 0x80]);
    b.extend_from_slice(&[48, 0x03]);
    let v = decode_value(&b).unwrap();
    assert_eq!(v.float_bits, Some(0x0403_0201));
    assert_eq!(v.double_bits, Some(0x8000_0000_0000_0001));
    assert_eq!(v.sint_value, Some(-2));
    assert_eq!(decode_value(&[48, 0x04]).unwrap().sint_value, Some(2));
    assert_eq!(decode_value(&[56, 0x00]).unwrap().bool_value, Some(false));
    assert!(decode_value(&[21, 0x01, 0x02, 0x03]).is_none());
}

#[test]
fn delimited_and_string_reads() {
    let d = read_delimited(&[3, b'a', b'b', b'c', 9]).unwrap();
    assert_eq!(d.0, b"abc");
    assert_eq!(d.1, 1);
    assert!(read_delimited(&[4, b'a', b'b', b'c']).is_none());
    assert_eq!(read_string(&[2, b'h', b'i']), Some((String::from("hi"), 0)));
    assert_eq!(read_string(&[2, 0xff, 0xfe]), None);
    assert_eq!(read_packed_u32(&[3, 0x96, 0x01, 7, 5]), Some((vec![150, 7], 1)));
    assert_eq!(read_packed_u32(&[2, 0x96, 0x81]), None);
}

#[test]
fn unknown_fields_are_skipped_by_wire_type() {
    // varint, 64-bit, length-delimited and 32-bit unknown fields of a layer
    let mut b = vec![8 * 9, 0x96, 0x01];
    b.extend_from_slice(&[8 * 9 + 1, 0, 0, 0, 0, 0, 0, 0, 0]);
    b.extend_from_slice(&[8 * 9 + 2, 2, 1, 1]);
    b.extend_from_slice(&[8 * 9 + 5, 0, 0, 0, 0]);
    b.extend_from_slice(&[10, 1, b'x']);
    let l = decode_layer(&b).unwrap();
    assert_eq!(l.name, "x");
    // a 64-bit field cut short
    assert!(decode_layer(&[8 * 9 + 1, 0, 0, 0]).is_none());
    // groups and the wire types 6 and 7
    assert!(decode_layer(&[8 * 9 + 3, 0, 0, 0, 0]).is_none());
    assert!(decode_layer(&[8 * 9 + 4, 0, 0, 0, 0]).is_none());
    assert!(decode_layer(&[8 * 9 + 6, 0, 0, 0, 0]).is_none());
    assert!(decode_layer(&[8 * 9 + 7, 0, 0, 0, 0]).is_none());
}

#[test]
fn decodes_feature() {
    let f = decode_feature(&sample_feature()).unwrap();
    assert_eq!(f.id, 42);
    assert_eq!(f.tags, vec![0, 0, 1, 1]);
    assert_eq!(f.geom_type, GeomType::Polygon);
    assert_eq!(f.geometry, vec![9, 6, 12, 18, 10, 12, 24, 44, 15]);
}

#[test]
fn feature_defaults_and_unknown_types() {
    let f = decode_feature(&[]).unwrap();
    assert_eq!(f.id, 0);
    assert!(f.tags.is_empty());
    assert_eq!(f.geom_type, GeomType::Unknown);
    let mut b = Vec::new();
    field_varint(24, 9, &mut b);
    assert_eq!(decode_feature(&b).unwrap().geom_type, GeomType::Unknown);
    let mut b = Vec::new();
    field_varint(24, 2, &mut b);
    assert_eq!(decode_feature(&b).unwrap().geom_type, GeomType::LineString);
}

#[test]
fn later_fields_replace_earlier_ones() {
    let mut b = Vec::new();
    field_bytes(34, &packed(&[9, 2, 2]), &mut b);
    field_bytes(34, &packed(&[15]), &mut b);
    field_varint(8, 1, &mut b);
    field_varint(8, 5, &mut b);
    let f = decode_feature(&b).unwrap();
    assert_eq!(f.geometry, vec![15]);
    assert_eq!(f.id, 5);
}

#[test]
fn decodes_values() {
    let mut b = Vec::new();
    field_bytes(10, b"x", &mut b);
    field_varint(40, 3, &mut b);
    field_varint(48, 3, &mut b);
    field_varint(56, 2, &mut b);
    varint(21, &mut b);
    b.extend_from_slice(&[0, 0, 0x80, 0x3f]);
    let v = decode_value(&b).unwrap();
    assert_eq!(v.string_value, Some(String::from("x")));
    assert_eq!(v.uint_value, Some(3));
    assert_eq!(v.sint_value, Some(-2));
    assert_eq!(v.bool_value, Some(true));
    assert_eq!(v.float_bits, Some(0x3f80_0000));
    assert_eq!(v.int_value, None);
    assert_eq!(v.double_bits, None);
}

#[test]
fn negative_int64_value() {
    let mut b = Vec::new();
    field_varint(32, (-1i64) as u64, &mut b);
    assert_eq!(decode_value(&b).unwrap().int_value, Some(-1));
}

#[test]
fn decodes_layer() {
    let l = decode_layer(&sample_layer()).unwrap();
    assert_eq!(l.version, 2);
    assert_eq!(l.name, "water");
    assert_eq!(l.features.len(), 1);
    assert_eq!(l.keys, vec![String::from("name"), String::from("rank")]);
    assert_eq!(l.values.len(), 2);
    assert_eq!(l.values[0].string_value, Some(String::from("Lake")));
    assert_eq!(l.values[1].int_value, Some(7));
    assert_eq!(l.extent, 8192);
}

#[test]
fn layer_defaults() {
    let l = decode_layer(&[]).unwrap();
    assert_eq!(l.version, 1);
    assert_eq!(l.name, "");
    assert_eq!(l.extent, 4096);
}

#[test]
fn decodes_tile_and_skips_unknown_fields() {
    let mut t = Vec::new();
    field_varint(8, 99, &mut t);
    field_bytes(26, &sample_layer(), &mut t);
    field_bytes(90, b"ignored", &mut t);
    varint(8 * 20 + 5, &mut t);
    t.extend_from_slice(&[1, 2, 3, 4]);
    field_bytes(26, &sample_layer(), &mut t);
    let tile = decode_tile(&t).unwrap();
    assert_eq!(tile.layers.len(), 2);
    assert_eq!(tile.layers[1].name, "water");
}

#[test]
fn empty_tile() {
    assert_eq!(decode_tile(&[]).unwrap().layers.len(), 0);
}

#[test]
fn malformed_tiles_are_refused() {
    let mut t = Vec::new();
    field_bytes(26, &sample_layer(), &mut t);
    // truncated
    assert!(decode_tile(&t[..t.len() - 1]).is_none());
    // a layer name that is not UTF-8
    let mut l = Vec::new();
    field_bytes(10, &[0xff], &mut l);
    let mut t2 = Vec::new();
    field_bytes(26, &l, &mut t2);
    assert!(decode_tile(&t2).is_none());
    // a group
    assert!(decode_tile(&[8 * 4 + 3]).is_none());
    // a nested message that overruns its enclosing layer
    let mut bad = Vec::new();
    field_bytes(10, b"abc", &mut bad);
    let mut t3 = Vec::new();
    varint(26, &mut t3);
    varint(2, &mut t3);
    t3.extend_from_slice(&bad);
    assert!(decode_tile(&t3).is_none());
}

#[test]
fn concatenated_tiles_merge_layers() {
    let mut a = Vec::new();
    field_bytes(26, &sample_layer(), &mut a);
    let mut l2 = Vec::new();
    field_bytes(10, b"roads", &mut l2);
    let mut b = Vec::new();
    field_bytes(26, &l2, &mut b);
    field_varint(8, 1, &mut b);
    let mut ab = a.clone();
    ab.extend_from_slice(&b);
    let tile = decode_tile(&ab).unwrap();
    let names: Vec<&str> = tile.layers.iter().map(|l| l.name.as_str()).collect();
    assert_eq!(names, vec!["water", "roads"]);
    assert_eq!(decode_tile(&a).unwrap().layers.len() + decode_tile(&b).unwrap().layers.len(), 2);
}
