use vstd::prelude::*;

verus! {

/// Number of tile units that make up one pixel of a 2048-pixel tile:
/// a layer of extent `e` is drawn at `e / 2048` units per pixel.
pub open spec fn spec_extent_scale(extent: u32) -> u32 {
    extent / 2048
}

/// The value that a geometry parameter integer stands for.
///
/// The parameter is reinterpreted as a signed 32-bit integer `p`, then
/// `(p >> 1) ^ -(p & 1)` is taken with an arithmetic shift. For parameters
/// below `2^31` this is the usual zig-zag decoding (`0, 1, 2, 3, ...` stand
/// for `0, -1, 1, -2, ...`).
pub open spec fn spec_zig_zag(param: u32) -> int {
    let p: int = if param < 0x8000_0000 { param as int } else { param as int - 0x1_0000_0000 };
    if p % 2 == 0 {
        p / 2
    } else {
        -(p / 2) - 1
    }
}

/// The zig-zag encoding of a signed value, the inverse of `spec_zig_zag`
/// on the values whose encoding is below `2^31`.
pub open spec fn spec_zig_zag_encode(v: int) -> int {
    if v >= 0 {
        2 * v
    } else {
        -2 * v - 1
    }
}

/// Decodes a geometry parameter integer (see `spec_zig_zag`).
pub fn zig_zag(param_u: u32) -> (v: i32)
    ensures
        v as int == spec_zig_zag(param_u),
{
    let param = param_u as i32;
    let h = param >> 1;
    let b = param & 1;
    proof {
        assert(b == 0 || b == 1) by (bit_vector)
            requires
                b == param & 1,
        ;
        assert(param as int == 2 * (h as int) + (b as int)) by (bit_vector)
            requires
                h == param >> 1,
                b == param & 1,
        ;
        assert(h ^ 0i32 == h) by (bit_vector);
        assert(h ^ -1i32 == -h - 1) by (bit_vector);
        assert(param_u < 0x8000_0000 ==> param as int == param_u as int) by (bit_vector)
            requires
                param == param_u as i32,
        ;
        assert(param_u >= 0x8000_0000 ==> param as int == param_u as int - 0x1_0000_0000) by (bit_vector)
            requires
                param == param_u as i32,
        ;
    }
    h ^ (-1 * b)
}

/// The two integers whose quotient is the pixel offset that a geometry
/// parameter stands for in a layer of extent `param_e`: the decoded
/// parameter, and the layer's units per pixel.
pub fn de_zig_zag_ratio(param_e: u32, param_u: u32) -> (r: (i32, u32))
    ensures
        r.0 as int == spec_zig_zag(param_u),
        r.1 == spec_extent_scale(param_e),
{
    (zig_zag(param_u), param_e / 2048)
}

/// Decoding an encoded value gives the value back, for every value whose
/// encoding fits below `2^31`.
pub proof fn lemma_zig_zag_inverts_encoding(v: int)
    requires
        -0x4000_0000 <= v < 0x4000_0000,
    ensures
        0 <= spec_zig_zag_encode(v) < 0x8000_0000,
        spec_zig_zag((spec_zig_zag_encode(v)) as u32) == v,
{
}

/// One drawing command of a decoded geometry. The coordinates are deltas
/// from the current cursor, in tile units.
#[derive(Clone, Copy, Debug, PartialEq, Eq)]
pub enum PathCommand {
    MoveTo(i32, i32),
    LineTo(i32, i32),
    ClosePath,
}

/// The command id of a command integer (its low three bits).
pub open spec fn command_id(c: u32) -> u32 {
    c % 8
}

/// The repeat count of a command integer (all but its low three bits).
pub open spec fn command_count(c: u32) -> u32 {
    c / 8
}

/// The `count` move or line commands whose parameters start at `start`.
pub open spec fn parameter_commands(g: Seq<u32>, start: int, count: nat, line: bool) -> Seq<
    PathCommand,
> {
    Seq::new(
        count,
        |i: int|
            if line {
                PathCommand::LineTo(
                    spec_zig_zag(g[start + 2 * i]) as i32,
                    spec_zig_zag(g[start + 2 * i + 1]) as i32,
                )
            } else {
                PathCommand::MoveTo(
                    spec_zig_zag(g[start + 2 * i]) as i32,
                    spec_zig_zag(g[start + 2 * i + 1]) as i32,
                )
            },
    )
}

/// The commands that a geometry integer stream stands for, or `None` when a
/// move or line command announces more parameters than the stream holds.
///
/// Command id 1 is MoveTo and id 2 is LineTo, each followed by two parameters
/// per repetition; any other id is one ClosePath and takes no parameters.
pub open spec fn decode_commands(g: Seq<u32>) -> Option<Seq<PathCommand>>
    decreases g.len(),
{
    if g.len() == 0 {
        Some(Seq::empty())
    } else {
        let c = g[0];
        let id = command_id(c);
        let n = command_count(c) as nat;
        if id == 1 || id == 2 {
            if 1 + 2 * n > g.len() {
                None
            } else {
                match decode_commands(g.skip(1 + 2 * n as int)) {
                    None => None,
                    Some(rest) => Some(parameter_commands(g, 1, n, id == 2) + rest),
                }
            }
        } else {
            match decode_commands(g.skip(1)) {
                None => None,
                Some(rest) => Some(seq![PathCommand::ClosePath] + rest),
            }
        }
    }
}

/// A decoded geometry: its commands, and the units per pixel by which its
/// coordinates are divided when drawn.
pub struct Path {
    pub commands: Vec<PathCommand>,
    pub scale: u32,
}

proof fn lemma_command_bits(c: u32)
    ensures
        c & 7 == command_id(c),
        c >> 3 == command_count(c),
        command_count(c) < 0x2000_0000,
{
    assert(c & 7 == c % 8) by (bit_vector);
    assert(c >> 3 == c / 8) by (bit_vector);
}

/// Whether the geometry stream decodes completely (see `decode_commands`).
pub fn geometry_complete(geometry: &Vec<u32>) -> (ok: bool)
    ensures
        ok == decode_commands(geometry@) is Some,
{
    let len = geometry.len();
    let mut pos: usize = 0;
    assert(geometry@.skip(0) =~= geometry@);
    while pos < len
        invariant
            len == geometry@.len(),
            pos <= len,
            decode_commands(geometry@) is Some <==> decode_commands(geometry@.skip(pos as int)) is Some,
        decreases len - pos,
    {
        let ghost rest = geometry@.skip(pos as int);
        let c = geometry[pos];
        proof {
            lemma_command_bits(c);
            assert(rest[0] == c);
        }
        let id = c & 7;
        let count = c >> 3;
        if id == 1 || id == 2 {
            let need: usize = 1 + 2 * (count as usize);
            if need > len - pos {
                return false;
            }
            assert(rest.skip(need as int) =~= geometry@.skip(pos + need));
            pos = pos + need;
        } else {
            assert(rest.skip(1) =~= geometry@.skip(pos + 1));
            pos = pos + 1;
        }
    }
    assert(geometry@.skip(pos as int) =~= Seq::<u32>::empty());
    true
}

/// Decodes a feature's geometry stream into its drawing commands.
pub fn path(geometry: &Vec<u32>, extent: u32) -> (p: Path)
    requires
        decode_commands(geometry@) is Some,
    ensures
        p.commands@ == decode_commands(geometry@).unwrap(),
        p.scale == spec_extent_scale(extent),
{
    let mut commands: Vec<PathCommand> = Vec::new();
    let len = geometry.len();
    let mut pos: usize = 0;
    assert(geometry@.skip(0) =~= geometry@);
    assert(Seq::<PathCommand>::empty() + decode_commands(geometry@).unwrap() =~= decode_commands(
        geometry@,
    ).unwrap());
    while pos < len
        invariant
            len == geometry@.len(),
            pos <= len,
            decode_commands(geometry@.skip(pos as int)) is Some,
            decode_commands(geometry@) == Some(
                commands@ + decode_commands(geometry@.skip(pos as int)).unwrap(),
            ),
        decreases len - pos,
    {
        let ghost rest = geometry@.skip(pos as int);
        let ghost before = commands@;
        let c = geometry[pos];
        proof {
            lemma_command_bits(c);
            assert(rest[0] == c);
        }
        let id = c & 7;
        let count = c >> 3;
        if id == 1 || id == 2 {
            let ghost line = id == 2;
            let mut k: u32 = 0;
            while k < count
                invariant
                    len == geometry@.len(),
                    pos < len,
                    rest == geometry@.skip(pos as int),
                    1 + 2 * (count as int) <= rest.len(),
                    k <= count,
                    line == (id == 2),
                    id == 1 || id == 2,
                    commands@ == before + parameter_commands(rest, 1, k as nat, line),
                decreases count - k,
            {
                let i: usize = pos + 1 + 2 * (k as usize);
                let x = zig_zag(geometry[i]);
                let y = zig_zag(geometry[i + 1]);
                assert(geometry@[i as int] == rest[1 + 2 * k]);
                assert(geometry@[i + 1] == rest[1 + 2 * k + 1]);
                if id == 2 {
                    commands.push(PathCommand::LineTo(x, y));
                } else {
                    commands.push(PathCommand::MoveTo(x, y));
                }
                assert(parameter_commands(rest, 1, (k + 1) as nat, line) =~= parameter_commands(
                    rest,
                    1,
                    k as nat,
                    line,
                ).push(parameter_commands(rest, 1, (k + 1) as nat, line)[k as int]));
                k = k + 1;
            }
            let need: usize = 1 + 2 * (count as usize);
            assert(rest.skip(need as int) =~= geometry@.skip(pos + need));
            pos = pos + need;
        } else {
            commands.push(PathCommand::ClosePath);
            assert(rest.skip(1) =~= geometry@.skip(pos + 1));
            pos = pos + 1;
        }
    }
    assert(geometry@.skip(pos as int) =~= Seq::<u32>::empty());
    assert(commands@ + Seq::<PathCommand>::empty() =~= commands@);
    Path { commands, scale: extent / 2048 }
}

/// Geometry streams compose: the commands of two complete streams one
/// after the other are the commands of the first, then those of the second.
pub proof fn lemma_decode_commands_concat(a: Seq<u32>, b: Seq<u32>)
    requires
        decode_commands(a) is Some,
        decode_commands(b) is Some,
    ensures
        decode_commands(a + b) == Some(decode_commands(a).unwrap() + decode_commands(b).unwrap()),
    decreases a.len(),
{
    let rb = decode_commands(b).unwrap();
    if a.len() == 0 {
        assert(a + b =~= b);
        assert(decode_commands(a).unwrap() + rb =~= rb);
    } else {
        let c = a[0];
        assert((a + b)[0] == c);
        let id = command_id(c);
        let n = command_count(c) as nat;
        let k: int = if id == 1 || id == 2 {
            1 + 2 * n as int
        } else {
            1
        };
        assert((a + b).skip(k) =~= a.skip(k) + b);
        lemma_decode_commands_concat(a.skip(k), b);
        let ra = decode_commands(a.skip(k)).unwrap();
        if id == 1 || id == 2 {
            let p = parameter_commands(a, 1, n, id == 2);
            assert(parameter_commands(a + b, 1, n, id == 2) =~= p);
            assert(p + (ra + rb) =~= (p + ra) + rb);
        } else {
            assert(seq![PathCommand::ClosePath] + (ra + rb) =~= (seq![PathCommand::ClosePath] + ra)
                + rb);
        }
    }
}

/// One move or line command integer: id 1 (move) or 2 (line) in its low
/// three bits and a count `n` in the rest, followed by `2n` parameters,
/// decodes to exactly `n` commands of that kind, the `i`-th taking the
/// decoded parameters `2i + 1` and `2i + 2`.
pub proof fn lemma_repeated_command(g: Seq<u32>)
    requires
        g.len() > 0,
        g[0] % 8 == 1 || g[0] % 8 == 2,
        g.len() == 1 + 2 * (g[0] / 8),
    ensures
        decode_commands(g) matches Some(cmds) && cmds.len() == g[0] / 8 && forall|i: int|
            #![trigger cmds[i]]
            0 <= i < g[0] / 8 ==> cmds[i] == if g[0] % 8 == 1 {
                PathCommand::MoveTo(
                    spec_zig_zag(g[2 * i + 1]) as i32,
                    spec_zig_zag(g[2 * i + 2]) as i32,
                )
            } else {
                PathCommand::LineTo(
                    spec_zig_zag(g[2 * i + 1]) as i32,
                    spec_zig_zag(g[2 * i + 2]) as i32,
                )
            },
{
    let n = (g[0] / 8) as nat;
    assert(g.skip(1 + 2 * n as int) =~= Seq::<u32>::empty());
    let p = parameter_commands(g, 1, n, g[0] % 8 == 2);
    assert(command_id(g[0]) == g[0] % 8);
    assert(command_count(g[0]) == n);
    assert(decode_commands(g.skip(1 + 2 * n as int)) == Some(Seq::<PathCommand>::empty()));
    assert(p + Seq::<PathCommand>::empty() =~= p);
    assert(decode_commands(g) == Some(p));
    assert forall|i: int| 0 <= i < n implies #[trigger] p[i] == if g[0] % 8 == 1 {
        PathCommand::MoveTo(spec_zig_zag(g[2 * i + 1]) as i32, spec_zig_zag(g[2 * i + 2]) as i32)
    } else {
        PathCommand::LineTo(spec_zig_zag(g[2 * i + 1]) as i32, spec_zig_zag(g[2 * i + 2]) as i32)
    } by {
        assert(1 + 2 * i + 1 == 2 * i + 2);
    }
}

/// A command integer of any other id is one ClosePath, whatever its
/// count, and takes no parameters.
pub proof fn lemma_close_command(c: u32, rest: Seq<u32>)
    requires
        c % 8 != 1 && c % 8 != 2,
        decode_commands(rest) is Some,
    ensures
        decode_commands(seq![c] + rest) == Some(
            seq![PathCommand::ClosePath] + decode_commands(rest).unwrap(),
        ),
{
    let g = seq![c] + rest;
    assert(g[0] == c);
    assert(g.skip(1) =~= rest);
}

} // verus!
