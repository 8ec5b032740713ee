//! The binary wire codec for snapshots.
//!
//! Everything is little-endian and fixed-width, with length prefixes for
//! variable data. A snapshot travels as: a packet tag byte (0), height
//! (u16), width (u16), the recipient's agent id (u16), the grid as
//! `height * width` signed 16-bit tile identifiers, the agent count
//! (u16), then for every agent: id (i16), name length (u16) and name
//! bytes, maximum length (u16), body length (u16) and that many cell
//! indices (u16 each), and one alive byte (0 or 1). Decoding validates
//! the buffer length before every read and is the exact inverse of
//! encoding; the round-trip law is [`lemma_snapshot_round_trip`].

use vstd::prelude::*;
use vstd::utf8::{decode_utf8, encode_utf8, valid_utf8};

use crate::object::{spec_tile_id, spec_tile_of_id, tile_wire_ok, Tile};
use crate::snake::{int_seq, SnakeData, SnakeRefData, SnakeRefResponseData, SnakeResponseData};

verus! {

/// Why a snapshot buffer was rejected.
#[derive(Clone, Copy, Debug, PartialEq, Eq, Structural)]
pub enum DecodeError {
    /// The buffer ended before a fixed-width field or the name bytes.
    Truncated,
    /// The name bytes are not valid UTF-8.
    InvalidName,
    /// The alive flag is missing or outside {0, 1}.
    InvalidAliveFlag,
}

/// Mathematical content of a roster entry on the encoding side.
pub struct SnakeRefView {
    pub id: int,
    pub name: Seq<char>,
    pub alive: bool,
    pub size: int,
    pub tiles: Seq<int>,
    pub color: (u8, u8, u8),
}

impl View for SnakeRefData {
    type V = SnakeRefView;

    open spec fn view(&self) -> SnakeRefView {
        SnakeRefView {
            id: self.id as int,
            name: self.name@,
            alive: self.alive,
            size: self.size as int,
            tiles: int_seq(self.tiles@),
            color: self.color,
        }
    }
}

/// Mathematical content of an outgoing snapshot.
pub struct SnakeDataView {
    pub height: int,
    pub width: int,
    pub grid: Seq<Tile>,
    pub snakes: Seq<SnakeRefView>,
}

impl<'a> View for SnakeData<'a> {
    type V = SnakeDataView;

    open spec fn view(&self) -> SnakeDataView {
        SnakeDataView {
            height: self.height as int,
            width: self.width as int,
            grid: self.grid@,
            snakes: self.snakes@.map_values(|s: SnakeRefData| s@),
        }
    }
}

/// Mathematical content of a decoded roster entry (color dropped in
/// transit).
pub struct SnakeRefResponseView {
    pub id: int,
    pub name: Seq<char>,
    pub alive: bool,
    pub tiles: Seq<int>,
    pub size: int,
}

impl View for SnakeRefResponseData {
    type V = SnakeRefResponseView;

    open spec fn view(&self) -> SnakeRefResponseView {
        SnakeRefResponseView {
            id: self.id as int,
            name: self.name@,
            alive: self.alive,
            tiles: self.tiles@.map_values(|x: u16| x as int),
            size: self.size as int,
        }
    }
}

/// Mathematical content of a decoded snapshot.
pub struct SnakeResponseView {
    pub height: int,
    pub width: int,
    pub grid: Seq<Tile>,
    pub snakes: Seq<SnakeRefResponseView>,
    pub my_snake_id: int,
}

impl View for SnakeResponseData {
    type V = SnakeResponseView;

    open spec fn view(&self) -> SnakeResponseView {
        SnakeResponseView {
            height: self.height as int,
            width: self.width as int,
            grid: self.grid@,
            snakes: self.snakes@.map_values(|s: SnakeRefResponseData| s@),
            my_snake_id: self.my_snake_id as int,
        }
    }
}

/// The two little-endian bytes of a 16-bit value.
pub open spec fn u16le(v: int) -> Seq<u8> {
    seq![(v % 256) as u8, ((v / 256) % 256) as u8]
}

/// A signed 16-bit value reinterpreted as its unsigned bit pattern.
pub open spec fn i16_to_u16(v: int) -> int {
    if v < 0 {
        v + 0x10000
    } else {
        v
    }
}

/// The two little-endian bytes of a signed 16-bit value.
pub open spec fn i16le(v: int) -> Seq<u8> {
    u16le(i16_to_u16(v))
}

/// The grid section of a snapshot: each tile's identifier in order.
pub open spec fn grid_bytes(g: Seq<Tile>) -> Seq<u8>
    decreases g.len(),
{
    if g.len() == 0 {
        Seq::empty()
    } else {
        i16le(spec_tile_id(g[0])) + grid_bytes(g.drop_first())
    }
}

/// A body cell list: each index as an unsigned 16-bit value in order.
pub open spec fn cells_bytes(ts: Seq<int>) -> Seq<u8>
    decreases ts.len(),
{
    if ts.len() == 0 {
        Seq::empty()
    } else {
        u16le(ts[0]) + cells_bytes(ts.drop_first())
    }
}

/// One roster entry on the wire.
pub open spec fn ref_bytes(s: SnakeRefView) -> Seq<u8> {
    i16le(s.id) + u16le(encode_utf8(s.name).len() as int) + encode_utf8(s.name) + u16le(s.size)
        + u16le(s.tiles.len() as int) + cells_bytes(s.tiles) + seq![
        if s.alive {
            1u8
        } else {
            0u8
        },
    ]
}

/// The roster section: every entry in order.
pub open spec fn refs_bytes(ss: Seq<SnakeRefView>) -> Seq<u8>
    decreases ss.len(),
{
    if ss.len() == 0 {
        Seq::empty()
    } else {
        ref_bytes(ss[0]) + refs_bytes(ss.drop_first())
    }
}

/// A whole snapshot on the wire, personalized for recipient `my`.
pub open spec fn snapshot_bytes(m: SnakeDataView, my: int) -> Seq<u8> {
    seq![0u8] + u16le(m.height) + u16le(m.width) + u16le(my) + grid_bytes(m.grid) + u16le(
        m.snakes.len() as int,
    ) + refs_bytes(m.snakes)
}

/// A roster entry whose fields all fit their wire formats.
pub open spec fn ref_wire_ok(s: SnakeRefView) -> bool {
    &&& i16::MIN <= s.id <= i16::MAX
    &&& encode_utf8(s.name).len() <= u16::MAX
    &&& 0 <= s.size <= u16::MAX
    &&& s.tiles.len() <= u16::MAX
    &&& forall|i: int| 0 <= i < s.tiles.len() ==> 0 <= #[trigger] s.tiles[i] <= u16::MAX
}

/// A snapshot whose grid and roster fit their wire formats.
pub open spec fn data_wire_ok(m: SnakeDataView) -> bool {
    &&& forall|i: int| 0 <= i < m.grid.len() ==> tile_wire_ok(#[trigger] m.grid[i])
    &&& m.snakes.len() <= u16::MAX
    &&& forall|i: int| 0 <= i < m.snakes.len() ==> ref_wire_ok(#[trigger] m.snakes[i])
}

/// Append a 16-bit value, little-endian.
fn push_u16(data: &mut Vec<u8>, v: u16)
    ensures
        final(data)@ == old(data)@ + u16le(v as int),
{
    data.push((v % 256) as u8);
    data.push((v / 256) as u8);
    proof {
        assert(data@ =~= old(data)@ + u16le(v as int));
    }
}

/// Append a signed 16-bit value, little-endian.
fn push_i16(data: &mut Vec<u8>, v: i16)
    ensures
        final(data)@ == old(data)@ + i16le(v as int),
{
    let u: u16 = if v >= 0 {
        v as u16
    } else {
        ((v as i32) + 0x10000) as u16
    };
    proof {
        assert(u as int == i16_to_u16(v as int));
    }
    push_u16(data, u);
}

proof fn lemma_grid_bytes_snoc(g: Seq<Tile>, t: Tile)
    ensures
        grid_bytes(g.push(t)) == grid_bytes(g) + i16le(spec_tile_id(t)),
    decreases g.len(),
{
    if g.len() == 0 {
        assert(g.push(t)[0] == t);
        assert(g.push(t).len() == 1);
        assert(g.push(t).drop_first() =~= Seq::<Tile>::empty());
        assert(grid_bytes(g.push(t)) == i16le(spec_tile_id(t)) + grid_bytes(
            Seq::<Tile>::empty(),
        ));
        assert(grid_bytes(g.push(t)) =~= grid_bytes(g) + i16le(spec_tile_id(t)));
    } else {
        assert(g.push(t)[0] == g[0]);
        assert(g.push(t).drop_first() =~= g.drop_first().push(t));
        lemma_grid_bytes_snoc(g.drop_first(), t);
        assert(grid_bytes(g.push(t)) =~= grid_bytes(g) + i16le(spec_tile_id(t)));
    }
}

proof fn lemma_cells_bytes_snoc(ts: Seq<int>, c: int)
    ensures
        cells_bytes(ts.push(c)) == cells_bytes(ts) + u16le(c),
    decreases ts.len(),
{
    if ts.len() == 0 {
        assert(ts.push(c)[0] == c);
        assert(ts.push(c).len() == 1);
        assert(ts.push(c).drop_first() =~= Seq::<int>::empty());
        assert(cells_bytes(ts.push(c)) == u16le(c) + cells_bytes(Seq::<int>::empty()));
        assert(cells_bytes(ts.push(c)) =~= cells_bytes(ts) + u16le(c));
    } else {
        assert(ts.push(c)[0] == ts[0]);
        assert(ts.push(c).drop_first() =~= ts.drop_first().push(c));
        lemma_cells_bytes_snoc(ts.drop_first(), c);
        assert(cells_bytes(ts.push(c)) =~= cells_bytes(ts) + u16le(c));
    }
}

proof fn lemma_refs_bytes_snoc(ss: Seq<SnakeRefView>, s: SnakeRefView)
    ensures
        refs_bytes(ss.push(s)) == refs_bytes(ss) + ref_bytes(s),
    decreases ss.len(),
{
    if ss.len() == 0 {
        assert(ss.push(s)[0] == s);
        assert(ss.push(s).len() == 1);
        assert(ss.push(s).drop_first() =~= Seq::<SnakeRefView>::empty());
        assert(refs_bytes(ss.push(s)) == ref_bytes(s) + refs_bytes(Seq::<SnakeRefView>::empty()));
        assert(refs_bytes(ss.push(s)) =~= refs_bytes(ss) + ref_bytes(s));
    } else {
        assert(ss.push(s)[0] == ss[0]);
        assert(ss.push(s).drop_first() =~= ss.drop_first().push(s));
        lemma_refs_bytes_snoc(ss.drop_first(), s);
        assert(refs_bytes(ss.push(s)) =~= refs_bytes(ss) + ref_bytes(s));
    }
}

/// Append one roster entry: id, name, maximum length, body, alive flag.
fn push_ref(data: &mut Vec<u8>, s: &SnakeRefData)
    requires
        ref_wire_ok(s@),
    ensures
        final(data)@ == old(data)@ + ref_bytes(s@),
{
    let ghost entry_start = data@;
    push_i16(data, s.id as i16);

    // Name: length prefix, then the UTF-8 bytes.
    let name_bytes: &[u8] = s.name.as_str().as_bytes();
    push_u16(data, name_bytes.len() as u16);
    data.extend_from_slice(name_bytes);

    push_u16(data, s.size as u16);

    // Body: length prefix, then the cell indices.
    push_u16(data, s.tiles.len() as u16);
    let ghost with_cells_prefix = data@;
    let tiles_len = s.tiles.len();
    for j in 0..tiles_len
        invariant
            tiles_len == s.tiles@.len(),
            ref_wire_ok(s@),
            data@ == with_cells_prefix + cells_bytes(s@.tiles.take(j as int)),
    {
        push_u16(data, s.tiles[j] as u16);
        proof {
            assert(s@.tiles.take(j + 1) =~= s@.tiles.take(j as int).push(s@.tiles[j as int]));
            assert(s@.tiles[j as int] == s.tiles@[j as int] as int);
            lemma_cells_bytes_snoc(s@.tiles.take(j as int), s@.tiles[j as int]);
        }
    }
    proof {
        assert(s@.tiles.take(tiles_len as int) =~= s@.tiles);
    }

    // Alive flag.
    data.push(
        if s.alive {
            1
        } else {
            0
        },
    );
    proof {
        assert(data@ =~= entry_start + ref_bytes(s@));
    }
}

impl<'a> SnakeData<'a> {
    /// Serialize this snapshot for the agent with id `snake_id`. The
    /// bytes are exactly [`snapshot_bytes`] of this snapshot's content.
    pub fn encode(&self, snake_id: i32) -> (r: Vec<u8>)
        requires
            data_wire_ok(self@),
            0 <= snake_id <= u16::MAX,
        ensures
            r@ == snapshot_bytes(self@, snake_id as int),
    {
        let ghost m = self@;
        let mut data: Vec<u8> = Vec::new();

        // Packet tag, header fields, recipient id.
        data.push(0);
        push_u16(&mut data, self.height);
        push_u16(&mut data, self.width);
        push_u16(&mut data, snake_id as u16);
        let ghost header = data@;
        proof {
            assert(header =~= seq![0u8] + u16le(m.height) + u16le(m.width) + u16le(
                snake_id as int,
            ));
        }

        // The grid, tile by tile.
        let grid_len = self.grid.len();
        for i in 0..grid_len
            invariant
                grid_len == self.grid@.len(),
                data_wire_ok(m),
                m == self@,
                data@ == header + grid_bytes(m.grid.take(i as int)),
        {
            let tid = self.grid[i].get_tile_id();
            push_i16(&mut data, tid as i16);
            proof {
                assert(m.grid.take(i + 1) =~= m.grid.take(i as int).push(m.grid[i as int]));
                lemma_grid_bytes_snoc(m.grid.take(i as int), m.grid[i as int]);
            }
        }
        proof {
            assert(m.grid.take(grid_len as int) =~= m.grid);
        }
        let ghost with_grid = data@;

        // Roster count, then every entry.
        push_u16(&mut data, self.snakes.len() as u16);
        let ghost with_count = data@;
        let snake_count = self.snakes.len();
        for i in 0..snake_count
            invariant
                snake_count == self.snakes@.len(),
                data_wire_ok(m),
                m == self@,
                data@ == with_count + refs_bytes(m.snakes.take(i as int)),
        {
            let s = &self.snakes[i];
            proof {
                assert(s@ == m.snakes[i as int]);
            }
            push_ref(&mut data, s);
            proof {
                assert(m.snakes.take(i + 1) =~= m.snakes.take(i as int).push(m.snakes[i as int]));
                lemma_refs_bytes_snoc(m.snakes.take(i as int), m.snakes[i as int]);
                assert(data@ =~= with_count + refs_bytes(m.snakes.take(i + 1)));
            }
        }
        proof {
            assert(m.snakes.take(snake_count as int) =~= m.snakes);
            assert(data@ =~= snapshot_bytes(m, snake_id as int));
        }
        data
    }
}


/// Read a little-endian 16-bit value off the front of `b`.
pub open spec fn rd_u16(b: Seq<u8>) -> Result<(int, Seq<u8>), DecodeError> {
    if b.len() >= 2 {
        Ok((b[0] + 256 * b[1], b.skip(2)))
    } else {
        Err(DecodeError::Truncated)
    }
}

/// An unsigned 16-bit bit pattern reinterpreted as a signed value.
pub open spec fn u16_as_i16(v: int) -> int {
    if v >= 0x8000 {
        v - 0x10000
    } else {
        v
    }
}

/// Read a little-endian signed 16-bit value off the front of `b`.
pub open spec fn rd_i16(b: Seq<u8>) -> Result<(int, Seq<u8>), DecodeError> {
    match rd_u16(b) {
        Ok((v, r)) => Ok((u16_as_i16(v), r)),
        Err(e) => Err(e),
    }
}

/// Read `n` tile identifiers off the front of `b`.
pub open spec fn rd_tiles(b: Seq<u8>, n: int) -> Result<(Seq<Tile>, Seq<u8>), DecodeError>
    decreases n,
{
    if n <= 0 {
        Ok((Seq::empty(), b))
    } else {
        match rd_i16(b) {
            Ok((v, r)) => match rd_tiles(r, n - 1) {
                Ok((g, r2)) => Ok((seq![spec_tile_of_id(v)] + g, r2)),
                Err(e) => Err(e),
            },
            Err(e) => Err(e),
        }
    }
}

/// Read `n` cell indices off the front of `b`.
pub open spec fn rd_cells(b: Seq<u8>, n: int) -> Result<(Seq<int>, Seq<u8>), DecodeError>
    decreases n,
{
    if n <= 0 {
        Ok((Seq::empty(), b))
    } else {
        match rd_u16(b) {
            Ok((v, r)) => match rd_cells(r, n - 1) {
                Ok((c, r2)) => Ok((seq![v] + c, r2)),
                Err(e) => Err(e),
            },
            Err(e) => Err(e),
        }
    }
}

/// Read a length-prefixed UTF-8 name off the front of `b`.
pub open spec fn rd_name(b: Seq<u8>) -> Result<(Seq<char>, Seq<u8>), DecodeError> {
    match rd_u16(b) {
        Ok((len, r)) => if r.len() < len {
            Err(DecodeError::Truncated)
        } else {
            let nb = r.take(len);
            if valid_utf8(nb) {
                Ok((decode_utf8(nb), r.skip(len)))
            } else {
                Err(DecodeError::InvalidName)
            }
        },
        Err(e) => Err(e),
    }
}

/// Read the alive flag: a missing byte or one outside {0, 1} is invalid.
pub open spec fn rd_alive(b: Seq<u8>) -> Result<(bool, Seq<u8>), DecodeError> {
    if b.len() >= 1 && b[0] == 1 {
        Ok((true, b.skip(1)))
    } else if b.len() >= 1 && b[0] == 0 {
        Ok((false, b.skip(1)))
    } else {
        Err(DecodeError::InvalidAliveFlag)
    }
}

/// Read one roster entry off the front of `b`.
pub open spec fn rd_ref(b: Seq<u8>) -> Result<(SnakeRefResponseView, Seq<u8>), DecodeError> {
    match rd_i16(b) {
        Err(e) => Err(e),
        Ok((id, r1)) => match rd_name(r1) {
            Err(e) => Err(e),
            Ok((nm, r2)) => match rd_u16(r2) {
                Err(e) => Err(e),
                Ok((size, r3)) => match rd_u16(r3) {
                    Err(e) => Err(e),
                    Ok((ntiles, r4)) => match rd_cells(r4, ntiles) {
                        Err(e) => Err(e),
                        Ok((cells, r5)) => match rd_alive(r5) {
                            Err(e) => Err(e),
                            Ok((alive, r6)) => Ok(
                                (
                                    SnakeRefResponseView {
                                        id,
                                        name: nm,
                                        alive,
                                        tiles: cells,
                                        size,
                                    },
                                    r6,
                                ),
                            ),
                        },
                    },
                },
            },
        },
    }
}

/// Read `n` roster entries off the front of `b`.
pub open spec fn rd_refs(b: Seq<u8>, n: int) -> Result<
    (Seq<SnakeRefResponseView>, Seq<u8>),
    DecodeError,
>
    decreases n,
{
    if n <= 0 {
        Ok((Seq::empty(), b))
    } else {
        match rd_ref(b) {
            Ok((s, r)) => match rd_refs(r, n - 1) {
                Ok((ss, r2)) => Ok((seq![s] + ss, r2)),
                Err(e) => Err(e),
            },
            Err(e) => Err(e),
        }
    }
}

/// What a snapshot buffer decodes to: the exact reader-by-reader parse
/// of the wire layout, or the first error met. Bytes after the last
/// roster entry are ignored, and the leading packet tag byte is skipped
/// without being examined.
pub open spec fn spec_decode(b: Seq<u8>) -> Result<SnakeResponseView, DecodeError> {
    if b.len() < 1 {
        Err(DecodeError::Truncated)
    } else {
        match rd_u16(b.skip(1)) {
            Err(e) => Err(e),
            Ok((h, r1)) => match rd_u16(r1) {
                Err(e) => Err(e),
                Ok((w, r2)) => match rd_u16(r2) {
                    Err(e) => Err(e),
                    Ok((my, r3)) => match rd_tiles(r3, h * w) {
                        Err(e) => Err(e),
                        Ok((g, r4)) => match rd_u16(r4) {
                            Err(e) => Err(e),
                            Ok((cnt, r5)) => match rd_refs(r5, cnt) {
                                Err(e) => Err(e),
                                Ok((ss, _r6)) => Ok(
                                    SnakeResponseView {
                                        height: h,
                                        width: w,
                                        grid: g,
                                        snakes: ss,
                                        my_snake_id: my,
                                    },
                                ),
                            },
                        },
                    },
                },
            },
        }
    }
}

/// A decode result with the snapshot replaced by its mathematical view.
pub open spec fn decode_view(r: Result<SnakeResponseData, DecodeError>) -> Result<
    SnakeResponseView,
    DecodeError,
> {
    match r {
        Ok(d) => Ok(d@),
        Err(e) => Err(e),
    }
}

/// Relies on String::from_utf8: returns the string decoded from the
/// bytes exactly when they are valid UTF-8, and nothing otherwise.
#[verifier::external_body]
fn string_from_utf8(bytes: Vec<u8>) -> (r: Option<String>)
    ensures
        r is Some <==> valid_utf8(bytes@),
        r matches Some(s) ==> s@ == decode_utf8(bytes@),
{
    String::from_utf8(bytes).ok()
}

/// Read a 16-bit field, advancing `offset` past it on success.
fn read_u16(buffer: &[u8], offset: &mut usize) -> (r: Result<u16, DecodeError>)
    requires
        *old(offset) <= buffer@.len(),
    ensures
        match r {
            Ok(v) => {
                &&& rd_u16(buffer@.skip(*old(offset) as int)) == Ok::<(int, Seq<u8>), DecodeError>(
                    (v as int, buffer@.skip(*final(offset) as int)),
                )
                &&& *final(offset) == *old(offset) + 2
                &&& *final(offset) <= buffer@.len()
            },
            Err(e) => {
                &&& rd_u16(buffer@.skip(*old(offset) as int)) == Err::<
                    (int, Seq<u8>),
                    DecodeError,
                >(e)
                &&& *final(offset) == *old(offset)
            },
        },
{
    if buffer.len() - *offset < 2 {
        return Err(DecodeError::Truncated);
    }
    let lo = buffer[*offset];
    let hi = buffer[*offset + 1];
    *offset = *offset + 2;
    proof {
        let b0 = buffer@.skip((*offset - 2) as int);
        assert(b0[0] == lo && b0[1] == hi);
        assert(b0.skip(2) =~= buffer@.skip(*offset as int));
    }
    Ok(lo as u16 + (hi as u16) * 256)
}

/// Read a signed 16-bit field, advancing `offset` past it on success.
fn read_i16(buffer: &[u8], offset: &mut usize) -> (r: Result<i16, DecodeError>)
    requires
        *old(offset) <= buffer@.len(),
    ensures
        match r {
            Ok(v) => {
                &&& rd_i16(buffer@.skip(*old(offset) as int)) == Ok::<(int, Seq<u8>), DecodeError>(
                    (v as int, buffer@.skip(*final(offset) as int)),
                )
                &&& *final(offset) == *old(offset) + 2
                &&& *final(offset) <= buffer@.len()
            },
            Err(e) => {
                &&& rd_i16(buffer@.skip(*old(offset) as int)) == Err::<
                    (int, Seq<u8>),
                    DecodeError,
                >(e)
                &&& *final(offset) == *old(offset)
            },
        },
{
    let raw = match read_u16(buffer, offset) {
        Ok(v) => v,
        Err(e) => {
            return Err(e);
        },
    };
    if raw >= 0x8000 {
        Ok(((raw as i32) - 0x10000) as i16)
    } else {
        Ok(raw as i16)
    }
}

/// Read the alive flag, advancing `offset` past it on success.
fn read_alive(buffer: &[u8], offset: &mut usize) -> (r: Result<bool, DecodeError>)
    requires
        *old(offset) <= buffer@.len(),
    ensures
        match r {
            Ok(v) => {
                &&& rd_alive(buffer@.skip(*old(offset) as int)) == Ok::<
                    (bool, Seq<u8>),
                    DecodeError,
                >((v, buffer@.skip(*final(offset) as int)))
                &&& *final(offset) == *old(offset) + 1
                &&& *final(offset) <= buffer@.len()
            },
            Err(e) => {
                &&& rd_alive(buffer@.skip(*old(offset) as int)) == Err::<
                    (bool, Seq<u8>),
                    DecodeError,
                >(e)
                &&& *final(offset) == *old(offset)
            },
        },
{
    if buffer.len() - *offset < 1 {
        return Err(DecodeError::InvalidAliveFlag);
    }
    let flag = buffer[*offset];
    if flag == 1 {
        *offset = *offset + 1;
        proof {
            assert(buffer@.skip((*offset - 1) as int).skip(1) =~= buffer@.skip(*offset as int));
        }
        Ok(true)
    } else if flag == 0 {
        *offset = *offset + 1;
        proof {
            assert(buffer@.skip((*offset - 1) as int).skip(1) =~= buffer@.skip(*offset as int));
        }
        Ok(false)
    } else {
        Err(DecodeError::InvalidAliveFlag)
    }
}

/// Read a length-prefixed UTF-8 name, advancing `offset` on success.
fn read_name(buffer: &[u8], offset: &mut usize) -> (r: Result<String, DecodeError>)
    requires
        *old(offset) <= buffer@.len(),
    ensures
        match r {
            Ok(s) => {
                &&& rd_name(buffer@.skip(*old(offset) as int)) == Ok::<
                    (Seq<char>, Seq<u8>),
                    DecodeError,
                >((s@, buffer@.skip(*final(offset) as int)))
                &&& *final(offset) <= buffer@.len()
                &&& *old(offset) <= *final(offset)
            },
            Err(e) => rd_name(buffer@.skip(*old(offset) as int)) == Err::<
                (Seq<char>, Seq<u8>),
                DecodeError,
            >(e),
        },
{
    let ghost b0 = buffer@.skip(*old(offset) as int);
    let len = match read_u16(buffer, offset) {
        Ok(v) => v,
        Err(e) => {
            return Err(e);
        },
    };
    let ghost r = buffer@.skip(*offset as int);
    let nlen = len as usize;
    if buffer.len() - *offset < nlen {
        proof {
            assert(r.len() < len as int);
        }
        return Err(DecodeError::Truncated);
    }
    let start = *offset;
    let mut nb: Vec<u8> = Vec::new();
    for k in 0..nlen
        invariant
            start + nlen <= buffer@.len(),
            start + nlen <= usize::MAX,
            nb@ =~= buffer@.subrange(start as int, start + k),
    {
        nb.push(buffer[start + k]);
        proof {
            assert(nb@ =~= buffer@.subrange(start as int, start + k + 1));
        }
    }
    *offset = start + nlen;
    proof {
        assert(nb@ =~= r.take(len as int));
        assert(r.skip(len as int) =~= buffer@.skip(*offset as int));
    }
    match string_from_utf8(nb) {
        Some(s) => Ok(s),
        None => Err(DecodeError::InvalidName),
    }
}


/// Read one roster entry, advancing `offset` past it on success.
#[verifier::loop_isolation(false)]
fn read_ref(buffer: &[u8], offset: &mut usize) -> (r: Result<SnakeRefResponseData, DecodeError>)
    requires
        *old(offset) <= buffer@.len(),
    ensures
        match r {
            Ok(d) => {
                &&& rd_ref(buffer@.skip(*old(offset) as int)) == Ok::<
                    (SnakeRefResponseView, Seq<u8>),
                    DecodeError,
                >((d@, buffer@.skip(*final(offset) as int)))
                &&& *final(offset) <= buffer@.len()
            },
            Err(e) => rd_ref(buffer@.skip(*old(offset) as int)) == Err::<
                (SnakeRefResponseView, Seq<u8>),
                DecodeError,
            >(e),
        },
{
    let id = match read_i16(buffer, offset) {
        Ok(v) => v,
        Err(e) => {
            return Err(e);
        },
    };
    let name = match read_name(buffer, offset) {
        Ok(v) => v,
        Err(e) => {
            return Err(e);
        },
    };
    let size = match read_u16(buffer, offset) {
        Ok(v) => v,
        Err(e) => {
            return Err(e);
        },
    };
    let ntiles = match read_u16(buffer, offset) {
        Ok(v) => v,
        Err(e) => {
            return Err(e);
        },
    };
    let ghost cells_start = buffer@.skip(*offset as int);
    let mut tiles: Vec<u16> = Vec::new();
    let mut k: usize = 0;
    while k < ntiles as usize
        invariant
            k <= ntiles,
            *offset <= buffer@.len(),
            rd_cells(cells_start, ntiles as int) == (match rd_cells(
                buffer@.skip(*offset as int),
                ntiles - k,
            ) {
                Ok(p) => Ok::<(Seq<int>, Seq<u8>), DecodeError>(
                    (tiles@.map_values(|x: u16| x as int) + p.0, p.1),
                ),
                Err(e) => Err::<(Seq<int>, Seq<u8>), DecodeError>(e),
            }),
        decreases ntiles as int - k,
    {
        let ghost cur = buffer@.skip(*offset as int);
        let ghost tiles0 = tiles@.map_values(|x: u16| x as int);
        let v = match read_u16(buffer, offset) {
            Ok(v) => v,
            Err(e) => {
                proof {
                    assert(rd_cells(cur, ntiles - k) == Err::<(Seq<int>, Seq<u8>), DecodeError>(
                        e,
                    ));
                }
                return Err(e);
            },
        };
        tiles.push(v);
        k = k + 1;
        proof {
            assert(tiles@.map_values(|x: u16| x as int) =~= tiles0.push(v as int));
            match rd_cells(buffer@.skip(*offset as int), ntiles - k) {
                Ok(p) => {
                    assert(tiles0.push(v as int) + p.0 =~= tiles0 + (seq![v as int] + p.0));
                },
                Err(e) => {},
            }
        }
    }
    proof {
        assert(tiles@.map_values(|x: u16| x as int) + Seq::<int>::empty() =~= tiles@.map_values(
            |x: u16| x as int,
        ));
    }
    let alive = match read_alive(buffer, offset) {
        Ok(v) => v,
        Err(e) => {
            return Err(e);
        },
    };
    Ok(SnakeRefResponseData { id: id as i32, name, alive, tiles, size })
}

impl SnakeResponseData {
    /// Decode a snapshot buffer. The result is exactly [`spec_decode`] of
    /// the bytes: the reconstructed snapshot on success, and the first
    /// error met (a truncated buffer, a non-UTF-8 name, or a bad alive
    /// flag) otherwise. No input makes this panic.
    #[verifier::loop_isolation(false)]
    pub fn decode(buffer: &[u8]) -> (r: Result<SnakeResponseData, DecodeError>)
        ensures
            decode_view(r) == spec_decode(buffer@),
    {
        if buffer.len() < 1 {
            return Err(DecodeError::Truncated);
        }
        let mut offset: usize = 1;
        let height = match read_u16(buffer, &mut offset) {
            Ok(v) => v,
            Err(e) => {
                return Err(e);
            },
        };
        let width = match read_u16(buffer, &mut offset) {
            Ok(v) => v,
            Err(e) => {
                return Err(e);
            },
        };
        let my = match read_u16(buffer, &mut offset) {
            Ok(v) => v,
            Err(e) => {
                return Err(e);
            },
        };
        proof {
            assert((height as int) * (width as int) <= 0xFFFF * 0xFFFF) by (nonlinear_arith)
                requires
                    height as int <= 0xFFFF,
                    width as int <= 0xFFFF,
                    0 <= height as int,
                    0 <= width as int,
            ;
        }
        let total = (height as usize) * (width as usize);
        let ghost grid_start = buffer@.skip(offset as int);
        let mut grid: Vec<Tile> = Vec::new();
        let mut k: usize = 0;
        while k < total
            invariant
                k <= total,
                offset <= buffer@.len(),
                rd_tiles(grid_start, total as int) == (match rd_tiles(
                    buffer@.skip(offset as int),
                    total - k,
                ) {
                    Ok(p) => Ok::<(Seq<Tile>, Seq<u8>), DecodeError>((grid@ + p.0, p.1)),
                    Err(e) => Err::<(Seq<Tile>, Seq<u8>), DecodeError>(e),
                }),
            decreases total - k,
        {
            let ghost cur = buffer@.skip(offset as int);
            let ghost grid0 = grid@;
            let v = match read_i16(buffer, &mut offset) {
                Ok(v) => v,
                Err(e) => {
                    proof {
                        assert(rd_tiles(cur, total - k) == Err::<(Seq<Tile>, Seq<u8>), DecodeError>(
                            e,
                        ));
                    }
                    return Err(e);
                },
            };
            grid.push(Tile::from_tile_id(v));
            k = k + 1;
            proof {
                assert(grid@ =~= grid0.push(spec_tile_of_id(v as int)));
                match rd_tiles(buffer@.skip(offset as int), total - k) {
                    Ok(p) => {
                        assert(grid0.push(spec_tile_of_id(v as int)) + p.0 =~= grid0 + (seq![
                            spec_tile_of_id(v as int),
                        ] + p.0));
                    },
                    Err(e) => {},
                }
            }
        }
        proof {
            assert(grid@ + Seq::<Tile>::empty() =~= grid@);
        }
        let count = match read_u16(buffer, &mut offset) {
            Ok(v) => v,
            Err(e) => {
                return Err(e);
            },
        };
        let ghost refs_start = buffer@.skip(offset as int);
        let mut snakes: Vec<SnakeRefResponseData> = Vec::new();
        let mut j: usize = 0;
        while j < count as usize
            invariant
                j <= count,
                offset <= buffer@.len(),
                rd_refs(refs_start, count as int) == (match rd_refs(
                    buffer@.skip(offset as int),
                    count - j,
                ) {
                    Ok(p) => Ok::<(Seq<SnakeRefResponseView>, Seq<u8>), DecodeError>(
                        (snakes@.map_values(|s: SnakeRefResponseData| s@) + p.0, p.1),
                    ),
                    Err(e) => Err::<(Seq<SnakeRefResponseView>, Seq<u8>), DecodeError>(e),
                }),
            decreases count as int - j,
        {
            let ghost cur = buffer@.skip(offset as int);
            let ghost snakes0 = snakes@.map_values(|s: SnakeRefResponseData| s@);
            let entry = match read_ref(buffer, &mut offset) {
                Ok(v) => v,
                Err(e) => {
                    proof {
                        assert(rd_refs(cur, count - j) == Err::<
                            (Seq<SnakeRefResponseView>, Seq<u8>),
                            DecodeError,
                        >(e));
                    }
                    return Err(e);
                },
            };
            let ghost entry_view = entry@;
            snakes.push(entry);
            j = j + 1;
            proof {
                assert(snakes@.map_values(|s: SnakeRefResponseData| s@) =~= snakes0.push(
                    entry_view,
                ));
                match rd_refs(buffer@.skip(offset as int), count - j) {
                    Ok(p) => {
                        assert(snakes0.push(entry_view) + p.0 =~= snakes0 + (seq![entry_view]
                            + p.0));
                    },
                    Err(e) => {},
                }
            }
        }
        proof {
            assert(snakes@.map_values(|s: SnakeRefResponseData| s@) + Seq::<
                SnakeRefResponseView,
            >::empty() =~= snakes@.map_values(|s: SnakeRefResponseData| s@));
        }
        let d = SnakeResponseData { height, width, grid, snakes, my_snake_id: my };
        proof {
            assert(d@.grid == grid@);
            assert(d@.snakes == snakes@.map_values(|s: SnakeRefResponseData| s@));
        }
        Ok(d)
    }
}


/// The roster entry a peer reconstructs from one on the encoding side:
/// the same identity, name, body, growth counter and alive flag; the
/// color is dropped in transit.
pub open spec fn resp_of(s: SnakeRefView) -> SnakeRefResponseView {
    SnakeRefResponseView { id: s.id, name: s.name, alive: s.alive, tiles: s.tiles, size: s.size }
}

proof fn lemma_rd_u16_of(v: int, rest: Seq<u8>)
    requires
        0 <= v <= 0xFFFF,
    ensures
        rd_u16(u16le(v) + rest) == Ok::<(int, Seq<u8>), DecodeError>((v, rest)),
{
    let b = u16le(v) + rest;
    assert(b[0] == (v % 256) as u8);
    assert(b[1] == ((v / 256) % 256) as u8);
    assert(v % 256 + 256 * ((v / 256) % 256) == v) by {
        vstd::arithmetic::div_mod::lemma_fundamental_div_mod(v, 256);
        assert(0 <= v / 256 < 256);
    };
    assert(b.skip(2) =~= rest);
}

proof fn lemma_rd_i16_of(v: int, rest: Seq<u8>)
    requires
        -0x8000 <= v <= 0x7FFF,
    ensures
        rd_i16(i16le(v) + rest) == Ok::<(int, Seq<u8>), DecodeError>((v, rest)),
{
    lemma_rd_u16_of(i16_to_u16(v), rest);
}

proof fn lemma_rd_alive_of(a: bool, rest: Seq<u8>)
    ensures
        rd_alive(
            seq![
                if a {
                    1u8
                } else {
                    0u8
                },
            ] + rest,
        ) == Ok::<(bool, Seq<u8>), DecodeError>((a, rest)),
{
    let b = seq![
        if a {
            1u8
        } else {
            0u8
        },
    ] + rest;
    assert(b.skip(1) =~= rest);
}

proof fn lemma_rd_tiles_of(g: Seq<Tile>, rest: Seq<u8>)
    requires
        forall|i: int| 0 <= i < g.len() ==> tile_wire_ok(#[trigger] g[i]),
    ensures
        rd_tiles(grid_bytes(g) + rest, g.len() as int) == Ok::<(Seq<Tile>, Seq<u8>), DecodeError>(
            (g, rest),
        ),
    decreases g.len(),
{
    if g.len() == 0 {
        assert(grid_bytes(g) + rest =~= rest);
        assert(Seq::<Tile>::empty() =~= g);
    } else {
        let tail = g.drop_first();
        assert(grid_bytes(g) + rest =~= i16le(spec_tile_id(g[0])) + (grid_bytes(tail) + rest));
        assert(tile_wire_ok(g[0]));
        lemma_rd_i16_of(spec_tile_id(g[0]), grid_bytes(tail) + rest);
        crate::object::lemma_tile_id_round_trip(g[0]);
        assert(forall|i: int| 0 <= i < tail.len() ==> tile_wire_ok(#[trigger] tail[i])) by {
            assert(forall|i: int| 0 <= i < tail.len() ==> #[trigger] tail[i] == g[i + 1]);
        };
        lemma_rd_tiles_of(tail, rest);
        assert(seq![g[0]] + tail =~= g);
    }
}

proof fn lemma_rd_cells_of(ts: Seq<int>, rest: Seq<u8>)
    requires
        forall|i: int| 0 <= i < ts.len() ==> 0 <= #[trigger] ts[i] <= 0xFFFF,
    ensures
        rd_cells(cells_bytes(ts) + rest, ts.len() as int) == Ok::<(Seq<int>, Seq<u8>), DecodeError>(
            (ts, rest),
        ),
    decreases ts.len(),
{
    if ts.len() == 0 {
        assert(cells_bytes(ts) + rest =~= rest);
        assert(Seq::<int>::empty() =~= ts);
    } else {
        let tail = ts.drop_first();
        assert(cells_bytes(ts) + rest =~= u16le(ts[0]) + (cells_bytes(tail) + rest));
        lemma_rd_u16_of(ts[0], cells_bytes(tail) + rest);
        assert(forall|i: int| 0 <= i < tail.len() ==> 0 <= #[trigger] tail[i] <= 0xFFFF) by {
            assert(forall|i: int| 0 <= i < tail.len() ==> #[trigger] tail[i] == ts[i + 1]);
        };
        lemma_rd_cells_of(tail, rest);
        assert(seq![ts[0]] + tail =~= ts);
    }
}

proof fn lemma_rd_name_of(nm: Seq<char>, rest: Seq<u8>)
    requires
        encode_utf8(nm).len() <= 0xFFFF,
    ensures
        rd_name(u16le(encode_utf8(nm).len() as int) + (encode_utf8(nm) + rest)) == Ok::<
            (Seq<char>, Seq<u8>),
            DecodeError,
        >((nm, rest)),
{
    broadcast use vstd::utf8::encode_utf8_valid_utf8, vstd::utf8::encode_utf8_decode_utf8;

    let enc = encode_utf8(nm);
    let len = enc.len() as int;
    lemma_rd_u16_of(len, enc + rest);
    assert((enc + rest).take(len) =~= enc);
    assert((enc + rest).skip(len) =~= rest);
}

#[verifier::rlimit(60)]
proof fn lemma_rd_ref_of(s: SnakeRefView, rest: Seq<u8>)
    requires
        ref_wire_ok(s),
    ensures
        rd_ref(ref_bytes(s) + rest) == Ok::<(SnakeRefResponseView, Seq<u8>), DecodeError>(
            (resp_of(s), rest),
        ),
{
    let enc = encode_utf8(s.name);
    let alive_b = seq![
        if s.alive {
            1u8
        } else {
            0u8
        },
    ];
    let r5 = alive_b + rest;
    let r4 = cells_bytes(s.tiles) + r5;
    let r3 = u16le(s.tiles.len() as int) + r4;
    let r2 = u16le(s.size) + r3;
    let rn = u16le(enc.len() as int) + (enc + r2);
    assert(ref_bytes(s) + rest =~= i16le(s.id) + rn);
    lemma_rd_i16_of(s.id, rn);
    lemma_rd_name_of(s.name, r2);
    lemma_rd_u16_of(s.size, r3);
    lemma_rd_u16_of(s.tiles.len() as int, r4);
    lemma_rd_cells_of(s.tiles, r5);
    lemma_rd_alive_of(s.alive, rest);
}

#[verifier::rlimit(60)]
proof fn lemma_rd_refs_of(ss: Seq<SnakeRefView>, rest: Seq<u8>)
    requires
        forall|i: int| 0 <= i < ss.len() ==> ref_wire_ok(#[trigger] ss[i]),
    ensures
        rd_refs(refs_bytes(ss) + rest, ss.len() as int) == Ok::<
            (Seq<SnakeRefResponseView>, Seq<u8>),
            DecodeError,
        >((ss.map_values(|x: SnakeRefView| resp_of(x)), rest)),
    decreases ss.len(),
{
    if ss.len() == 0 {
        assert(refs_bytes(ss) + rest =~= rest);
        assert(Seq::<SnakeRefResponseView>::empty() =~= ss.map_values(
            |x: SnakeRefView| resp_of(x),
        ));
    } else {
        let tail = ss.drop_first();
        assert(refs_bytes(ss) + rest =~= ref_bytes(ss[0]) + (refs_bytes(tail) + rest));
        assert(ref_wire_ok(ss[0]));
        lemma_rd_ref_of(ss[0], refs_bytes(tail) + rest);
        assert(forall|i: int| 0 <= i < tail.len() ==> ref_wire_ok(#[trigger] tail[i])) by {
            assert(forall|i: int| 0 <= i < tail.len() ==> #[trigger] tail[i] == ss[i + 1]);
        };
        lemma_rd_refs_of(tail, rest);
        assert(seq![resp_of(ss[0])] + tail.map_values(|x: SnakeRefView| resp_of(x))
            =~= ss.map_values(|x: SnakeRefView| resp_of(x)));
    }
}

/// Law (snapshot round trip): decoding an encoded snapshot yields the
/// identical height, width, grid and roster (modulo the color, which is
/// dropped in transit), and the recipient id comes back as
/// `my_snake_id`.
pub proof fn lemma_snapshot_round_trip(m: SnakeDataView, my: int)
    requires
        data_wire_ok(m),
        0 <= my <= 0xFFFF,
        0 <= m.height <= 0xFFFF,
        0 <= m.width <= 0xFFFF,
        m.grid.len() == m.height * m.width,
    ensures
        spec_decode(snapshot_bytes(m, my)) == Ok::<SnakeResponseView, DecodeError>(
            SnakeResponseView {
                height: m.height,
                width: m.width,
                grid: m.grid,
                snakes: m.snakes.map_values(|x: SnakeRefView| resp_of(x)),
                my_snake_id: my,
            },
        ),
{
    let b = snapshot_bytes(m, my);
    let r5 = refs_bytes(m.snakes);
    let r4 = u16le(m.snakes.len() as int) + r5;
    let r3 = grid_bytes(m.grid) + r4;
    let r2 = u16le(my) + r3;
    let r1 = u16le(m.width) + r2;
    assert(b.len() >= 1);
    assert(b.skip(1) =~= u16le(m.height) + r1);
    lemma_rd_u16_of(m.height, r1);
    lemma_rd_u16_of(m.width, r2);
    lemma_rd_u16_of(my, r3);
    lemma_rd_tiles_of(m.grid, r4);
    lemma_rd_u16_of(m.snakes.len() as int, r5);
    lemma_rd_refs_of(m.snakes, Seq::empty());
    assert(refs_bytes(m.snakes) + Seq::<u8>::empty() =~= r5);
}


/// The four little-endian bytes of a 32-bit value.
pub open spec fn u32le(v: int) -> Seq<u8> {
    seq![
        (v % 256) as u8,
        ((v / 256) % 256) as u8,
        ((v / 0x10000) % 256) as u8,
        ((v / 0x1000000) % 256) as u8,
    ]
}

/// A signed 32-bit value reinterpreted as its unsigned bit pattern.
pub open spec fn i32_to_u32(v: int) -> int {
    if v < 0 {
        v + 0x100000000
    } else {
        v
    }
}

/// The winner announcement: tag byte 2, then the winner's id as a
/// little-endian 32-bit value.
pub open spec fn winner_bytes(winner_id: int) -> Seq<u8> {
    seq![2u8] + u32le(i32_to_u32(winner_id))
}

/// Serialize the winner announcement for `winner_id`.
pub fn winner_packet(winner_id: i32) -> (r: Vec<u8>)
    ensures
        r@ == winner_bytes(winner_id as int),
{
    let u: u32 = if winner_id >= 0 {
        winner_id as u32
    } else {
        ((winner_id as i64) + 0x100000000) as u32
    };
    proof {
        assert(u as int == i32_to_u32(winner_id as int));
    }
    let mut r: Vec<u8> = Vec::new();
    r.push(2);
    r.push((u % 256) as u8);
    r.push(((u / 256) % 256) as u8);
    r.push(((u / 0x10000) % 256) as u8);
    r.push(((u / 0x1000000) % 256) as u8);
    proof {
        assert(r@ =~= winner_bytes(winner_id as int));
    }
    r
}

} // verus!
