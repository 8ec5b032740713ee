//! Decision core of a remote-channel controller.
//!
//! A remote agent talks over a byte-stream endpoint owned by the host
//! program. The host hands whatever bytes arrived to [`ChannelState`],
//! which decodes command packets: tags 10 to 13 set the current
//! direction, tag 20 carries a count-prefixed list of marked cell
//! indices (consumed greedily from what is available), any other tag is
//! skipped, and parsing stops at the end of the buffer or at a zero
//! sentinel byte in front of the next record. A poll that found no bytes
//! is counted, and the last direction simply stays in force.

use vstd::prelude::*;

use crate::snake::{Direction, PlayerInfo, spec_direction_name};

verus! {

/// The 16-bit value that two little-endian bytes carry.
pub open spec fn spec_le16(lo: u8, hi: u8) -> u16 {
    (lo + 256 * hi) as u16
}

/// Greedily read up to `n` little-endian 16-bit values off the front of
/// `b`: as many as requested, or as many as complete byte pairs remain.
/// Yields the values and the unread rest of the buffer.
pub open spec fn take_pairs(b: Seq<u8>, n: int) -> (Seq<u16>, Seq<u8>) {
    let k = vstd::math::min(vstd::math::max(n, 0), b.len() as int / 2);
    (Seq::new(k as nat, |i: int| spec_le16(b[2 * i], b[2 * i + 1])), b.skip(2 * k))
}

/// One command record off the front of a nonempty buffer: the direction
/// and marked cells after it, and the unread rest.
pub open spec fn step_of(b: Seq<u8>, d: Direction, c: Seq<u16>) -> (Direction, Seq<u16>, Seq<u8>)
    recommends
        b.len() > 0,
{
    let tag = b[0];
    let rest = b.skip(1);
    if tag == 10 {
        (Direction::UP, c, rest)
    } else if tag == 11 {
        (Direction::DOWN, c, rest)
    } else if tag == 12 {
        (Direction::LEFT, c, rest)
    } else if tag == 13 {
        (Direction::RIGHT, c, rest)
    } else if tag == 20 && rest.len() >= 2 {
        let cnt = spec_le16(rest[0], rest[1]);
        let t = take_pairs(rest.skip(2), cnt as int);
        (d, t.0, t.1)
    } else {
        (d, c, rest)
    }
}

/// What a whole command buffer does to a controller that currently
/// holds direction `d` and marked cells `c`: records are consumed until
/// the buffer is exhausted or a zero byte stands in front of the next
/// record.
pub open spec fn parse_commands(b: Seq<u8>, d: Direction, c: Seq<u16>) -> (Direction, Seq<u16>)
    decreases b.len(),
{
    if b.len() == 0 {
        (d, c)
    } else {
        let s = step_of(b, d, c);
        if s.2.len() == 0 || s.2[0] == 0 {
            (s.0, s.1)
        } else {
            parse_commands(s.2, s.0, s.1)
        }
    }
}

/// The 16-bit value two little-endian bytes carry.
pub fn le16(lo: u8, hi: u8) -> (r: u16)
    ensures
        r == spec_le16(lo, hi),
{
    lo as u16 + (hi as u16) * 256
}

/// The connection-independent state of a remote-channel controller: the
/// last decoded direction, the marked cells of the last info packet, the
/// peer's display name, and how many polls found no input.
pub struct ChannelState {
    pub direction: Direction,
    pub marked_cells: Vec<u16>,
    pub ai_name: String,
    pub missed_inputs: i32,
}

impl ChannelState {
    /// A fresh channel core: heading right, no marked cells, placeholder
    /// name, nothing missed yet.
    pub fn new() -> (r: ChannelState)
        ensures
            r.direction == Direction::RIGHT,
            r.marked_cells@ == Seq::<u16>::empty(),
            r.ai_name@ == "Unknown Ai"@,
            r.missed_inputs == 0,
    {
        broadcast use vstd::string::to_string_from_display_ensures_for_str;

        ChannelState {
            direction: Direction::RIGHT,
            marked_cells: Vec::new(),
            ai_name: "Unknown Ai".to_string(),
            missed_inputs: 0,
        }
    }

    /// Record the display name obtained from the connection handshake.
    pub fn set_name(&mut self, name: String)
        ensures
            final(self).ai_name == name,
            final(self).direction == old(self).direction,
            final(self).marked_cells == old(self).marked_cells,
            final(self).missed_inputs == old(self).missed_inputs,
    {
        self.ai_name = name;
    }

    /// Count one poll that found no input; the direction stays as it
    /// was, so a lagging peer never stalls the simulation.
    pub fn note_missed(&mut self)
        ensures
            final(self).missed_inputs == if old(self).missed_inputs < i32::MAX {
                old(self).missed_inputs + 1
            } else {
                old(self).missed_inputs as int
            },
            final(self).direction == old(self).direction,
            final(self).marked_cells == old(self).marked_cells,
            final(self).ai_name == old(self).ai_name,
    {
        if self.missed_inputs < i32::MAX {
            self.missed_inputs = self.missed_inputs + 1;
        }
    }

    /// The most recent decoded direction.
    pub fn next_direction(&self) -> (r: Direction)
        ensures
            r == self.direction,
    {
        self.direction
    }

    /// Decode a freshly read command buffer: exactly the record-by-record
    /// parse that [`parse_commands`] describes.
    pub fn feed_bytes(&mut self, buffer: &Vec<u8>)
        ensures
            final(self).direction == parse_commands(
                buffer@,
                old(self).direction,
                old(self).marked_cells@,
            ).0,
            final(self).marked_cells@ == parse_commands(
                buffer@,
                old(self).direction,
                old(self).marked_cells@,
            ).1,
            final(self).ai_name == old(self).ai_name,
            final(self).missed_inputs == old(self).missed_inputs,
    {
        let ghost target = parse_commands(buffer@, self.direction, self.marked_cells@);
        let n = buffer.len();
        let mut pos: usize = 0;
        proof {
            assert(buffer@.skip(0) =~= buffer@);
        }
        while pos < n
            invariant_except_break
                pos <= n,
                n == buffer@.len(),
                parse_commands(buffer@.skip(pos as int), self.direction, self.marked_cells@)
                    == target,
                self.ai_name == old(self).ai_name,
                self.missed_inputs == old(self).missed_inputs,
            ensures
                self.direction == target.0,
                self.marked_cells@ == target.1,
                self.ai_name == old(self).ai_name,
                self.missed_inputs == old(self).missed_inputs,
            decreases n - pos,
        {
            let ghost rec = buffer@.skip(pos as int);
            let ghost d0 = self.direction;
            let ghost c0 = self.marked_cells@;
            let tag = buffer[pos];
            pos = pos + 1;
            proof {
                assert(rec[0] == tag);
                assert(rec.skip(1) =~= buffer@.skip(pos as int));
            }
            if tag == 10 {
                self.direction = Direction::UP;
            } else if tag == 11 {
                self.direction = Direction::DOWN;
            } else if tag == 12 {
                self.direction = Direction::LEFT;
            } else if tag == 13 {
                self.direction = Direction::RIGHT;
            } else if tag == 20 && n - pos >= 2 {
                let count = le16(buffer[pos], buffer[pos + 1]);
                pos = pos + 2;
                let ghost body = buffer@.skip(pos as int);
                let ghost start = pos as int;
                proof {
                    assert(body =~= rec.skip(1).skip(2));
                }
                let mut cells: Vec<u16> = Vec::new();
                let mut i: usize = 0;
                while i < count as usize && n - pos >= 2
                    invariant
                        i <= count,
                        start + 2 * i == pos,
                        pos <= n,
                        n == buffer@.len(),
                        body == buffer@.skip(start),
                        0 <= start <= pos,
                        cells@ =~= Seq::new(
                            i as nat,
                            |j: int| spec_le16(buffer@[start + 2 * j], buffer@[start + 2 * j + 1]),
                        ),
                    decreases count - i,
                {
                    let v = le16(buffer[pos], buffer[pos + 1]);
                    cells.push(v);
                    pos = pos + 2;
                    i = i + 1;
                }
                self.marked_cells = cells;
                proof {
                    let avail = body.len() as int / 2;
                    let k = vstd::math::min(vstd::math::max(count as int, 0), avail);
                    assert(i == k);
                    assert(take_pairs(body, count as int).0 =~= self.marked_cells@) by {
                        assert(forall|j: int|
                            0 <= j < i ==> #[trigger] body[2 * j] == buffer@[start + 2 * j]
                                && body[2 * j + 1] == buffer@[start + 2 * j + 1]);
                    }
                    assert(take_pairs(body, count as int).1 =~= buffer@.skip(pos as int));
                }
            } else {
                // invalid tag: the record is skipped and parsing resumes
            }
            proof {
                let s = step_of(rec, d0, c0);
                assert(s.0 == self.direction);
                assert(s.1 =~= self.marked_cells@);
                assert(s.2 =~= buffer@.skip(pos as int));
                assert(parse_commands(rec, d0, c0) == target);
            }
            if pos == n {
                // buffer exhausted: the loop condition ends the parse
            } else if buffer[pos] == 0 {
                proof {
                    let s = step_of(rec, d0, c0);
                    assert(s.2[0] == 0);
                    assert((self.direction, self.marked_cells@) == (target.0, target.1));
                }
                break;
            }
        }
    }

    /// The diagnostic view of this channel: the marked cells of the last
    /// info packet and two text lines (missed-input count and current
    /// direction).
    pub fn get_info(&self) -> (r: Option<PlayerInfo>)
        ensures
            ({
                &&& r matches Some(p)
                &&& p.marked_cells@ == self.marked_cells@
                &&& p.info_lines@.len() == 2
                &&& p.info_lines@[1]@ == "Current Direction: "@ + spec_direction_name(
                    self.direction,
                )
            }),
    {
        broadcast use vstd::string::to_string_from_display_ensures_for_str;

        let missed = self.missed_inputs.to_string();
        let line0 = "Missed Inputs: ".to_string().concat(missed.as_str());
        let dir_name = self.direction.to_string();
        let line1 = "Current Direction: ".to_string().concat(dir_name.as_str());
        let mut lines: Vec<String> = Vec::new();
        lines.push(line0);
        lines.push(line1);
        Some(PlayerInfo { marked_cells: self.marked_cells.clone(), info_lines: lines })
    }

    /// The peer's display name.
    pub fn get_name(&self) -> (r: String)
        ensures
            r@ == self.ai_name@,
    {
        self.ai_name.clone()
    }
}

} // verus!
