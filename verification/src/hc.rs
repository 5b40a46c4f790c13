//! The binary message protocol: a message is a sequence of commands, each a
//! code byte and its arguments; the answer is the concatenation of the
//! commands' answers. Integers are four bytes, big-endian.
//!
//! | code | arguments                    | effect and answer                               |
//! |------|------------------------------|-------------------------------------------------|
//! | 0    | x, y (int), r (byte)         | answer 0, x, y, r, then the tiles around (x, y) |
//! | 1    | x, y (int), subx, suby       | move the player, launch the uncovered orbs      |
//! | 2    | x, y (int)                   | break the tile into the player's inventory      |
//! | 3    |                              | answer the other players and the orbs           |
//! | 4    | x, y (int), then tile if empty | place a tile from the player's inventory      |
//! | 5    |                              | answer the player's inventory                   |
//! | else |                              | nothing                                         |
use vstd::prelude::*;
use crate::codec::{be_bytes, be_decode, i32_from_be_bytes, i32_to_be_bytes};
use crate::orb::Orb;
use crate::player::{Entpos, Player, PlayerModel, put_spec, rem_ok, rem_spec};
use crate::rules::{in_i32, move_checks_spec, tile_in};
use crate::world::{
    World, WorldModel, chunks_grow, chunks_read, chunks_touch, has_pid, lemma_grow_trans, lemma_read_trans,
    lemma_touch_loaded, lemma_touch_same, lemma_touch_set, lemma_touch_trans, move_reads, pid_idx, row_set,
};

verus! {

/// The integer in the four bytes of `v` from index `i`.
pub open spec fn int_at(v: Seq<u8>, i: int) -> i32 {
    be_decode(v[i], v[i + 1], v[i + 2], v[i + 3])
}

/// The item that breaking tile `t` gives: arrows (0x88 to 0x8b, 0x90 to
/// 0x93, 0x94 to 0x97) give the arrow pointing up, other tiles themselves.
pub open spec fn item_spec(t: u8) -> u8 {
    let nt = t & 0xfcu8;
    if nt == 0x88 || nt == 0x90 || nt == 0x94 {
        nt
    } else {
        t
    }
}

/// The tiles `x0..=x` of row `y`, or `None` if one cannot be read.
pub open spec fn tile_row_bytes(t: Map<(i32, i32), u8>, y: int, x0: int, x: int) -> Option<Seq<u8>>
    decreases x - x0 + 1,
{
    if x < x0 {
        Some(seq![])
    } else {
        match tile_row_bytes(t, y, x0, x - 1) {
            None => None,
            Some(s) => match tile_in(t, x, y) {
                None => None,
                Some(b) => Some(s.push(b)),
            },
        }
    }
}

/// The tiles of rows `y0..=y`, columns `x0..=x2`, row by row.
pub open spec fn tile_block_bytes(t: Map<(i32, i32), u8>, x0: int, x2: int, y0: int, y: int) -> Option<Seq<u8>>
    decreases y - y0 + 1,
{
    if y < y0 {
        Some(seq![])
    } else {
        match tile_block_bytes(t, x0, x2, y0, y - 1) {
            None => None,
            Some(s) => match tile_row_bytes(t, y, x0, x2) {
                None => None,
                Some(r) => Some(s + r),
            },
        }
    }
}

/// One entity of the answer to code 3 for a player.
pub open spec fn player_entity(p: PlayerModel) -> Seq<u8> {
    seq![0u8] + be_bytes(p.pos.x) + be_bytes(p.pos.y) + seq![p.pos.subx, p.pos.suby]
}

/// The entities of the players other than `pid`, in order.
pub open spec fn players_entities(ps: Seq<(usize, PlayerModel)>, pid: usize) -> Seq<u8>
    decreases ps.len(),
{
    if ps.len() == 0 {
        seq![]
    } else {
        let rest = players_entities(ps.drop_last(), pid);
        if ps.last().0 == pid {
            rest
        } else {
            rest + player_entity(ps.last().1)
        }
    }
}

/// One entity of the answer to code 3 for an orb.
pub open spec fn orb_entity(o: Orb) -> Seq<u8> {
    seq![1u8] + be_bytes(o.pos.x) + be_bytes(o.pos.y) + seq![o.pos.subx, o.pos.suby, o.flavor]
}

pub open spec fn orbs_entities(os: Seq<Orb>) -> Seq<u8>
    decreases os.len(),
{
    if os.len() == 0 {
        seq![]
    } else {
        orbs_entities(os.drop_last()) + orb_entity(os.last())
    }
}

/// The items of an inventory as the answer to code 5 lists them.
pub open spec fn inventory_bytes(items: Seq<(u8, u8)>) -> Seq<u8>
    decreases items.len(),
{
    if items.len() == 0 {
        seq![]
    } else {
        inventory_bytes(items.drop_last()) + be_bytes(items.last().0 as i32) + seq![items.last().1]
    }
}

/// The model with the player at index `k` replaced.
pub open spec fn with_player(m: WorldModel, k: int, p: PlayerModel) -> WorldModel {
    WorldModel { players: m.players.update(k, (m.players[k].0, p)), ..m }
}

/// Code 0: the tiles within `r` of `(x, y)`, `r` being the byte read with
/// values over 64 read as 63.
pub open spec fn get_tiles_spec(m: WorldModel, v: Seq<u8>, i: int) -> Option<(WorldModel, int, Seq<u8>)> {
    if i + 9 > v.len() {
        None
    } else {
        let x = int_at(v, i);
        let y = int_at(v, i + 4);
        let r: int = if v[i + 8] > 64 { 63 } else { v[i + 8] as int };
        if !in_i32(y - r) || !in_i32(y + r) || !in_i32(x - r) || !in_i32(x + r) {
            None
        } else {
            match tile_block_bytes(m.tiles, x - r, x + r, y - r, y + r) {
                None => None,
                Some(b) => Some(
                    (m, i + 9, seq![0u8] + be_bytes(x) + be_bytes(y) + seq![r as u8] + b),
                ),
            }
        }
    }
}

/// Code 1: the player moves to the position read, then the orbs of the
/// area it uncovered are launched.
pub open spec fn set_loc_spec(m: WorldModel, v: Seq<u8>, i: int, pid: usize) -> Option<(WorldModel, int, Seq<u8>)> {
    if !has_pid(m.players, pid) || i + 10 > v.len() {
        None
    } else {
        let k = pid_idx(m.players, pid);
        let p = m.players[k].1;
        let pos = Entpos { x: int_at(v, i), y: int_at(v, i + 4), subx: v[i + 8], suby: v[i + 9] };
        let m1 = with_player(m, k, PlayerModel { pos: pos, ..p });
        match move_checks_spec(m1, p.pos.x, p.pos.y, pid) {
            None => None,
            Some(m2) => Some((m2, i + 10, seq![])),
        }
    }
}

/// Code 2: the tile read goes into the player's inventory and becomes empty.
pub open spec fn break_spec(m: WorldModel, v: Seq<u8>, i: int, pid: usize) -> Option<(WorldModel, int, Seq<u8>)> {
    if i + 8 > v.len() {
        None
    } else {
        let x = int_at(v, i);
        let y = int_at(v, i + 4);
        match tile_in(m.tiles, x as int, y as int) {
            None => None,
            Some(t) => if !has_pid(m.players, pid) {
                None
            } else {
                let k = pid_idx(m.players, pid);
                let p = m.players[k].1;
                let m1 = with_player(m, k, PlayerModel { inventory: put_spec(p.inventory, item_spec(t)), ..p });
                Some((WorldModel { tiles: m1.tiles.insert((x, y), 0x80u8), ..m1 }, i + 8, seq![]))
            },
        }
    }
}

/// Code 3: the count of entities (players but one, and orbs, modulo 256),
/// then the other players and the orbs.
pub open spec fn entities_spec(m: WorldModel, pid: usize) -> Option<Seq<u8>> {
    if m.players.len() == 0 || m.players.len() - 1 + m.orbs.len() > usize::MAX {
        None
    } else {
        Some(
            seq![1u8, ((m.players.len() - 1 + m.orbs.len()) % 256) as u8] + players_entities(m.players, pid)
                + orbs_entities(m.orbs),
        )
    }
}

/// Code 4: where the tile read is empty, the tile given after it is taken
/// out of the player's inventory and placed, if the player has it.
pub open spec fn place_spec(m: WorldModel, v: Seq<u8>, i: int, pid: usize) -> Option<(WorldModel, int, Seq<u8>)> {
    if i + 8 > v.len() {
        None
    } else {
        let x = int_at(v, i);
        let y = int_at(v, i + 4);
        match tile_in(m.tiles, x as int, y as int) {
            None => None,
            Some(tnow) => if tnow != 0x80 {
                Some((m, i + 8, seq![]))
            } else if i + 8 >= v.len() || !has_pid(m.players, pid) {
                None
            } else {
                let t = v[i + 8];
                let k = pid_idx(m.players, pid);
                let p = m.players[k].1;
                let m1 = with_player(m, k, PlayerModel { inventory: rem_spec(p.inventory, item_spec(t)), ..p });
                if rem_ok(p.inventory, item_spec(t)) {
                    Some((WorldModel { tiles: m1.tiles.insert((x, y), t), ..m1 }, i + 9, seq![]))
                } else {
                    Some((m1, i + 9, seq![]))
                }
            },
        }
    }
}

/// Code 5: the number of items (modulo 256), then the items.
pub open spec fn inventory_spec(m: WorldModel, pid: usize) -> Option<Seq<u8>> {
    if !has_pid(m.players, pid) {
        None
    } else {
        let items = m.players[pid_idx(m.players, pid)].1.inventory;
        Some(seq![4u8, (items.len() % 256) as u8] + inventory_bytes(items))
    }
}

/// The command at `i`: the model after it, where the next command starts,
/// and the answer.
#[verifier::opaque]
pub open spec fn command_spec(m: WorldModel, v: Seq<u8>, i: int, pid: usize) -> Option<(WorldModel, int, Seq<u8>)> {
    let code = v[i];
    let j = i + 1;
    if code == 0 {
        get_tiles_spec(m, v, j)
    } else if code == 1 {
        set_loc_spec(m, v, j, pid)
    } else if code == 2 {
        break_spec(m, v, j, pid)
    } else if code == 3 {
        match entities_spec(m, pid) {
            None => None,
            Some(o) => Some((m, j, o)),
        }
    } else if code == 4 {
        place_spec(m, v, j, pid)
    } else if code == 5 {
        match inventory_spec(m, pid) {
            None => None,
            Some(o) => Some((m, j, o)),
        }
    } else {
        Some((m, j, seq![]))
    }
}

/// The commands from index `i` on, after the answer `out` so far: the model
/// after them and the whole answer, or `None` where the server would stop.
pub open spec fn handle_from(m: WorldModel, v: Seq<u8>, i: int, pid: usize, out: Seq<u8>) -> Option<
    (WorldModel, Seq<u8>),
>
    decreases v.len() - i,
{
    if i < 0 || i >= v.len() {
        None
    } else {
        match command_spec(m, v, i, pid) {
            None => None,
            Some((m1, i1, o)) => if i1 <= i || i1 > v.len() {
                None
            } else if i1 == v.len() {
                Some((m1, out + o))
            } else {
                handle_from(m1, v, i1, pid, out + o)
            },
        }
    }
}

/// A whole message.
pub open spec fn handle_spec(m: WorldModel, v: Seq<u8>, pid: usize) -> Option<(WorldModel, Seq<u8>)> {
    handle_from(m, v, 0, pid, seq![])
}

/// The positions `(x, y)` with `x0 <= x <= x2` and `y0 <= y <= y2`.
pub open spec fn block_set(x0: int, x2: int, y0: int, y2: int) -> Set<(i32, i32)> {
    Set::new(|p: (i32, i32)| x0 <= p.0 <= x2 && y0 <= p.1 <= y2)
}

/// The radius that code 0 reads at index `i`.
pub open spec fn get_tiles_radius(v: Seq<u8>, i: int) -> int {
    if v[i + 8] > 64 {
        63
    } else {
        v[i + 8] as int
    }
}

/// The positions whose tiles code 0 reads, its arguments starting at `i`.
pub open spec fn get_tiles_reads(v: Seq<u8>, i: int) -> Set<(i32, i32)> {
    let x = int_at(v, i);
    let y = int_at(v, i + 4);
    let r = get_tiles_radius(v, i);
    block_set(x - r, x + r, y - r, y + r)
}

/// The positions whose tiles code 1 reads: the move checks of the player
/// moved to the position given.
pub open spec fn set_loc_reads(m: WorldModel, v: Seq<u8>, i: int, pid: usize) -> Set<(i32, i32)> {
    let k = pid_idx(m.players, pid);
    let p = m.players[k].1;
    let pos = Entpos { x: int_at(v, i), y: int_at(v, i + 4), subx: v[i + 8], suby: v[i + 9] };
    move_reads(with_player(m, k, PlayerModel { pos: pos, ..p }), p.pos.x, p.pos.y, pid)
}

/// The position that codes 2 and 4 name.
pub open spec fn cmd_pos(v: Seq<u8>, i: int) -> (i32, i32) {
    (int_at(v, i), int_at(v, i + 4))
}

/// The positions that code 4 writes: the one named, when it is empty and
/// the player has the tile given.
pub open spec fn place_writes(m: WorldModel, v: Seq<u8>, i: int, pid: usize) -> Set<(i32, i32)> {
    let (x, y) = cmd_pos(v, i);
    let k = pid_idx(m.players, pid);
    if tile_in(m.tiles, x as int, y as int) == Some(0x80u8) && rem_ok(m.players[k].1.inventory, item_spec(v[i + 8])) {
        set![(x, y)]
    } else {
        Set::empty()
    }
}

/// The positions whose tiles the command at `i` reads (first) and writes
/// (second).
pub open spec fn command_touch(m: WorldModel, v: Seq<u8>, i: int, pid: usize) -> (Set<(i32, i32)>, Set<(i32, i32)>) {
    let code = v[i];
    let j = i + 1;
    if code == 0 {
        (get_tiles_reads(v, j), Set::empty())
    } else if code == 1 {
        (set_loc_reads(m, v, j, pid), Set::empty())
    } else if code == 2 {
        (set![cmd_pos(v, j)], set![cmd_pos(v, j)])
    } else if code == 4 {
        (set![cmd_pos(v, j)], place_writes(m, v, j, pid))
    } else {
        (Set::empty(), Set::empty())
    }
}

/// The positions whose tiles the commands from `i` on read and write,
/// following `handle_from`.
pub open spec fn handle_touch(m: WorldModel, v: Seq<u8>, i: int, pid: usize) -> (Set<(i32, i32)>, Set<(i32, i32)>)
    decreases v.len() - i,
{
    if i < 0 || i >= v.len() {
        (Set::empty(), Set::empty())
    } else {
        match command_spec(m, v, i, pid) {
            None => (Set::empty(), Set::empty()),
            Some((m1, i1, o)) => if i1 <= i || i1 > v.len() {
                (Set::empty(), Set::empty())
            } else if i1 == v.len() {
                command_touch(m, v, i, pid)
            } else {
                let c = command_touch(m, v, i, pid);
                let r = handle_touch(m1, v, i1, pid);
                (c.0 + r.0, c.1 + r.1)
            },
        }
    }
}

/// The integer in the four bytes of `v` from index `i`.
pub fn read_as_int(i: usize, v: &Vec<u8>) -> (x: i32)
    requires
        i + 4 <= v@.len(),
    ensures
        x == int_at(v@, i as int),
{
    let _n = v.len();
    i32_from_be_bytes([v[i], v[i + 1], v[i + 2], v[i + 3]])
}

/// Appends the four bytes of `x`.
pub fn append_int(v: &mut Vec<u8>, x: i32)
    ensures
        final(v)@ == old(v)@ + be_bytes(x),
{
    let bytes = i32_to_be_bytes(x);
    v.push(bytes[0]);
    v.push(bytes[1]);
    v.push(bytes[2]);
    v.push(bytes[3]);
    assert(v@ =~= old(v)@ + be_bytes(x));
}

/// The item that breaking tile `t` gives.
pub fn item_from_tile(t: u8) -> (it: u8)
    ensures
        it == item_spec(t),
{
    let nt = t & 0xfc;
    if nt == 0x88 || nt == 0x90 || nt == 0x94 {
        return nt;
    }
    t
}


/// Once a row of tiles cannot be read, longer rows cannot either.
proof fn lemma_tile_row_none(t: Map<(i32, i32), u8>, y: int, x0: int, a: int, b: int)
    requires
        a <= b,
        tile_row_bytes(t, y, x0, a) is None,
    ensures
        tile_row_bytes(t, y, x0, b) is None,
    decreases b - a,
{
    if a < b {
        lemma_tile_row_none(t, y, x0, a, b - 1);
    }
}

proof fn lemma_tile_block_none(t: Map<(i32, i32), u8>, x0: int, x2: int, y0: int, a: int, b: int)
    requires
        a <= b,
        tile_block_bytes(t, x0, x2, y0, a) is None,
    ensures
        tile_block_bytes(t, x0, x2, y0, b) is None,
    decreases b - a,
{
    if a < b {
        lemma_tile_block_none(t, x0, x2, y0, a, b - 1);
    }
}

/// Appends the tiles of rows `y0..=y2`, columns `x0..=x2`, row by row.
fn push_tiles(rv: &mut Vec<u8>, world: &mut World, x0: i32, x2: i32, y0: i32, y2: i32) -> (ok: bool)
    requires
        old(world).wf(),
        x0 <= x2,
        y0 <= y2,
    ensures
        chunks_read(old(world).chunks@, final(world).chunks@, old(world).saved@),
            final(world).saved@ == old(world).saved@,
        final(world).wf(),
        final(world).model() == old(world).model(),
        ok == tile_block_bytes(old(world).model().tiles, x0 as int, x2 as int, y0 as int, y2 as int) is Some,
        ok ==> chunks_touch(old(world).chunks@, final(world).chunks@, old(world).saved@, block_set(x0 as int, x2 as int, y0 as int, y2 as int), Set::empty()),
        ok ==> final(rv)@ == old(rv)@ + tile_block_bytes(old(world).model().tiles, x0 as int, x2 as int, y0 as int, y2 as int)->0,
{
    let ghost m0 = world.model();
    let ghost t = m0.tiles;
    let ghost r0 = rv@;
    let mut wy: i64 = y0 as i64;
    while wy <= y2 as i64
        invariant
            world.wf(),
            world.model() == m0,
            t == m0.tiles,
            m0 == old(world).model(),
            r0 == old(rv)@,
            y0 <= wy <= y2 as int + 1,
            x0 <= x2,
            tile_block_bytes(t, x0 as int, x2 as int, y0 as int, wy - 1) is Some,
            rv@ == r0 + tile_block_bytes(t, x0 as int, x2 as int, y0 as int, wy - 1)->0,
            chunks_read(old(world).chunks@, world.chunks@, old(world).saved@),
            world.saved@ == old(world).saved@,
            chunks_touch(old(world).chunks@, world.chunks@, old(world).saved@, block_set(x0 as int, x2 as int, y0 as int, wy - 1), Set::empty()),
        decreases y2 as int + 1 - wy,
    {
        let ghost before = rv@;
        proof {
            assert(block_set(x0 as int, x2 as int, y0 as int, wy - 1) + row_set(wy as i32, x0 as int, x0 - 1) =~= block_set(x0 as int, x2 as int, y0 as int, wy - 1));
        }
        let mut wx: i64 = x0 as i64;
        while wx <= x2 as i64
            invariant
                world.wf(),
                world.model() == m0,
                t == m0.tiles,
                y0 <= wy <= y2,
                m0 == old(world).model(),
                x0 <= wx <= x2 as int + 1,
                tile_row_bytes(t, wy as int, x0 as int, wx - 1) is Some,
                rv@ == before + tile_row_bytes(t, wy as int, x0 as int, wx - 1)->0,
                chunks_read(old(world).chunks@, world.chunks@, old(world).saved@),
                world.saved@ == old(world).saved@,
                chunks_touch(
                    old(world).chunks@,
                    world.chunks@,
                    old(world).saved@,
                    block_set(x0 as int, x2 as int, y0 as int, wy - 1) + row_set(wy as i32, x0 as int, wx - 1),
                    Set::empty(),
                ),
            decreases x2 as int + 1 - wx,
        {
            if !world.tile_accessible(wx as i32, wy as i32) {
                proof {
                    lemma_tile_row_none(t, wy as int, x0 as int, wx as int, x2 as int);
                    lemma_tile_block_none(t, x0 as int, x2 as int, y0 as int, wy as int, y2 as int);
                }
                return false;
            }
            let ghost cs0 = world.chunks@;
            let b = world.get_tile(wx as i32, wy as i32);
            proof {
                lemma_read_trans(old(world).chunks@, cs0, world.chunks@, old(world).saved@);
                let acc = block_set(x0 as int, x2 as int, y0 as int, wy - 1) + row_set(wy as i32, x0 as int, wx - 1);
                lemma_touch_loaded(cs0, world.chunks@, old(world).saved@, wx as i32, wy as i32);
                lemma_touch_trans(old(world).chunks@, cs0, world.chunks@, old(world).saved@, acc, Set::<(i32, i32)>::empty(), set![(wx as i32, wy as i32)], Set::<(i32, i32)>::empty());
                assert(acc + set![(wx as i32, wy as i32)] =~= block_set(x0 as int, x2 as int, y0 as int, wy - 1) + row_set(wy as i32, x0 as int, wx as int));
                assert(Set::<(i32, i32)>::empty() + Set::<(i32, i32)>::empty() =~= Set::<(i32, i32)>::empty());
            }
            rv.push(b);
            wx = wx + 1;
        }
        proof {
            let row = tile_row_bytes(t, wy as int, x0 as int, x2 as int)->0;
            let acc = tile_block_bytes(t, x0 as int, x2 as int, y0 as int, wy - 1)->0;
            assert(rv@ =~= r0 + (acc + row));
            assert(block_set(x0 as int, x2 as int, y0 as int, wy - 1) + row_set(wy as i32, x0 as int, x2 as int) =~= block_set(x0 as int, x2 as int, y0 as int, wy as int));
        }
        wy = wy + 1;
    }
    true
}

/// Code 0; `i` is just after the code byte.
fn hc_get_tiles(i: &mut usize, v: &Vec<u8>, world: &mut World) -> (rv: Option<Vec<u8>>)
    requires
        old(world).wf(),
        *old(i) <= v@.len(),
    ensures
        chunks_read(old(world).chunks@, final(world).chunks@, old(world).saved@),
            final(world).saved@ == old(world).saved@,
        *old(i) <= *final(i) <= v@.len(),
        final(world).wf(),
        rv is Some ==> chunks_touch(old(world).chunks@, final(world).chunks@, old(world).saved@, get_tiles_reads(v@, *old(i) as int), Set::empty()),
        rv is Some == get_tiles_spec(old(world).model(), v@, *old(i) as int) is Some,
        rv matches Some(o) ==> get_tiles_spec(old(world).model(), v@, *old(i) as int) == Some(
            (final(world).model(), *final(i) as int, o@),
        ),
{
    if v.len() - *i < 9 {
        return None;
    }
    let x: i32 = read_as_int(*i, v);
    *i = *i + 4;
    let y: i32 = read_as_int(*i, v);
    *i = *i + 4;
    let mut r: i32 = v[*i] as i32;
    if r > 64 {
        r = 63;
    }
    *i = *i + 1;
    let (xl, yl, rl) = (x as i64, y as i64, r as i64);
    if yl - rl < i32::MIN as i64 || yl + rl > i32::MAX as i64 || xl - rl < i32::MIN as i64 || xl + rl > i32::MAX as i64 {
        return None;
    }
    let mut rv: Vec<u8> = Vec::new();
    rv.push(0);
    append_int(&mut rv, x);
    append_int(&mut rv, y);
    rv.push((r & 255) as u8);
    proof {
        assert((r & 255i32) as u8 == r as u8) by (bit_vector)
            requires
                0 <= r <= 64,
        ;
    }
    if !push_tiles(&mut rv, world, x - r, x + r, y - r, y + r) {
        return None;
    }
    proof {
        assert(get_tiles_reads(v@, *old(i) as int) =~= block_set(x - r, x + r, y - r, y + r));
    }
    Some(rv)
}

/// Code 1; `i` is just after the code byte.
fn hc_set_loc(i: &mut usize, v: &Vec<u8>, world: &mut World, pid: usize) -> (rv: Option<Vec<u8>>)
    requires
        old(world).wf(),
        *old(i) <= v@.len(),
    ensures
        chunks_grow(old(world).chunks@, final(world).chunks@),
        final(world).saved@ == old(world).saved@,
        rv is Some ==> chunks_touch(old(world).chunks@, final(world).chunks@, old(world).saved@, set_loc_reads(old(world).model(), v@, *old(i) as int, pid), Set::empty()),
        *old(i) <= *final(i) <= v@.len(),
        final(world).wf(),
        rv is Some == set_loc_spec(old(world).model(), v@, *old(i) as int, pid) is Some,
        rv matches Some(o) ==> set_loc_spec(old(world).model(), v@, *old(i) as int, pid) == Some(
            (final(world).model(), *final(i) as int, o@),
        ),
{
    let k = match world.player_index(pid) {
        Some(k) => k,
        None => {
            return None;
        },
    };
    if v.len() - *i < 10 {
        return None;
    }
    let ox = world.players[k].1.pos.x;
    let oy = world.players[k].1.pos.y;
    let x = read_as_int(*i, v);
    *i = *i + 4;
    let y = read_as_int(*i, v);
    *i = *i + 4;
    let subx = v[*i];
    *i = *i + 1;
    let suby = v[*i];
    *i = *i + 1;
    world.set_player_pos(k, Entpos { x: x, y: y, subx: subx, suby: suby });
    if !Player::do_move_checks(ox, oy, world, pid) {
        return None;
    }
    let rv: Vec<u8> = Vec::new();
    proof {
        assert(rv@ =~= Seq::<u8>::empty());
    }
    Some(rv)
}

/// Code 2; `i` is just after the code byte.
#[verifier::rlimit(40)]
fn hc_break(i: &mut usize, v: &Vec<u8>, world: &mut World, pid: usize) -> (rv: Option<Vec<u8>>)
    requires
        old(world).wf(),
        *old(i) <= v@.len(),
    ensures
        chunks_grow(old(world).chunks@, final(world).chunks@),
        final(world).saved@ == old(world).saved@,
        rv is Some ==> chunks_touch(old(world).chunks@, final(world).chunks@, old(world).saved@, set![cmd_pos(v@, *old(i) as int)], set![cmd_pos(v@, *old(i) as int)]),
        *old(i) <= *final(i) <= v@.len(),
        final(world).wf(),
        rv is Some == break_spec(old(world).model(), v@, *old(i) as int, pid) is Some,
        rv matches Some(o) ==> break_spec(old(world).model(), v@, *old(i) as int, pid) == Some(
            (final(world).model(), *final(i) as int, o@),
        ),
{
    if v.len() - *i < 8 {
        return None;
    }
    let x = read_as_int(*i, v);
    *i = *i + 4;
    let y = read_as_int(*i, v);
    *i = *i + 4;
    if !world.tile_accessible(x, y) {
        return None;
    }
    let ghost cs0 = world.chunks@;
    let t = world.get_tile(x, y);
    proof {
        lemma_touch_loaded(cs0, world.chunks@, old(world).saved@, x, y);
    }
    let ghost cs1 = world.chunks@;
    let k = match world.player_index(pid) {
        Some(k) => k,
        None => {
            return None;
        },
    };
    world.player_put(k, item_from_tile(t));
    proof {
        world.lemma_chunks_distinct();
    }
    world.set_tile(x, y, 0x80);
    proof {
        lemma_touch_set(cs1, world.chunks@, old(world).saved@, x, y, 0x80);
        lemma_touch_trans(cs0, cs1, world.chunks@, old(world).saved@, set![(x, y)], Set::<(i32, i32)>::empty(), Set::<(i32, i32)>::empty(), set![(x, y)]);
        assert(set![(x, y)] + Set::<(i32, i32)>::empty() =~= set![(x, y)]);
        assert(Set::<(i32, i32)>::empty() + set![(x, y)] =~= set![(x, y)]);
        assert(cmd_pos(v@, *old(i) as int) == (x, y));
    }
    let rv: Vec<u8> = Vec::new();
    proof {
        assert(rv@ =~= Seq::<u8>::empty());
    }
    Some(rv)
}

/// Code 3.
fn hc_get_entities(world: &World, pid: usize) -> (rv: Option<Vec<u8>>)
    requires
        world.wf(),
    ensures
        rv is Some == entities_spec(world.model(), pid) is Some,
        rv matches Some(o) ==> entities_spec(world.model(), pid) == Some(o@),
{
    let np = world.players.len();
    if np == 0 {
        return None;
    }
    let count = match (np - 1).checked_add(world.orbs.len()) {
        Some(c) => c,
        None => {
            return None;
        },
    };
    let ghost ps = world.model().players;
    let mut rv: Vec<u8> = Vec::new();
    rv.push(1);
    rv.push((count % 256) as u8);
    let ghost head = rv@;
    let mut j: usize = 0;
    while j < world.players.len()
        invariant
            0 <= j <= world.players@.len(),
            ps == world.model().players,
            ps.len() == world.players@.len(),
            rv@ == head + players_entities(ps.take(j as int), pid),
        decreases world.players@.len() - j,
    {
        proof {
            assert(ps.take(j + 1).drop_last() =~= ps.take(j as int));
            assert(ps[j as int] == (world.players@[j as int].0, world.players@[j as int].1.model()));
        }
        if world.players[j].0 != pid {
            let p = &world.players[j].1;
            let ghost before = rv@;
            rv.push(0);
            append_int(&mut rv, p.pos.x);
            append_int(&mut rv, p.pos.y);
            rv.push(p.pos.subx);
            rv.push(p.pos.suby);
            proof {
                assert(rv@ =~= before + player_entity(ps[j as int].1));
            }
        }
        j = j + 1;
    }
    proof {
        assert(ps.take(ps.len() as int) =~= ps);
    }
    let ghost mid = rv@;
    let mut j: usize = 0;
    while j < world.orbs.len()
        invariant
            0 <= j <= world.orbs@.len(),
            rv@ == mid + orbs_entities(world.orbs@.take(j as int)),
        decreases world.orbs@.len() - j,
    {
        proof {
            assert(world.orbs@.take(j + 1).drop_last() =~= world.orbs@.take(j as int));
        }
        let o = world.orbs[j];
        let ghost before = rv@;
        rv.push(1);
        append_int(&mut rv, o.pos.x);
        append_int(&mut rv, o.pos.y);
        rv.push(o.pos.subx);
        rv.push(o.pos.suby);
        rv.push(o.flavor);
        proof {
            assert(rv@ =~= before + orb_entity(o));
        }
        j = j + 1;
    }
    proof {
        assert(world.orbs@.take(world.orbs@.len() as int) =~= world.orbs@);
        assert(rv@ =~= seq![1u8, ((ps.len() - 1 + world.orbs@.len()) % 256) as u8] + players_entities(ps, pid)
            + orbs_entities(world.orbs@));
    }
    Some(rv)
}

/// Code 4; `i` is just after the code byte.
fn hc_place_tile(i: &mut usize, v: &Vec<u8>, world: &mut World, pid: usize) -> (rv: Option<Vec<u8>>)
    requires
        old(world).wf(),
        *old(i) <= v@.len(),
    ensures
        chunks_grow(old(world).chunks@, final(world).chunks@),
        final(world).saved@ == old(world).saved@,
        rv is Some ==> chunks_touch(old(world).chunks@, final(world).chunks@, old(world).saved@, set![cmd_pos(v@, *old(i) as int)], place_writes(old(world).model(), v@, *old(i) as int, pid)),
        *old(i) <= *final(i) <= v@.len(),
        final(world).wf(),
        rv is Some == place_spec(old(world).model(), v@, *old(i) as int, pid) is Some,
        rv matches Some(o) ==> place_spec(old(world).model(), v@, *old(i) as int, pid) == Some(
            (final(world).model(), *final(i) as int, o@),
        ),
{
    if v.len() - *i < 8 {
        return None;
    }
    let x = read_as_int(*i, v);
    *i = *i + 4;
    let y = read_as_int(*i, v);
    *i = *i + 4;
    if !world.tile_accessible(x, y) {
        return None;
    }
    let ghost cs0 = world.chunks@;
    let tnow = world.get_tile(x, y);
    proof {
        lemma_touch_loaded(cs0, world.chunks@, old(world).saved@, x, y);
        assert(cmd_pos(v@, *old(i) as int) == (x, y));
    }
    let ghost cs1 = world.chunks@;
    if tnow == 0x80 {
        if *i >= v.len() {
            return None;
        }
        let t = v[*i];
        *i = *i + 1;
        let k = match world.player_index(pid) {
            Some(k) => k,
            None => {
                return None;
            },
        };
        let success = world.player_rem(k, item_from_tile(t));
        if success {
            proof {
                world.lemma_chunks_distinct();
            }
            world.set_tile(x, y, t);
            proof {
                lemma_touch_set(cs1, world.chunks@, old(world).saved@, x, y, t);
                lemma_touch_trans(cs0, cs1, world.chunks@, old(world).saved@, set![(x, y)], Set::<(i32, i32)>::empty(), Set::<(i32, i32)>::empty(), set![(x, y)]);
                assert(set![(x, y)] + Set::<(i32, i32)>::empty() =~= set![(x, y)]);
                assert(Set::<(i32, i32)>::empty() + set![(x, y)] =~= set![(x, y)]);
            }
        }
    }
    let rv: Vec<u8> = Vec::new();
    proof {
        assert(rv@ =~= Seq::<u8>::empty());
    }
    Some(rv)
}

/// Code 5.
fn hc_get_inventory(world: &World, pid: usize) -> (rv: Option<Vec<u8>>)
    requires
        world.wf(),
    ensures
        rv is Some == inventory_spec(world.model(), pid) is Some,
        rv matches Some(o) ==> inventory_spec(world.model(), pid) == Some(o@),
{
    let k = match world.player_index(pid) {
        Some(k) => k,
        None => {
            return None;
        },
    };
    let items = &world.players[k].1.inventory.items;
    let mut rv: Vec<u8> = Vec::new();
    rv.push(4);
    rv.push((items.len() % 256) as u8);
    let ghost head = rv@;
    let mut j: usize = 0;
    while j < items.len()
        invariant
            0 <= j <= items@.len(),
            rv@ == head + inventory_bytes(items@.take(j as int)),
        decreases items@.len() - j,
    {
        proof {
            assert(items@.take(j + 1).drop_last() =~= items@.take(j as int));
        }
        let ghost before = rv@;
        append_int(&mut rv, items[j].0 as i32);
        rv.push(items[j].1);
        proof {
            assert(rv@ =~= before + (be_bytes(items@[j as int].0 as i32) + seq![items@[j as int].1]));
        }
        j = j + 1;
    }
    proof {
        assert(items@.take(items@.len() as int) =~= items@);
        assert(world.model().players[k as int].1.inventory == items@);
    }
    Some(rv)
}

/// The command whose code byte is `code`; `i` is just after the code byte.
fn handle_command(code: u8, i: &mut usize, v: &Vec<u8>, world: &mut World, pid: usize) -> (rv: Option<Vec<u8>>)
    requires
        old(world).wf(),
        1 <= *old(i) <= v@.len(),
        v@[*old(i) - 1] == code,
    ensures
        chunks_grow(old(world).chunks@, final(world).chunks@),
        final(world).saved@ == old(world).saved@,
        rv is Some ==> chunks_touch(
            old(world).chunks@,
            final(world).chunks@,
            old(world).saved@,
            command_touch(old(world).model(), v@, *old(i) - 1, pid).0,
            command_touch(old(world).model(), v@, *old(i) - 1, pid).1,
        ),
        *old(i) <= *final(i) <= v@.len(),
        final(world).wf(),
        rv is Some == command_spec(old(world).model(), v@, *old(i) - 1, pid) is Some,
        rv matches Some(o) ==> command_spec(old(world).model(), v@, *old(i) - 1, pid) == Some(
            (final(world).model(), *final(i) as int, o@),
        ),
{
    reveal(command_spec);
    proof {
        lemma_touch_same(world.chunks@, world.saved@);
    }
    if code == 0 {
        hc_get_tiles(i, v, world)
    } else if code == 1 {
        hc_set_loc(i, v, world, pid)
    } else if code == 2 {
        hc_break(i, v, world, pid)
    } else if code == 3 {
        hc_get_entities(world, pid)
    } else if code == 4 {
        hc_place_tile(i, v, world, pid)
    } else if code == 5 {
        hc_get_inventory(world, pid)
    } else {
        let e: Vec<u8> = Vec::new();
        proof {
            assert(e@ =~= Seq::<u8>::empty());
        }
        Some(e)
    }
}

/// Handles one message from player `pid` and returns the answer; `None`
/// where the server would stop (a command cut short, an id that is not a
/// player's, an overflow, a tile that cannot be loaded, an empty message).
pub fn handle_message(v: &Vec<u8>, world: &mut World, pid: usize) -> (r: Option<Vec<u8>>)
    requires
        old(world).wf(),
    ensures
        chunks_grow(old(world).chunks@, final(world).chunks@),
        final(world).wf(),
        r is Some == handle_spec(old(world).model(), v@, pid) is Some,
        r is Some ==> chunks_touch(
            old(world).chunks@,
            final(world).chunks@,
            old(world).saved@,
            handle_touch(old(world).model(), v@, 0, pid).0,
            handle_touch(old(world).model(), v@, 0, pid).1,
        ),
        final(world).saved@ == old(world).saved@,
        r matches Some(sc) ==> handle_spec(old(world).model(), v@, pid) == Some((final(world).model(), sc@)),
{
    let ghost m0 = world.model();
    let ghost ss = world.saved@;
    let ghost mut acc_r: Set<(i32, i32)> = Set::empty();
    let ghost mut acc_w: Set<(i32, i32)> = Set::empty();
    proof {
        lemma_touch_same(world.chunks@, ss);
    }
    let mut i: usize = 0;
    let mut sc: Vec<u8> = Vec::new();
    while i < v.len()
        invariant
            world.wf(),
            0 <= i <= v@.len(),
            handle_from(world.model(), v@, i as int, pid, sc@) == handle_spec(m0, v@, pid),
            m0 == old(world).model(),
            chunks_grow(old(world).chunks@, world.chunks@),
            ss == old(world).saved@,
            world.saved@ == ss,
            chunks_touch(old(world).chunks@, world.chunks@, ss, acc_r, acc_w),
            acc_r + handle_touch(world.model(), v@, i as int, pid).0 == handle_touch(m0, v@, 0, pid).0,
            acc_w + handle_touch(world.model(), v@, i as int, pid).1 == handle_touch(m0, v@, 0, pid).1,
        decreases v@.len() - i,
    {
        let ghost mi = world.model();
        let ghost ii = i as int;
        let ghost before = sc@;
        let ghost cs0 = world.chunks@;
        let code: u8 = v[i];
        i = i + 1;
        let rv = handle_command(code, &mut i, v, world, pid);
        proof {
            lemma_grow_trans(old(world).chunks@, cs0, world.chunks@);
        }
        let mut rv = match rv {
            Some(rv) => rv,
            None => {
                return None;
            },
        };
        let ghost o = rv@;
        sc.append(&mut rv);
        proof {
            let ct = command_touch(mi, v@, ii, pid);
            lemma_touch_trans(old(world).chunks@, cs0, world.chunks@, ss, acc_r, acc_w, ct.0, ct.1);
            let (r0, w0) = (acc_r, acc_w);
            acc_r = acc_r + ct.0;
            acc_w = acc_w + ct.1;
            if i < v.len() {
                let tt = handle_touch(world.model(), v@, i as int, pid);
                assert(handle_touch(mi, v@, ii, pid) == (ct.0 + tt.0, ct.1 + tt.1));
                assert(acc_r + tt.0 =~= r0 + (ct.0 + tt.0));
                assert(acc_w + tt.1 =~= w0 + (ct.1 + tt.1));
            } else {
                assert(handle_touch(mi, v@, ii, pid) == ct);
            }
            assert(command_spec(mi, v@, ii, pid) == Some((world.model(), i as int, o)));
            assert(sc@ == before + o);
        }
        if i == v.len() {
            return Some(sc);
        }
    }
    None
}

} // verus!

verus! {

/// The integer that `append_int` writes is the one `read_as_int` reads there.
pub proof fn law_int_roundtrip(s: Seq<u8>, x: i32)
    ensures
        int_at(s + be_bytes(x), s.len() as int) == x,
{
    crate::codec::lemma_be_roundtrip(x);
    let t = s + be_bytes(x);
    assert(t[s.len() as int] == crate::codec::be_byte(x, 0));
    assert(t[s.len() as int + 1] == crate::codec::be_byte(x, 1));
    assert(t[s.len() as int + 2] == crate::codec::be_byte(x, 2));
    assert(t[s.len() as int + 3] == crate::codec::be_byte(x, 3));
}

} // verus!

verus! {

/// Whether an entry is another player than `pid`.
pub open spec fn not_asker(pid: usize) -> spec_fn((usize, PlayerModel)) -> bool {
    |p: (usize, PlayerModel)| p.0 != pid
}

/// The entities of the players `qs`, one after another.
pub open spec fn entities_of(qs: Seq<(usize, PlayerModel)>) -> Seq<u8> {
    qs.fold_left(Seq::<u8>::empty(), |acc: Seq<u8>, p: (usize, PlayerModel)| acc + player_entity(p.1))
}

/// The players that the answer to code 3 lists are exactly those whose id
/// is not the asker's, in their order: the asker never appears and every
/// other player does, eleven bytes each.
pub proof fn law_entities_of_others(ps: Seq<(usize, PlayerModel)>, pid: usize)
    ensures
        players_entities(ps, pid) == entities_of(ps.filter(not_asker(pid))),
        players_entities(ps, pid).len() == 11 * ps.filter(not_asker(pid)).len(),
    decreases ps.len(),
{
    reveal(Seq::filter);
    if ps.len() > 0 {
        law_entities_of_others(ps.drop_last(), pid);
        let f = ps.drop_last().filter(not_asker(pid));
        let x = ps.last();
        if x.0 != pid {
            assert(ps.filter(not_asker(pid)) == f.push(x));
            assert(f.push(x).drop_last() =~= f);
            assert(player_entity(x.1).len() == 11);
        } else {
            assert(ps.filter(not_asker(pid)) == f);
        }
    }
}

} // verus!
