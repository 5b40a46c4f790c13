//! The rules of the world as functions on its plain-value model: what a
//! move uncovers, what runes cast and what one step of the orbs does. A
//! result of `None` marks an input on which the server would stop (an
//! arithmetic overflow, a player id that is not there, a tile that cannot be
//! loaded).
use vstd::prelude::*;
use crate::orb::{Orb, Vel, dir_spec, orb_new_spec};
use crate::player::{Entpos, PlayerModel, Rect, addsub_ok, addsub_spec, new_rects_spec, rects_ok};
use crate::world::{WorldModel, has_pid, pid_idx};

verus! {

pub open spec fn in_i32(v: int) -> bool {
    i32::MIN <= v <= i32::MAX
}

/// The tile at `(x, y)`, or `None` when the position is out of range or its
/// chunk cannot be loaded.
pub open spec fn tile_in(tiles: Map<(i32, i32), u8>, x: int, y: int) -> Option<u8> {
    if in_i32(x) && in_i32(y) && tiles.dom().contains((x as i32, y as i32)) {
        Some(tiles[(x as i32, y as i32)])
    } else {
        None
    }
}

pub open spec fn model_tile(m: WorldModel, x: int, y: int) -> Option<u8> {
    tile_in(m.tiles, x, y)
}

/// Whether a tile holds an arrow that launches an orb.
pub open spec fn is_launcher(t: u8) -> bool {
    t & 0xfcu8 == 0x88u8
}

/// The orbs that the tiles `x0..=x` of row `y` launch; the direction of
/// each is the low bits of its tile, reversed when `flip` is 2.
pub open spec fn scan_row(m: Map<(i32, i32), u8>, y: int, x0: int, x: int, flip: u8) -> Option<Seq<Orb>>
    decreases x - x0 + 1,
{
    if x < x0 {
        Some(seq![])
    } else {
        match scan_row(m, y, x0, x - 1, flip) {
            None => None,
            Some(s) => match tile_in(m, x, y) {
                None => None,
                Some(t) => if is_launcher(t) {
                    Some(s.push(orb_new_spec(x as i32, y as i32, (t ^ 0x88u8) ^ flip, 0)))
                } else {
                    Some(s)
                },
            },
        }
    }
}

/// The orbs that rows `r.1..=y` of the rectangle launch.
pub open spec fn scan_rows(m: Map<(i32, i32), u8>, r: Rect, y: int, flip: u8) -> Option<Seq<Orb>>
    decreases y - r.1 + 1,
{
    if y < r.1 {
        Some(seq![])
    } else {
        match scan_rows(m, r, y - 1, flip) {
            None => None,
            Some(s) => match scan_row(m, y, r.0 as int, r.2 as int, flip) {
                None => None,
                Some(row) => Some(s + row),
            },
        }
    }
}

/// The orbs that the rectangles launch, in order.
pub open spec fn scan_rects(m: Map<(i32, i32), u8>, rs: Seq<Rect>, flip: u8) -> Option<Seq<Orb>>
    decreases rs.len(),
{
    if rs.len() == 0 {
        Some(seq![])
    } else {
        match scan_rects(m, rs.drop_last(), flip) {
            None => None,
            Some(s) => match scan_rows(m, rs.last(), rs.last().3 as int, flip) {
                None => None,
                Some(t) => Some(s + t),
            },
        }
    }
}

/// After player `pid` moved from `(ox, oy)`: the launchers in the area that
/// left its view send orbs back the other way, and those in the area that
/// came into view send orbs on.
pub open spec fn move_checks_spec(m: WorldModel, ox: i32, oy: i32, pid: usize) -> Option<WorldModel> {
    if !has_pid(m.players, pid) {
        None
    } else {
        let p = m.players[pid_idx(m.players, pid)].1.pos;
        if !rects_ok(p.x, p.y, ox, oy) || !rects_ok(ox, oy, p.x, p.y) {
            None
        } else {
            match (
                scan_rects(m.tiles, new_rects_spec(p.x, p.y, ox, oy), 2),
                scan_rects(m.tiles, new_rects_spec(ox, oy, p.x, p.y), 0),
            ) {
                (Some(died), Some(born)) => Some(WorldModel { orbs: m.orbs + died + born, ..m }),
                _ => None,
            }
        }
    }
}

/// The commands that a spell sends to a player's client.
pub open spec fn spell_bytes(i: int) -> Seq<u8> {
    if i == 0 {
        seq![2u8, 0u8, 1u8]
    } else if i == 1 {
        seq![2u8, 0u8, 0u8]
    } else if i == 9 {
        seq![2u8, 1u8, 1u8]
    } else if i == 10 {
        seq![2u8, 1u8, 0u8]
    } else {
        seq![]
    }
}

/// Whether `a - b` and its absolute value can be computed.
pub open spec fn diff_ok(a: i32, b: i32) -> bool {
    i32::MIN < a - b <= i32::MAX
}

pub open spec fn abs_int(v: int) -> int {
    if v < 0 {
        -v
    } else {
        v
    }
}

/// Hands the bytes `rest` to the players from index `j` on: the first player
/// within five tiles of `(x, y)` on both axes takes all of them, the others
/// get nothing more.
pub open spec fn give_spell(ps: Seq<(usize, PlayerModel)>, rest: Seq<u8>, x: i32, y: i32, j: int) -> Option<
    Seq<(usize, PlayerModel)>,
>
    decreases ps.len() - j,
{
    if j >= ps.len() || j < 0 {
        Some(ps)
    } else {
        let p = ps[j].1;
        if !diff_ok(p.pos.x, x) {
            None
        } else if abs_int(p.pos.x - x) > 5 {
            give_spell(ps, rest, x, y, j + 1)
        } else if !diff_ok(p.pos.y, y) {
            None
        } else if abs_int(p.pos.y - y) > 5 {
            give_spell(ps, rest, x, y, j + 1)
        } else {
            let q = PlayerModel { comque: p.comque + rest, ..p };
            give_spell(ps.update(j, (ps[j].0, q)), seq![], x, y, j + 1)
        }
    }
}

pub open spec fn rune_offset(k: int) -> (int, int) {
    if k == 0 {
        (0, 0)
    } else if k == 1 {
        (0, -1)
    } else if k == 2 {
        (1, 0)
    } else if k == 3 {
        (0, 1)
    } else {
        (-1, 0)
    }
}

/// Whether a tile is a rune.
pub open spec fn is_rune(t: u8) -> bool {
    t | 3u8 == 0x8fu8
}

/// Casting the runes around `(x, y)`, from offset `k` on: each rune tile
/// (the tile itself, then up, right, down, left), together with the
/// flavour, selects a spell whose commands go to a nearby player.
pub open spec fn cast_from(m: WorldModel, flavor: u8, x: i32, y: i32, k: int) -> Option<WorldModel>
    decreases 5 - k,
{
    if k >= 5 || k < 0 {
        Some(m)
    } else {
        let tx = x + rune_offset(k).0;
        let ty = y + rune_offset(k).1;
        if !in_i32(tx) || !in_i32(ty) {
            None
        } else {
            match model_tile(m, tx, ty) {
                None => None,
                Some(t) => if !is_rune(t) {
                    cast_from(m, flavor, x, y, k + 1)
                } else {
                    let i = (t ^ 0x8cu8) as int * 3 + flavor as int;
                    if i > 255 {
                        None
                    } else if spell_bytes(i).len() > 0 {
                        match give_spell(m.players, spell_bytes(i), x, y, 0) {
                            None => None,
                            Some(ps) => cast_from(WorldModel { players: ps, ..m }, flavor, x, y, k + 1),
                        }
                    } else {
                        cast_from(m, flavor, x, y, k + 1)
                    }
                },
            }
        }
    }
}

pub open spec fn cast_spec(m: WorldModel, flavor: u8, x: i32, y: i32) -> Option<WorldModel> {
    cast_from(m, flavor, x, y, 0)
}

/// The flavour of an arrow tile: 1 or 2.
pub open spec fn arrow_flavor(t: u8) -> u8 {
    (((t >> 2u8) & 1u8) + 1) as u8
}

/// An orb turned by arrow tile `t`: it heads the way the arrow points,
/// starting from the tile's edge, and an orb without a flavour takes the
/// arrow's flavour and starts its life again.
pub open spec fn turn_spec(o: Orb, t: u8) -> Orb {
    let tf = arrow_flavor(t);
    if o.flavor == 0 || tf == o.flavor {
        let s: int = (t & 2u8) as int - 1;
        let dx: int = (t & 1u8) as int * -s;
        let dy: int = ((t & 1u8) ^ 1u8) as int * s;
        let o1 = Orb {
            v: Vel { x: (dx * 128) as i32, y: (dy * 128) as i32 },
            pos: Entpos { subx: (128 + dx * 112) as u8, suby: (128 + dy * 112) as u8, ..o.pos },
            ..o
        };
        if o.flavor == 0 {
            Orb { flavor: tf, age: 0, ..o1 }
        } else {
            o1
        }
    } else {
        o
    }
}

/// One step of the orbs from index `i` on: orbs of age 100 or more leave;
/// the others move by their speed and age by one, then act on the tile they
/// reach: an arrow (0x90 to 0x97) turns them, a switch (0x82, 0x83) is set
/// to 0x82 by an orb of flavour 1 and to 0x83 by any other, a rune casts its
/// spell (which changes only the players' command queues) and ends the
/// orb's life.
pub open spec fn step_from(m: WorldModel, i: int) -> Option<WorldModel>
    decreases m.orbs.len() - i,
{
    if i < 0 || i >= m.orbs.len() {
        Some(m)
    } else {
        let o = m.orbs[i];
        if o.age >= 100 {
            step_from(WorldModel { orbs: m.orbs.remove(i), ..m }, i)
        } else if !addsub_ok(o.pos, o.v.x, o.v.y) {
            None
        } else {
            let pos = addsub_spec(o.pos, o.v.x, o.v.y);
            let o1 = Orb { pos: pos, age: (o.age + 1) as u32, ..o };
            let m1 = WorldModel { orbs: m.orbs.update(i, o1), ..m };
            let mt = model_tile(m1, pos.x as int, pos.y as int);
            if mt is None {
                None
            } else {
                let t = mt->0;
                if 0x90 <= t && t < 0x98 {
                    step_from(WorldModel { orbs: m1.orbs.update(i, turn_spec(o1, t)), ..m1 }, i + 1)
                } else if t | 1u8 == 0x83u8 {
                    let nt: u8 = if o1.flavor == 1 {
                        0x82
                    } else {
                        0x83
                    };
                    step_from(WorldModel { tiles: m1.tiles.insert((pos.x, pos.y), nt), ..m1 }, i + 1)
                } else if is_rune(t) {
                    let c = cast_spec(m1, o1.flavor, pos.x, pos.y);
                    if c is None {
                        None
                    } else {
                        let m2 = c->0;
                        step_from(WorldModel { players: m2.players, orbs: m1.orbs.update(i, Orb { age: 100, ..o1 }), ..m1 }, i + 1)
                    }
                } else {
                    step_from(m1, i + 1)
                }
            }
        }
    }
}

/// One step of all orbs.
pub open spec fn step_spec(m: WorldModel) -> Option<WorldModel> {
    step_from(m, 0)
}

} // verus!

verus! {

/// Once a row scan stops, scanning further stops too.
pub proof fn lemma_scan_row_none(t: Map<(i32, i32), u8>, y: int, x0: int, a: int, b: int, flip: u8)
    requires
        a <= b,
        scan_row(t, y, x0, a, flip) is None,
    ensures
        scan_row(t, y, x0, b, flip) is None,
    decreases b - a,
{
    if a < b {
        lemma_scan_row_none(t, y, x0, a, b - 1, flip);
    }
}

/// Once a scan of rows stops, scanning further rows stops too.
pub proof fn lemma_scan_rows_none(t: Map<(i32, i32), u8>, r: Rect, a: int, b: int, flip: u8)
    requires
        a <= b,
        scan_rows(t, r, a, flip) is None,
    ensures
        scan_rows(t, r, b, flip) is None,
    decreases b - a,
{
    if a < b {
        lemma_scan_rows_none(t, r, a, b - 1, flip);
    }
}

/// Once a scan of rectangles stops, scanning more rectangles stops too.
pub proof fn lemma_scan_rects_none(t: Map<(i32, i32), u8>, rs: Seq<Rect>, k: int, flip: u8)
    requires
        0 <= k <= rs.len(),
        scan_rects(t, rs.take(k), flip) is None,
    ensures
        scan_rects(t, rs, flip) is None,
    decreases rs.len() - k,
{
    if k < rs.len() {
        assert(rs.take(k + 1).drop_last() =~= rs.take(k));
        lemma_scan_rects_none(t, rs, k + 1, flip);
    } else {
        assert(rs.take(k) =~= rs);
    }
}

} // verus!

verus! {

/// Giving out a spell keeps the players' ids and order.
pub proof fn lemma_give_spell_frame(ps: Seq<(usize, PlayerModel)>, rest: Seq<u8>, x: i32, y: i32, j: int)
    requires
        give_spell(ps, rest, x, y, j) is Some,
    ensures
        give_spell(ps, rest, x, y, j)->0.len() == ps.len(),
        forall|a: int| 0 <= a < ps.len() ==> #[trigger] give_spell(ps, rest, x, y, j)->0[a].0 == ps[a].0,
    decreases ps.len() - j,
{
    if j >= ps.len() || j < 0 {
    } else {
        let p = ps[j].1;
        if abs_int(p.pos.x - x) > 5 || abs_int(p.pos.y - y) > 5 {
            if diff_ok(p.pos.x, x) && (abs_int(p.pos.x - x) > 5 || diff_ok(p.pos.y, y)) {
                lemma_give_spell_frame(ps, rest, x, y, j + 1);
            }
        } else {
            let q = PlayerModel { comque: p.comque + rest, ..p };
            lemma_give_spell_frame(ps.update(j, (ps[j].0, q)), seq![], x, y, j + 1);
        }
    }
}

/// Casting changes only the players' command queues.
pub proof fn lemma_cast_frame(m: WorldModel, flavor: u8, x: i32, y: i32, k: int)
    requires
        cast_from(m, flavor, x, y, k) is Some,
    ensures
        cast_from(m, flavor, x, y, k)->0 == (WorldModel { players: cast_from(m, flavor, x, y, k)->0.players, ..m }),
        cast_from(m, flavor, x, y, k)->0.players.len() == m.players.len(),
        forall|a: int| 0 <= a < m.players.len() ==> #[trigger] cast_from(m, flavor, x, y, k)->0.players[a].0 == m.players[a].0,
    decreases 5 - k,
{
    if k >= 5 || k < 0 {
    } else {
        let tx = x + rune_offset(k).0;
        let ty = y + rune_offset(k).1;
        let t = model_tile(m, tx, ty)->0;
        if !is_rune(t) {
            lemma_cast_frame(m, flavor, x, y, k + 1);
        } else {
            let i = (t ^ 0x8cu8) as int * 3 + flavor as int;
            if spell_bytes(i).len() > 0 {
                let ps = give_spell(m.players, spell_bytes(i), x, y, 0)->0;
                lemma_give_spell_frame(m.players, spell_bytes(i), x, y, 0);
                lemma_cast_frame(WorldModel { players: ps, ..m }, flavor, x, y, k + 1);
            } else {
                lemma_cast_frame(m, flavor, x, y, k + 1);
            }
        }
    }
}

} // verus!

verus! {

/// A step of the orbs never adds an orb and keeps the players, their ids,
/// their positions and their inventories; only their command queues change.
pub proof fn law_step_frame(m: WorldModel, i: int)
    requires
        step_from(m, i) is Some,
    ensures
        step_from(m, i)->0.orbs.len() <= m.orbs.len(),
        step_from(m, i)->0.pid == m.pid,
        step_from(m, i)->0.players.len() == m.players.len(),
        forall|a: int|
            0 <= a < m.players.len() ==> (#[trigger] step_from(m, i)->0.players[a]).0 == m.players[a].0
                && step_from(m, i)->0.players[a].1.pos == m.players[a].1.pos
                && step_from(m, i)->0.players[a].1.inventory == m.players[a].1.inventory,
    decreases m.orbs.len() - i,
{
    if i < 0 || i >= m.orbs.len() {
    } else {
        let o = m.orbs[i];
        if o.age >= 100 {
            law_step_frame(WorldModel { orbs: m.orbs.remove(i), ..m }, i);
        } else {
            let pos = addsub_spec(o.pos, o.v.x, o.v.y);
            let o1 = Orb { pos: pos, age: (o.age + 1) as u32, ..o };
            let m1 = WorldModel { orbs: m.orbs.update(i, o1), ..m };
            let t = model_tile(m1, pos.x as int, pos.y as int)->0;
            if 0x90 <= t && t < 0x98 {
                law_step_frame(WorldModel { orbs: m1.orbs.update(i, turn_spec(o1, t)), ..m1 }, i + 1);
            } else if t | 1u8 == 0x83u8 {
                let nt: u8 = if o1.flavor == 1 {
                    0x82
                } else {
                    0x83
                };
                law_step_frame(WorldModel { tiles: m1.tiles.insert((pos.x, pos.y), nt), ..m1 }, i + 1);
            } else if is_rune(t) {
                let m2 = cast_spec(m1, o1.flavor, pos.x, pos.y)->0;
                lemma_cast_keeps(m1, o1.flavor, pos.x, pos.y, 0);
                let m3 = WorldModel { players: m2.players, orbs: m1.orbs.update(i, Orb { age: 100, ..o1 }), ..m1 };
                law_step_frame(m3, i + 1);
            } else {
                law_step_frame(m1, i + 1);
            }
        }
    }
}

/// Giving out a spell changes only command queues.
pub proof fn lemma_give_spell_keeps(ps: Seq<(usize, PlayerModel)>, rest: Seq<u8>, x: i32, y: i32, j: int)
    requires
        give_spell(ps, rest, x, y, j) is Some,
    ensures
        give_spell(ps, rest, x, y, j)->0.len() == ps.len(),
        forall|a: int|
            0 <= a < ps.len() ==> (#[trigger] give_spell(ps, rest, x, y, j)->0[a]).0 == ps[a].0
                && give_spell(ps, rest, x, y, j)->0[a].1.pos == ps[a].1.pos
                && give_spell(ps, rest, x, y, j)->0[a].1.inventory == ps[a].1.inventory,
    decreases ps.len() - j,
{
    if j >= ps.len() || j < 0 {
    } else {
        let p = ps[j].1;
        if abs_int(p.pos.x - x) > 5 || abs_int(p.pos.y - y) > 5 {
            if diff_ok(p.pos.x, x) && (abs_int(p.pos.x - x) > 5 || diff_ok(p.pos.y, y)) {
                lemma_give_spell_keeps(ps, rest, x, y, j + 1);
            }
        } else {
            let q = PlayerModel { comque: p.comque + rest, ..p };
            lemma_give_spell_keeps(ps.update(j, (ps[j].0, q)), seq![], x, y, j + 1);
        }
    }
}

/// Casting changes only command queues.
pub proof fn lemma_cast_keeps(m: WorldModel, flavor: u8, x: i32, y: i32, k: int)
    requires
        cast_from(m, flavor, x, y, k) is Some,
    ensures
        cast_from(m, flavor, x, y, k)->0.players.len() == m.players.len(),
        forall|a: int|
            0 <= a < m.players.len() ==> (#[trigger] cast_from(m, flavor, x, y, k)->0.players[a]).0 == m.players[a].0
                && cast_from(m, flavor, x, y, k)->0.players[a].1.pos == m.players[a].1.pos
                && cast_from(m, flavor, x, y, k)->0.players[a].1.inventory == m.players[a].1.inventory,
    decreases 5 - k,
{
    if k >= 5 || k < 0 {
    } else {
        let tx = x + rune_offset(k).0;
        let ty = y + rune_offset(k).1;
        let t = model_tile(m, tx, ty)->0;
        if !is_rune(t) {
            lemma_cast_keeps(m, flavor, x, y, k + 1);
        } else {
            let i = (t ^ 0x8cu8) as int * 3 + flavor as int;
            if spell_bytes(i).len() > 0 {
                let ps = give_spell(m.players, spell_bytes(i), x, y, 0)->0;
                lemma_give_spell_keeps(m.players, spell_bytes(i), x, y, 0);
                lemma_cast_keeps(WorldModel { players: ps, ..m }, flavor, x, y, k + 1);
            } else {
                lemma_cast_keeps(m, flavor, x, y, k + 1);
            }
        }
    }
}

} // verus!

verus! {

/// The spells: card 0 is gravity and card 3 speed; a white orb (flavour
/// 0) casts the spell with last byte 1 and a blue one (flavour 1) the one
/// with last byte 0, so the two orbs of one card send different commands;
/// every command starts with 2. No other card and flavour sends anything.
pub proof fn law_spell_table(card: int, flavor: int)
    requires
        0 <= flavor,
        0 <= card,
    ensures
        (card == 0 || card == 3) && flavor <= 1 ==> spell_bytes(card * 3 + flavor) == seq![
            2u8,
            (card / 3) as u8,
            (1 - flavor) as u8,
        ],
        (card == 0 || card == 3) ==> spell_bytes(card * 3) != spell_bytes(card * 3 + 1),
        !((card == 0 || card == 3) && flavor <= 1) && flavor <= 2 && card <= 3 ==> spell_bytes(card * 3 + flavor)
            == Seq::<u8>::empty(),
{
    if card == 0 || card == 3 {
        assert(spell_bytes(card * 3)[2] != spell_bytes(card * 3 + 1)[2]);
    }
}

proof fn lemma_arrow_bits(t: u8)
    by (bit_vector)
    requires
        0x90u8 <= t && t < 0x98u8,
    ensures
        (t & 3u8) < 4u8,
        (t & 3u8) == 0u8 ==> (t & 2u8) == 0u8 && (t & 1u8) == 0u8,
        (t & 3u8) == 1u8 ==> (t & 2u8) == 0u8 && (t & 1u8) == 1u8,
        (t & 3u8) == 2u8 ==> (t & 2u8) == 2u8 && (t & 1u8) == 0u8,
        (t & 3u8) == 3u8 ==> (t & 2u8) == 2u8 && (t & 1u8) == 1u8,
        ((t & 1u8) ^ 1u8) == 1u8 - (t & 1u8),
        t < 0x94u8 ==> ((t >> 2u8) & 1u8) == 0u8,
        t >= 0x94u8 ==> ((t >> 2u8) & 1u8) == 1u8,
{
}

proof fn lemma_arrow_step(t: u8)
    requires
        0x90 <= t < 0x98,
    ensures
        ({
            let sg = (t & 2u8) as int - 1;
            let dx = (t & 1u8) as int * -sg;
            let dy = ((t & 1u8) ^ 1u8) as int * sg;
            dx == dir_spec(t & 3u8).0 && dy == dir_spec(t & 3u8).1
        }),
        arrow_flavor(t) == (if t < 0x94 { 1u8 } else { 2u8 }),
{
    lemma_arrow_bits(t);
    let a = (t & 1u8) as int;
    let b = ((t & 1u8) ^ 1u8) as int;
    let sg = (t & 2u8) as int - 1;
    assert(b == 1 - a);
    assert(a == 0 || a == 1);
    assert(a * -sg == (if a == 0 { 0 } else { -sg })) by (nonlinear_arith)
        requires
            a == 0 || a == 1,
    ;
    assert(b * sg == (if a == 0 { sg } else { 0 })) by (nonlinear_arith)
        requires
            a == 0 || a == 1,
            b == 1 - a,
    ;
}

/// An arrow tile turns an orb of no flavour or of the arrow's flavour (1
/// for 0x90 to 0x93, 2 for 0x94 to 0x97) to head where the arrow's two low
/// bits point, numbered as launchers and `dir_to_xyint` number directions
/// (0 up, 1 right, 2 down, 3 left): its speed is that unit step times 128
/// and it starts 112 from the tile's centre in that direction; it keeps its
/// position, takes the arrow's flavour and starts its life again if it had
/// no flavour. Any other orb passes unturned.
pub proof fn law_arrow_turn(o: Orb, t: u8)
    requires
        0x90 <= t < 0x98,
    ensures
        arrow_flavor(t) == (if t < 0x94 { 1u8 } else { 2u8 }),
        o.flavor == 0 || o.flavor == arrow_flavor(t) ==> {
            let d = dir_spec(t & 3u8);
            let r = turn_spec(o, t);
            &&& r.v == Vel { x: (d.0 * 128) as i32, y: (d.1 * 128) as i32 }
            &&& r.pos.subx == 128 + 112 * d.0
            &&& r.pos.suby == 128 + 112 * d.1
            &&& r.pos.x == o.pos.x
            &&& r.pos.y == o.pos.y
            &&& r.flavor == arrow_flavor(t)
            &&& r.age == (if o.flavor == 0 { 0 } else { o.age })
        },
        o.flavor != 0 && o.flavor != arrow_flavor(t) ==> turn_spec(o, t) == o,
{
    lemma_arrow_step(t);
    let d = dir_spec(t & 3u8);
    assert(-1 <= d.0 <= 1 && -1 <= d.1 <= 1);
}

/// The launcher tiles are exactly 0x88 to 0x8b, and each launches in the
/// direction of its offset from 0x88 (0 up, 1 right, 2 down, 3 left).
pub proof fn law_launcher_tiles(t: u8)
    ensures
        is_launcher(t) <==> (0x88 <= t && t <= 0x8b),
        is_launcher(t) ==> (t ^ 0x88u8) == t - 0x88,
{
    assert((t & 0xfcu8 == 0x88u8) <==> (0x88u8 <= t && t <= 0x8bu8)) by (bit_vector);
    assert((0x88u8 <= t && t <= 0x8bu8) ==> (t ^ 0x88u8) == t - 0x88u8) by (bit_vector);
}

/// A tile scanned on its own launches one orb exactly when it is a
/// launcher (0x88 to 0x8b), from its own position, heading in the direction
/// of its offset from 0x88 (reversed by `flip` 2), without a flavour.
pub proof fn law_scan_one_tile(m: Map<(i32, i32), u8>, x: i32, y: i32, flip: u8)
    requires
        m.dom().contains((x, y)),
    ensures
        scan_row(m, y as int, x as int, x as int, flip) == Some(
            if 0x88 <= m[(x, y)] && m[(x, y)] <= 0x8b {
                seq![orb_new_spec(x, y, ((m[(x, y)] - 0x88) as u8) ^ flip, 0)]
            } else {
                Seq::<Orb>::empty()
            },
        ),
{
    law_launcher_tiles(m[(x, y)]);
    assert(scan_row(m, y as int, x as int, x - 1, flip) == Some(Seq::<Orb>::empty()));
    assert(Seq::<Orb>::empty().push(orb_new_spec(x, y, ((m[(x, y)] - 0x88) as u8) ^ flip, 0)) =~= seq![
        orb_new_spec(x, y, ((m[(x, y)] - 0x88) as u8) ^ flip, 0),
    ]);
}

} // verus!
