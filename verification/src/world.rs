//! The world: loaded chunks over the saved ones and the generated terrain,
//! the players and the orbs.
use vstd::prelude::*;
use crate::chunk::{
    Chunk,
    corner,
    generatable,
    generated_tile,
    inner,
    lemma_save_load_tiles,
    lemma_split,
    lemma_split_aligned,
    loaded_tile,
    save_spec,
    saved_tile,
};
use crate::orb::{Orb, Vel, orb_new_spec};
use crate::player::{Entpos, Player, addsub_ok, addsub_spec, in_rect, put_spec, rem_ok, rem_spec, PlayerModel, Rect, new_rects_spec, rects_ok};
use crate::rules::{
    abs_int,
    lemma_cast_frame,
    arrow_flavor,
    cast_from,
    cast_spec,
    diff_ok,
    give_spell,
    in_i32,
    is_rune,
    model_tile,
    rune_offset,
    spell_bytes,
    step_from,
    step_spec,
    turn_spec,
    is_launcher,
    lemma_scan_rects_none,
    lemma_scan_row_none,
    lemma_scan_rows_none,
    move_checks_spec,
    scan_rects,
    scan_row,
    scan_rows,
    tile_in,
};

verus! {

/// The contents of a chunk's save file.
pub struct SavedChunk {
    pub x: i32,
    pub y: i32,
    pub data: Vec<u8>,
}

pub struct World {
    pub chunks: Vec<Chunk>,
    pub players: Vec<(usize, Player)>,
    pub orbs: Vec<Orb>,
    pub pid: usize,
    pub saved: Vec<SavedChunk>,
}

/// The world as plain values: the tile of every reachable position, the
/// players in the order they joined, the orbs, and the last player id.
pub struct WorldModel {
    pub tiles: Map<(i32, i32), u8>,
    pub players: Seq<(usize, PlayerModel)>,
    pub orbs: Seq<Orb>,
    pub pid: usize,
}

pub open spec fn has_chunk(cs: Seq<Chunk>, cx: i32, cy: i32) -> bool {
    exists|k: int| 0 <= k < cs.len() && cs[k].x == cx && cs[k].y == cy
}

pub open spec fn chunk_idx(cs: Seq<Chunk>, cx: i32, cy: i32) -> int {
    choose|k: int| 0 <= k < cs.len() && cs[k].x == cx && cs[k].y == cy
}

/// The tiles that loading the chunk at `(cx, cy)` gives.
pub open spec fn base_tiles(ss: Seq<SavedChunk>, cx: i32, cy: i32) -> Seq<u8> {
    Seq::new(16384, |i: int| base_tile(ss, cx, cy, i))
}

/// `f` is `o` with the chunk at `(cx, cy)` loaded: unchanged when it is
/// in memory already, else with it appended, unmodified, holding what
/// loading it gives.
pub open spec fn chunks_loaded(o: Seq<Chunk>, f: Seq<Chunk>, ss: Seq<SavedChunk>, cx: i32, cy: i32) -> bool {
    if has_chunk(o, cx, cy) {
        f == o
    } else {
        &&& f.len() == o.len() + 1
        &&& forall|j: int| 0 <= j < o.len() ==> #[trigger] f[j] == o[j]
        &&& f[o.len() as int].x == cx
        &&& f[o.len() as int].y == cy
        &&& !f[o.len() as int].modified
        &&& f[o.len() as int].tiles@ == base_tiles(ss, cx, cy)
    }
}

/// `f` is `o` after tile `(x, y)` was set to `t`: its chunk loaded if it
/// was not in memory, then given the new tile and marked modified; every
/// other chunk is left as it was.
pub open spec fn chunks_set(o: Seq<Chunk>, f: Seq<Chunk>, ss: Seq<SavedChunk>, x: i32, y: i32, t: u8) -> bool {
    let (cx, cy) = (corner(x), corner(y));
    let k = if has_chunk(o, cx, cy) { chunk_idx(o, cx, cy) } else { o.len() as int };
    let before = if has_chunk(o, cx, cy) { o[k].tiles@ } else { base_tiles(ss, cx, cy) };
    &&& f.len() == (if has_chunk(o, cx, cy) { o.len() as int } else { o.len() + 1int })
    &&& forall|j: int| 0 <= j < o.len() && j != k ==> #[trigger] f[j] == o[j]
    &&& f[k].x == cx
    &&& f[k].y == cy
    &&& f[k].modified
    &&& f[k].tiles@ == before.update(tile_pos(x, y), t)
}

/// No chunk in memory is dropped or moved, a chunk marked modified stays
/// marked, and a chunk whose tiles changed is marked modified; chunks may
/// be added at the end.
pub open spec fn chunks_grow(o: Seq<Chunk>, f: Seq<Chunk>) -> bool {
    &&& f.len() >= o.len()
    &&& forall|j: int|
        0 <= j < o.len() ==> (#[trigger] f[j]).x == o[j].x && f[j].y == o[j].y && (o[j].modified ==> f[j].modified)
            && (f[j].tiles@ != o[j].tiles@ ==> f[j].modified)
}

/// `f` is `o` after reads only: every chunk of `o` is left as it was, and
/// the chunks added at the end are unmodified and hold what loading them
/// gives.
pub open spec fn chunks_read(o: Seq<Chunk>, f: Seq<Chunk>, ss: Seq<SavedChunk>) -> bool {
    &&& f.len() >= o.len()
    &&& forall|j: int| 0 <= j < o.len() ==> #[trigger] f[j] == o[j]
    &&& forall|j: int| o.len() <= j < f.len() ==> !(#[trigger] f[j]).modified && f[j].tiles@ == base_tiles(ss, f[j].x, f[j].y)
}

pub proof fn lemma_read_trans(a: Seq<Chunk>, b: Seq<Chunk>, c: Seq<Chunk>, ss: Seq<SavedChunk>)
    requires
        chunks_read(a, b, ss),
        chunks_read(b, c, ss),
    ensures
        chunks_read(a, c, ss),
{
    assert forall|j: int| a.len() <= j < c.len() implies !(#[trigger] c[j]).modified && c[j].tiles@ == base_tiles(ss, c[j].x, c[j].y) by {
        if j < b.len() {
            assert(c[j] == b[j]);
        }
    }
}

pub proof fn lemma_loaded_read(o: Seq<Chunk>, f: Seq<Chunk>, ss: Seq<SavedChunk>, cx: i32, cy: i32)
    requires
        chunks_loaded(o, f, ss, cx, cy),
    ensures
        chunks_read(o, f, ss),
{
}

/// Whether some position of `s` lies in the chunk at `(cx, cy)`.
pub open spec fn touches(s: Set<(i32, i32)>, cx: i32, cy: i32) -> bool {
    exists|p: (i32, i32)| #[trigger] s.contains(p) && corner(p.0) == cx && corner(p.1) == cy
}

/// `f` is `o` after reading the tiles at the positions of `r` and writing
/// those of `w`: a chunk of `o` that holds no written position is left as
/// it was; the chunks added at the end hold a read or written position,
/// and those that hold no written one are unmodified and hold what loading
/// them gives.
pub open spec fn chunks_touch(o: Seq<Chunk>, f: Seq<Chunk>, ss: Seq<SavedChunk>, r: Set<(i32, i32)>, w: Set<(i32, i32)>) -> bool {
    &&& f.len() >= o.len()
    &&& forall|j: int|
        0 <= j < o.len() ==> (#[trigger] f[j]).x == o[j].x && f[j].y == o[j].y && (!touches(w, o[j].x, o[j].y) ==> f[j]
            == o[j])
    &&& forall|j: int|
        o.len() <= j < f.len() ==> (touches(r, (#[trigger] f[j]).x, f[j].y) || touches(w, f[j].x, f[j].y)) && (!touches(
            w,
            f[j].x,
            f[j].y,
        ) ==> !f[j].modified && f[j].tiles@ == base_tiles(ss, f[j].x, f[j].y))
}

pub proof fn lemma_touch_trans(
    a: Seq<Chunk>,
    b: Seq<Chunk>,
    c: Seq<Chunk>,
    ss: Seq<SavedChunk>,
    r1: Set<(i32, i32)>,
    w1: Set<(i32, i32)>,
    r2: Set<(i32, i32)>,
    w2: Set<(i32, i32)>,
)
    requires
        chunks_touch(a, b, ss, r1, w1),
        chunks_touch(b, c, ss, r2, w2),
    ensures
        chunks_touch(a, c, ss, r1 + r2, w1 + w2),
{
    let (r, w) = (r1 + r2, w1 + w2);
    assert forall|s1: Set<(i32, i32)>, s2: Set<(i32, i32)>, cx: i32, cy: i32|
        touches(s1, cx, cy) implies #[trigger] touches(s1 + s2, cx, cy) && touches(s2 + s1, cx, cy) by {
        let p = choose|p: (i32, i32)| #[trigger] s1.contains(p) && corner(p.0) == cx && corner(p.1) == cy;
        assert((s1 + s2).contains(p));
        assert((s2 + s1).contains(p));
    }
    assert forall|cx: i32, cy: i32| #[trigger] touches(w, cx, cy) == (touches(w1, cx, cy) || touches(w2, cx, cy)) by {
        if touches(w, cx, cy) {
            let p = choose|p: (i32, i32)| #[trigger] w.contains(p) && corner(p.0) == cx && corner(p.1) == cy;
            if w1.contains(p) {
                assert(touches(w1, cx, cy));
            } else {
                assert(touches(w2, cx, cy));
            }
        }
        if touches(w1, cx, cy) {
            assert(touches(w1 + w2, cx, cy));
        }
        if touches(w2, cx, cy) {
            assert(touches(w2 + w1, cx, cy));
            assert(w2 + w1 =~= w);
        }
    }
    assert forall|cx: i32, cy: i32| (touches(r1, cx, cy) || touches(r2, cx, cy)) implies #[trigger] touches(r, cx, cy) by {
        if touches(r1, cx, cy) {
            assert(touches(r1 + r2, cx, cy));
        } else {
            assert(touches(r2 + r1, cx, cy));
            assert(r2 + r1 =~= r);
        }
    }
    assert forall|j: int| 0 <= j < a.len() implies (#[trigger] c[j]).x == a[j].x && c[j].y == a[j].y && (!touches(
        w,
        a[j].x,
        a[j].y,
    ) ==> c[j] == a[j]) by {
        assert(b[j].x == a[j].x && b[j].y == a[j].y);
    }
    assert forall|j: int| a.len() <= j < c.len() implies (touches(r, (#[trigger] c[j]).x, c[j].y) || touches(
        w,
        c[j].x,
        c[j].y,
    )) && (!touches(w, c[j].x, c[j].y) ==> !c[j].modified && c[j].tiles@ == base_tiles(ss, c[j].x, c[j].y)) by {
        if j < b.len() {
            assert(c[j].x == b[j].x && c[j].y == b[j].y);
            if !touches(w2, b[j].x, b[j].y) {
                assert(c[j] == b[j]);
            }
        }
    }
}

pub proof fn lemma_touch_loaded(o: Seq<Chunk>, f: Seq<Chunk>, ss: Seq<SavedChunk>, x: i32, y: i32)
    requires
        chunks_loaded(o, f, ss, corner(x), corner(y)),
    ensures
        chunks_touch(o, f, ss, set![(x, y)], Set::empty()),
{
    assert(set![(x, y)].contains((x, y)));
    assert forall|cx: i32, cy: i32| !#[trigger] touches(Set::<(i32, i32)>::empty(), cx, cy) by {}
}

pub proof fn lemma_touch_set(o: Seq<Chunk>, f: Seq<Chunk>, ss: Seq<SavedChunk>, x: i32, y: i32, t: u8)
    requires
        chunks_set(o, f, ss, x, y, t),
        forall|a: int, b: int| 0 <= a < b < o.len() ==> !(#[trigger] o[a].x == #[trigger] o[b].x && o[a].y == o[b].y),
    ensures
        chunks_touch(o, f, ss, Set::empty(), set![(x, y)]),
{
    let (cx, cy) = (corner(x), corner(y));
    let k = if has_chunk(o, cx, cy) { chunk_idx(o, cx, cy) } else { o.len() as int };
    assert(set![(x, y)].contains((x, y)));
    assert(touches(set![(x, y)], cx, cy));
    assert forall|qx: i32, qy: i32| #[trigger] touches(set![(x, y)], qx, qy) ==> qx == cx && qy == cy by {}
    assert forall|j: int| 0 <= j < o.len() implies (#[trigger] f[j]).x == o[j].x && f[j].y == o[j].y && (!touches(
        set![(x, y)],
        o[j].x,
        o[j].y,
    ) ==> f[j] == o[j]) by {
        if j != k {
            assert(f[j] == o[j]);
        }
    }
}

pub proof fn lemma_touch_same(o: Seq<Chunk>, ss: Seq<SavedChunk>)
    ensures
        chunks_touch(o, o, ss, Set::empty(), Set::empty()),
{
}

/// The positions of the first `k` tiles that casting at `(x, y)` reads:
/// the tile, then the one above, right, below and left.
pub open spec fn cast_reads_upto(x: i32, y: i32, k: int) -> Set<(i32, i32)> {
    Set::new(
        |p: (i32, i32)|
            exists|j: int| 0 <= j < k && p.0 == x + rune_offset(j).0 && p.1 == y + rune_offset(j).1,
    )
}

/// The positions of the five tiles that casting at `(x, y)` reads.
pub open spec fn cast_reads(x: i32, y: i32) -> Set<(i32, i32)> {
    cast_reads_upto(x, y, 5)
}

/// The positions whose tiles a step of the orbs from index `i` on reads
/// (first) and writes (second), following `step_from`: each moving orb
/// reads the tile it reaches; a switch there is written; a rune there has
/// its neighbourhood read by the cast.
pub open spec fn step_touch(m: WorldModel, i: int) -> (Set<(i32, i32)>, Set<(i32, i32)>)
    decreases m.orbs.len() - i,
{
    if i < 0 || i >= m.orbs.len() {
        (Set::empty(), Set::empty())
    } else {
        let o = m.orbs[i];
        if o.age >= 100 {
            step_touch(WorldModel { orbs: m.orbs.remove(i), ..m }, i)
        } else if !addsub_ok(o.pos, o.v.x, o.v.y) {
            (Set::empty(), Set::empty())
        } else {
            let pos = addsub_spec(o.pos, o.v.x, o.v.y);
            let o1 = Orb { pos: pos, age: (o.age + 1) as u32, ..o };
            let m1 = WorldModel { orbs: m.orbs.update(i, o1), ..m };
            let mt = model_tile(m1, pos.x as int, pos.y as int);
            if mt is None {
                (Set::empty(), Set::empty())
            } else {
                let t = mt->0;
                let here = set![(pos.x, pos.y)];
                if 0x90 <= t && t < 0x98 {
                    let r = step_touch(WorldModel { orbs: m1.orbs.update(i, turn_spec(o1, t)), ..m1 }, i + 1);
                    (here + r.0, r.1)
                } else if t | 1u8 == 0x83u8 {
                    let nt: u8 = if o1.flavor == 1 {
                        0x82
                    } else {
                        0x83
                    };
                    let r = step_touch(WorldModel { tiles: m1.tiles.insert((pos.x, pos.y), nt), ..m1 }, i + 1);
                    (here + r.0, here + r.1)
                } else if is_rune(t) {
                    let c = cast_spec(m1, o1.flavor, pos.x, pos.y);
                    if c is None {
                        (Set::empty(), Set::empty())
                    } else {
                        let m2 = c->0;
                        let r = step_touch(
                            WorldModel { players: m2.players, orbs: m1.orbs.update(i, Orb { age: 100, ..o1 }), ..m1 },
                            i + 1,
                        );
                        (here + cast_reads(pos.x, pos.y) + r.0, r.1)
                    }
                } else {
                    let r = step_touch(m1, i + 1);
                    (here + r.0, r.1)
                }
            }
        }
    }
}

/// The positions `(x, y)` with `x0 <= x <= x2`.
pub open spec fn row_set(y: i32, x0: int, x2: int) -> Set<(i32, i32)> {
    Set::new(|p: (i32, i32)| p.1 == y && x0 <= p.0 <= x2)
}

/// The positions of rectangle `r` in its rows up to `y`.
pub open spec fn rect_upto(r: Rect, y: int) -> Set<(i32, i32)> {
    Set::new(|p: (i32, i32)| in_rect(r, p.0 as int, p.1 as int) && p.1 <= y)
}

/// The positions of the rectangles `rs`.
pub open spec fn rects_set(rs: Seq<Rect>) -> Set<(i32, i32)> {
    Set::new(|p: (i32, i32)| exists|k: int| 0 <= k < rs.len() && in_rect(#[trigger] rs[k], p.0 as int, p.1 as int))
}

/// The positions whose tiles the move checks of player `pid` read, after it
/// moved from `(ox, oy)`: the areas that left and came into its view.
pub open spec fn move_reads(m: WorldModel, ox: i32, oy: i32, pid: usize) -> Set<(i32, i32)> {
    let p = m.players[pid_idx(m.players, pid)].1.pos;
    rects_set(new_rects_spec(p.x, p.y, ox, oy)) + rects_set(new_rects_spec(ox, oy, p.x, p.y))
}

pub proof fn lemma_rects_set_push(rs: Seq<Rect>, k: int)
    requires
        0 <= k < rs.len(),
    ensures
        rects_set(rs.take(k)) + rect_upto(rs[k], rs[k].3 as int) == rects_set(rs.take(k + 1)),
{
    let a = rects_set(rs.take(k)) + rect_upto(rs[k], rs[k].3 as int);
    let b = rects_set(rs.take(k + 1));
    assert forall|p: (i32, i32)| a.contains(p) <==> b.contains(p) by {
        if rects_set(rs.take(k)).contains(p) {
            let j = choose|j: int| 0 <= j < rs.take(k).len() && in_rect(#[trigger] rs.take(k)[j], p.0 as int, p.1 as int);
            assert(rs.take(k + 1)[j] == rs.take(k)[j]);
        }
        if rect_upto(rs[k], rs[k].3 as int).contains(p) {
            assert(rs.take(k + 1)[k] == rs[k]);
        }
        if b.contains(p) {
            let j = choose|j: int| 0 <= j < rs.take(k + 1).len() && in_rect(#[trigger] rs.take(k + 1)[j], p.0 as int, p.1 as int);
            if j < k {
                assert(rs.take(k)[j] == rs.take(k + 1)[j]);
            }
        }
    }
    assert(a =~= b);
}

pub proof fn lemma_grow_trans(a: Seq<Chunk>, b: Seq<Chunk>, c: Seq<Chunk>)
    requires
        chunks_grow(a, b),
        chunks_grow(b, c),
    ensures
        chunks_grow(a, c),
{
    assert forall|j: int| 0 <= j < a.len() implies (#[trigger] c[j]).x == a[j].x && c[j].y == a[j].y && (a[j].modified
        ==> c[j].modified) && (c[j].tiles@ != a[j].tiles@ ==> c[j].modified) by {
        assert(b[j].x == a[j].x);
        assert(c[j].x == b[j].x);
    }
}

pub proof fn lemma_grow_refl(a: Seq<Chunk>)
    ensures
        chunks_grow(a, a),
{
}

pub proof fn lemma_loaded_grow(o: Seq<Chunk>, f: Seq<Chunk>, ss: Seq<SavedChunk>, cx: i32, cy: i32)
    requires
        chunks_loaded(o, f, ss, cx, cy),
    ensures
        chunks_grow(o, f),
{
    if !has_chunk(o, cx, cy) {
        assert forall|j: int| 0 <= j < o.len() implies (#[trigger] f[j]).x == o[j].x && f[j].y == o[j].y && (o[j].modified
            ==> f[j].modified) && (f[j].tiles@ != o[j].tiles@ ==> f[j].modified) by {
            assert(f[j] == o[j]);
        }
    }
}

pub proof fn lemma_set_grow(o: Seq<Chunk>, f: Seq<Chunk>, ss: Seq<SavedChunk>, x: i32, y: i32, t: u8)
    requires
        chunks_set(o, f, ss, x, y, t),
        forall|a: int, b: int| 0 <= a < b < o.len() ==> !(#[trigger] o[a].x == #[trigger] o[b].x && o[a].y == o[b].y),
    ensures
        chunks_grow(o, f),
{
    let (cx, cy) = (corner(x), corner(y));
    let k = if has_chunk(o, cx, cy) { chunk_idx(o, cx, cy) } else { o.len() as int };
    assert forall|j: int| 0 <= j < o.len() implies (#[trigger] f[j]).x == o[j].x && f[j].y == o[j].y && (o[j].modified
        ==> f[j].modified) && (f[j].tiles@ != o[j].tiles@ ==> f[j].modified) by {
        if j != k {
            assert(f[j] == o[j]);
        }
    }
}

pub open spec fn has_saved(ss: Seq<SavedChunk>, cx: i32, cy: i32) -> bool {
    exists|k: int| 0 <= k < ss.len() && ss[k].x == cx && ss[k].y == cy
}

pub open spec fn saved_idx(ss: Seq<SavedChunk>, cx: i32, cy: i32) -> int {
    choose|k: int| 0 <= k < ss.len() && ss[k].x == cx && ss[k].y == cy
}

/// What loading the chunk at `(cx, cy)` reads: its save file if there is one.
pub open spec fn saved_source(ss: Seq<SavedChunk>, cx: i32, cy: i32) -> Option<Seq<u8>> {
    if has_saved(ss, cx, cy) {
        Some(ss[saved_idx(ss, cx, cy)].data@)
    } else {
        None
    }
}

/// The tile that a chunk not in memory has at index `i`.
pub open spec fn base_tile(ss: Seq<SavedChunk>, cx: i32, cy: i32, i: int) -> u8 {
    loaded_tile(cx, cy, saved_source(ss, cx, cy), i)
}

pub open spec fn tile_pos(x: i32, y: i32) -> int {
    inner(x) as int + inner(y) as int * 128
}

/// Whether the chunk at `(cx, cy)` is loaded, saved or can be generated.
pub open spec fn chunk_reachable(cs: Seq<Chunk>, ss: Seq<SavedChunk>, cx: i32, cy: i32) -> bool {
    has_chunk(cs, cx, cy) || has_saved(ss, cx, cy) || generatable(cx, cy)
}

pub open spec fn tile_of(cs: Seq<Chunk>, ss: Seq<SavedChunk>, x: i32, y: i32) -> u8 {
    let (cx, cy) = (corner(x), corner(y));
    if has_chunk(cs, cx, cy) {
        cs[chunk_idx(cs, cx, cy)].tiles@[tile_pos(x, y)]
    } else {
        base_tile(ss, cx, cy, tile_pos(x, y))
    }
}

pub open spec fn players_model(ps: Seq<(usize, Player)>) -> Seq<(usize, PlayerModel)> {
    ps.map_values(|p: (usize, Player)| (p.0, p.1.model()))
}

impl World {
    pub open spec fn spec_saved(&self) -> Seq<SavedChunk> {
        self.saved@
    }

    /// The world as plain values.
    pub open spec fn model(&self) -> WorldModel {
        WorldModel {
            tiles: Map::new(
                |p: (i32, i32)| chunk_reachable(self.chunks@, self.saved@, corner(p.0), corner(p.1)),
                |p: (i32, i32)| tile_of(self.chunks@, self.saved@, p.0, p.1),
            ),
            players: players_model(self.players@),
            orbs: self.orbs@,
            pid: self.pid,
        }
    }

    /// The world's invariant: chunks are aligned, distinct, and saved or
    /// generatable, a chunk that
    /// was not modified since it was loaded or saved still holds what
    /// loading it again would give, saves are distinct, player ids are
    /// distinct and at most the last id given, orbs have a flavour of at
    /// most 2 and a speed of at most one tile per two steps on each axis.
    pub closed spec fn wf(&self) -> bool {
        &&& forall|k: int|
            0 <= k < self.chunks@.len() ==> inner(#[trigger] self.chunks@[k].x) == 0 && inner(self.chunks@[k].y) == 0
                && (has_saved(self.saved@, self.chunks@[k].x, self.chunks@[k].y) || generatable(
                self.chunks@[k].x,
                self.chunks@[k].y,
            ))
        &&& forall|a: int, b: int|
            0 <= a < b < self.chunks@.len() ==> !(#[trigger] self.chunks@[a].x == #[trigger] self.chunks@[b].x
                && self.chunks@[a].y == self.chunks@[b].y)
        &&& forall|k: int, i: int|
            0 <= k < self.chunks@.len() && !self.chunks@[k].modified && 0 <= i < 16384 ==> #[trigger] self.chunks@[k].tiles@[i]
                == base_tile(self.saved@, self.chunks@[k].x, self.chunks@[k].y, i)
        &&& saved_distinct(self.saved@)
        &&& forall|a: int, b: int|
            0 <= a < b < self.players@.len() ==> #[trigger] self.players@[a].0 != #[trigger] self.players@[b].0
        &&& forall|a: int| 0 <= a < self.players@.len() ==> #[trigger] self.players@[a].0 <= self.pid
        &&& forall|a: int| 0 <= a < self.orbs@.len() ==> orb_wf(#[trigger] self.orbs@[a])
    }
}

pub open spec fn saved_distinct(ss: Seq<SavedChunk>) -> bool {
    forall|a: int, b: int| 0 <= a < b < ss.len() ==> !(#[trigger] ss[a].x == #[trigger] ss[b].x && ss[a].y == ss[b].y)
}

pub open spec fn orb_wf(o: Orb) -> bool {
    &&& o.flavor <= 2
    &&& -128 <= o.v.x <= 128
    &&& -128 <= o.v.y <= 128
}

proof fn lemma_chunk_idx(cs: Seq<Chunk>, cx: i32, cy: i32, k: int)
    requires
        0 <= k < cs.len(),
        cs[k].x == cx && cs[k].y == cy,
        forall|a: int, b: int| 0 <= a < b < cs.len() ==> !(#[trigger] cs[a].x == #[trigger] cs[b].x && cs[a].y == cs[b].y),
    ensures
        has_chunk(cs, cx, cy),
        chunk_idx(cs, cx, cy) == k,
{
    let j = chunk_idx(cs, cx, cy);
    if j < k {
        assert(!(cs[j].x == cs[k].x && cs[j].y == cs[k].y));
    } else if j > k {
        assert(!(cs[k].x == cs[j].x && cs[k].y == cs[j].y));
    }
}

proof fn lemma_saved_idx(ss: Seq<SavedChunk>, cx: i32, cy: i32, k: int)
    requires
        0 <= k < ss.len(),
        ss[k].x == cx && ss[k].y == cy,
        forall|a: int, b: int| 0 <= a < b < ss.len() ==> !(#[trigger] ss[a].x == #[trigger] ss[b].x && ss[a].y == ss[b].y),
    ensures
        has_saved(ss, cx, cy),
        saved_idx(ss, cx, cy) == k,
{
    let j = saved_idx(ss, cx, cy);
    if j < k {
        assert(!(ss[j].x == ss[k].x && ss[j].y == ss[k].y));
    } else if j > k {
        assert(!(ss[k].x == ss[j].x && ss[k].y == ss[j].y));
    }
}

impl World {
    pub fn new() -> (w: World)
        ensures
            w.chunks@ == Seq::<Chunk>::empty(),
            w.wf(),
            w.model().players == Seq::<(usize, PlayerModel)>::empty(),
            w.model().orbs == Seq::<Orb>::empty(),
            w.model().pid == 0,
            forall|x: i32, y: i32| #[trigger] w.model().tiles.dom().contains((x, y)) <==> generatable(corner(x), corner(y)),
            forall|x: i32, y: i32|
                generatable(corner(x), corner(y)) ==> #[trigger] w.model().tiles[(x, y)] == generated_tile(
                    corner(x),
                    corner(y),
                    inner(x) as int,
                    inner(y) as int,
                ),
    {
        let w = World { chunks: Vec::new(), players: Vec::new(), orbs: Vec::new(), pid: 0, saved: Vec::new() };
        assert(w.model().players =~= Seq::<(usize, PlayerModel)>::empty());
        assert forall|x: i32, y: i32| generatable(corner(x), corner(y)) implies #[trigger] w.model().tiles[(x, y)]
            == generated_tile(corner(x), corner(y), inner(x) as int, inner(y) as int) by {
            lemma_split(x);
            lemma_split(y);
            let i = tile_pos(x, y);
            assert(i % 128 == inner(x) && i / 128 == inner(y));
        }
        w
    }

    /// A world whose save files are `saved`: each entry gives a chunk's
    /// coordinates and the bytes of its file.
    pub fn with_saved(saved: Vec<SavedChunk>) -> (w: World)
        requires
            forall|k: int| 0 <= k < saved@.len() ==> inner(#[trigger] saved@[k].x) == 0 && inner(saved@[k].y) == 0,
            forall|a: int, b: int|
                0 <= a < b < saved@.len() ==> !(#[trigger] saved@[a].x == #[trigger] saved@[b].x && saved@[a].y
                    == saved@[b].y),
        ensures
            w.chunks@ == Seq::<Chunk>::empty(),
            w.wf(),
            w.spec_saved() == saved@,
            w.model().tiles == Map::new(
                |p: (i32, i32)| has_saved(saved@, corner(p.0), corner(p.1)) || generatable(corner(p.0), corner(p.1)),
                |p: (i32, i32)| base_tile(saved@, corner(p.0), corner(p.1), tile_pos(p.0, p.1)),
            ),
            w.model().players == Seq::<(usize, PlayerModel)>::empty(),
            w.model().orbs == Seq::<Orb>::empty(),
            w.model().pid == 0,
    {
        let ghost ss = saved@;
        let w = World { chunks: Vec::new(), players: Vec::new(), orbs: Vec::new(), pid: 0, saved: saved };
        assert(w.model().players =~= Seq::<(usize, PlayerModel)>::empty());
        assert(w.model().tiles =~= Map::new(
            |p: (i32, i32)| has_saved(ss, corner(p.0), corner(p.1)) || generatable(corner(p.0), corner(p.1)),
            |p: (i32, i32)| base_tile(ss, corner(p.0), corner(p.1), tile_pos(p.0, p.1)),
        ));
        w
    }

    /// Adds a player under the next id, which it returns.
    pub fn insert_player(&mut self, p: Player) -> (id: usize)
        requires
            old(self).wf(),
            old(self).model().pid < usize::MAX,
        ensures
            final(self).chunks@ == old(self).chunks@,
            final(self).saved@ == old(self).saved@,
            final(self).wf(),
            id == old(self).model().pid + 1,
            !has_pid(old(self).model().players, id),
            final(self).model() == (WorldModel {
                players: old(self).model().players.push((id, p.model())),
                pid: id,
                ..old(self).model()
            }),
    {
        proof {
            if has_pid(old(self).model().players, (old(self).pid + 1) as usize) {
                let k = choose|k: int| 0 <= k < old(self).model().players.len() && old(self).model().players[k].0 == old(self).pid + 1;
                assert(old(self).players@[k].0 <= old(self).pid);
            }
        }
        self.pid = self.pid + 1;
        let id = self.pid;
        self.players.push((id, p));
        proof {
            assert(players_model(self.players@) =~= players_model(old(self).players@).push((id, p.model())));
            assert(self.model().tiles =~= old(self).model().tiles);
        }
        id
    }

    /// Removes the player with id `pid`, if there is one.
    pub fn remove_player(&mut self, pid: usize)
        requires
            old(self).wf(),
        ensures
            final(self).chunks@ == old(self).chunks@,
            final(self).saved@ == old(self).saved@,
            final(self).wf(),
            final(self).model() == (WorldModel {
                players: remove_key(old(self).model().players, pid),
                ..old(self).model()
            }),
    {
        let mut i: usize = 0;
        while i < self.players.len()
            invariant
                0 <= i <= self.players@.len(),
                self.players@ == old(self).players@,
                forall|j: int| 0 <= j < i ==> #[trigger] self.players@[j].0 != pid,
            ensures
                0 <= i <= self.players@.len(),
                self.players@ == old(self).players@,
                forall|j: int| 0 <= j < i ==> #[trigger] self.players@[j].0 != pid,
                i < self.players@.len() ==> self.players@[i as int].0 == pid,
            decreases self.players@.len() - i,
        {
            if self.players[i].0 == pid {
                break;
            }
            i = i + 1;
        }
        let ghost ps = players_model(old(self).players@);
        if i < self.players.len() {
            self.players.remove(i);
            proof {
                assert forall|a: int, b: int| 0 <= a < b < ps.len() implies #[trigger] ps[a].0 != #[trigger] ps[b].0 by {
                    assert(old(self).players@[a].0 != old(self).players@[b].0);
                    assert(ps[a].0 == old(self).players@[a].0);
                    assert(ps[b].0 == old(self).players@[b].0);
                }
                assert(ps[i as int].0 == pid);
                lemma_pid_idx(ps, pid, i as int);
                assert(players_model(self.players@) =~= ps.remove(i as int));
            }
        } else {
            proof {
                if has_pid(ps, pid) {
                    let k = choose|k: int| 0 <= k < ps.len() && ps[k].0 == pid;
                    assert(old(self).players@[k].0 == pid);
                }
            }
        }
        proof {
            assert(self.model().tiles =~= old(self).model().tiles);
        }
    }
}

impl World {
    /// In a well-formed world the players' ids are distinct and at most the
    /// last id given, so the next id is fresh.
    pub proof fn lemma_ids(&self)
        requires
            self.wf(),
        ensures
            forall|a: int, b: int|
                0 <= a < b < self.model().players.len() ==> #[trigger] self.model().players[a].0
                    != #[trigger] self.model().players[b].0,
            forall|a: int| 0 <= a < self.model().players.len() ==> #[trigger] self.model().players[a].0 <= self.model().pid,
            self.model().pid < usize::MAX ==> !has_pid(self.model().players, (self.model().pid + 1) as usize),
    {
        self.lemma_players_distinct();
        assert forall|a: int| 0 <= a < self.model().players.len() implies #[trigger] self.model().players[a].0 <= self.model().pid by {
            assert(self.players@[a].0 <= self.pid);
        }
    }

    /// In a well-formed world no two chunks in memory lie at the same
    /// place, and each lies at a multiple of 128 on both axes.
    pub proof fn lemma_chunks_distinct(&self)
        requires
            self.wf(),
        ensures
            forall|a: int, b: int|
                0 <= a < b < self.chunks@.len() ==> !(#[trigger] self.chunks@[a].x == #[trigger] self.chunks@[b].x
                    && self.chunks@[a].y == self.chunks@[b].y),
            forall|k: int| 0 <= k < self.chunks@.len() ==> inner((#[trigger] self.chunks@[k]).x) == 0 && inner(self.chunks@[k].y) == 0,
    {
        assert forall|k: int| 0 <= k < self.chunks@.len() implies inner((#[trigger] self.chunks@[k]).x) == 0 && inner(
            self.chunks@[k].y,
        ) == 0 by {
            assert(inner(self.chunks@[k].x) == 0);
        }
    }
}

impl World {
    /// The index of the chunk at `(x, y)`, loading it first (from its save
    /// file, or by generating it) when it is not in memory.
    #[verifier::loop_isolation(false)]
    fn get_chunk(&mut self, x: i32, y: i32) -> (k: usize)
        requires
            old(self).wf(),
            inner(x) == 0,
            inner(y) == 0,
            chunk_reachable(old(self).chunks@, old(self).saved@, x, y),
        ensures
            final(self).wf(),
            final(self).model() == old(self).model(),
            final(self).saved@ == old(self).saved@,
            final(self).players@ == old(self).players@,
            final(self).orbs@ == old(self).orbs@,
            final(self).pid == old(self).pid,
            k < final(self).chunks@.len(),
            final(self).chunks@[k as int].x == x,
            final(self).chunks@[k as int].y == y,
            has_chunk(final(self).chunks@, x, y),
            chunk_idx(final(self).chunks@, x, y) == k,
            forall|cx: i32, cy: i32| has_chunk(old(self).chunks@, cx, cy) ==> #[trigger] chunk_idx(final(self).chunks@, cx, cy) == chunk_idx(old(self).chunks@, cx, cy),
            forall|j: int| 0 <= j < old(self).chunks@.len() ==> #[trigger] final(self).chunks@[j] == old(self).chunks@[j],
            final(self).chunks@.len() >= old(self).chunks@.len(),
            chunks_loaded(old(self).chunks@, final(self).chunks@, old(self).saved@, x, y),
    {
        let mut i: usize = 0;
        while i < self.chunks.len()
            invariant
                0 <= i <= self.chunks@.len(),
                forall|j: int| 0 <= j < i ==> !(#[trigger] self.chunks@[j].x == x && self.chunks@[j].y == y),
            decreases self.chunks@.len() - i,
        {
            if self.chunks[i].x == x && self.chunks[i].y == y {
                proof {
                    lemma_chunk_idx(self.chunks@, x, y, i as int);
                    assert forall|cx: i32, cy: i32| has_chunk(old(self).chunks@, cx, cy) implies #[trigger] chunk_idx(self.chunks@, cx, cy) == chunk_idx(old(self).chunks@, cx, cy) by {}
                }
                return i;
            }
            i = i + 1;
        }
        let found = self.find_saved(x, y);
        let ghost ss = self.saved@;
        let c = match found {
            Some(j) => Chunk::load(x, y, Some(self.saved[j].data.as_slice())),
            None => Chunk::load(x, y, None),
        };
        proof {
            assert(!has_chunk(old(self).chunks@, x, y));
            assert forall|i2: int| 0 <= i2 < 16384 implies #[trigger] c.tiles@[i2] == base_tile(ss, x, y, i2) by {}
            assert(c.tiles@ =~= base_tiles(ss, x, y));
        }
        self.chunks.push(c);
        let k = self.chunks.len() - 1;
        proof {
            let cs0 = old(self).chunks@;
            let cs = self.chunks@;
            lemma_chunk_idx(cs, x, y, k as int);
            assert forall|cx: i32, cy: i32| has_chunk(cs0, cx, cy) implies #[trigger] chunk_idx(cs, cx, cy) == chunk_idx(cs0, cx, cy) by {
                let k0 = chunk_idx(cs0, cx, cy);
                lemma_chunk_idx(cs, cx, cy, k0);
            }
            assert forall|cx: i32, cy: i32| #[trigger] has_chunk(cs, cx, cy) == (has_chunk(cs0, cx, cy) || (cx == x && cy == y)) by {
                if has_chunk(cs, cx, cy) && !(cx == x && cy == y) {
                    let w = choose|w: int| 0 <= w < cs.len() && cs[w].x == cx && cs[w].y == cy;
                    assert(cs0[w].x == cx && cs0[w].y == cy);
                }
                if has_chunk(cs0, cx, cy) {
                    let w = choose|w: int| 0 <= w < cs0.len() && cs0[w].x == cx && cs0[w].y == cy;
                    assert(cs[w].x == cx && cs[w].y == cy);
                }
                if cx == x && cy == y {
                    assert(cs[k as int].x == cx && cs[k as int].y == cy);
                }
            }
            let m0 = old(self).model().tiles;
            let m1 = self.model().tiles;
            assert forall|p: (i32, i32)| #[trigger] m1.dom().contains(p) == m0.dom().contains(p) by {}
            assert forall|p: (i32, i32)| m1.dom().contains(p) implies #[trigger] m1[p] == m0[p] by {
                lemma_split(p.0);
                lemma_split(p.1);
                if corner(p.0) == x && corner(p.1) == y {
                    assert(cs[k as int].tiles@[tile_pos(p.0, p.1)] == base_tile(ss, x, y, tile_pos(p.0, p.1)));
                }
            }
            assert(m1 =~= m0);
        }
        k
    }

    fn find_saved(&self, x: i32, y: i32) -> (r: Option<usize>)
        requires
            saved_distinct(self.saved@),
        ensures
            match r {
                Some(j) => j < self.saved@.len() && has_saved(self.saved@, x, y) && saved_idx(self.saved@, x, y) == j,
                None => !has_saved(self.saved@, x, y),
            },
    {
        let mut j: usize = 0;
        while j < self.saved.len()
            invariant
                saved_distinct(self.saved@),
                0 <= j <= self.saved@.len(),
                forall|m: int| 0 <= m < j ==> !(#[trigger] self.saved@[m].x == x && self.saved@[m].y == y),
            decreases self.saved@.len() - j,
        {
            if self.saved[j].x == x && self.saved[j].y == y {
                proof {
                    lemma_saved_idx(self.saved@, x, y, j as int);
                }
                return Some(j);
            }
            j = j + 1;
        }
        None
    }

    /// The tile at `(x, y)`.
    pub fn get_tile(&mut self, x: i32, y: i32) -> (t: u8)
        requires
            old(self).wf(),
            old(self).model().tiles.dom().contains((x, y)),
        ensures
            final(self).wf(),
            final(self).model() == old(self).model(),
            t == old(self).model().tiles[(x, y)],
            chunks_loaded(old(self).chunks@, final(self).chunks@, old(self).saved@, corner(x), corner(y)),
            chunks_read(old(self).chunks@, final(self).chunks@, old(self).saved@),
            chunks_grow(old(self).chunks@, final(self).chunks@),
            final(self).saved@ == old(self).saved@,
    {
        let incx = x & 127;
        let incy = y & 127;
        proof {
            lemma_split(x);
            lemma_split(y);
        }
        let cid = self.get_chunk(x ^ incx, y ^ incy);
        proof {
            lemma_loaded_grow(old(self).chunks@, self.chunks@, old(self).saved@, corner(x), corner(y));
            lemma_loaded_read(old(self).chunks@, self.chunks@, old(self).saved@, corner(x), corner(y));
        }
        self.chunks[cid].tiles[(incx + incy * 128) as usize]
    }

    /// Sets the tile at `(x, y)` to `tile`.
    pub fn set_tile(&mut self, x: i32, y: i32, tile: u8)
        requires
            old(self).wf(),
            old(self).model().tiles.dom().contains((x, y)),
        ensures
            final(self).wf(),
            final(self).model() == (WorldModel { tiles: old(self).model().tiles.insert((x, y), tile), ..old(self).model() }),
            chunks_set(old(self).chunks@, final(self).chunks@, old(self).saved@, x, y, tile),
            chunks_grow(old(self).chunks@, final(self).chunks@),
            final(self).saved@ == old(self).saved@,
    {
        let incx = x & 127;
        let incy = y & 127;
        proof {
            lemma_split(x);
            lemma_split(y);
        }
        let cid = self.get_chunk(x ^ incx, y ^ incy);
        let ghost mid = self.chunks@;
        let cx = self.chunks[cid].x;
        let cy = self.chunks[cid].y;
        let mut tiles = self.chunks[cid].tiles;
        tiles[(incx + incy * 128) as usize] = tile;
        self.chunks.set(cid, Chunk { x: cx, y: cy, tiles: tiles, modified: true });
        proof {
            let cs = self.chunks@;
            let o = old(self).chunks@;
            if !has_chunk(o, corner(x), corner(y)) {
                if (cid as int) < o.len() {
                    assert(mid[cid as int] == o[cid as int]);
                    assert(has_chunk(o, corner(x), corner(y)));
                }
            }
            assert(tile_pos(x, y) == (incx + incy * 128) as int);
            assert forall|qx: i32, qy: i32| #[trigger] has_chunk(cs, qx, qy) == has_chunk(mid, qx, qy) by {
                if has_chunk(mid, qx, qy) {
                    let w = choose|w: int| 0 <= w < mid.len() && mid[w].x == qx && mid[w].y == qy;
                    assert(cs[w].x == qx && cs[w].y == qy);
                }
                if has_chunk(cs, qx, qy) {
                    let w = choose|w: int| 0 <= w < cs.len() && cs[w].x == qx && cs[w].y == qy;
                    assert(mid[w].x == qx && mid[w].y == qy);
                }
            }
            assert forall|qx: i32, qy: i32| has_chunk(mid, qx, qy) implies #[trigger] chunk_idx(cs, qx, qy) == chunk_idx(mid, qx, qy) by {
                lemma_chunk_idx(cs, qx, qy, chunk_idx(mid, qx, qy));
            }
            let m0 = old(self).model().tiles;
            let m1 = self.model().tiles;
            assert forall|p: (i32, i32)| #[trigger] m1.dom().contains(p) == m0.insert((x, y), tile).dom().contains(p) by {}
            assert forall|p: (i32, i32)| m1.dom().contains(p) implies #[trigger] m1[p] == m0.insert((x, y), tile)[p] by {
                lemma_split(p.0);
                lemma_split(p.1);
                if p != (x, y) && corner(p.0) == corner(x) && corner(p.1) == corner(y) {
                    assert(tile_pos(p.0, p.1) != tile_pos(x, y));
                }
            }
            assert(m1 =~= m0.insert((x, y), tile));
            lemma_set_grow(o, cs, old(self).saved@, x, y, tile);
        }
    }
}

/// Whether a chunk lies within one chunk, on each axis, of the chunk that
/// holds the position.
pub open spec fn chunk_near_pos(c: Chunk, pos: crate::player::Entpos) -> bool {
    -1 <= (c.x >> 7u32) - (pos.x >> 7u32) <= 1 && -1 <= (c.y >> 7u32) - (pos.y >> 7u32) <= 1
}

pub open spec fn chunk_near(c: Chunk, ps: Seq<(usize, PlayerModel)>) -> bool {
    exists|j: int| 0 <= j < ps.len() && chunk_near_pos(c, #[trigger] ps[j].1.pos)
}

/// The chunks that stay loaded: those near a player, marked as saved.
pub open spec fn kept_chunks(cs: Seq<Chunk>, ps: Seq<(usize, PlayerModel)>) -> Seq<Chunk>
    decreases cs.len(),
{
    if cs.len() == 0 {
        seq![]
    } else {
        let rest = kept_chunks(cs.drop_last(), ps);
        let c = cs.last();
        if chunk_near(c, ps) {
            rest.push(Chunk { modified: false, ..c })
        } else {
            rest
        }
    }
}

/// The save files written for the modified chunks, in order: coordinates
/// and contents.
pub open spec fn chunk_saves(cs: Seq<Chunk>) -> Seq<(i32, i32, Seq<u8>)>
    decreases cs.len(),
{
    if cs.len() == 0 {
        seq![]
    } else {
        let rest = chunk_saves(cs.drop_last());
        let c = cs.last();
        if c.modified {
            rest.push((c.x, c.y, save_spec(c.x, c.y, c.tiles@)))
        } else {
            rest
        }
    }
}

pub open spec fn saved_view(s: SavedChunk) -> (i32, i32, Seq<u8>) {
    (s.x, s.y, s.data@)
}

pub open spec fn saved_in(cs: Seq<Chunk>, cx: i32, cy: i32) -> bool {
    exists|k: int| 0 <= k < cs.len() && cs[k].modified && cs[k].x == cx && cs[k].y == cy
}

/// Every kept chunk is a chunk near a player, marked as saved.
proof fn lemma_kept_from(cs: Seq<Chunk>, ps: Seq<(usize, PlayerModel)>, j: int)
    requires
        0 <= j < kept_chunks(cs, ps).len(),
    ensures
        exists|k: int|
            #![trigger cs[k]]
            0 <= k < cs.len() && chunk_near(cs[k], ps) && kept_chunks(cs, ps)[j] == (Chunk {
                modified: false,
                ..cs[k]
            }),
    decreases cs.len(),
{
    let t = cs.drop_last();
    let kt = kept_chunks(t, ps);
    if j < kt.len() {
        lemma_kept_from(t, ps, j);
        let k = choose|k: int|
            #![trigger t[k]]
            0 <= k < t.len() && chunk_near(t[k], ps) && kt[j] == (Chunk { modified: false, ..t[k] });
        assert(t[k] == cs[k]);
    } else {
        assert(cs.last() == cs[cs.len() - 1]);
    }
}

/// Every chunk near a player is kept, marked as saved.
proof fn lemma_kept_to(cs: Seq<Chunk>, ps: Seq<(usize, PlayerModel)>, k: int)
    requires
        0 <= k < cs.len(),
        chunk_near(cs[k], ps),
    ensures
        exists|j: int|
            #![trigger kept_chunks(cs, ps)[j]]
            0 <= j < kept_chunks(cs, ps).len() && kept_chunks(cs, ps)[j] == (Chunk { modified: false, ..cs[k] }),
    decreases cs.len(),
{
    let t = cs.drop_last();
    let kt = kept_chunks(t, ps);
    if k < t.len() {
        assert(t[k] == cs[k]);
        lemma_kept_to(t, ps, k);
        let j = choose|j: int|
            #![trigger kt[j]]
            0 <= j < kt.len() && kt[j] == (Chunk { modified: false, ..t[k] });
        assert(kept_chunks(cs, ps)[j] == kt[j]);
    } else {
        let kc = kept_chunks(cs, ps);
        assert(kc[kc.len() - 1] == (Chunk { modified: false, ..cs[k] }));
    }
}

impl World {
    /// Records `data` as the contents of the save file of the chunk at `(x, y)`.
    fn store(&mut self, x: i32, y: i32, data: Vec<u8>)
        requires
            saved_distinct(old(self).saved@),
        ensures
            saved_distinct(final(self).saved@),
            final(self).chunks@ == old(self).chunks@,
            final(self).players@ == old(self).players@,
            final(self).orbs@ == old(self).orbs@,
            final(self).pid == old(self).pid,
            has_saved(final(self).saved@, x, y),
            saved_source(final(self).saved@, x, y) == Some(data@),
            forall|cx: i32, cy: i32|
                !(cx == x && cy == y) ==> #[trigger] has_saved(final(self).saved@, cx, cy) == has_saved(old(self).saved@, cx, cy)
                    && saved_source(final(self).saved@, cx, cy) == saved_source(old(self).saved@, cx, cy),
    {
        let ghost ss0 = self.saved@;
        let found = self.find_saved(x, y);
        let ghost dv = data@;
        match found {
            Some(j) => {
                self.saved.set(j, SavedChunk { x: x, y: y, data: data });
            },
            None => {
                self.saved.push(SavedChunk { x: x, y: y, data: data });
            },
        }
        proof {
            let ss = self.saved@;
            let k: int = match found { Some(j) => j as int, None => ss0.len() as int };
            assert(ss[k].x == x && ss[k].y == y);
            lemma_saved_idx(ss, x, y, k);
            assert forall|cx: i32, cy: i32| !(cx == x && cy == y) implies #[trigger] has_saved(ss, cx, cy) == has_saved(ss0, cx, cy)
                && saved_source(ss, cx, cy) == saved_source(ss0, cx, cy) by {
                if has_saved(ss0, cx, cy) {
                    let w = saved_idx(ss0, cx, cy);
                    assert(ss[w] == ss0[w]);
                    lemma_saved_idx(ss, cx, cy, w);
                }
                if has_saved(ss, cx, cy) {
                    let w = saved_idx(ss, cx, cy);
                    assert(w != k);
                    assert(ss[w] == ss0[w]);
                }
            }
        }
    }
}

impl World {
    /// The chunks in memory.
    pub open spec fn spec_chunks(&self) -> Seq<Chunk> {
        self.chunks@
    }

    /// Whether the chunk is within one chunk, on each axis, of a player.
    fn is_near_player(&self, c: &Chunk) -> (near: bool)
        ensures
            near == chunk_near(*c, players_model(self.players@)),
    {
        let x = c.x >> 7u32;
        let y = c.y >> 7u32;
        proof {
            lemma_shr7(c.x);
            lemma_shr7(c.y);
        }
        let ghost ps = players_model(self.players@);
        let mut j: usize = 0;
        while j < self.players.len()
            invariant
                0 <= j <= self.players@.len(),
                ps == players_model(self.players@),
                x == c.x >> 7u32,
                y == c.y >> 7u32,
                -0x100_0000 <= x < 0x100_0000,
                -0x100_0000 <= y < 0x100_0000,
                forall|m: int| 0 <= m < j ==> !chunk_near_pos(*c, #[trigger] ps[m].1.pos),
            decreases self.players@.len() - j,
        {
            proof {
                lemma_shr7(self.players@[j as int].1.pos.x);
                lemma_shr7(self.players@[j as int].1.pos.y);
            }
            let dx = x - (self.players[j].1.pos.x >> 7u32);
            let dy = y - (self.players[j].1.pos.y >> 7u32);
            proof {
                assert(ps[j as int].1.pos == self.players@[j as int].1.pos);
            }
            if -1 <= dx && dx <= 1 && -1 <= dy && dy <= 1 {
                return true;
            }
            j = j + 1;
        }
        false
    }

    /// Saves every modified chunk and drops from memory every chunk that is
    /// not within one chunk of a player. Returns the save files written, in
    /// order; the world's tiles are unchanged.
    pub fn unload_unused_chunks(&mut self) -> (saves: Vec<SavedChunk>)
        requires
            old(self).wf(),
        ensures
            final(self).wf(),
            final(self).model() == old(self).model(),
            saves@.map_values(|s: SavedChunk| saved_view(s)) == chunk_saves(old(self).spec_chunks()),
            final(self).spec_chunks() == kept_chunks(old(self).spec_chunks(), old(self).model().players),
    {
        let ghost cs0 = self.chunks@;
        let ghost ss0 = self.saved@;
        let ghost ps = players_model(self.players@);
        let mut saves: Vec<SavedChunk> = Vec::new();
        let mut i: usize = 0;
        let ghost mut n: int = 0;
        while i < self.chunks.len()
            invariant
                0 <= n <= cs0.len(),
                self.chunks@ == kept_chunks(cs0.take(n), ps) + cs0.skip(n),
                i == kept_chunks(cs0.take(n), ps).len(),
                saves@.map_values(|s: SavedChunk| saved_view(s)) == chunk_saves(cs0.take(n)),
                self.players@ == old(self).players@,
                self.orbs@ == old(self).orbs@,
                self.pid == old(self).pid,
                ps == players_model(self.players@),
                saved_distinct(self.saved@),
                forall|cx: i32, cy: i32|
                    #[trigger] saved_in(cs0.take(n), cx, cy) ==> has_saved(self.saved@, cx, cy) && saved_source(self.saved@, cx, cy)
                        == Some(save_spec(cx, cy, cs0[chunk_idx(cs0, cx, cy)].tiles@)),
                forall|cx: i32, cy: i32|
                    !saved_in(cs0.take(n), cx, cy) ==> #[trigger] has_saved(self.saved@, cx, cy) == has_saved(ss0, cx, cy)
                        && saved_source(self.saved@, cx, cy) == saved_source(ss0, cx, cy),
                cs0 == old(self).chunks@,
                ss0 == old(self).saved@,
                old(self).wf(),
            decreases cs0.len() - n,
        {
            proof {
                assert(self.chunks@[i as int] == cs0[n]);
                assert(cs0.take(n + 1).drop_last() =~= cs0.take(n));
                assert(cs0.take(n + 1).last() == cs0[n]);
            }
            let cx = self.chunks[i].x;
            let cy = self.chunks[i].y;
            if self.chunks[i].modified {
                let data = self.chunks[i].save();
                let copy = data.clone();
                saves.push(SavedChunk { x: cx, y: cy, data: copy });
                self.store(cx, cy, data);
                let tiles = self.chunks[i].tiles;
                self.chunks.set(i, Chunk { x: cx, y: cy, tiles: tiles, modified: false });
            }
            let near = self.is_near_player(&self.chunks[i]);
            let ghost mid = self.chunks@;
            let ghost i0 = i as int;
            if near {
                i = i + 1;
            } else {
                self.chunks.remove(i);
            }
            proof {
                let c0 = cs0[n];
                let kn = kept_chunks(cs0.take(n), ps);
                assert(chunk_near(c0, ps) == near) by {
                    assert(mid[i0].x == c0.x && mid[i0].y == c0.y);
                }
                assert(mid == kn + seq![Chunk { modified: false, ..c0 }] + cs0.skip(n + 1)) by {
                    assert(mid =~= kn + seq![Chunk { modified: false, ..c0 }] + cs0.skip(n + 1));
                }
                assert(cs0.skip(n + 1) =~= cs0.skip(n).drop_first());
                if near {
                    assert(self.chunks@ =~= kept_chunks(cs0.take(n + 1), ps) + cs0.skip(n + 1));
                } else {
                    assert(self.chunks@ =~= kept_chunks(cs0.take(n + 1), ps) + cs0.skip(n + 1));
                }
                assert(saves@.map_values(|s: SavedChunk| saved_view(s)) =~= chunk_saves(cs0.take(n + 1)));
                lemma_chunk_idx(cs0, c0.x, c0.y, n);
                assert forall|qx: i32, qy: i32| #[trigger] saved_in(cs0.take(n + 1), qx, qy) == (saved_in(cs0.take(n), qx, qy) || (
                    c0.modified && qx == c0.x && qy == c0.y)) by {
                    let t1 = cs0.take(n + 1);
                    let t0 = cs0.take(n);
                    if saved_in(t1, qx, qy) {
                        let w = choose|w: int| 0 <= w < t1.len() && t1[w].modified && t1[w].x == qx && t1[w].y == qy;
                        if w < n {
                            assert(t0[w] == t1[w]);
                        }
                    }
                    if saved_in(t0, qx, qy) {
                        let w = choose|w: int| 0 <= w < t0.len() && t0[w].modified && t0[w].x == qx && t0[w].y == qy;
                        assert(t0[w] == t1[w]);
                    }
                    if c0.modified && qx == c0.x && qy == c0.y {
                        assert(t1[n] == c0);
                    }
                }
                assert forall|qx: i32, qy: i32| saved_in(cs0.take(n), qx, qy) implies !(qx == c0.x && qy == c0.y) by {
                    let t0 = cs0.take(n);
                    let w = choose|w: int| 0 <= w < t0.len() && t0[w].modified && t0[w].x == qx && t0[w].y == qy;
                    assert(t0[w] == cs0[w]);
                    lemma_chunk_idx(cs0, qx, qy, w);
                }
                n = n + 1;
            }
        }
        proof {
            assert(cs0.take(cs0.len() as int) =~= cs0);
            assert(cs0.skip(cs0.len() as int) =~= Seq::<Chunk>::empty());
            assert(self.chunks@ =~= kept_chunks(cs0, ps));
            self.lemma_unload_end(*old(self), ps);
        }
        saves
    }

    proof fn lemma_unload_end(&self, w0: World, ps: Seq<(usize, PlayerModel)>)
        requires
            w0.wf(),
            ps == players_model(w0.players@),
            self.chunks@ == kept_chunks(w0.chunks@, ps),
            self.players@ == w0.players@,
            self.orbs@ == w0.orbs@,
            self.pid == w0.pid,
            saved_distinct(self.saved@),
            forall|cx: i32, cy: i32|
                #[trigger] saved_in(w0.chunks@, cx, cy) ==> has_saved(self.saved@, cx, cy) && saved_source(self.saved@, cx, cy)
                    == Some(save_spec(cx, cy, w0.chunks@[chunk_idx(w0.chunks@, cx, cy)].tiles@)),
            forall|cx: i32, cy: i32|
                !saved_in(w0.chunks@, cx, cy) ==> #[trigger] has_saved(self.saved@, cx, cy) == has_saved(w0.saved@, cx, cy)
                    && saved_source(self.saved@, cx, cy) == saved_source(w0.saved@, cx, cy),
        ensures
            self.wf(),
            self.model() == w0.model(),
    {
        let cs0 = w0.chunks@;
        let cs = self.chunks@;
        let ss = self.saved@;
        lemma_kept_distinct(cs0, ps);
        // which chunks are in memory now
        assert forall|cx: i32, cy: i32| #[trigger] has_chunk(cs, cx, cy) == (has_chunk(cs0, cx, cy) && chunk_near(
            cs0[chunk_idx(cs0, cx, cy)],
            ps,
        )) && (has_chunk(cs, cx, cy) ==> cs[chunk_idx(cs, cx, cy)] == (Chunk { modified: false, ..cs0[chunk_idx(cs0, cx, cy)] })) by {
            if has_chunk(cs, cx, cy) {
                let j = chunk_idx(cs, cx, cy);
                lemma_kept_from(cs0, ps, j);
                let k = choose|k: int|
                    #![trigger cs0[k]]
                    0 <= k < cs0.len() && chunk_near(cs0[k], ps) && cs[j] == (Chunk { modified: false, ..cs0[k] });
                lemma_chunk_idx(cs0, cx, cy, k);
            }
            if has_chunk(cs0, cx, cy) && chunk_near(cs0[chunk_idx(cs0, cx, cy)], ps) {
                let k = chunk_idx(cs0, cx, cy);
                lemma_kept_to(cs0, ps, k);
                let j = choose|j: int|
                    #![trigger kept_chunks(cs0, ps)[j]]
                    0 <= j < kept_chunks(cs0, ps).len() && kept_chunks(cs0, ps)[j] == (Chunk { modified: false, ..cs0[k] });
                lemma_chunk_idx(cs, cx, cy, j);
            }
        }
        // a chunk that was modified is the one saved at its coordinates
        assert forall|cx: i32, cy: i32| has_chunk(cs0, cx, cy) implies #[trigger] saved_in(cs0, cx, cy)
            == cs0[chunk_idx(cs0, cx, cy)].modified by {
            let k = chunk_idx(cs0, cx, cy);
            if saved_in(cs0, cx, cy) {
                let w = choose|w: int| 0 <= w < cs0.len() && cs0[w].modified && cs0[w].x == cx && cs0[w].y == cy;
                lemma_chunk_idx(cs0, cx, cy, w);
            }
        }
        assert forall|cx: i32, cy: i32| !has_chunk(cs0, cx, cy) implies !#[trigger] saved_in(cs0, cx, cy) by {
            if saved_in(cs0, cx, cy) {
                let w = choose|w: int| 0 <= w < cs0.len() && cs0[w].modified && cs0[w].x == cx && cs0[w].y == cy;
            }
        }
        // what a chunk that is no longer in memory would load
        assert forall|cx: i32, cy: i32, i: int|
            has_chunk(cs0, cx, cy) && 0 <= i < 16384 implies #[trigger] base_tile(ss, cx, cy, i)
            == cs0[chunk_idx(cs0, cx, cy)].tiles@[i] by {
            let k = chunk_idx(cs0, cx, cy);
            if cs0[k].modified {
                lemma_save_load_tiles(cx, cy, cs0[k].tiles@, i);
            }
        }
        assert forall|cx: i32, cy: i32| has_chunk(cs0, cx, cy) implies #[trigger] has_saved(ss, cx, cy) || generatable(cx, cy) by {
            let k = chunk_idx(cs0, cx, cy);
            assert(cs0[k].x == cx && cs0[k].y == cy);
        }
        // the invariant
        assert forall|k: int|
            0 <= k < cs.len() implies inner(#[trigger] cs[k].x) == 0 && inner(cs[k].y) == 0 && (has_saved(ss, cs[k].x, cs[k].y)
                || generatable(cs[k].x, cs[k].y)) by {
            lemma_chunk_idx(cs, cs[k].x, cs[k].y, k);
            let k0 = chunk_idx(cs0, cs[k].x, cs[k].y);
            assert(cs0[k0].x == cs[k].x);
        }
        assert forall|k: int, i: int| 0 <= k < cs.len() && !cs[k].modified && 0 <= i < 16384 implies #[trigger] cs[k].tiles@[i]
            == base_tile(ss, cs[k].x, cs[k].y, i) by {
            lemma_chunk_idx(cs, cs[k].x, cs[k].y, k);
        }
        assert(self.wf());
        let m0 = w0.model().tiles;
        let m1 = self.model().tiles;
        assert forall|p: (i32, i32)| #[trigger] m1.dom().contains(p) == m0.dom().contains(p) by {
            let (cx, cy) = (corner(p.0), corner(p.1));
            if !has_chunk(cs0, cx, cy) {
                assert(!saved_in(cs0, cx, cy));
            }
        }
        assert forall|p: (i32, i32)| m1.dom().contains(p) implies #[trigger] m1[p] == m0[p] by {
            let (cx, cy) = (corner(p.0), corner(p.1));
            lemma_split(p.0);
            lemma_split(p.1);
            if !has_chunk(cs0, cx, cy) {
                assert(!saved_in(cs0, cx, cy));
            }
        }
        assert(m1 =~= m0);
        assert(players_model(self.players@) == players_model(w0.players@));
    }
}

proof fn lemma_shr7(v: i32)
    ensures
        -0x100_0000 <= (v >> 7u32) < 0x100_0000,
{
    assert(-0x100_0000 <= (v >> 7u32) < 0x100_0000) by (bit_vector);
}

/// Dropping chunks keeps the coordinates of those left distinct.
proof fn lemma_kept_distinct(cs: Seq<Chunk>, ps: Seq<(usize, PlayerModel)>)
    requires
        forall|a: int, b: int| 0 <= a < b < cs.len() ==> !(#[trigger] cs[a].x == #[trigger] cs[b].x && cs[a].y == cs[b].y),
    ensures
        ({
            let kc = kept_chunks(cs, ps);
            forall|a: int, b: int| 0 <= a < b < kc.len() ==> !(#[trigger] kc[a].x == #[trigger] kc[b].x && kc[a].y == kc[b].y)
        }),
    decreases cs.len(),
{
    if cs.len() > 0 {
        let t = cs.drop_last();
        assert forall|a: int, b: int| 0 <= a < b < t.len() implies !(#[trigger] t[a].x == #[trigger] t[b].x && t[a].y == t[b].y) by {
            assert(t[a] == cs[a] && t[b] == cs[b]);
        }
        lemma_kept_distinct(t, ps);
        let kt = kept_chunks(t, ps);
        let kc = kept_chunks(cs, ps);
        if chunk_near(cs.last(), ps) {
            assert forall|a: int, b: int| 0 <= a < b < kc.len() implies !(#[trigger] kc[a].x == #[trigger] kc[b].x && kc[a].y
                == kc[b].y) by {
                if b == kc.len() - 1 {
                    lemma_kept_from(t, ps, a);
                    let k = choose|k: int|
                        #![trigger t[k]]
                        0 <= k < t.len() && chunk_near(t[k], ps) && kt[a] == (Chunk { modified: false, ..t[k] });
                    assert(t[k] == cs[k]);
                    assert(cs[k].x != cs[cs.len() - 1].x || cs[k].y != cs[cs.len() - 1].y);
                } else {
                    assert(kc[a] == kt[a] && kc[b] == kt[b]);
                }
            }
        }
    }
}

impl World {
    fn find_chunk(&self, x: i32, y: i32) -> (r: Option<usize>)
        requires
            self.wf(),
        ensures
            match r {
                Some(k) => k < self.chunks@.len() && has_chunk(self.chunks@, x, y) && chunk_idx(self.chunks@, x, y) == k,
                None => !has_chunk(self.chunks@, x, y),
            },
    {
        let mut k: usize = 0;
        while k < self.chunks.len()
            invariant
                self.wf(),
                0 <= k <= self.chunks@.len(),
                forall|m: int| 0 <= m < k ==> !(#[trigger] self.chunks@[m].x == x && self.chunks@[m].y == y),
            decreases self.chunks@.len() - k,
        {
            if self.chunks[k].x == x && self.chunks[k].y == y {
                proof {
                    lemma_chunk_idx(self.chunks@, x, y, k as int);
                }
                return Some(k);
            }
            k = k + 1;
        }
        None
    }

    /// Whether the tile at `(x, y)` can be read: its chunk is in memory,
    /// saved, or can be generated.
    pub fn tile_accessible(&self, x: i32, y: i32) -> (r: bool)
        requires
            self.wf(),
        ensures
            r == self.model().tiles.dom().contains((x, y)),
    {
        let cx = x ^ (x & 127);
        let cy = y ^ (y & 127);
        if self.find_chunk(cx, cy).is_some() {
            return true;
        }
        if self.find_saved(cx, cy).is_some() {
            return true;
        }
        cx <= i32::MAX - 384 && cy <= i32::MAX - 384
    }

    /// The index of the player with id `pid`.
    pub fn player_index(&self, pid: usize) -> (r: Option<usize>)
        requires
            self.wf(),
        ensures
            match r {
                Some(k) => k < self.players@.len() && has_pid(self.model().players, pid) && pid_idx(self.model().players, pid) == k,
                None => !has_pid(self.model().players, pid),
            },
    {
        let ghost ps = self.model().players;
        proof {
            self.lemma_players_distinct();
        }
        let mut k: usize = 0;
        while k < self.players.len()
            invariant
                self.wf(),
                ps == self.model().players,
                forall|a: int, b: int| 0 <= a < b < ps.len() ==> #[trigger] ps[a].0 != #[trigger] ps[b].0,
                0 <= k <= self.players@.len(),
                forall|m: int| 0 <= m < k ==> #[trigger] ps[m].0 != pid,
            decreases self.players@.len() - k,
        {
            if self.players[k].0 == pid {
                proof {
                    lemma_pid_idx(ps, pid, k as int);
                }
                return Some(k);
            }
            k = k + 1;
        }
        proof {
            if has_pid(ps, pid) {
                let w = choose|w: int| 0 <= w < ps.len() && ps[w].0 == pid;
            }
        }
        None
    }

    proof fn lemma_players_distinct(&self)
        requires
            self.wf(),
        ensures
            forall|a: int, b: int|
                0 <= a < b < self.model().players.len() ==> #[trigger] self.model().players[a].0
                    != #[trigger] self.model().players[b].0,
            self.model().players.len() == self.players@.len(),
            forall|a: int| 0 <= a < self.players@.len() ==> #[trigger] self.model().players[a] == (self.players@[a].0, self.players@[a].1.model()),
    {
        let ps = self.model().players;
        assert forall|a: int, b: int| 0 <= a < b < ps.len() implies #[trigger] ps[a].0 != #[trigger] ps[b].0 by {
            assert(self.players@[a].0 != self.players@[b].0);
        }
    }

    /// Launches the orbs of the tiles `x0..=x2` of row `y`.
    fn scan_row_into(&mut self, y: i32, x0: i32, x2: i32, flip: u8) -> (ok: bool)
        requires
            old(self).wf(),
            flip == 0 || flip == 2,
        ensures
            chunks_read(old(self).chunks@, final(self).chunks@, old(self).saved@),
            final(self).saved@ == old(self).saved@,
            final(self).wf(),
            ok == scan_row(old(self).model().tiles, y as int, x0 as int, x2 as int, flip) is Some,
            ok ==> chunks_touch(old(self).chunks@, final(self).chunks@, old(self).saved@, row_set(y, x0 as int, x2 as int), Set::empty()),
            ok ==> final(self).model() == (WorldModel {
                orbs: old(self).model().orbs + scan_row(old(self).model().tiles, y as int, x0 as int, x2 as int, flip)->0,
                ..old(self).model()
            }),
    {
        let ghost m0 = self.model();
        let mut x: i64 = x0 as i64;
        while x <= x2 as i64
            invariant
                self.wf(),
                x0 <= x,
                x0 <= x2 as int + 1 ==> x <= x2 as int + 1,
                x > x2 as int + 1 ==> x == x0,
                scan_row(m0.tiles, y as int, x0 as int, x - 1, flip) is Some,
                self.model() == (WorldModel {
                    orbs: m0.orbs + scan_row(m0.tiles, y as int, x0 as int, x - 1, flip)->0,
                    ..m0
                }),
                flip == 0 || flip == 2,
                m0 == old(self).model(),
                chunks_read(old(self).chunks@, self.chunks@, old(self).saved@),
                self.saved@ == old(self).saved@,
                chunks_touch(old(self).chunks@, self.chunks@, old(self).saved@, row_set(y, x0 as int, x - 1), Set::empty()),
            decreases x2 as int + 1 - x,
        {
            let xi = x as i32;
            let ghost acc = scan_row(m0.tiles, y as int, x0 as int, x - 1, flip)->0;
            if !self.tile_accessible(xi, y) {
                proof {
                    lemma_scan_row_none(m0.tiles, y as int, x0 as int, x as int, x2 as int, flip);
                }
                return false;
            }
            let ghost cs0 = self.chunks@;
            let t = self.get_tile(xi, y);
            proof {
                lemma_read_trans(old(self).chunks@, cs0, self.chunks@, old(self).saved@);
                lemma_touch_loaded(cs0, self.chunks@, old(self).saved@, xi, y);
                lemma_touch_trans(old(self).chunks@, cs0, self.chunks@, old(self).saved@, row_set(y, x0 as int, x - 1), Set::empty(), set![(xi, y)], Set::empty());
                assert(row_set(y, x0 as int, x - 1) + set![(xi, y)] =~= row_set(y, x0 as int, x as int));
                assert(Set::<(i32, i32)>::empty() + Set::<(i32, i32)>::empty() =~= Set::<(i32, i32)>::empty());
            }
            if (t & 0xfc) == 0x88 {
                let dir = (t ^ 0x88) ^ flip;
                assert(dir < 4) by (bit_vector)
                    requires
                        dir == (t ^ 0x88u8) ^ flip,
                        (t & 0xfcu8) == 0x88u8,
                        flip == 0 || flip == 2,
                ;
                let o = Orb::new(xi, y, dir, 0);
                self.orbs.push(o);
                proof {
                    assert(self.orbs@ =~= m0.orbs + acc.push(o));
                }
            }
            proof {
                assert(self.model().tiles =~= m0.tiles);
                assert(self.model().players =~= m0.players);
            }
            x = x + 1;
        }
        proof {
            if x0 > x2 {
                assert(row_set(y, x0 as int, x - 1) =~= row_set(y, x0 as int, x2 as int));
                assert(scan_row(m0.tiles, y as int, x0 as int, x2 as int, flip) == Some(Seq::<Orb>::empty()));
            }
        }
        true
    }

    /// Launches the orbs of the rectangle's tiles, row by row.
    fn scan_rect_into(&mut self, r: Rect, flip: u8) -> (ok: bool)
        requires
            old(self).wf(),
            flip == 0 || flip == 2,
        ensures
            chunks_read(old(self).chunks@, final(self).chunks@, old(self).saved@),
            final(self).saved@ == old(self).saved@,
            final(self).wf(),
            ok == scan_rows(old(self).model().tiles, r, r.3 as int, flip) is Some,
            ok ==> chunks_touch(old(self).chunks@, final(self).chunks@, old(self).saved@, rect_upto(r, r.3 as int), Set::empty()),
            ok ==> final(self).model() == (WorldModel {
                orbs: old(self).model().orbs + scan_rows(old(self).model().tiles, r, r.3 as int, flip)->0,
                ..old(self).model()
            }),
    {
        let ghost m0 = self.model();
        let mut y: i64 = r.1 as i64;
        while y <= r.3 as i64
            invariant
                self.wf(),
                r.1 <= y,
                r.1 <= r.3 as int + 1 ==> y <= r.3 as int + 1,
                y > r.3 as int + 1 ==> y == r.1,
                scan_rows(m0.tiles, r, y - 1, flip) is Some,
                self.model() == (WorldModel { orbs: m0.orbs + scan_rows(m0.tiles, r, y - 1, flip)->0, ..m0 }),
                flip == 0 || flip == 2,
                m0 == old(self).model(),
                chunks_read(old(self).chunks@, self.chunks@, old(self).saved@),
                self.saved@ == old(self).saved@,
                chunks_touch(old(self).chunks@, self.chunks@, old(self).saved@, rect_upto(r, y - 1), Set::empty()),
            decreases r.3 as int + 1 - y,
        {
            let ghost acc = scan_rows(m0.tiles, r, y - 1, flip)->0;
            let ghost m1 = self.model();
            let ghost cs0 = self.chunks@;
            let ok = self.scan_row_into(y as i32, r.0, r.2, flip);
            proof {
                lemma_read_trans(old(self).chunks@, cs0, self.chunks@, old(self).saved@);
            }
            if !ok {
                proof {
                    lemma_scan_rows_none(m0.tiles, r, y as int, r.3 as int, flip);
                }
                return false;
            }
            proof {
                lemma_touch_trans(old(self).chunks@, cs0, self.chunks@, old(self).saved@, rect_upto(r, y - 1), Set::empty(), row_set(y as i32, r.0 as int, r.2 as int), Set::empty());
                assert(rect_upto(r, y - 1) + row_set(y as i32, r.0 as int, r.2 as int) =~= rect_upto(r, y as int));
                assert(Set::<(i32, i32)>::empty() + Set::<(i32, i32)>::empty() =~= Set::<(i32, i32)>::empty());
                let row = scan_row(m0.tiles, y as int, r.0 as int, r.2 as int, flip)->0;
                assert(self.model().orbs =~= m0.orbs + (acc + row));
            }
            y = y + 1;
        }
        proof {
            assert(rect_upto(r, y - 1) =~= rect_upto(r, r.3 as int));
            if r.1 > r.3 {
                assert(scan_rows(m0.tiles, r, r.3 as int, flip) == Some(Seq::<Orb>::empty()));
            }
        }
        true
    }

    /// Launches the orbs of the rectangles' tiles, rectangle by rectangle.
    fn scan_rects_into(&mut self, rs: &Vec<Rect>, flip: u8) -> (ok: bool)
        requires
            old(self).wf(),
            flip == 0 || flip == 2,
        ensures
            chunks_read(old(self).chunks@, final(self).chunks@, old(self).saved@),
            final(self).saved@ == old(self).saved@,
            final(self).wf(),
            ok == scan_rects(old(self).model().tiles, rs@, flip) is Some,
            ok ==> chunks_touch(old(self).chunks@, final(self).chunks@, old(self).saved@, rects_set(rs@), Set::empty()),
            ok ==> final(self).model() == (WorldModel {
                orbs: old(self).model().orbs + scan_rects(old(self).model().tiles, rs@, flip)->0,
                ..old(self).model()
            }),
    {
        let ghost m0 = self.model();
        let mut k: usize = 0;
        while k < rs.len()
            invariant
                self.wf(),
                0 <= k <= rs@.len(),
                scan_rects(m0.tiles, rs@.take(k as int), flip) is Some,
                self.model() == (WorldModel {
                    orbs: m0.orbs + scan_rects(m0.tiles, rs@.take(k as int), flip)->0,
                    ..m0
                }),
                flip == 0 || flip == 2,
                m0 == old(self).model(),
                chunks_read(old(self).chunks@, self.chunks@, old(self).saved@),
                self.saved@ == old(self).saved@,
                chunks_touch(old(self).chunks@, self.chunks@, old(self).saved@, rects_set(rs@.take(k as int)), Set::empty()),
            decreases rs@.len() - k,
        {
            let ghost acc = scan_rects(m0.tiles, rs@.take(k as int), flip)->0;
            proof {
                assert(rs@.take(k + 1).drop_last() =~= rs@.take(k as int));
                assert(rs@.take(k + 1).last() == rs@[k as int]);
            }
            let ghost cs0 = self.chunks@;
            let ok = self.scan_rect_into(rs[k], flip);
            proof {
                lemma_read_trans(old(self).chunks@, cs0, self.chunks@, old(self).saved@);
            }
            if !ok {
                proof {
                    lemma_scan_rects_none(m0.tiles, rs@, k + 1, flip);
                }
                return false;
            }
            proof {
                let rk = rs@[k as int];
                lemma_touch_trans(old(self).chunks@, cs0, self.chunks@, old(self).saved@, rects_set(rs@.take(k as int)), Set::empty(), rect_upto(rk, rk.3 as int), Set::empty());
                lemma_rects_set_push(rs@, k as int);
                assert(Set::<(i32, i32)>::empty() + Set::<(i32, i32)>::empty() =~= Set::<(i32, i32)>::empty());
                let t = scan_rows(m0.tiles, rs@[k as int], rs@[k as int].3 as int, flip)->0;
                assert(self.model().orbs =~= m0.orbs + (acc + t));
            }
            k = k + 1;
        }
        proof {
            assert(rs@.take(rs@.len() as int) =~= rs@);
            assert(rects_set(rs@.take(0)) =~= Set::<(i32, i32)>::empty()) by {
                assert(rs@.take(0).len() == 0);
            }
        }
        true
    }
}

/// Whether computing the uncovered rectangles stays within range.
fn rects_ok_exec(ax: i32, ay: i32, bx: i32, by: i32) -> (r: bool)
    ensures
        r == rects_ok(ax, ay, bx, by),
{
    let (ax, ay, bx, by) = (ax as i64, ay as i64, bx as i64, by as i64);
    let lo = i32::MIN as i64;
    let hi = i32::MAX as i64;
    let h = if ax != bx {
        let i0 = if bx < ax { bx - 5 >= lo } else { ax + 6 <= hi && bx - 5 >= lo };
        let i2 = if bx < ax { ax - 6 >= lo && bx + 5 <= hi } else { bx + 5 <= hi };
        i0 && i2 && by - 5 >= lo && ay - 5 >= lo && by + 5 <= hi && ay + 5 <= hi
    } else {
        true
    };
    let v = if ay != by {
        let i0 = if by < ay { by - 5 >= lo } else { ay + 6 <= hi && by - 5 >= lo };
        let i2 = if by < ay { ay - 6 >= lo && by + 5 <= hi } else { by + 5 <= hi };
        bx - 5 >= lo && bx + 5 <= hi && i0 && i2
    } else {
        true
    };
    h && v
}

impl Player {
    /// After player `pid` moved from `(ox, oy)` to where it is now: every
    /// launcher tile in the area that left its view sends an orb back the
    /// other way, then every launcher tile in the area that came into view
    /// sends an orb on. `false` where the server would stop.
    pub fn do_move_checks(ox: i32, oy: i32, world: &mut World, pid: usize) -> (ok: bool)
        requires
            old(world).wf(),
        ensures
            chunks_read(old(world).chunks@, final(world).chunks@, old(world).saved@),
            final(world).saved@ == old(world).saved@,
            final(world).wf(),
            ok == move_checks_spec(old(world).model(), ox, oy, pid) is Some,
            ok ==> final(world).model() == move_checks_spec(old(world).model(), ox, oy, pid)->0,
            ok ==> chunks_touch(old(world).chunks@, final(world).chunks@, old(world).saved@, move_reads(old(world).model(), ox, oy, pid), Set::empty()),
    {
        let ghost m0 = world.model();
        let k = match world.player_index(pid) {
            Some(k) => k,
            None => {
                return false;
            },
        };
        let px = world.players[k].1.pos.x;
        let py = world.players[k].1.pos.y;
        proof {
            world.lemma_players_distinct();
        }
        if !rects_ok_exec(px, py, ox, oy) || !rects_ok_exec(ox, oy, px, py) {
            return false;
        }
        let wavedied = Player::get_new_rects(px, py, ox, oy);
        if !world.scan_rects_into(&wavedied, 2) {
            return false;
        }
        let ghost m1 = world.model();
        let ghost cs1 = world.chunks@;
        let waveborn = Player::get_new_rects(ox, oy, px, py);
        if !world.scan_rects_into(&waveborn, 0) {
            proof {
                lemma_read_trans(old(world).chunks@, cs1, world.chunks@, old(world).saved@);
            }
            return false;
        }
        proof {
            lemma_read_trans(old(world).chunks@, cs1, world.chunks@, old(world).saved@);
            lemma_touch_trans(old(world).chunks@, cs1, world.chunks@, old(world).saved@, rects_set(wavedied@), Set::empty(), rects_set(waveborn@), Set::empty());
            assert(Set::<(i32, i32)>::empty() + Set::<(i32, i32)>::empty() =~= Set::<(i32, i32)>::empty());
            assert(m0.players[pid_idx(m0.players, pid)].1.pos.x == px);
            assert(m0.players[pid_idx(m0.players, pid)].1.pos.y == py);
        }
        proof {
            let died = scan_rects(m0.tiles, new_rects_spec(px, py, ox, oy), 2)->0;
            let born = scan_rects(m0.tiles, new_rects_spec(ox, oy, px, py), 0)->0;
            assert(world.model().orbs =~= m0.orbs + died + born);
        }
        true
    }
}

impl World {
    /// Hands `rest` to the first player within five tiles of `(x, y)`.
    #[verifier::spinoff_prover]
    fn give_spell(&mut self, rest: &mut Vec<u8>, x: i32, y: i32) -> (ok: bool)
        requires
            old(self).wf(),
        ensures
            final(self).chunks@ == old(self).chunks@,
            final(self).saved@ == old(self).saved@,
            final(self).wf(),
            ok == give_spell(old(self).model().players, old(rest)@, x, y, 0) is Some,
            ok ==> final(self).model() == (WorldModel {
                players: give_spell(old(self).model().players, old(rest)@, x, y, 0)->0,
                ..old(self).model()
            }),
    {
        let ghost m0 = self.model();
        let mut j: usize = 0;
        proof {
            self.lemma_players_distinct();
        }
        while j < self.players.len()
            invariant
                self.wf(),
                0 <= j <= self.players@.len(),
                give_spell(self.model().players, rest@, x, y, j as int) == give_spell(m0.players, old(rest)@, x, y, 0),
                self.model() == (WorldModel { players: self.model().players, ..m0 }),
                m0 == old(self).model(),
                self.chunks@ == old(self).chunks@,
                self.saved@ == old(self).saved@,
            decreases self.players@.len() - j,
        {
            proof {
                self.lemma_players_distinct();
            }
            let ghost ps = self.model().players;
            let px = self.players[j].1.pos.x as i64;
            let py = self.players[j].1.pos.y as i64;
            let dx = px - x as i64;
            if dx <= i32::MIN as i64 || dx > i32::MAX as i64 {
                return false;
            }
            let adx = if dx < 0 { -dx } else { dx };
            if adx > 5 {
                j = j + 1;
            } else {
                let dy = py - y as i64;
                if dy <= i32::MIN as i64 || dy > i32::MAX as i64 {
                    return false;
                }
                let ady = if dy < 0 { -dy } else { dy };
                if ady > 5 {
                    j = j + 1;
                } else {
                    let ghost before = self.players@;
                    let ghost r0 = rest@;
                    self.players[j].1.comque.append(rest);
                    proof {
                        let q = PlayerModel { comque: ps[j as int].1.comque + r0, ..ps[j as int].1 };
                        assert(players_model(self.players@) =~= ps.update(j as int, (ps[j as int].0, q)));
                        assert(rest@ =~= Seq::<u8>::empty());
                        assert(self.model().tiles =~= m0.tiles);
                        assert forall|a: int| 0 <= a < self.players@.len() implies #[trigger] self.players@[a].0 == before[a].0 by {
                            if a != j {
                                assert(self.players@[a] == before[a]);
                            }
                        }
                        assert(self.wf());
                    }
                    j = j + 1;
                }
            }
        }
        true
    }
}

/// Casts the runes on and around tile `(x, y)` (the tile, then up, right,
/// down, left) for an orb of flavour `flavor`: each rune's spell goes to
/// the first player within five tiles of `(x, y)`. `false` where the server
/// would stop.
pub fn cast_from_runes(world: &mut World, flavor: u8, x: i32, y: i32) -> (ok: bool)
    requires
        old(world).wf(),
    ensures
        chunks_read(old(world).chunks@, final(world).chunks@, old(world).saved@),
            final(world).saved@ == old(world).saved@,
        final(world).wf(),
        ok == cast_spec(old(world).model(), flavor, x, y) is Some,
        ok ==> final(world).model() == cast_spec(old(world).model(), flavor, x, y)->0,
        ok ==> chunks_touch(old(world).chunks@, final(world).chunks@, old(world).saved@, cast_reads(x, y), Set::empty()),
{
    let ghost m0 = world.model();
    let offs: [(i32, i32); 5] = [(0, 0), (0, -1), (1, 0), (0, 1), (-1, 0)];
    let mut k: usize = 0;
    while k < 5
        invariant
            world.wf(),
            0 <= k <= 5,
            cast_from(world.model(), flavor, x, y, k as int) == cast_from(m0, flavor, x, y, 0),
            m0 == old(world).model(),
            offs@ == seq![(0i32, 0i32), (0i32, -1i32), (1i32, 0i32), (0i32, 1i32), (-1i32, 0i32)],
            chunks_read(old(world).chunks@, world.chunks@, old(world).saved@),
            world.saved@ == old(world).saved@,
            chunks_touch(old(world).chunks@, world.chunks@, old(world).saved@, cast_reads_upto(x, y, k as int), Set::empty()),
        decreases 5 - k,
    {
        let (dx, dy) = offs[k];
        proof {
            assert(dx as int == rune_offset(k as int).0 && dy as int == rune_offset(k as int).1);
        }
        let tx = match x.checked_add(dx) {
            Some(v) => v,
            None => {
                return false;
            },
        };
        let ty = match y.checked_add(dy) {
            Some(v) => v,
            None => {
                return false;
            },
        };
        if !world.tile_accessible(tx, ty) {
            return false;
        }
        let ghost cs0 = world.chunks@;
        let t = world.get_tile(tx, ty);
        proof {
            lemma_read_trans(old(world).chunks@, cs0, world.chunks@, old(world).saved@);
            lemma_touch_loaded(cs0, world.chunks@, old(world).saved@, tx, ty);
            lemma_touch_trans(
                old(world).chunks@,
                cs0,
                world.chunks@,
                old(world).saved@,
                cast_reads_upto(x, y, k as int),
                Set::empty(),
                set![(tx, ty)],
                Set::empty(),
            );
            assert(cast_reads_upto(x, y, k as int) + set![(tx, ty)] =~= cast_reads_upto(x, y, k + 1));
            assert(Set::<(i32, i32)>::empty() + Set::<(i32, i32)>::empty() =~= Set::<(i32, i32)>::empty());
        }
        if (t | 3) == 0x8f {
            let card = t ^ 0x8c;
            let sum: u16 = card as u16 * 3 + flavor as u16;
            if sum > 255 {
                return false;
            }
            let i = sum as u8;
            let mut comque: Vec<u8> = Vec::new();
            if i == 0 {
                comque.push(2);
                comque.push(0);
                comque.push(1);
            } else if i == 1 {
                comque.push(2);
                comque.push(0);
                comque.push(0);
            } else if i == 9 {
                comque.push(2);
                comque.push(1);
                comque.push(1);
            } else if i == 10 {
                comque.push(2);
                comque.push(1);
                comque.push(0);
            }
            proof {
                assert(comque@ =~= spell_bytes(i as int));
            }
            if comque.len() > 0 {
                let ghost m1 = world.model();
                if !world.give_spell(&mut comque, x, y) {
                    return false;
                }
            }
        }
        k = k + 1;
    }
    true
}

/// Whether `addsub(dx, dy)` stays within range.
fn addsub_ok_exec(p: Entpos, dx: i32, dy: i32) -> (r: bool)
    ensures
        r == addsub_ok(p, dx, dy),
{
    let sx = dx as i64 + p.subx as i64;
    let sy = dy as i64 + p.suby as i64;
    if sx > i32::MAX as i64 || sy > i32::MAX as i64 {
        return false;
    }
    let nx = p.x as i64 + ((sx as i32) >> 8u32) as i64;
    let ny = p.y as i64 + ((sy as i32) >> 8u32) as i64;
    i32::MIN as i64 <= nx && nx <= i32::MAX as i64 && i32::MIN as i64 <= ny && ny <= i32::MAX as i64
}

/// The orb turned by arrow tile `t`.
fn turn_orb(o: Orb, t: u8) -> (r: Orb)
    requires
        0x90 <= t < 0x98,
        orb_wf(o),
    ensures
        r == turn_spec(o, t),
        orb_wf(r),
{
    assert(((t >> 2u8) & 1u8) <= 1) by (bit_vector);
    let tf: u8 = ((t >> 2u8) & 1) + 1;
    if o.flavor == 0 || tf == o.flavor {
        assert(((t as i32) & 2i32) == ((t & 2u8) as i32) && ((t as i32) & 1i32) == ((t & 1u8) as i32) && (((t as i32)
            & 1i32) ^ 1i32) == (((t & 1u8) ^ 1u8) as i32) && ((t & 2u8) == 0 || (t & 2u8) == 2) && ((t & 1u8) == 0 || (t
            & 1u8) == 1) && (((t & 1u8) ^ 1u8) == 1 - (t & 1u8))) by (bit_vector);
        let b2: i32 = (t as i32) & 2;
        let b1: i32 = (t as i32) & 1;
        let s: i32 = b2 - 1;
        let dx: i32 = if b1 == 1 { -s } else { 0 };
        let dy: i32 = if b1 == 0 { s } else { 0 };
        proof {
            let si: int = (t & 2u8) as int - 1;
            let lo = t & 1u8;
            let flip = lo ^ 1u8;
            if lo == 1 {
                assert(flip == 0);
                assert(lo as int * -si == -si);
                assert(flip as int * si == 0);
            } else {
                assert(flip == 1);
                assert(lo as int * -si == 0);
                assert(flip as int * si == si);
            }
        }
        let mut r = o;
        r.v = Vel { x: dx * 128, y: dy * 128 };
        r.pos.subx = (128 + dx * 112) as u8;
        r.pos.suby = (128 + dy * 112) as u8;
        if o.flavor == 0 {
            r.flavor = tf;
            r.age = 0;
        }
        r
    } else {
        o
    }
}

impl Orb {
    /// One step of all orbs: orbs of age 100 or more leave; every other orb
    /// moves by its speed, ages by one, and acts on the tile it reaches (see
    /// `step_from`). `false` where the server would stop.
    pub fn step(world: &mut World) -> (ok: bool)
        requires
            old(world).wf(),
        ensures
            chunks_grow(old(world).chunks@, final(world).chunks@),
            final(world).wf(),
            ok == step_spec(old(world).model()) is Some,
            ok ==> final(world).model() == step_spec(old(world).model())->0,
            ok ==> chunks_touch(
                old(world).chunks@,
                final(world).chunks@,
                old(world).saved@,
                step_touch(old(world).model(), 0).0,
                step_touch(old(world).model(), 0).1,
            ),
            final(world).saved@ == old(world).saved@,
    {
        let ghost m0 = world.model();
        let ghost ss = world.saved@;
        let ghost mut acc_r: Set<(i32, i32)> = Set::empty();
        let ghost mut acc_w: Set<(i32, i32)> = Set::empty();
        proof {
            lemma_touch_same(world.chunks@, ss);
        }
        let mut i: usize = 0;
        while i < world.orbs.len()
            invariant
                world.wf(),
                0 <= i <= world.orbs@.len(),
                step_from(world.model(), i as int) == step_from(m0, 0),
                m0 == old(world).model(),
                chunks_grow(old(world).chunks@, world.chunks@),
                ss == old(world).saved@,
                world.saved@ == ss,
                chunks_touch(old(world).chunks@, world.chunks@, ss, acc_r, acc_w),
                acc_r + step_touch(world.model(), i as int).0 == step_touch(m0, 0).0,
                acc_w + step_touch(world.model(), i as int).1 == step_touch(m0, 0).1,
            decreases world.orbs@.len() - i,
        {
            let ghost mb = world.model();
            let ghost (r0, w0) = (acc_r, acc_w);
            let o = world.orbs[i];
            if o.age >= 100 {
                world.orbs.remove(i);
                proof {
                    assert(step_touch(world.model(), i as int) == step_touch(mb, i as int));
                }
            } else {
                if !addsub_ok_exec(o.pos, o.v.x, o.v.y) {
                    return false;
                }
                let mut o1 = o;
                o1.pos.addsub(o.v.x, o.v.y);
                o1.age = o1.age + 1;
                world.orbs.set(i, o1);
                let x = o1.pos.x;
                let y = o1.pos.y;
                if !world.tile_accessible(x, y) {
                    return false;
                }
                let ghost cs0 = world.chunks@;
                let t = world.get_tile(x, y);
                proof {
                    lemma_grow_trans(old(world).chunks@, cs0, world.chunks@);
                    lemma_touch_loaded(cs0, world.chunks@, ss, x, y);
                    lemma_touch_trans(old(world).chunks@, cs0, world.chunks@, ss, acc_r, acc_w, set![(x, y)], Set::empty());
                    acc_r = acc_r + set![(x, y)];
                    acc_w = acc_w + Set::empty();
                    assert(acc_w =~= w0);
                }
                let ghost cs1 = world.chunks@;
                if t >= 0x90 && t < 0x98 {
                    let o2 = turn_orb(o1, t);
                    world.orbs.set(i, o2);
                    proof {
                        let tt = step_touch(world.model(), i + 1);
                        assert(acc_r + tt.0 =~= r0 + (set![(x, y)] + tt.0));
                        assert(acc_w + tt.1 =~= w0 + tt.1);
                    }
                } else if (t | 1) == 0x83 {
                    let nt: u8 = if o1.flavor == 1 { 0x82 } else { 0x83 };
                    proof {
                        world.lemma_chunks_distinct();
                    }
                    world.set_tile(x, y, nt);
                    proof {
                        lemma_grow_trans(old(world).chunks@, cs1, world.chunks@);
                        lemma_touch_set(cs1, world.chunks@, ss, x, y, nt);
                        lemma_touch_trans(old(world).chunks@, cs1, world.chunks@, ss, acc_r, acc_w, Set::empty(), set![(x, y)]);
                        acc_r = acc_r + Set::empty();
                        acc_w = acc_w + set![(x, y)];
                        let tt = step_touch(world.model(), i + 1);
                        assert(acc_r + tt.0 =~= r0 + (set![(x, y)] + tt.0));
                        assert(acc_w + tt.1 =~= w0 + (set![(x, y)] + tt.1));
                    }
                } else if (t | 3) == 0x8f {
                    let ghost m1 = world.model();
                    if !cast_from_runes(world, o1.flavor, x, y) {
                        proof {
                            lemma_grow_trans(old(world).chunks@, cs1, world.chunks@);
                        }
                        return false;
                    }
                    proof {
                        lemma_grow_trans(old(world).chunks@, cs1, world.chunks@);
                        lemma_cast_frame(m1, o1.flavor, x, y, 0);
                        lemma_touch_trans(old(world).chunks@, cs1, world.chunks@, ss, acc_r, acc_w, cast_reads(x, y), Set::empty());
                        acc_r = acc_r + cast_reads(x, y);
                        acc_w = acc_w + Set::empty();
                        assert(acc_w =~= w0);
                    }
                    world.orbs.set(i, Orb { age: 100, ..o1 });
                    proof {
                        let tt = step_touch(world.model(), i + 1);
                        assert(acc_r + tt.0 =~= r0 + (set![(x, y)] + cast_reads(x, y) + tt.0));
                        assert(acc_w + tt.1 =~= w0 + tt.1);
                    }
                } else {
                    proof {
                        let tt = step_touch(world.model(), i + 1);
                        assert(acc_r + tt.0 =~= r0 + (set![(x, y)] + tt.0));
                        assert(acc_w + tt.1 =~= w0 + tt.1);
                    }
                }
                i = i + 1;
            }
        }
        proof {
            assert(acc_r =~= step_touch(m0, 0).0);
            assert(acc_w =~= step_touch(m0, 0).1);
        }
        true
    }
}

/// The tick after `i`: ticks count up from 0 and start again after 99.
pub fn next_tick(i: u32) -> (r: u32)
    requires
        i < u32::MAX,
    ensures
        r == (if i + 1 >= 100 { 0 } else { i + 1 }),
{
    let n = i + 1;
    if n >= 100 {
        0
    } else {
        n
    }
}

/// One tick of the world: on tick 0 the unused chunks are unloaded (the
/// save files written are returned), then the orbs take one step. `None`
/// where the server would stop.
pub fn tick_step(world: &mut World, ticki: u32) -> (r: Option<Vec<SavedChunk>>)
    requires
        old(world).wf(),
    ensures
        ticki != 0 ==> chunks_grow(old(world).chunks@, final(world).chunks@),
        ticki == 0 ==> chunks_grow(kept_chunks(old(world).spec_chunks(), old(world).model().players), final(world).chunks@),
        r is Some ==> chunks_touch(
            if ticki == 0 {
                kept_chunks(old(world).spec_chunks(), old(world).model().players)
            } else {
                old(world).chunks@
            },
            final(world).chunks@,
            final(world).saved@,
            step_touch(old(world).model(), 0).0,
            step_touch(old(world).model(), 0).1,
        ),
        final(world).wf(),
        r is Some == step_spec(old(world).model()) is Some,
        r matches Some(saves) ==> final(world).model() == step_spec(old(world).model())->0 && saves@.map_values(
            |s: SavedChunk| saved_view(s),
        ) == if ticki == 0 {
            chunk_saves(old(world).spec_chunks())
        } else {
            Seq::<(i32, i32, Seq<u8>)>::empty()
        },
{
    let saves = if ticki == 0 {
        world.unload_unused_chunks()
    } else {
        let v: Vec<SavedChunk> = Vec::new();
        proof {
            assert(v@.map_values(|s: SavedChunk| saved_view(s)) =~= Seq::<(i32, i32, Seq<u8>)>::empty());
        }
        v
    };
    let ghost cs1 = world.chunks@;
    proof {
        lemma_grow_refl(cs1);
    }
    let ok = Orb::step(world);
    proof {
        lemma_grow_trans(cs1, cs1, world.chunks@);
    }
    if ok {
        Some(saves)
    } else {
        None
    }
}

impl World {
    /// Moves the player at index `k` to `pos`.
    pub fn set_player_pos(&mut self, k: usize, pos: Entpos)
        requires
            old(self).wf(),
            k < old(self).players@.len(),
        ensures
            final(self).chunks@ == old(self).chunks@,
            final(self).saved@ == old(self).saved@,
            final(self).wf(),
            final(self).model() == (WorldModel {
                players: old(self).model().players.update(
                    k as int,
                    (old(self).model().players[k as int].0, PlayerModel { pos: pos, ..old(self).model().players[k as int].1 }),
                ),
                ..old(self).model()
            }),
    {
        let ghost before = self.players@;
        self.players[k].1.pos = pos;
        proof {
            self.lemma_player_update(before, k as int);
        }
    }

    /// Puts one `item` in the inventory of the player at index `k`.
    pub fn player_put(&mut self, k: usize, item: u8)
        requires
            old(self).wf(),
            k < old(self).players@.len(),
        ensures
            final(self).chunks@ == old(self).chunks@,
            final(self).saved@ == old(self).saved@,
            final(self).wf(),
            final(self).model() == (WorldModel {
                players: old(self).model().players.update(
                    k as int,
                    (
                        old(self).model().players[k as int].0,
                        PlayerModel {
                            inventory: put_spec(old(self).model().players[k as int].1.inventory, item),
                            ..old(self).model().players[k as int].1
                        },
                    ),
                ),
                ..old(self).model()
            }),
    {
        let ghost before = self.players@;
        self.players[k].1.inventory.put(item);
        proof {
            self.lemma_player_update(before, k as int);
        }
    }

    /// Takes one `item` out of the inventory of the player at index `k`.
    pub fn player_rem(&mut self, k: usize, item: u8) -> (ok: bool)
        requires
            old(self).wf(),
            k < old(self).players@.len(),
        ensures
            final(self).chunks@ == old(self).chunks@,
            final(self).saved@ == old(self).saved@,
            final(self).wf(),
            ok == rem_ok(old(self).model().players[k as int].1.inventory, item),
            final(self).model() == (WorldModel {
                players: old(self).model().players.update(
                    k as int,
                    (
                        old(self).model().players[k as int].0,
                        PlayerModel {
                            inventory: rem_spec(old(self).model().players[k as int].1.inventory, item),
                            ..old(self).model().players[k as int].1
                        },
                    ),
                ),
                ..old(self).model()
            }),
    {
        let ghost before = self.players@;
        let ok = self.players[k].1.inventory.rem(item);
        proof {
            self.lemma_player_update(before, k as int);
        }
        ok
    }

    /// Takes out the commands queued for player `pid`; `None` when there is
    /// no such player.
    pub fn drain_comque(&mut self, pid: usize) -> (r: Option<Vec<u8>>)
        requires
            old(self).wf(),
        ensures
            final(self).chunks@ == old(self).chunks@,
            final(self).saved@ == old(self).saved@,
            final(self).wf(),
            r is Some == has_pid(old(self).model().players, pid),
            r matches Some(q) ==> {
                let k = pid_idx(old(self).model().players, pid);
                &&& q@ == old(self).model().players[k].1.comque
                &&& final(self).model() == (WorldModel {
                    players: old(self).model().players.update(
                        k,
                        (pid, PlayerModel { comque: Seq::<u8>::empty(), ..old(self).model().players[k].1 }),
                    ),
                    ..old(self).model()
                })
            },
            r is None ==> final(self).model() == old(self).model(),
    {
        match self.player_index(pid) {
            Some(k) => {
                let ghost before = self.players@;
                let mut q: Vec<u8> = Vec::new();
                q.append(&mut self.players[k].1.comque);
                proof {
                    self.lemma_player_update(before, k as int);
                    assert(self.players@[k as int].1.comque@ =~= Seq::<u8>::empty());
                    assert(self.model().players =~= old(self).model().players.update(
                        k as int,
                        (pid, PlayerModel { comque: Seq::<u8>::empty(), ..old(self).model().players[k as int].1 }),
                    ));
                }
                Some(q)
            },
            None => None,
        }
    }

    proof fn lemma_player_update(&self, before: Seq<(usize, Player)>, k: int)
        requires
            0 <= k < before.len(),
            self.players@.len() == before.len(),
            self.players@[k].0 == before[k].0,
            forall|a: int| 0 <= a < before.len() && a != k ==> #[trigger] self.players@[a] == before[a],
            forall|a: int, b: int| 0 <= a < b < before.len() ==> #[trigger] before[a].0 != #[trigger] before[b].0,
            forall|a: int| 0 <= a < before.len() ==> #[trigger] before[a].0 <= self.pid,
        ensures
            players_model(self.players@) == players_model(before).update(k, (before[k].0, self.players@[k].1.model())),
            forall|a: int, b: int|
                0 <= a < b < self.players@.len() ==> #[trigger] self.players@[a].0 != #[trigger] self.players@[b].0,
            forall|a: int| 0 <= a < self.players@.len() ==> #[trigger] self.players@[a].0 <= self.pid,
    {
        assert forall|a: int| 0 <= a < before.len() implies #[trigger] self.players@[a].0 == before[a].0 by {
            if a != k {
                assert(self.players@[a] == before[a]);
            }
        }
        assert(players_model(self.players@) =~= players_model(before).update(k, (before[k].0, self.players@[k].1.model())));
    }
}

pub open spec fn has_pid(ps: Seq<(usize, PlayerModel)>, pid: usize) -> bool {
    exists|k: int| 0 <= k < ps.len() && ps[k].0 == pid
}

pub open spec fn pid_idx(ps: Seq<(usize, PlayerModel)>, pid: usize) -> int {
    choose|k: int| 0 <= k < ps.len() && ps[k].0 == pid
}

/// The players without the one whose id is `pid`.
pub open spec fn remove_key(ps: Seq<(usize, PlayerModel)>, pid: usize) -> Seq<(usize, PlayerModel)> {
    if has_pid(ps, pid) {
        ps.remove(pid_idx(ps, pid))
    } else {
        ps
    }
}

proof fn lemma_pid_idx(ps: Seq<(usize, PlayerModel)>, pid: usize, k: int)
    requires
        0 <= k < ps.len(),
        ps[k].0 == pid,
        forall|a: int, b: int| 0 <= a < b < ps.len() ==> #[trigger] ps[a].0 != #[trigger] ps[b].0,
    ensures
        has_pid(ps, pid),
        pid_idx(ps, pid) == k,
{
    let j = pid_idx(ps, pid);
    if j < k {
        assert(ps[j].0 != ps[k].0);
    } else if j > k {
        assert(ps[k].0 != ps[j].0);
    }
}

} // verus!

verus! {

/// A tile reads back what was last written to it, the other tiles keep
/// their values, and the reachable positions stay the same.
pub proof fn law_get_after_set(m: WorldModel, x: i32, y: i32, t: u8, qx: i32, qy: i32)
    requires
        m.tiles.dom().contains((x, y)),
    ensures
        ({
            let m2 = WorldModel { tiles: m.tiles.insert((x, y), t), ..m };
            &&& m2.tiles.dom() == m.tiles.dom()
            &&& m2.tiles[(x, y)] == t
            &&& !(qx == x && qy == y) ==> m2.tiles[(qx, qy)] == m.tiles[(qx, qy)]
        }),
{
    let m2 = WorldModel { tiles: m.tiles.insert((x, y), t), ..m };
    assert(m2.tiles.dom() =~= m.tiles.dom());
}

/// Removing a player that was just added gives back the players as they were.
pub proof fn law_insert_then_remove(ps: Seq<(usize, PlayerModel)>, id: usize, p: PlayerModel)
    requires
        !has_pid(ps, id),
    ensures
        remove_key(ps.push((id, p)), id) == ps,
{
    let q = ps.push((id, p));
    assert(q[ps.len() as int].0 == id);
    assert(has_pid(q, id));
    let k = pid_idx(q, id);
    if k < ps.len() {
        assert(ps[k].0 == id);
    }
    assert(q.remove(ps.len() as int) =~= ps);
}

} // verus!
