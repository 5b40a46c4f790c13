//! Entity positions, players and their inventories, and the geometry of the
//! area that a moving player uncovers.
use vstd::prelude::*;

verus! {

/// A position in fixed point: the tile `(x, y)` and, inside it, the
/// sub-tile offset `(subx, suby)` in 256ths of a tile.
#[derive(Clone, Copy, PartialEq, Eq, Structural)]
pub struct Entpos {
    pub x: i32,
    pub y: i32,
    pub subx: u8,
    pub suby: u8,
}

/// The position along one axis in 256ths of a tile.
pub open spec fn fixed(t: i32, sub: u8) -> int {
    t as int * 256 + sub as int
}

/// Whether `addsub(dx, dy)` stays within the range of the coordinates.
pub open spec fn addsub_ok(p: Entpos, dx: i32, dy: i32) -> bool {
    &&& dx + p.subx <= i32::MAX
    &&& dy + p.suby <= i32::MAX
    &&& i32::MIN <= p.x + (((dx + p.subx) as i32) >> 8u32) <= i32::MAX
    &&& i32::MIN <= p.y + (((dy + p.suby) as i32) >> 8u32) <= i32::MAX
}

/// The position after `addsub(dx, dy)`.
pub open spec fn addsub_spec(p: Entpos, dx: i32, dy: i32) -> Entpos {
    let sx = (dx + p.subx) as i32;
    let sy = (dy + p.suby) as i32;
    Entpos {
        x: (p.x + (sx >> 8u32)) as i32,
        y: (p.y + (sy >> 8u32)) as i32,
        subx: (sx & 255i32) as u8,
        suby: (sy & 255i32) as u8,
    }
}

/// Splitting a 32-bit value into its low byte and the rest.
proof fn lemma_byte_split(a: i32)
    ensures
        ((a >> 8u32) as int) * 256 + ((a & 255i32) as u8) as int == a as int,
        0 <= (a & 255i32) <= 255,
{
    assert(0 <= (a & 255i32) <= 255) by (bit_vector);
    assert(((a >> 8u32) as int) * 256 + (a & 255i32) as int == a as int) by (bit_vector);
}

impl Entpos {
    /// Moves the position by `(x, y)` 256ths of a tile.
    pub fn addsub(&mut self, x: i32, y: i32)
        requires
            addsub_ok(*old(self), x, y),
        ensures
            *final(self) == addsub_spec(*old(self), x, y),
            fixed(final(self).x, final(self).subx) == fixed(old(self).x, old(self).subx) + x,
            fixed(final(self).y, final(self).suby) == fixed(old(self).y, old(self).suby) + y,
    {
        let x = x + self.subx as i32;
        let y = y + self.suby as i32;
        proof {
            lemma_byte_split(x);
            lemma_byte_split(y);
        }
        self.subx = (x & 255) as u8;
        self.suby = (y & 255) as u8;
        self.x = self.x + (x >> 8u32);
        self.y = self.y + (y >> 8u32);
    }
}

/// Items held: pairs of an item and how many of it, at most one pair per
/// item and no pair with count 0.
pub struct Inventory {
    pub items: Vec<(u8, u8)>,
}

/// The first index of the pair for `item`, or -1.
pub open spec fn find_item(s: Seq<(u8, u8)>, item: u8) -> int
    decreases s.len(),
{
    if s.len() == 0 {
        -1
    } else if s.last().0 == item && find_item(s.drop_last(), item) < 0 {
        s.len() - 1
    } else {
        find_item(s.drop_last(), item)
    }
}

/// How many of `item` the inventory holds.
pub open spec fn count_of(s: Seq<(u8, u8)>, item: u8) -> int {
    let i = find_item(s, item);
    if i < 0 {
        0
    } else {
        s[i].1 as int
    }
}

pub open spec fn inventory_wf(s: Seq<(u8, u8)>) -> bool {
    &&& forall|i: int, j: int| 0 <= i < j < s.len() ==> #[trigger] s[i].0 != #[trigger] s[j].0
    &&& forall|i: int| 0 <= i < s.len() ==> #[trigger] s[i].1 > 0
}

/// The items after one `item` is put in: its count goes up by one (staying
/// at 255 when full), or a new pair with count 1 is appended.
pub open spec fn put_spec(s: Seq<(u8, u8)>, item: u8) -> Seq<(u8, u8)> {
    let i = find_item(s, item);
    if i < 0 {
        s.push((item, 1u8))
    } else {
        s.update(i, (item, if s[i].1 < 255 { (s[i].1 + 1) as u8 } else { 255u8 }))
    }
}

/// Whether one `item` can be taken out.
pub open spec fn rem_ok(s: Seq<(u8, u8)>, item: u8) -> bool {
    find_item(s, item) >= 0 && s[find_item(s, item)].1 > 0
}

/// The items after one `item` is taken out: its count goes down by one, and
/// the pair leaves when it reaches 0.
pub open spec fn rem_spec(s: Seq<(u8, u8)>, item: u8) -> Seq<(u8, u8)> {
    let i = find_item(s, item);
    if !rem_ok(s, item) {
        s
    } else if s[i].1 == 1 {
        s.remove(i)
    } else {
        s.update(i, (item, (s[i].1 - 1) as u8))
    }
}

proof fn lemma_find_item(s: Seq<(u8, u8)>, item: u8)
    ensures
        -1 <= find_item(s, item) < s.len(),
        find_item(s, item) >= 0 ==> s[find_item(s, item)].0 == item,
        find_item(s, item) >= 0 ==> forall|j: int| 0 <= j < find_item(s, item) ==> s[j].0 != item,
        find_item(s, item) < 0 ==> forall|j: int| 0 <= j < s.len() ==> s[j].0 != item,
    decreases s.len(),
{
    if s.len() > 0 {
        let t = s.drop_last();
        lemma_find_item(t, item);
        assert(forall|j: int| 0 <= j < t.len() ==> t[j] == s[j]);
    }
}

/// `find_item` is the first index whose item matches.
proof fn lemma_find_first(s: Seq<(u8, u8)>, item: u8, i: int)
    requires
        0 <= i <= s.len(),
        forall|j: int| 0 <= j < i ==> s[j].0 != item,
        i < s.len() ==> s[i].0 == item,
    ensures
        find_item(s, item) == (if i < s.len() { i } else { -1 }),
    decreases s.len(),
{
    lemma_find_item(s, item);
    if s.len() > 0 {
        if i < s.len() {
            if find_item(s, item) >= 0 && find_item(s, item) != i {
                assert(s[find_item(s, item)].0 == item);
            }
        }
    }
}

impl Inventory {
    pub fn new() -> (inv: Inventory)
        ensures
            inv.items@ == Seq::<(u8, u8)>::empty(),
    {
        Inventory { items: Vec::new() }
    }

    fn position(&self, item: u8) -> (r: Option<usize>)
        ensures
            match r {
                Some(i) => i as int == find_item(self.items@, item),
                None => find_item(self.items@, item) < 0,
            },
    {
        let mut i: usize = 0;
        while i < self.items.len()
            invariant
                0 <= i <= self.items@.len(),
                forall|j: int| 0 <= j < i ==> self.items@[j].0 != item,
            decreases self.items@.len() - i,
        {
            if self.items[i].0 == item {
                proof {
                    lemma_find_first(self.items@, item, i as int);
                }
                return Some(i);
            }
            i = i + 1;
        }
        proof {
            lemma_find_first(self.items@, item, i as int);
        }
        None
    }

    /// Puts one `item` in.
    pub fn put(&mut self, item: u8)
        ensures
            final(self).items@ == put_spec(old(self).items@, item),
    {
        proof {
            lemma_find_item(self.items@, item);
        }
        match self.position(item) {
            Some(i) => {
                let c = self.items[i].1;
                let n: u8 = if c < 255 { c + 1 } else { 255 };
                self.items.set(i, (item, n));
                proof {
                    lemma_find_item(old(self).items@, item);
                }
            },
            None => {
                self.items.push((item, 1));
            },
        }
    }

    /// Takes one `item` out; `false`, and nothing changes, when there is none.
    pub fn rem(&mut self, item: u8) -> (ok: bool)
        ensures
            ok == rem_ok(old(self).items@, item),
            final(self).items@ == rem_spec(old(self).items@, item),
    {
        proof {
            lemma_find_item(self.items@, item);
        }
        match self.position(item) {
            Some(i) => {
                let c = self.items[i].1;
                if c == 0 {
                    false
                } else if c == 1 {
                    self.items.remove(i);
                    true
                } else {
                    proof {
                        lemma_find_item(old(self).items@, item);
                    }
                    self.items.set(i, (item, c - 1));
                    true
                }
            },
            None => false,
        }
    }
}

/// Putting an item in keeps an inventory well formed and adds one to its
/// count, unless the count is already 255.
pub proof fn lemma_put_count(s: Seq<(u8, u8)>, item: u8)
    requires
        inventory_wf(s),
    ensures
        inventory_wf(put_spec(s, item)),
        count_of(put_spec(s, item), item) == if count_of(s, item) < 255 {
            count_of(s, item) + 1
        } else {
            255
        },
        forall|other: u8| other != item ==> count_of(put_spec(s, item), other) == count_of(s, other),
{
    lemma_find_item(s, item);
    let t = put_spec(s, item);
    let i = find_item(s, item);
    if i < 0 {
        lemma_find_first(t, item, s.len() as int);
    } else {
        lemma_find_first(t, item, i);
    }
    assert forall|other: u8| other != item implies count_of(t, other) == count_of(s, other) by {
        lemma_find_item(s, other);
        let k = find_item(s, other);
        if k < 0 {
            lemma_find_first(t, other, t.len() as int);
        } else {
            lemma_find_first(t, other, k);
        }
    }
}

/// Taking out an item that was just put in succeeds, and gives back the
/// inventory as it was, unless the count had reached 255.
pub proof fn lemma_put_rem(s: Seq<(u8, u8)>, item: u8)
    requires
        inventory_wf(s),
        count_of(s, item) < 255,
    ensures
        rem_ok(put_spec(s, item), item),
        rem_spec(put_spec(s, item), item) == s,
{
    lemma_find_item(s, item);
    let t = put_spec(s, item);
    let i = find_item(s, item);
    if i < 0 {
        lemma_find_first(t, item, s.len() as int);
        assert(t.remove(s.len() as int) =~= s);
    } else {
        lemma_find_first(t, item, i);
        assert(t.update(i, (item, s[i].1)) =~= s);
    }
}

/// Taking an item out keeps an inventory well formed.
pub proof fn lemma_rem_wf(s: Seq<(u8, u8)>, item: u8)
    requires
        inventory_wf(s),
    ensures
        inventory_wf(rem_spec(s, item)),
{
    lemma_find_item(s, item);
    let t = rem_spec(s, item);
    let i = find_item(s, item);
    if rem_ok(s, item) && s[i].1 == 1 {
        assert forall|a: int, b: int| 0 <= a < b < t.len() implies #[trigger] t[a].0 != #[trigger] t[b].0 by {
            let a2 = if a < i { a } else { a + 1 };
            let b2 = if b < i { b } else { b + 1 };
            assert(t[a] == s[a2] && t[b] == s[b2]);
        }
    }
}

/// A player: where it is, the commands queued for its client, and what it
/// holds.
pub struct Player {
    pub pos: Entpos,
    pub comque: Vec<u8>,
    pub inventory: Inventory,
}

/// The state of a player as plain values.
pub struct PlayerModel {
    pub pos: Entpos,
    pub comque: Seq<u8>,
    pub inventory: Seq<(u8, u8)>,
}

impl Player {
    pub open spec fn model(&self) -> PlayerModel {
        PlayerModel { pos: self.pos, comque: self.comque@, inventory: self.inventory.items@ }
    }
}

/// A rectangle of tiles `(x0, y0, x2, y2)`, corners included.
pub type Rect = (i32, i32, i32, i32);

pub open spec fn idkwhat0_spec(a: int, b: int, r: int) -> int {
    if b < a {
        b - r
    } else if a + r + 1 >= b - r {
        a + r + 1
    } else {
        b - r
    }
}

pub open spec fn idkwhat2_spec(a: int, b: int, r: int) -> int {
    if b < a {
        if a - r - 1 <= b + r {
            a - r - 1
        } else {
            b + r
        }
    } else {
        b + r
    }
}

/// Whether `v` fits in an `i32`.
pub open spec fn in_i32(v: int) -> bool {
    i32::MIN <= v <= i32::MAX
}

/// The two bounds enclose exactly the positions within `r` of `b` and
/// farther than `r` from `a`: the strip that a move from `a` to `b` brings
/// into a view of radius `r` (empty when `a == b`).
pub proof fn law_idkwhat_strip(a: int, b: int, r: int, z: int)
    requires
        r >= 0,
    ensures
        (idkwhat0_spec(a, b, r) <= z <= idkwhat2_spec(a, b, r)) <==> (abs_diff(z, b) <= r && abs_diff(z, a) > r),
{
}

/// The distance between `u` and `v`.
pub open spec fn abs_diff(u: int, v: int) -> int {
    if u >= v {
        u - v
    } else {
        v - u
    }
}

/// Whether every step of `idkwhat0` stays within range.
pub open spec fn idkwhat0_ok(a: int, b: int, r: int) -> bool {
    if b < a {
        in_i32(b - r)
    } else {
        in_i32(a + r) && in_i32(a + r + 1) && in_i32(b - r)
    }
}

/// Whether every step of `idkwhat2` stays within range.
pub open spec fn idkwhat2_ok(a: int, b: int, r: int) -> bool {
    if b < a {
        in_i32(a - r) && in_i32(a - r - 1) && in_i32(b + r)
    } else {
        in_i32(b + r)
    }
}

/// Whether computing the uncovered rectangles stays within range.
pub open spec fn rects_ok(ax: i32, ay: i32, bx: i32, by: i32) -> bool {
    &&& ax != bx ==> {
        &&& idkwhat0_ok(ax as int, bx as int, 5)
        &&& idkwhat2_ok(ax as int, bx as int, 5)
        &&& by - 5 >= i32::MIN && ay - 5 >= i32::MIN
        &&& by + 5 <= i32::MAX && ay + 5 <= i32::MAX
    }
    &&& ay != by ==> {
        &&& bx - 5 >= i32::MIN && bx + 5 <= i32::MAX
        &&& idkwhat0_ok(ay as int, by as int, 5)
        &&& idkwhat2_ok(ay as int, by as int, 5)
    }
}

pub open spec fn max_int(a: int, b: int) -> int {
    if a >= b {
        a
    } else {
        b
    }
}

pub open spec fn min_int(a: int, b: int) -> int {
    if a <= b {
        a
    } else {
        b
    }
}

/// The rectangles that come into a radius-5 view when the centre moves from
/// `(ax, ay)` to `(bx, by)`: the band gained horizontally, then the band
/// gained vertically.
pub open spec fn new_rects_spec(ax: i32, ay: i32, bx: i32, by: i32) -> Seq<Rect> {
    let h: Seq<Rect> = if ax != bx {
        seq![
            (
                idkwhat0_spec(ax as int, bx as int, 5) as i32,
                max_int(by - 5, ay - 5) as i32,
                idkwhat2_spec(ax as int, bx as int, 5) as i32,
                min_int(by + 5, ay + 5) as i32,
            ),
        ]
    } else {
        seq![]
    };
    let v: Seq<Rect> = if ay != by {
        seq![
            (
                (bx - 5) as i32,
                idkwhat0_spec(ay as int, by as int, 5) as i32,
                (bx + 5) as i32,
                idkwhat2_spec(ay as int, by as int, 5) as i32,
            ),
        ]
    } else {
        seq![]
    };
    h + v
}

impl Player {
    fn idkwhat0(a: i32, b: i32, r: i32) -> (v: i32)
        requires
            idkwhat0_ok(a as int, b as int, r as int),
        ensures
            v == idkwhat0_spec(a as int, b as int, r as int),
    {
        if b < a {
            b - r
        } else {
            let p = a + r + 1;
            let q = b - r;
            if p >= q {
                p
            } else {
                q
            }
        }
    }

    fn idkwhat2(a: i32, b: i32, r: i32) -> (v: i32)
        requires
            idkwhat2_ok(a as int, b as int, r as int),
        ensures
            v == idkwhat2_spec(a as int, b as int, r as int),
    {
        if b < a {
            let p = a - r - 1;
            let q = b + r;
            if p <= q {
                p
            } else {
                q
            }
        } else {
            b + r
        }
    }

    /// The rectangles of tiles that come into view when the player's centre
    /// moves from `(ax, ay)` to `(bx, by)`.
    pub fn get_new_rects(ax: i32, ay: i32, bx: i32, by: i32) -> (rs: Vec<Rect>)
        requires
            rects_ok(ax, ay, bx, by),
        ensures
            rs@ == new_rects_spec(ax, ay, bx, by),
    {
        let r: i32 = 5;
        let mut waveborn: Vec<Rect> = Vec::new();
        if ax != bx {
            let x0 = Self::idkwhat0(ax, bx, r);
            let x2 = Self::idkwhat2(ax, bx, r);
            let p = by - r;
            let q = ay - r;
            let y0 = if p >= q { p } else { q };
            let p = by + r;
            let q = ay + r;
            let y2 = if p <= q { p } else { q };
            waveborn.push((x0, y0, x2, y2));
        }
        if ay != by {
            let x0 = bx - r;
            let x2 = bx + r;
            let y0 = Self::idkwhat0(ay, by, r);
            let y2 = Self::idkwhat2(ay, by, r);
            waveborn.push((x0, y0, x2, y2));
        }
        assert(waveborn@ =~= new_rects_spec(ax, ay, bx, by));
        waveborn
    }
}

} // verus!

verus! {

/// Whether tile `(px, py)` is within the radius-5 view centred on `(cx, cy)`.
pub open spec fn in_view(cx: int, cy: int, px: int, py: int) -> bool {
    cx - 5 <= px <= cx + 5 && cy - 5 <= py <= cy + 5
}

pub open spec fn in_rect(r: Rect, px: int, py: int) -> bool {
    r.0 <= px <= r.2 && r.1 <= py <= r.3
}

/// The rectangles that a move uncovers are exactly the tiles of the new view
/// that were not in the old one, and they do not overlap.
pub proof fn law_new_rects_uncover(ax: i32, ay: i32, bx: i32, by: i32, px: int, py: int)
    requires
        rects_ok(ax, ay, bx, by),
    ensures
        (exists|k: int| 0 <= k < new_rects_spec(ax, ay, bx, by).len() && in_rect(#[trigger] new_rects_spec(ax, ay, bx, by)[k], px, py))
            <==> (in_view(bx as int, by as int, px, py) && !in_view(ax as int, ay as int, px, py)),
        new_rects_spec(ax, ay, bx, by).len() == 2 ==> !(in_rect(new_rects_spec(ax, ay, bx, by)[0], px, py) && in_rect(
            new_rects_spec(ax, ay, bx, by)[1],
            px,
            py,
        )),
{
    let rs = new_rects_spec(ax, ay, bx, by);
    if ax != bx && ay != by {
        assert(rs.len() == 2);
        if in_view(bx as int, by as int, px, py) && !in_view(ax as int, ay as int, px, py) {
            if in_rect(rs[0], px, py) {
            } else {
                assert(in_rect(rs[1], px, py));
            }
        }
    } else if ax != bx {
        assert(rs.len() == 1);
        if in_view(bx as int, by as int, px, py) && !in_view(ax as int, ay as int, px, py) {
            assert(in_rect(rs[0], px, py));
        }
    } else if ay != by {
        assert(rs.len() == 1);
        if in_view(bx as int, by as int, px, py) && !in_view(ax as int, ay as int, px, py) {
            assert(in_rect(rs[0], px, py));
        }
    } else {
        assert(rs.len() == 0);
    }
}

} // verus!
