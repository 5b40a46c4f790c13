use apiforma::orb::{dir_to_xyint, Orb};
use apiforma::player::{Entpos, Inventory, Player};

#[test]
fn directions() {
    assert_eq!(dir_to_xyint(0), (0, -1));
    assert_eq!(dir_to_xyint(1), (1, 0));
    assert_eq!(dir_to_xyint(2), (0, 1));
    assert_eq!(dir_to_xyint(3), (-1, 0));
}

#[test]
fn new_orb_heading_right() {
    let o = Orb::new(6, 0, 1, 0);
    assert_eq!(o.flavor, 0);
    assert_eq!((o.pos.x, o.pos.y, o.pos.subx, o.pos.suby), (6, 0, 240, 128));
    assert_eq!((o.v.x, o.v.y), (128, 0));
    assert_eq!(o.age, 0);
}

#[test]
fn new_orb_heading_up() {
    let o = Orb::new(-3, 4, 0, 2);
    assert_eq!(o.flavor, 2);
    assert_eq!((o.pos.subx, o.pos.suby), (128, 16));
    assert_eq!((o.v.x, o.v.y), (0, -128));
}

#[test]
fn addsub_carries_into_tiles() {
    let mut p = Entpos { x: 0, y: 5, subx: 240, suby: 16 };
    p.addsub(128, -128);
    assert_eq!((p.x, p.subx), (1, 112));
    assert_eq!((p.y, p.suby), (4, 144));
}

#[test]
fn addsub_is_fixed_point_addition() {
    let mut p = Entpos { x: -7, y: 100, subx: 3, suby: 200 };
    let before_x = p.x as i64 * 256 + p.subx as i64;
    let before_y = p.y as i64 * 256 + p.suby as i64;
    p.addsub(1000, -1000);
    assert_eq!(p.x as i64 * 256 + p.subx as i64, before_x + 1000);
    assert_eq!(p.y as i64 * 256 + p.suby as i64, before_y - 1000);
}

#[test]
fn inventory_put_and_rem() {
    let mut inv = Inventory::new();
    assert!(!inv.rem(0x88));
    inv.put(0x88);
    inv.put(0x90);
    inv.put(0x88);
    assert_eq!(inv.items, vec![(0x88, 2), (0x90, 1)]);
    assert!(inv.rem(0x90));
    assert_eq!(inv.items, vec![(0x88, 2)]);
    assert!(inv.rem(0x88));
    assert_eq!(inv.items, vec![(0x88, 1)]);
    assert!(!inv.rem(0x90));
}

#[test]
fn inventory_put_then_rem_restores() {
    let mut inv = Inventory::new();
    inv.put(1);
    inv.put(2);
    let before = inv.items.clone();
    inv.put(3);
    assert!(inv.rem(3));
    assert_eq!(inv.items, before);
    inv.put(1);
    assert!(inv.rem(1));
    assert_eq!(inv.items, before);
}

#[test]
fn inventory_count_stays_at_255() {
    let mut inv = Inventory::new();
    for _ in 0..300 {
        inv.put(5);
    }
    assert_eq!(inv.items, vec![(5, 255)]);
}

#[test]
fn rects_for_a_step_right() {
    assert_eq!(Player::get_new_rects(0, 0, 1, 0), vec![(6, -5, 6, 5)]);
}

#[test]
fn rects_for_a_step_left_and_down() {
    assert_eq!(Player::get_new_rects(0, 0, -1, 1), vec![(-6, -4, -6, 5), (-6, 6, 4, 6)]);
}

#[test]
fn rects_for_no_move() {
    assert_eq!(Player::get_new_rects(3, 3, 3, 3), vec![]);
}

#[test]
fn rects_for_a_long_jump() {
    assert_eq!(Player::get_new_rects(0, 0, 100, 0), vec![(95, -5, 105, 5)]);
}

#[test]
fn rects_cover_exactly_the_new_view() {
    let moves = [(0, 0, 3, -2), (10, 10, 4, 12), (0, 0, 0, 7), (-3, 5, 20, -30)];
    for (ax, ay, bx, by) in moves {
        let rs = Player::get_new_rects(ax, ay, bx, by);
        for px in -40..40 {
            for py in -40..40 {
                let inside: usize = rs.iter().filter(|r| r.0 <= px && px <= r.2 && r.1 <= py && py <= r.3).count();
                let in_new = (px - bx).abs() <= 5 && (py - by).abs() <= 5;
                let in_old = (px - ax).abs() <= 5 && (py - ay).abs() <= 5;
                assert_eq!(inside, if in_new && !in_old { 1 } else { 0 });
            }
        }
    }
}
