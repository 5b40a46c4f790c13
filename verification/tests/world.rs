use apiforma::chunk::Chunk;
use apiforma::orb::{cast_from_runes, Orb};
use apiforma::player::{Entpos, Inventory, Player};
use apiforma::world::{tick_step, SavedChunk, World};

fn player_at(x: i32, y: i32) -> Player {
    Player { pos: Entpos { x: x, y: y, subx: 128, suby: 128 }, comque: Vec::new(), inventory: Inventory::new() }
}

#[test]
fn new_world_reads_generated_tiles() {
    let mut w = World::new();
    assert_eq!(w.get_tile(0, 0), 0xa5);
    assert_eq!(w.get_tile(0, 86), 0x80);
    assert_eq!(w.get_tile(-128, -128), 0xa5);
    assert_eq!(w.get_tile(-1, -1), 0xa5);
}

#[test]
fn tile_reads_back_what_was_written() {
    let mut w = World::new();
    w.set_tile(3, -4, 0x8c);
    assert_eq!(w.get_tile(3, -4), 0x8c);
    assert_eq!(w.get_tile(0, 0), 0xa5);
    w.set_tile(3, -4, 0x90);
    assert_eq!(w.get_tile(3, -4), 0x90);
    assert_eq!(w.chunks.len(), 2);
}

#[test]
fn tiles_of_neighbouring_chunks_are_separate() {
    let mut w = World::new();
    w.set_tile(127, 0, 1);
    w.set_tile(128, 0, 2);
    w.set_tile(-1, 0, 3);
    assert_eq!(w.get_tile(127, 0), 1);
    assert_eq!(w.get_tile(128, 0), 2);
    assert_eq!(w.get_tile(-1, 0), 3);
}

#[test]
fn players_get_increasing_ids() {
    let mut w = World::new();
    assert_eq!(w.insert_player(player_at(0, 0)), 1);
    assert_eq!(w.insert_player(player_at(5, 5)), 2);
    w.remove_player(1);
    assert_eq!(w.players.len(), 1);
    assert_eq!(w.players[0].0, 2);
    assert_eq!(w.insert_player(player_at(0, 0)), 3);
    w.remove_player(42);
    assert_eq!(w.players.len(), 2);
}

#[test]
fn unload_saves_modified_and_drops_far_chunks() {
    let mut w = World::new();
    w.insert_player(player_at(0, 0));
    w.set_tile(1000, 1000, 0x8c);
    w.set_tile(1, 1, 0x83);
    let _ = w.get_tile(300, 0);
    assert_eq!(w.chunks.len(), 3);
    let saves = w.unload_unused_chunks();
    assert_eq!(saves.len(), 2);
    assert_eq!((saves[0].x, saves[0].y), (896, 896));
    assert_eq!((saves[1].x, saves[1].y), (0, 0));
    assert_eq!(saves[0].data.len(), 16393);
    assert_eq!(saves[0].data[9 + (1000 - 896) + (1000 - 896) * 128], 0x8c);
    assert_eq!(w.chunks.len(), 1);
    assert!(!w.chunks[0].modified);
    assert_eq!(w.get_tile(1000, 1000), 0x8c);
    assert_eq!(w.get_tile(1, 1), 0x83);
    assert_eq!(w.get_tile(300, 0), {
        let c = Chunk::load(256, 0, None);
        c.tiles[44]
    });
}

#[test]
fn unload_again_writes_nothing_new() {
    let mut w = World::new();
    w.insert_player(player_at(0, 0));
    w.set_tile(1, 1, 0x83);
    let first = w.unload_unused_chunks();
    assert_eq!(first.len(), 1);
    let second = w.unload_unused_chunks();
    assert_eq!(second.len(), 0);
}

#[test]
fn saved_chunks_are_loaded_from_their_files() {
    let mut c = Chunk::load(128, 0, None);
    c.tiles[5] = 0x94;
    let data = c.save();
    let mut w = World::with_saved(vec![SavedChunk { x: 128, y: 0, data: data }]);
    assert_eq!(w.get_tile(133, 0), 0x94);
    assert_eq!(w.get_tile(0, 0), 0xa5);
}

#[test]
fn move_checks_launch_orbs() {
    let mut w = World::new();
    let pid = w.insert_player(player_at(0, 0));
    w.set_tile(6, 0, 0x89);
    w.set_tile(-5, 2, 0x8a);
    w.set_player_pos(0, Entpos { x: 1, y: 0, subx: 128, suby: 128 });
    assert!(Player::do_move_checks(0, 0, &mut w, pid));
    assert_eq!(w.orbs.len(), 2);
    // the column that left the view sends its orb back the other way
    assert_eq!((w.orbs[0].pos.x, w.orbs[0].pos.y), (-5, 2));
    assert_eq!((w.orbs[0].v.x, w.orbs[0].v.y), (0, -128));
    // the column that came into view sends its orb on
    assert_eq!((w.orbs[1].pos.x, w.orbs[1].pos.y), (6, 0));
    assert_eq!((w.orbs[1].v.x, w.orbs[1].v.y), (128, 0));
}

#[test]
fn move_checks_need_the_player() {
    let mut w = World::new();
    assert!(!Player::do_move_checks(0, 0, &mut w, 7));
}

fn world_with_orb_heading_to(tile: u8) -> (World, usize) {
    let mut w = World::new();
    let pid = w.insert_player(player_at(0, 0));
    w.set_tile(6, 0, 0x89);
    w.set_tile(7, 0, tile);
    w.set_player_pos(0, Entpos { x: 1, y: 0, subx: 128, suby: 128 });
    assert!(Player::do_move_checks(0, 0, &mut w, pid));
    assert_eq!(w.orbs.len(), 1);
    (w, pid)
}

#[test]
fn orb_moves_half_a_tile() {
    let (mut w, _) = world_with_orb_heading_to(0xa5);
    assert!(Orb::step(&mut w));
    assert_eq!((w.orbs[0].pos.x, w.orbs[0].pos.subx), (7, 112));
    assert_eq!(w.orbs[0].age, 1);
}

#[test]
fn orb_turns_at_arrow() {
    let (mut w, _) = world_with_orb_heading_to(0x94);
    assert!(Orb::step(&mut w));
    let o = w.orbs[0];
    assert_eq!((o.v.x, o.v.y), (0, -128));
    assert_eq!((o.pos.subx, o.pos.suby), (128, 16));
    assert_eq!(o.flavor, 2);
    assert_eq!(o.age, 0);
}

#[test]
fn orb_sets_switch() {
    let (mut w, _) = world_with_orb_heading_to(0x82);
    assert!(Orb::step(&mut w));
    assert_eq!(w.get_tile(7, 0), 0x83);
}

#[test]
fn orb_casts_rune_spell_and_ends() {
    let (mut w, pid) = world_with_orb_heading_to(0x8c);
    let near = w.insert_player(player_at(4, 1));
    assert!(Orb::step(&mut w));
    assert_eq!(w.orbs[0].age, 100);
    assert_eq!(w.drain_comque(pid), Some(vec![]));
    assert_eq!(w.drain_comque(near), Some(vec![2, 0, 1]));
    assert_eq!(w.drain_comque(near), Some(vec![]));
    assert!(Orb::step(&mut w));
    assert_eq!(w.orbs.len(), 0);
}

#[test]
fn orbs_leave_at_age_100() {
    let (mut w, _) = world_with_orb_heading_to(0xa5);
    w.set_tile(7, 0, 0xa5);
    for _ in 0..100 {
        assert!(Orb::step(&mut w));
    }
    assert_eq!(w.orbs.len(), 1);
    assert_eq!(w.orbs[0].age, 100);
    assert!(Orb::step(&mut w));
    assert_eq!(w.orbs.len(), 0);
}

#[test]
fn runes_cast_for_nearby_players_only() {
    let mut w = World::new();
    let near = w.insert_player(player_at(2, 2));
    let far = w.insert_player(player_at(50, 2));
    w.set_tile(0, 0, 0x8f);
    // rune 0x8f with flavour 1: card 3, spell 10
    assert!(cast_from_runes(&mut w, 1, 0, 0));
    assert_eq!(w.drain_comque(near), Some(vec![2, 1, 0]));
    assert_eq!(w.drain_comque(far), Some(vec![]));
}

#[test]
fn rune_with_unknown_spell_casts_nothing() {
    let mut w = World::new();
    let pid = w.insert_player(player_at(0, 0));
    w.set_tile(0, 0, 0x8d);
    assert!(cast_from_runes(&mut w, 0, 0, 0));
    assert_eq!(w.drain_comque(pid), Some(vec![]));
}

#[test]
fn rune_flavour_overflow_stops() {
    let mut w = World::new();
    w.set_tile(0, 0, 0x8f);
    assert!(!cast_from_runes(&mut w, 250, 0, 0));
}

#[test]
fn tick_zero_unloads_then_steps() {
    let (mut w, _) = world_with_orb_heading_to(0xa5);
    w.set_tile(2000, 0, 1);
    let saves = tick_step(&mut w, 0).unwrap();
    assert_eq!(saves.len(), 2);
    assert_eq!(w.orbs[0].age, 1);
    let none = tick_step(&mut w, 1).unwrap();
    assert_eq!(none.len(), 0);
    assert_eq!(w.orbs[0].age, 2);
}

#[test]
fn tile_accessibility() {
    let w = World::new();
    assert!(w.tile_accessible(0, 0));
    assert!(w.tile_accessible(i32::MIN, i32::MIN));
    assert!(!w.tile_accessible(i32::MAX, 0));
    assert!(w.tile_accessible(2147483263 - 127, 0));
}

#[test]
fn chunks_in_memory_follow_reads_and_writes() {
    let mut w = World::new();
    assert!(w.chunks.is_empty());
    w.get_tile(-1, -1);
    assert_eq!(w.chunks.len(), 1);
    assert_eq!((w.chunks[0].x, w.chunks[0].y, w.chunks[0].modified), (-128, -128, false));
    w.get_tile(-128, -128);
    assert_eq!(w.chunks.len(), 1);
    w.set_tile(5, 5, 0x82);
    assert_eq!(w.chunks.len(), 2);
    assert_eq!((w.chunks[1].x, w.chunks[1].y, w.chunks[1].modified), (0, 0, true));
    assert!(!w.chunks[0].modified);
    assert_eq!(w.chunks[1].tiles[5 + 5 * 128], 0x82);
}

#[test]
fn ticks_other_than_zero_drop_no_chunk() {
    let mut w = World::new();
    w.get_tile(0, 0);
    w.get_tile(1000, 1000);
    let saves = tick_step(&mut w, 7).expect("tick");
    assert!(saves.is_empty());
    assert_eq!(w.chunks.len(), 2);
    let saves = tick_step(&mut w, 0).expect("tick");
    assert!(saves.is_empty());
    assert_eq!(w.chunks.len(), 0);
}

#[test]
fn ticks_wrap_after_99() {
    use_next_tick();
}

fn use_next_tick() {
    assert_eq!(apiforma::world::next_tick(0), 1);
    assert_eq!(apiforma::world::next_tick(98), 99);
    assert_eq!(apiforma::world::next_tick(99), 0);
}
