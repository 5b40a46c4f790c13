use apiforma::hc::{append_int, handle_message, item_from_tile, read_as_int};
use apiforma::player::{Entpos, Inventory, Player};
use apiforma::world::World;

fn player_at(x: i32, y: i32) -> Player {
    Player { pos: Entpos { x: x, y: y, subx: 128, suby: 128 }, comque: Vec::new(), inventory: Inventory::new() }
}

fn be(x: i32) -> Vec<u8> {
    x.to_be_bytes().to_vec()
}

#[test]
fn ints_are_big_endian() {
    let mut v = vec![9u8];
    append_int(&mut v, -2);
    assert_eq!(v, vec![9, 255, 255, 255, 254]);
    append_int(&mut v, 0x01020304);
    assert_eq!(v, vec![9, 255, 255, 255, 254, 1, 2, 3, 4]);
    assert_eq!(read_as_int(1, &v), -2);
    assert_eq!(read_as_int(5, &v), 0x01020304);
    assert_eq!(read_as_int(2, &v), -511);
}

#[test]
fn ints_round_trip() {
    for x in [0, 1, -1, i32::MIN, i32::MAX, 123456789, -98765] {
        let mut v = vec![1u8, 2, 3];
        append_int(&mut v, x);
        assert_eq!(read_as_int(3, &v), x);
    }
}

#[test]
fn items_from_tiles() {
    assert_eq!(item_from_tile(0x89), 0x88);
    assert_eq!(item_from_tile(0x93), 0x90);
    assert_eq!(item_from_tile(0x97), 0x94);
    assert_eq!(item_from_tile(0x8d), 0x8d);
    assert_eq!(item_from_tile(0xa5), 0xa5);
}

#[test]
fn get_tiles_answers_the_square() {
    let mut w = World::new();
    let pid = w.insert_player(player_at(0, 0));
    w.set_tile(10, 20, 0x42);
    let mut msg = vec![0u8];
    msg.extend(be(10));
    msg.extend(be(20));
    msg.push(0);
    let mut expect = vec![0u8];
    expect.extend(be(10));
    expect.extend(be(20));
    expect.push(0);
    expect.push(0x42);
    assert_eq!(handle_message(&msg, &mut w, pid), Some(expect));
}

#[test]
fn get_tiles_radius_over_64_reads_as_63() {
    let mut w = World::new();
    let pid = w.insert_player(player_at(0, 0));
    let mut msg = vec![0u8];
    msg.extend(be(0));
    msg.extend(be(0));
    msg.push(200);
    let out = handle_message(&msg, &mut w, pid).unwrap();
    assert_eq!(out[9], 63);
    assert_eq!(out.len(), 10 + 127 * 127);
    let mut msg = vec![0u8];
    msg.extend(be(0));
    msg.extend(be(0));
    msg.push(64);
    let out = handle_message(&msg, &mut w, pid).unwrap();
    assert_eq!(out[9], 64);
    assert_eq!(out.len(), 10 + 129 * 129);
}

#[test]
fn get_tiles_row_order() {
    let mut w = World::new();
    let pid = w.insert_player(player_at(0, 0));
    w.set_tile(-1, -1, 1);
    w.set_tile(0, -1, 2);
    w.set_tile(1, -1, 3);
    w.set_tile(-1, 0, 4);
    w.set_tile(1, 1, 9);
    let mut msg = vec![0u8];
    msg.extend(be(0));
    msg.extend(be(0));
    msg.push(1);
    let out = handle_message(&msg, &mut w, pid).unwrap();
    assert_eq!(&out[10..14], &[1, 2, 3, 4]);
    assert_eq!(out[18], 9);
}

#[test]
fn set_loc_moves_the_player_and_launches_orbs() {
    let mut w = World::new();
    let pid = w.insert_player(player_at(0, 0));
    w.set_tile(6, 0, 0x89);
    let mut msg = vec![1u8];
    msg.extend(be(1));
    msg.extend(be(0));
    msg.push(10);
    msg.push(20);
    assert_eq!(handle_message(&msg, &mut w, pid), Some(vec![]));
    assert_eq!((w.players[0].1.pos.x, w.players[0].1.pos.y, w.players[0].1.pos.subx, w.players[0].1.pos.suby), (1, 0, 10, 20));
    assert_eq!(w.orbs.len(), 1);
}

#[test]
fn break_then_place() {
    let mut w = World::new();
    let pid = w.insert_player(player_at(0, 0));
    w.set_tile(2, 3, 0x8a);
    let mut msg = vec![2u8];
    msg.extend(be(2));
    msg.extend(be(3));
    assert_eq!(handle_message(&msg, &mut w, pid), Some(vec![]));
    assert_eq!(w.get_tile(2, 3), 0x80);
    assert_eq!(w.players[0].1.inventory.items, vec![(0x88, 1)]);
    // the inventory answer
    let mut expect = vec![4u8, 1];
    expect.extend(be(0x88));
    expect.push(1);
    assert_eq!(handle_message(&vec![5u8], &mut w, pid), Some(expect));
    // placing an arrow of the same kind elsewhere, on an empty tile
    w.set_tile(4, 4, 0x80);
    let mut msg = vec![4u8];
    msg.extend(be(4));
    msg.extend(be(4));
    msg.push(0x8b);
    assert_eq!(handle_message(&msg, &mut w, pid), Some(vec![]));
    assert_eq!(w.get_tile(4, 4), 0x8b);
    assert_eq!(w.players[0].1.inventory.items, vec![]);
    // nothing left to place
    w.set_tile(5, 5, 0x80);
    let mut msg = vec![4u8];
    msg.extend(be(5));
    msg.extend(be(5));
    msg.push(0x8b);
    assert_eq!(handle_message(&msg, &mut w, pid), Some(vec![]));
    assert_eq!(w.get_tile(5, 5), 0x80);
}

#[test]
fn place_on_full_tile_reads_no_tile_byte() {
    let mut w = World::new();
    let pid = w.insert_player(player_at(0, 0));
    w.set_tile(4, 4, 0xa5);
    let mut msg = vec![4u8];
    msg.extend(be(4));
    msg.extend(be(4));
    // the next byte is taken as the next command: 5, the inventory
    msg.push(5);
    assert_eq!(handle_message(&msg, &mut w, pid), Some(vec![4, 0]));
    assert_eq!(w.get_tile(4, 4), 0xa5);
}

#[test]
fn entities_list_others_and_orbs() {
    let mut w = World::new();
    let me = w.insert_player(player_at(0, 0));
    let _other = w.insert_player(Player {
        pos: Entpos { x: -2, y: 300, subx: 1, suby: 2 },
        comque: Vec::new(),
        inventory: Inventory::new(),
    });
    let mut expect = vec![1u8, 1, 0];
    expect.extend(be(-2));
    expect.extend(be(300));
    expect.push(1);
    expect.push(2);
    assert_eq!(handle_message(&vec![3u8], &mut w, me), Some(expect));
}

#[test]
fn entities_include_orbs() {
    let mut w = World::new();
    let pid = w.insert_player(player_at(0, 0));
    w.set_tile(6, 0, 0x89);
    let mut msg = vec![1u8];
    msg.extend(be(1));
    msg.extend(be(0));
    msg.push(128);
    msg.push(128);
    msg.push(3);
    let mut expect = vec![1u8, 1, 1];
    expect.extend(be(6));
    expect.extend(be(0));
    expect.extend([240u8, 128, 0]);
    assert_eq!(handle_message(&msg, &mut w, pid), Some(expect));
}

#[test]
fn several_commands_concatenate() {
    let mut w = World::new();
    let pid = w.insert_player(player_at(0, 0));
    assert_eq!(handle_message(&vec![5u8, 9, 3, 5], &mut w, pid), Some(vec![4, 0, 1, 0, 4, 0]));
}

#[test]
fn unknown_code_answers_nothing() {
    let mut w = World::new();
    let pid = w.insert_player(player_at(0, 0));
    assert_eq!(handle_message(&vec![77u8], &mut w, pid), Some(vec![]));
}

#[test]
fn bad_messages_stop() {
    let mut w = World::new();
    let pid = w.insert_player(player_at(0, 0));
    assert_eq!(handle_message(&vec![], &mut w, pid), None);
    assert_eq!(handle_message(&vec![0u8, 0, 0], &mut w, pid), None);
    assert_eq!(handle_message(&vec![5u8], &mut w, pid + 1), None);
    let mut far = vec![0u8];
    far.extend(be(i32::MAX));
    far.extend(be(0));
    far.push(1);
    assert_eq!(handle_message(&far, &mut w, pid), None);
}

#[test]
fn entities_need_a_player() {
    let mut w = World::new();
    assert_eq!(handle_message(&vec![3u8], &mut w, 1), None);
}

#[test]
fn reading_tiles_leaves_loaded_chunks_alone() {
    let mut w = World::new();
    w.get_tile(0, 0);
    let pid = w.insert_player(Player {
        pos: Entpos { x: 0, y: 0, subx: 128, suby: 128 },
        comque: Vec::new(),
        inventory: Inventory::new(),
    });
    let msg: Vec<u8> = vec![0, 0, 0, 0, 10, 0, 0, 0, 10, 2];
    let r = handle_message(&msg, &mut w, pid).expect("answer");
    assert_eq!(r.len(), 10 + 25);
    assert_eq!(w.chunks.len(), 1);
    assert!(!w.chunks[0].modified);
}

#[test]
fn breaking_a_tile_marks_only_its_chunk() {
    let mut w = World::new();
    w.get_tile(0, 0);
    w.get_tile(-1, 0);
    let pid = w.insert_player(Player {
        pos: Entpos { x: 0, y: 0, subx: 128, suby: 128 },
        comque: Vec::new(),
        inventory: Inventory::new(),
    });
    let msg: Vec<u8> = vec![2, 0, 0, 0, 5, 0, 0, 0, 5];
    handle_message(&msg, &mut w, pid).expect("answer");
    assert_eq!(w.chunks.len(), 2);
    assert!(w.chunks[0].modified);
    assert!(!w.chunks[1].modified);
}
