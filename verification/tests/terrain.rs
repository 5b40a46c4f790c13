use apiforma::chunk::Chunk;
use apiforma::noise::{coord_hash, generate_noise_bq};

#[test]
fn coord_hash_known_values() {
    assert_eq!(coord_hash(0, 0, 0), 0);
    assert_eq!(coord_hash(1, 2, 3), 1592390107);
    assert_eq!(coord_hash(-5, 7, 1), 2208907006);
    assert_eq!(coord_hash(128, -128, 0), 3923260724);
}

#[test]
fn noise_of_origin_chunk() {
    let td = generate_noise_bq(0, 0, 0);
    assert_eq!(td[0], 104410638);
    assert_eq!(td[1], 102935299);
    assert_eq!(td[128], 102414394);
    assert_eq!(td[5 * 128 + 7], 94435427);
    assert_eq!(td[16383], 44039783);
}

#[test]
fn noise_of_other_chunk_and_seed() {
    let td = generate_noise_bq(-128, 256, 1);
    assert_eq!(td[0], -90951303);
    assert_eq!(td[100 * 128 + 3], -48401890);
}

#[test]
fn generated_tiles_of_origin_chunk() {
    let mut cells = [0u8; 16384];
    Chunk::generate_new(&mut cells, 0, 0);
    assert_eq!(cells[0], 0xa5);
    assert_eq!(cells[1], 0xa5);
    assert_eq!(cells[127], 0xa1);
    assert_eq!(cells[8000], 0xa4);
    assert_eq!(cells[16383], 0xa1);
    assert_eq!(cells[11008], 0x80);
    assert_eq!(cells[124], 0xa1);
    assert_eq!(cells[99], 0xa2);
    assert_eq!(cells[69], 0xa3);
    assert_eq!(cells[9], 0xa4);
}

#[test]
fn generated_tiles_of_negative_chunk() {
    let c = Chunk::load(-128, -128, None);
    assert_eq!(c.x, -128);
    assert_eq!(c.y, -128);
    assert!(!c.modified);
    assert_eq!(c.tiles[0], 0xa5);
    assert_eq!(c.tiles[127], 0xa3);
    assert_eq!(c.tiles[8000], 0xa4);
    assert_eq!(c.tiles[16383], 0xa5);
}

#[test]
fn save_format() {
    let mut c = Chunk::load(-128, 256, None);
    c.tiles[0] = 7;
    c.tiles[16383] = 9;
    let buf = c.save();
    assert_eq!(buf.len(), 16393);
    assert_eq!(buf[0], 0);
    assert_eq!(&buf[1..5], &[0xff, 0xff, 0xff, 0x80]);
    assert_eq!(&buf[5..9], &[0, 0, 1, 0]);
    assert_eq!(buf[9], 7);
    assert_eq!(buf[16392], 9);
}

#[test]
fn save_then_load_gives_the_tiles_back() {
    let mut c = Chunk::load(0, 0, None);
    for i in 0..16384 {
        c.tiles[i] = (i % 251) as u8;
    }
    let buf = c.save();
    let d = Chunk::load(0, 0, Some(&buf));
    assert_eq!(d.tiles[..], c.tiles[..]);
    assert!(!d.modified);
}

#[test]
fn load_of_short_save_fills_with_ones() {
    let data = vec![0u8, 0, 0, 0, 0, 0, 0, 0, 0, 42, 43];
    let c = Chunk::load(0, 0, Some(&data));
    assert_eq!(c.tiles[0], 42);
    assert_eq!(c.tiles[1], 43);
    assert_eq!(c.tiles[2], 1);
    assert_eq!(c.tiles[16383], 1);
}
