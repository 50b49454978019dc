use std::cell::RefCell;

use block_approx::block::{map_bytes_to_block, Block, BLOCK_CELLS, BLOCK_SIZE, DISTORTION};
use block_approx::metric::squared_error;
use block_approx::search::{BlockApproximator, Sha512CpuApproximator};
use block_approx::tiling::{approximate_image, extract_block, write_block, Image};
use sha2::Digest;

fn solid_image(width: usize, height: usize, value: u8) -> Image {
    Image::new(width, height, vec![value; width * height]).expect("buffer matches dimensions")
}

/// An approximator for exercising the driver alone: it records the first
/// cell of every source block it is handed, declares that cell as its error,
/// and returns recognisable constant blocks derived from it.
struct RecordingApproximator {
    seen: RefCell<Vec<u8>>,
}

impl BlockApproximator for RecordingApproximator {
    fn approximate(&self, input: &Block, _target: &Block) -> (u64, Block, Block) {
        let id = input.get(0, 0);
        self.seen.borrow_mut().push(id);
        let rec = map_bytes_to_block(vec![20 + id; BLOCK_CELLS]).unwrap();
        let dig = map_bytes_to_block(vec![10 + id; BLOCK_CELLS]).unwrap();
        (id as u64, rec, dig)
    }
}

#[test]
fn image_new_validates_buffer_length() {
    assert!(Image::new(4, 4, vec![0u8; 16]).is_some());
    assert!(Image::new(4, 4, vec![0u8; 15]).is_none());
    assert!(Image::new(4, 4, vec![0u8; 17]).is_none());
    assert!(Image::new(0, 7, vec![]).is_some());
}

#[test]
fn extract_write_roundtrip() {
    let mut img = solid_image(24, 16, 77);
    let b = map_bytes_to_block((100..164).collect()).unwrap();
    write_block(&mut img, 2, 1, &b);
    let back = extract_block(&img, 2, 1);
    for r in 0..BLOCK_SIZE {
        for c in 0..BLOCK_SIZE {
            assert_eq!(back.get(r, c), b.get(r, c));
            assert_eq!(img.get_pixel(16 + c, 8 + r), b.get(r, c));
        }
    }
    // every pixel outside the written tile keeps its value
    for y in 0..16 {
        for x in 0..24 {
            if !(16 <= x && x < 24 && 8 <= y && y < 16) {
                assert_eq!(img.get_pixel(x, y), 77);
            }
        }
    }
}

/// A 16 x 16 image with 8 x 8 blocks means exactly four approximator
/// invocations, one per tile offset, and the outputs are fully covered with
/// no overlap.
#[test]
fn driver_visits_each_tile_once_16x16() {
    // pixel value identifies the tile: 2 * (x / 8) + y / 8, giving 0..=3
    let mut data = vec![0u8; 16 * 16];
    for y in 0..16 {
        for x in 0..16 {
            data[y * 16 + x] = (2 * (x / 8) + y / 8) as u8;
        }
    }
    let source = Image::new(16, 16, data).unwrap();
    let target = solid_image(16, 16, 0);
    let approx = RecordingApproximator { seen: RefCell::new(Vec::new()) };

    let (total, out_src, out_tgt) = approximate_image(&source, &target, &approx);

    // exactly four invocations, one per tile, in column-major driver order
    assert_eq!(*approx.seen.borrow(), vec![0u8, 1, 2, 3]);
    // total error accumulates every block's error
    assert_eq!(total, 0 + 1 + 2 + 3);
    // both outputs fully covered: every pixel comes from its tile's result
    for y in 0..16 {
        for x in 0..16 {
            let id = (2 * (x / 8) + y / 8) as u8;
            assert_eq!(out_src.get_pixel(x, y), 20 + id);
            assert_eq!(out_tgt.get_pixel(x, y), 10 + id);
        }
    }
}

/// Trailing rows and columns outside whole blocks are not processed: both
/// outputs keep the source's pixels there.
#[test]
fn driver_leaves_uncovered_margin_from_source() {
    let source = solid_image(20, 17, 123);
    let target = solid_image(20, 17, 4);
    let approx = RecordingApproximator { seen: RefCell::new(Vec::new()) };

    let (total, out_src, out_tgt) = approximate_image(&source, &target, &approx);

    assert_eq!(approx.seen.borrow().len(), 4);
    assert_eq!(total, 123 * 4);
    for y in 0..17 {
        for x in 0..20 {
            if x < 16 && y < 16 {
                assert_eq!(out_src.get_pixel(x, y), 20 + 123);
                assert_eq!(out_tgt.get_pixel(x, y), 10 + 123);
            } else {
                assert_eq!(out_src.get_pixel(x, y), 123);
                assert_eq!(out_tgt.get_pixel(x, y), 123);
            }
        }
    }
}

/// End to end with the sequential searcher, one trial per block: the total
/// error equals the metric between each tile's digest block and the all-zero
/// target, and each digest block is the SHA-512 of its reconstructed source
/// block, recomputable byte for byte.
#[test]
fn driver_cpu_end_to_end_16x16() {
    let source = solid_image(16, 16, 100);
    let target = solid_image(16, 16, 0);
    let approx = Sha512CpuApproximator::new(1);

    let (total, out_src, out_tgt) = approximate_image(&source, &target, &approx);

    let zero = map_bytes_to_block(vec![0u8; 64]).unwrap();
    let mut expected_total: u64 = 0;
    for bi in 0..2 {
        for bj in 0..2 {
            let rec = extract_block(&out_src, bi, bj);
            let dig = extract_block(&out_tgt, bi, bj);
            let mut rec_bytes = Vec::new();
            for t in 0..BLOCK_CELLS {
                let v = rec.get(t / BLOCK_SIZE, t % BLOCK_SIZE);
                assert!(v >= 100 && v < 100 + DISTORTION);
                rec_bytes.push(v);
            }
            let recomputed = sha2::Sha512::digest(&rec_bytes[..]);
            for t in 0..BLOCK_CELLS {
                assert_eq!(dig.get(t / BLOCK_SIZE, t % BLOCK_SIZE), recomputed[t]);
            }
            expected_total += squared_error(&zero, &dig);
        }
    }
    assert_eq!(total, expected_total);
}
