use std::cell::RefCell;

use awari::cache::{pack, unpack, BlockCache, BLOCK, RECENT, RECORD};
use awari::ra::{Driver, State, Status, Table};
use awari::storage::NaiveRAM;
use awari::utils::{enc_min, n_boards, nboards};

/// The bytes of a block in which every board is unstable with the lowest
/// bound and awaits nothing.
fn blank() -> Vec<u8> {
    let mut bytes = Vec::new();
    for _ in 0..BLOCK {
        bytes.push(128);
        bytes.push(1);
    }
    bytes
}

/// A table in "file" `disk` behind a cache.
struct Hybrid {
    cache: RefCell<BlockCache>,
    disk: RefCell<Vec<u8>>,
    loads: RefCell<usize>,
    writes: RefCell<usize>,
}

impl Hybrid {
    fn new(capacity: usize) -> Hybrid {
        let blocks = (nboards() + BLOCK - 1) / BLOCK;
        let mut disk = Vec::new();
        for _ in 0..blocks {
            disk.extend(blank());
        }
        Hybrid {
            cache: RefCell::new(BlockCache::new(capacity)),
            disk: RefCell::new(disk),
            loads: RefCell::new(0),
            writes: RefCell::new(0),
        }
    }

    /// The place of block `block`, which is loaded if it is missing.
    fn place(&self, block: usize) -> usize {
        let mut cache = self.cache.borrow_mut();
        if let Some(k) = cache.find(block) {
            return k;
        }
        let k = cache.victim();
        if let Some((b, bytes)) = cache.evict(k) {
            let at = b * BLOCK * RECORD;
            self.disk.borrow_mut()[at..at + BLOCK * RECORD].copy_from_slice(&bytes);
            *self.writes.borrow_mut() += 1;
        }
        let at = block * BLOCK * RECORD;
        let bytes = self.disk.borrow()[at..at + BLOCK * RECORD].to_vec();
        cache.load(k, block, &bytes);
        *self.loads.borrow_mut() += 1;
        k
    }
}

impl Table for Hybrid {
    fn get(&self, i: usize) -> State {
        let k = self.place(i / BLOCK);
        self.cache.borrow_mut().get(k, i % BLOCK)
    }

    fn insert(&mut self, i: usize, s: State) {
        let k = self.place(i / BLOCK);
        self.cache.borrow_mut().set(k, i % BLOCK, s);
    }

    fn pre_hook(&mut self, _: usize) {}

    fn post_hook(&mut self, _: usize) {}

    fn finish_hook(&mut self) {}
}

#[test]
fn cache_parameters() {
    assert_eq!(RECORD, 2);
    assert!(RECENT >= 1);
    assert!(BLOCK >= 1);
}

#[test]
fn pack_gives_two_bytes_per_state() {
    let data = vec![State::stable(0), State::stable(-1), State::new(5, 2), State::new(-32, 0)];
    assert_eq!(pack(&data), vec![0, 0, 255, 0, 5, 3, 224, 1]);
    assert_eq!(pack(&Vec::new()), Vec::<u8>::new());
}

#[test]
fn unpack_reads_two_bytes_per_state() {
    let states = unpack(&vec![0, 0, 255, 0, 5, 3, 224, 1]);
    assert_eq!(
        states,
        vec![State::stable(0), State::stable(-1), State::new(5, 2), State::new(-32, 0)]
    );
    assert!(unpack(&Vec::new()).is_empty());
}

#[test]
fn pack_then_unpack() {
    let mut data = Vec::new();
    for i in 0..BLOCK {
        if i % 3 == 0 {
            data.push(State::stable((i % 251) as i8));
        } else {
            data.push(State::new(-((i % 100) as i8), (i % 7) as u8));
        }
    }
    let bytes = pack(&data);
    assert_eq!(bytes.len(), BLOCK * RECORD);
    assert_eq!(unpack(&bytes), data);
    assert_eq!(pack(&unpack(&bytes)), bytes);
}

#[test]
fn new_cache_is_empty() {
    let cache = BlockCache::new(RECENT + 1);
    for b in 0..10 {
        assert_eq!(cache.find(b), None);
    }
    assert_eq!(cache.victim(), 0);
}

#[test]
fn loaded_block_is_found_and_read() {
    let mut cache = BlockCache::new(RECENT + 2);
    let mut bytes = blank();
    bytes[0] = 7;
    bytes[1] = 0;
    bytes[2 * 5] = 250;
    bytes[2 * 5 + 1] = 4;
    cache.load(3, 17, &bytes);
    assert_eq!(cache.find(17), Some(3));
    assert_eq!(cache.find(3), None);
    assert_eq!(cache.get(3, 0).status(), Status::Stable(7));
    assert_eq!(cache.get(3, 5).status(), Status::Unstable(-6, 3));
    assert_eq!(cache.get(3, 6).status(), Status::Unstable(i8::MIN, 0));
}

#[test]
fn unchanged_block_is_not_written_back() {
    let mut cache = BlockCache::new(RECENT + 2);
    cache.load(0, 9, &blank());
    cache.get(0, 1);
    assert_eq!(cache.flush(0), None);
    assert_eq!(cache.evict(0), None);
    assert_eq!(cache.find(9), None);
    // an empty place gives nothing back
    assert_eq!(cache.evict(1), None);
}

#[test]
fn changed_block_is_written_back() {
    let mut cache = BlockCache::new(RECENT + 2);
    cache.load(2, 9, &blank());
    cache.set(2, 4, State::stable(3));
    assert_eq!(cache.get(2, 4).status(), Status::Stable(3));
    let mut expected = blank();
    expected[8] = 3;
    expected[9] = 0;
    assert_eq!(cache.evict(2), Some((9, expected)));
    assert_eq!(cache.find(9), None);
    assert_eq!(cache.evict(2), None);
}

#[test]
fn flush_keeps_the_block() {
    let mut cache = BlockCache::new(RECENT + 2);
    cache.load(2, 9, &blank());
    cache.set(2, 0, State::new(1, 1));
    let mut expected = blank();
    expected[0] = 1;
    expected[1] = 2;
    assert_eq!(cache.flush(2), Some((9, expected)));
    // written once, the block counts as unchanged
    assert_eq!(cache.flush(2), None);
    assert_eq!(cache.find(9), Some(2));
    assert_eq!(cache.get(2, 0).status(), Status::Unstable(1, 1));
}

#[test]
fn victim_is_an_empty_place_first() {
    let mut cache = BlockCache::new(RECENT + 2);
    cache.load(0, 100, &blank());
    cache.load(1, 101, &blank());
    assert_eq!(cache.victim(), 2);
}

#[test]
fn victim_was_not_used_of_late() {
    let capacity = RECENT + 2;
    let mut cache = BlockCache::new(capacity);
    for k in 0..capacity {
        cache.load(k, 100 + k, &blank());
    }
    // use all places but the first two, the latest RECENT of them count
    for k in 2..capacity {
        cache.get(k, 0);
    }
    assert_eq!(cache.victim(), 0);
    cache.get(0, 0);
    assert_eq!(cache.victim(), 1);
    cache.get(1, 0);
    // places 0 and 1 and the two used before them are the latest now
    let v = cache.victim();
    assert_eq!(v, 2);
}

#[test]
fn the_analysis_runs_behind_the_cache() {
    let mut plain = Driver { table: NaiveRAM::new() };
    let mut cached = Driver { table: Hybrid::new(RECENT + 4) };
    plain.begin();
    cached.begin();
    for n in 1..=8usize {
        plain.iteration(n);
        cached.iteration(n);
    }
    for n in 0..=8usize {
        for c in enc_min(n)..enc_min(n) + n_boards(n) {
            assert_eq!(cached.table.get(c), plain.table.get(c));
        }
    }
    // the boards of these classes take more blocks than the cache has
    // places: blocks were written back and read again
    assert!(enc_min(9) > (RECENT + 4) * BLOCK);
    assert!(*cached.table.writes.borrow() > 0);
    assert!(*cached.table.loads.borrow() > RECENT + 4);
}
