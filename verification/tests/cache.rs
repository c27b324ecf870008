use demandmap::key::{BlockKey, Md5Digest};
use demandmap::layout::{RegionLayout, PAGE};
use demandmap::region::Cache;
use demandmap::reopen::OpenError;
use demandmap::slots::{Acquired, Block, Wait};

fn memory(capacity: u32, block_size: usize) -> Vec<u8> {
    assert!(RegionLayout::fits(capacity, block_size));
    vec![0u8; RegionLayout::new(capacity, block_size).size]
}

fn key(digest: u128, block: u64) -> BlockKey {
    BlockKey { digest: Md5Digest(digest), block }
}

fn starts(cache: &Cache, block: &Block, with: &[u8]) -> bool {
    &block.deref(cache)[..with.len()] == with
}

fn load(cache: &mut Cache, k: BlockKey, data: &[u8]) {
    let b = cache.get_or_fetch(k, |buf: &mut [u8]| buf[..data.len()].copy_from_slice(data));
    cache.release(b);
}

#[test]
fn cache() {
    let mut mem = memory(2, PAGE);
    let mut cache = Cache::new(2, PAGE, &mut mem);
    let d = Md5Digest(1);
    let k = |block| BlockKey { digest: d, block };

    assert!(cache.get(k(0)).is_none());

    {
        let b = cache.get_or_fetch(k(0), |buf: &mut [u8]| buf[..5].copy_from_slice(b"aaaaa"));
        assert_eq!(&b.deref(&cache)[..5], b"aaaaa");
        cache.release(b);
    }
    {
        let b = cache.get_or_fetch(k(1), |buf: &mut [u8]| buf[..5].copy_from_slice(b"bbbbb"));
        assert_eq!(&b.deref(&cache)[..5], b"bbbbb");
        cache.release(b);
    }

    {
        let b = cache.get_or_fetch(k(0), |_: &mut [u8]| panic!("should already be cached"));
        assert_eq!(&b.deref(&cache)[..5], b"aaaaa");
        cache.release(b);
    }

    {
        let b = cache.get_or_fetch(k(2), |buf: &mut [u8]| buf[..5].copy_from_slice(b"ccccc"));
        assert_eq!(&b.deref(&cache)[..5], b"ccccc");
        cache.release(b);
    }

    assert!(cache.get(k(1)).is_none());
    let b = cache.get(k(0)).unwrap();
    assert_eq!(&b.deref(&cache)[..5], b"aaaaa");
    cache.release(b);
    let b = cache.get(k(2)).unwrap();
    assert_eq!(&b.deref(&cache)[..5], b"ccccc");
    cache.release(b);
}

#[test]
fn parallel_dedup() {
    let mut mem = memory(4, PAGE);
    let mut cache = Cache::new(4, PAGE, &mut mem);
    let k = key(7, 0);
    let mut fetches: u32 = 0;
    let mut done: u32 = 0;
    let mut pending: Option<Block> = None;

    // eight clients take turns; whoever is told to fetch needs three turns for it
    let mut turn: u32 = 0;
    while done < 8 {
        match cache.acquire(k) {
            Acquired::Fetch(b) => {
                assert!(pending.is_none());
                fetches += 1;
                pending = Some(b);
            }
            Acquired::Wait(w) => {
                assert_eq!(w, Wait::Loading(pending.as_ref().unwrap().slot));
                turn += 1;
                if turn == 3 {
                    let b = pending.take().unwrap();
                    cache.publish(&b, b"xyz");
                    assert!(starts(&cache, &b, b"xyz"));
                    cache.release(b);
                    done += 1;
                }
            }
            Acquired::Hit(b) => {
                assert!(starts(&cache, &b, b"xyz"));
                cache.release(b);
                done += 1;
            }
        }
    }

    // all eight clients asked for the same block; it must only be fetched once
    assert_eq!(fetches, 1);
}

#[test]
fn blocks_are_zeroed_before_a_fetch() {
    let mut mem = memory(1, PAGE);
    for byte in mem.iter_mut() {
        *byte = 0xee;
    }
    let mut cache = Cache::new(1, PAGE, &mut mem);
    let b = cache.get_or_fetch(key(1, 0), |buf: &mut [u8]| {
        assert!(buf.iter().all(|x| *x == 0));
        assert_eq!(buf.len(), PAGE);
        buf[PAGE - 1] = 9;
    });
    let bytes = b.deref(&cache);
    assert_eq!(bytes.len(), PAGE);
    assert!(bytes[..PAGE - 1].iter().all(|x| *x == 0));
    assert_eq!(bytes[PAGE - 1], 9);
}

#[test]
fn a_new_cache_leaves_the_blocks_alone() {
    let mut mem = memory(2, PAGE);
    let layout = RegionLayout::new(2, PAGE);
    for byte in mem.iter_mut() {
        *byte = 0x5a;
    }
    let cache = Cache::new(2, PAGE, &mut mem);
    assert!(cache.block(0).iter().all(|x| *x == 0x5a));
    assert!(cache.block(1).iter().all(|x| *x == 0x5a));
    assert_eq!(cache.block_off(1), layout.blocks_off + PAGE);
    assert_eq!(cache.on_disk_size(), layout.size);
    assert_eq!(cache.block_size(), PAGE);
    assert_eq!(cache.capacity(), 2);
}

#[test]
fn publishing_pads_with_zeros() {
    let mut mem = memory(1, PAGE);
    let mut cache = Cache::new(1, PAGE, &mut mem);
    load(&mut cache, key(1, 0), &[7u8; 100]);
    let b = match cache.acquire(key(2, 0)) {
        Acquired::Fetch(b) => b,
        _ => panic!("nothing is cached under this key"),
    };
    cache.publish(&b, &[1u8, 2, 3]);
    assert_eq!(&b.deref(&cache)[..4], &[1u8, 2, 3, 0]);
    assert!(b.deref(&cache)[3..].iter().all(|x| *x == 0));
}

#[test]
fn pinned_blocks_are_not_evicted() {
    let mut mem = memory(2, PAGE);
    let mut cache = Cache::new(2, PAGE, &mut mem);
    let a = cache.get_or_fetch(key(1, 0), |buf: &mut [u8]| buf[0] = 1);
    load(&mut cache, key(1, 1), &[2]);
    // slot of block 0 is older but held: block 1 goes
    load(&mut cache, key(1, 2), &[3]);
    assert!(cache.get(key(1, 1)).is_none());
    assert_eq!(a.deref(&cache)[0], 1);
    let c = cache.get(key(1, 2)).unwrap();
    // everything is held now
    assert_eq!(cache.try_get_or_fetch(key(1, 3), |_: &mut [u8]| ()).unwrap_err(), Wait::Full);
    cache.release(a);
    load(&mut cache, key(1, 3), &[4]);
    assert!(cache.get(key(1, 0)).is_none());
    assert_eq!(c.deref(&cache)[0], 3);
}

#[test]
fn a_block_being_fetched_is_neither_read_nor_evicted() {
    let mut mem = memory(1, PAGE);
    let mut cache = Cache::new(1, PAGE, &mut mem);
    let b = match cache.acquire(key(1, 0)) {
        Acquired::Fetch(b) => b,
        _ => panic!("nothing is cached yet"),
    };
    assert!(cache.get(key(1, 0)).is_none());
    assert_eq!(
        cache.try_get_or_fetch(key(1, 0), |_: &mut [u8]| ()).unwrap_err(),
        Wait::Loading(0)
    );
    assert_eq!(cache.try_get_or_fetch(key(1, 1), |_: &mut [u8]| ()).unwrap_err(), Wait::Full);
    cache.publish(&b, b"now");
    cache.release(b);
    let b = cache.get(key(1, 0)).unwrap();
    assert!(starts(&cache, &b, b"now"));
}

#[test]
fn the_least_recently_used_block_goes_first() {
    let mut mem = memory(3, PAGE);
    let mut cache = Cache::new(3, PAGE, &mut mem);
    for n in 0..3u64 {
        load(&mut cache, key(9, n), &[n as u8]);
    }
    let b = cache.get(key(9, 0)).unwrap();
    cache.release(b);
    load(&mut cache, key(9, 3), &[3]);
    assert!(cache.get(key(9, 1)).is_none());
    load(&mut cache, key(9, 4), &[4]);
    assert!(cache.get(key(9, 2)).is_none());
    for n in [0u64, 3, 4] {
        let b = cache.get(key(9, n)).unwrap();
        assert_eq!(b.deref(&cache)[0], n as u8);
        cache.release(b);
    }
}

#[test]
fn keys_of_one_bucket_are_told_apart() {
    // with one bucket, or with equal hashes, only the keys decide
    let mut mem = memory(4, PAGE);
    let mut cache = Cache::new(4, PAGE, &mut mem);
    let ks = [key(0, 0), key(1u128 << 64 | 1, 0), key(5, 5), key(5u128 << 64, 5)];
    for (n, k) in ks.iter().enumerate() {
        assert_eq!(k.hash(), 0);
        load(&mut cache, *k, &[n as u8 + 10]);
    }
    for (n, k) in ks.iter().enumerate() {
        let b = cache.get(*k).unwrap();
        assert_eq!(b.deref(&cache)[0], n as u8 + 10);
        cache.release(b);
    }
    // the first one is the oldest; it leaves the middle of its bucket
    load(&mut cache, key(77, 77), &[99]);
    assert!(cache.get(ks[0]).is_none());
    for k in &ks[1..] {
        let b = cache.get(*k).unwrap();
        cache.release(b);
    }
}

#[test]
fn many_blocks_through_few_slots() {
    let mut mem = memory(5, PAGE);
    let mut cache = Cache::new(5, PAGE, &mut mem);
    let mut recent: Vec<u64> = Vec::new();
    let mut x: u64 = 12345;
    for _ in 0..400 {
        x = x.wrapping_mul(6364136223846793005).wrapping_add(1442695040888963407);
        let n = (x >> 33) % 12;
        let mut fetched = false;
        let b = cache.get_or_fetch(key(3, n), |buf: &mut [u8]| {
            fetched = true;
            buf[0] = n as u8;
        });
        assert_eq!(b.deref(&cache)[0], n as u8);
        cache.release(b);
        assert_eq!(fetched, !recent.contains(&n));
        recent.retain(|y| *y != n);
        recent.insert(0, n);
        recent.truncate(5);
    }
}

#[test]
fn releasing_undoes_pinning() {
    let mut mem = memory(1, PAGE);
    let mut cache = Cache::new(1, PAGE, &mut mem);
    load(&mut cache, key(1, 0), &[1]);
    let a = cache.get(key(1, 0)).unwrap();
    let b = cache.get(key(1, 0)).unwrap();
    cache.release(a);
    assert_eq!(cache.try_get_or_fetch(key(1, 1), |_: &mut [u8]| ()).unwrap_err(), Wait::Full);
    cache.release(b);
    load(&mut cache, key(1, 1), &[2]);
    assert!(cache.get(key(1, 0)).is_none());
}

#[test]
fn a_region_is_taken_up_again() {
    let mut mem = memory(3, PAGE);
    {
        let mut cache = Cache::new(3, PAGE, &mut mem);
        load(&mut cache, key(1, 0), b"zero");
        load(&mut cache, key(1, 1), b"one");
        load(&mut cache, key(1, 0), b"not fetched");
    }
    {
        let mut cache = Cache::from_raw(&mut mem, 3, PAGE).ok().unwrap();
        assert!(cache.is_sound());
        let b = cache.get_or_fetch(key(1, 0), |_: &mut [u8]| panic!("cached in an earlier session"));
        assert!(starts(&cache, &b, b"zero"));
        cache.release(b);
        load(&mut cache, key(1, 2), b"two");
        load(&mut cache, key(1, 3), b"three");
        assert!(cache.get(key(1, 1)).is_none());
    }
    let mut cache = Cache::from_raw(&mut mem, 3, PAGE).ok().unwrap();
    assert!(cache.is_sound());
    let b = cache.get(key(1, 3)).unwrap();
    assert!(starts(&cache, &b, b"three"));
}

#[test]
fn a_region_of_another_shape_is_refused() {
    let mut mem = memory(3, 2 * PAGE);
    {
        Cache::new(3, PAGE, &mut mem);
    }
    assert_eq!(Cache::from_raw(&mut mem, 2, PAGE).err(), Some(OpenError::Capacity));
    assert_eq!(Cache::from_raw(&mut mem, 3, 2 * PAGE).err(), Some(OpenError::BlockSize));
    assert!(Cache::from_raw(&mut mem, 3, PAGE).is_ok());
}

#[test]
fn a_damaged_region_is_opened_and_told_apart() {
    let mut mem = memory(3, PAGE);
    {
        let mut cache = Cache::new(3, PAGE, &mut mem);
        load(&mut cache, key(1, 0), b"zero");
        load(&mut cache, key(1, 1), b"one");
    }
    let layout = RegionLayout::new(3, PAGE);
    // head, tail, free, len, an offset
    for off in [16usize, 20, 24, 28, 32] {
        let kept = mem[off];
        mem[off] = kept ^ 1;
        assert!(!Cache::from_raw(&mut mem, 3, PAGE).ok().unwrap().is_sound());
        mem[off] = kept;
    }
    // digest, prev, next and chain of slot 1
    for off in [0usize, 32, 36, 40] {
        let at = layout.nodes_off + 48 + off;
        let kept = mem[at];
        mem[at] = kept ^ 1;
        assert!(!Cache::from_raw(&mut mem, 3, PAGE).ok().unwrap().is_sound());
        mem[at] = kept;
    }
    // a bucket
    let kept = mem[layout.buckets_off];
    mem[layout.buckets_off] = kept ^ 2;
    assert!(!Cache::from_raw(&mut mem, 3, PAGE).ok().unwrap().is_sound());
    mem[layout.buckets_off] = kept;
    assert!(Cache::from_raw(&mut mem, 3, PAGE).ok().unwrap().is_sound());
}

#[test]
fn records_are_where_the_layout_puts_them() {
    let mut mem = memory(2, PAGE);
    {
        let mut cache = Cache::new(2, PAGE, &mut mem);
        load(&mut cache, key(0x0102, 0x0304), b"data");
    }
    let layout = RegionLayout::new(2, PAGE);
    assert_eq!(&mem[0..4], &[0u8, 0, 0, 0]);
    assert_eq!(&mem[4..8], &2u32.to_le_bytes());
    assert_eq!(&mem[8..16], &(PAGE as u64).to_le_bytes());
    assert_eq!(&mem[16..20], &0u32.to_le_bytes());
    assert_eq!(&mem[20..24], &0u32.to_le_bytes());
    assert_eq!(&mem[24..28], &1u32.to_le_bytes());
    assert_eq!(&mem[28..32], &1u32.to_le_bytes());
    assert_eq!(&mem[32..40], &(layout.nodes_off as u64).to_le_bytes());
    assert_eq!(&mem[64..72], &(layout.blocks_off as u64).to_le_bytes());
    let node = &mem[layout.nodes_off..layout.nodes_off + 48];
    assert_eq!(&node[0..16], &0x0102u128.to_le_bytes());
    assert_eq!(&node[16..24], &0x0304u64.to_le_bytes());
    assert_eq!(&node[32..44], &[0xffu8; 12]);
    assert_eq!(mem[layout.states_off], 2);
    assert_eq!(mem[layout.states_off + 1], 0);
    assert_eq!(&mem[layout.pins_off..layout.pins_off + 2], &[0u8, 0]);
    assert_eq!(&mem[layout.blocks_off..layout.blocks_off + 4], b"data");
}

#[test]
fn free_slots_are_taken_before_anything_is_evicted() {
    let mut mem = memory(3, PAGE);
    let mut cache = Cache::new(3, PAGE, &mut mem);
    for n in 0..3u64 {
        load(&mut cache, key(4, n), &[n as u8 + 1]);
        for held in 0..=n {
            let b = cache.get(key(4, held)).unwrap();
            assert_eq!(b.slot, held as u32);
            assert_eq!(b.deref(&cache)[0], held as u8 + 1);
            cache.release(b);
        }
    }
}

#[test]
fn a_hit_fetches_nothing() {
    let mut mem = memory(2, PAGE);
    let mut cache = Cache::new(2, PAGE, &mut mem);
    let calls = std::cell::Cell::new(0);
    for _ in 0..4 {
        let b = cache.get_or_fetch(key(3, 1), |_: &mut [u8]| calls.set(calls.get() + 1));
        cache.release(b);
    }
    assert_eq!(calls.get(), 1);
}

#[test]
fn the_most_recently_requested_keys_are_held() {
    let mut mem = memory(3, PAGE);
    let mut cache = Cache::new(3, PAGE, &mut mem);
    let mut recent: Vec<u64> = vec![];
    for n in [0u64, 1, 2, 0, 3, 1, 1, 4, 3, 0, 2, 2, 4, 5, 0] {
        let fetched = std::cell::Cell::new(false);
        let b = cache.get_or_fetch(key(8, n), |_: &mut [u8]| fetched.set(true));
        cache.release(b);
        assert_eq!(fetched.get(), !recent.contains(&n));
        recent.retain(|x| *x != n);
        recent.insert(0, n);
        recent.truncate(3);
    }
    assert_eq!(recent, vec![0, 5, 4]);
    for n in 0..6 {
        assert_eq!(cache.get(key(8, n)).is_some(), recent.contains(&n));
    }
}

#[test]
fn one_block_is_served_while_another_is_fetched() {
    let mut mem = memory(2, PAGE);
    let mut cache = Cache::new(2, PAGE, &mut mem);
    let first = match cache.acquire(key(1, 0)) {
        Acquired::Fetch(b) => b,
        _ => panic!("nothing is cached yet"),
    };
    load(&mut cache, key(1, 1), b"second");
    cache.publish(&first, b"first");
    cache.release(first);
    let b = cache.get(key(1, 0)).unwrap();
    assert!(starts(&cache, &b, b"first"));
    let b = cache.get(key(1, 1)).unwrap();
    assert!(starts(&cache, &b, b"second"));
}

#[test]
fn eviction_keeps_the_order_of_a_bucket() {
    let mut mem = memory(3, PAGE);
    {
        let mut cache = Cache::new(3, PAGE, &mut mem);
        // all of bucket 0; the bucket lists slots 2, 1, 0
        for n in [0u64, 3, 6] {
            load(&mut cache, key(0, n), b"x");
        }
        let b = cache.get(key(0, 0)).unwrap();
        cache.release(b);
        // slot 1 makes room for a block of bucket 1
        load(&mut cache, key(0, 1), b"y");
    }
    let layout = RegionLayout::new(3, PAGE);
    let word = |at: usize| u32::from_le_bytes(mem[at..at + 4].try_into().unwrap());
    let chain = |slot: usize| word(layout.nodes_off + 48 * slot + 40);
    assert_eq!(word(layout.buckets_off), 2);
    assert_eq!(chain(2), 0);
    assert_eq!(chain(0), u32::MAX);
    assert_eq!(word(layout.buckets_off + 4), 1);
    assert_eq!(chain(1), u32::MAX);
}

#[test]
fn a_new_region_is_blank() {
    let mut mem = vec![0x5au8; RegionLayout::new(2, PAGE).size];
    {
        assert!(Cache::new(2, PAGE, &mut mem).is_sound());
    }
    let layout = RegionLayout::new(2, PAGE);
    let word = |at: usize| u32::from_le_bytes(mem[at..at + 4].try_into().unwrap());
    assert_eq!([word(16), word(20), word(24), word(28)], [u32::MAX, u32::MAX, 0, 0]);
    for slot in 0..2usize {
        let node = layout.nodes_off + 48 * slot;
        assert_eq!(&mem[node..node + 24], &[0u8; 24]);
        assert_eq!(word(node + 32), u32::MAX);
        assert_eq!(word(node + 36), if slot == 0 { 1 } else { u32::MAX });
        assert_eq!(word(node + 40), u32::MAX);
        assert_eq!(word(layout.buckets_off + 4 * slot), u32::MAX);
        assert_eq!(mem[layout.states_off + slot], 0);
    }
    assert_eq!(&mem[layout.pins_off..layout.pins_off + 4], &[0u8; 4]);
    assert_eq!(mem[layout.blocks_off], 0x5a);
}

#[test]
fn a_refused_region_is_left_as_it_was() {
    let mut mem = memory(3, 2 * PAGE);
    {
        let mut cache = Cache::new(3, PAGE, &mut mem);
        load(&mut cache, key(1, 0), b"zero");
    }
    let before = mem.clone();
    assert!(Cache::from_raw(&mut mem, 2, PAGE).is_err());
    assert!(Cache::from_raw(&mut mem, 3, 2 * PAGE).is_err());
    assert!(Cache::from_raw(&mut mem, 3, PAGE).is_ok());
    assert!(mem == before);
}

#[test]
fn bytes_between_and_behind_the_records() {
    let layout = RegionLayout::new(3, PAGE);
    let mut mem = vec![0x5au8; layout.size + 10];
    {
        Cache::new(3, PAGE, &mut mem);
    }
    // behind the header, inside a node, before the pins, before the blocks
    let gaps = [
        72,
        PAGE - 1,
        layout.nodes_off + 48 + 24,
        layout.nodes_off + 48 + 47,
        layout.pins_off - 1,
        layout.blocks_off - 1,
    ];
    for (k, at) in gaps.iter().enumerate() {
        assert_eq!(mem[*at], 0);
        mem[*at] = k as u8 + 1;
    }
    {
        let mut cache = Cache::from_raw(&mut mem, 3, PAGE).ok().unwrap();
        assert!(cache.is_sound());
        for n in 0..5u64 {
            load(&mut cache, key(1, n), &[n as u8; PAGE]);
        }
    }
    for (k, at) in gaps.iter().enumerate() {
        assert_eq!(mem[*at], k as u8 + 1);
    }
    assert_eq!(&mem[layout.size..], &[0x5au8; 10]);
}

#[test]
fn waiting_ends() {
    let mut mem = memory(1, PAGE);
    let mut cache = Cache::new(1, PAGE, &mut mem);
    let b = match cache.acquire(key(1, 0)) {
        Acquired::Fetch(b) => b,
        _ => panic!("nothing is cached yet"),
    };
    assert!(matches!(cache.acquire(key(1, 0)), Acquired::Wait(Wait::Loading(0))));
    cache.publish(&b, b"brought");
    let again = cache.get_or_fetch(key(1, 0), |_: &mut [u8]| panic!("fetched by the other one"));
    assert!(starts(&cache, &again, b"brought"));
    cache.release(again);
    assert!(matches!(cache.acquire(key(1, 1)), Acquired::Wait(Wait::Full)));
    cache.release(b);
    load(&mut cache, key(1, 1), b"next");
}
