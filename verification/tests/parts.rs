use demandmap::allocator::{AllocError, FixedSizeByteAlloc};
use demandmap::disk::{DiskAlloc, FaultStep};
use demandmap::fault::{plan, FaultPlan};
use demandmap::key::{BlockKey, Md5Digest};
use demandmap::layout::{RegionLayout, NIL, PAGE};
use demandmap::reopen::OpenError;
use demandmap::requests::{get_containing, Bound, PtrRange, Requests};
use demandmap::s3::{describe, object_digest, range_header, BodyFill};
use demandmap::slots::Wait;
use demandmap::{AlignDown, ONE_MB, PAGE_SIZE};

#[test]
fn hash_mixes_all_parts() {
    let k = BlockKey { digest: Md5Digest(0x0123456789abcdef_fedcba9876543210), block: 0xf0 };
    assert_eq!(k.hash(), 0x0123456789abcdef ^ 0xfedcba9876543210 ^ 0xf0);
}

#[test]
fn layout_of_small_regions() {
    let l = RegionLayout::new(2, PAGE);
    assert_eq!(l.nodes_off, 16384);
    assert_eq!(l.buckets_off, 16480);
    assert_eq!(l.states_off, 16488);
    assert_eq!(l.pins_off, 16490);
    assert_eq!(l.blocks_off, 32768);
    assert_eq!(l.size, 65536);
    assert_eq!(l.align, 16384);
    let l = RegionLayout::new(3, PAGE);
    assert_eq!(l.states_off, 16540);
    assert_eq!(l.pins_off, 16544);
    let l = RegionLayout::new(512, ONE_MB);
    assert_eq!(l.buckets_off, 16384 + 512 * 48);
    assert_eq!(l.blocks_off, 49152);
    assert_eq!(l.size, 49152 + 512 * ONE_MB);
}

#[test]
fn layouts_that_do_not_exist() {
    assert!(RegionLayout::fits(1, PAGE));
    assert!(!RegionLayout::fits(0, PAGE));
    assert!(!RegionLayout::fits(NIL, PAGE));
    assert!(RegionLayout::fits(NIL - 1, PAGE));
    assert!(!RegionLayout::fits(1, 0));
    assert!(!RegionLayout::fits(1, PAGE + 1));
    assert!(!RegionLayout::fits(NIL - 1, 1 << 40));
    assert!(!RegionLayout::fits(2, 1 << 62));
}

#[test]
fn addresses_are_rounded_down() {
    assert_eq!(0x12345usize.align_down(0x1000), 0x12000);
    assert_eq!(0x12000usize.align_down(0x1000), 0x12000);
    assert_eq!(16383usize.align_down(PAGE_SIZE), 0);
    assert_eq!(16385usize.align_down(PAGE_SIZE), 16384);
    assert_eq!(usize::MAX.align_down(2), usize::MAX - 1);
    assert_eq!(77usize.align_down(1), 77);
}

#[test]
fn one_region_is_given_once() {
    let mut mem = vec![1u8, 2, 3];
    let mut alloc = FixedSizeByteAlloc::new(&mut mem);
    assert_eq!(alloc.allocate(PAGE, PAGE).unwrap(), &[1u8, 2, 3]);
    assert_eq!(alloc.allocate(PAGE, PAGE).unwrap_err(), AllocError);
    alloc.deallocate();
    assert_eq!(alloc.allocate(PAGE, PAGE).unwrap_err(), AllocError);
}

#[test]
fn ranges_are_half_open() {
    let r = PtrRange(10, 20);
    assert_eq!(r.start_bound(), Bound::Included(10));
    assert_eq!(r.end_bound(), Bound::Excluded(20));
    assert!(r.contains(10) && r.contains(19));
    assert!(!r.contains(9) && !r.contains(20));
}

#[test]
fn addresses_are_found_in_their_range() {
    let mut map: Requests<&str> = Requests::new();
    assert_eq!(get_containing(&map, 0), None);
    map.insert(PtrRange(100, 200), "b");
    map.insert(PtrRange(0, 50), "a");
    map.insert(PtrRange(200, 300), "c");
    assert_eq!(get_containing(&map, 0), Some((PtrRange(0, 50), "a")));
    assert_eq!(get_containing(&map, 49), Some((PtrRange(0, 50), "a")));
    assert_eq!(get_containing(&map, 50), None);
    assert_eq!(get_containing(&map, 99), None);
    assert_eq!(get_containing(&map, 100), Some((PtrRange(100, 200), "b")));
    assert_eq!(get_containing(&map, 199), Some((PtrRange(100, 200), "b")));
    assert_eq!(get_containing(&map, 200), Some((PtrRange(200, 300), "c")));
    assert_eq!(get_containing(&map, 300), None);
    assert_eq!(get_containing(&map, usize::MAX), None);
    map.insert(PtrRange(100, 200), "new");
    assert_eq!(get_containing(&map, 150), Some((PtrRange(100, 200), "new")));
}

#[test]
fn only_the_last_range_to_start_is_looked_at() {
    let mut map: Requests<u8> = Requests::new();
    map.insert(PtrRange(0, 100), 1);
    map.insert(PtrRange(10, 20), 2);
    map.insert(PtrRange(10, 15), 3);
    assert_eq!(get_containing(&map, 12), Some((PtrRange(10, 20), 2)));
    assert_eq!(get_containing(&map, 50), None);
    assert_eq!(get_containing(&map, 5), Some((PtrRange(0, 100), 1)));
}

#[test]
fn a_fault_in_the_middle() {
    let range = PtrRange(0x10000000, 0x10000000 + 5 * ONE_MB);
    let p = plan(range, 0x10000000 + 2 * ONE_MB + 3 * PAGE_SIZE, ONE_MB);
    assert_eq!(
        p,
        FaultPlan {
            block_number: 2,
            start: 2 * ONE_MB,
            end: 3 * ONE_MB,
            dst: 0x10000000 + 2 * ONE_MB,
            remap: ONE_MB,
        }
    );
    assert_eq!(p.wanted(), (2 * ONE_MB, 3 * ONE_MB - 1));
    assert_eq!(p.wanted_len(), ONE_MB);
}

#[test]
fn a_fault_in_the_last_block() {
    let total = ONE_MB + PAGE_SIZE + 1;
    let range = PtrRange(ONE_MB, ONE_MB + total);
    let p = plan(range, 2 * ONE_MB + PAGE_SIZE, ONE_MB);
    assert_eq!(
        p,
        FaultPlan {
            block_number: 1,
            start: ONE_MB,
            end: total,
            dst: 2 * ONE_MB,
            remap: 2 * PAGE_SIZE,
        }
    );
    assert_eq!(p.wanted(), (ONE_MB, total - 1));
    assert_eq!(p.wanted_len(), PAGE_SIZE + 1);
}

type Cb = fn(&Vec<u8>, std::ops::Range<usize>, &mut [u8]);

fn copy(object: &Vec<u8>, wanted: std::ops::Range<usize>, buf: &mut [u8]) {
    buf.copy_from_slice(&object[wanted.start..=wanted.end]);
}

#[test]
fn faults_bring_the_bytes_of_the_object() {
    let object: Vec<u8> = (0..3 * PAGE + 100).map(|i| (i % 251) as u8).collect();
    let mut mem = vec![0u8; RegionLayout::new(2, PAGE).size];
    let mut disk: DiskAlloc<Vec<u8>, Cb> = DiskAlloc::new(&mut mem, true, 2, PAGE).ok().unwrap();
    let base = 64 * PAGE;
    let range = disk.callback_buffer(base, object.len(), object.clone(), Md5Digest(5), copy);
    assert_eq!(range, PtrRange(base, base + object.len()));
    let mut fetched = 0;
    for addr in [base, base + 1, base + PAGE, base + 3 * PAGE + 99, base + 3 * PAGE, base] {
        let (block, plan) = match disk.fault(addr) {
            FaultStep::Fetch(block, plan, req) => {
                fetched += 1;
                let mut buf = vec![0u8; plan.wanted_len()];
                let (first, last) = plan.wanted();
                (req.cb)(&req.data, first..last, &mut buf);
                disk.cache.publish(&block, &buf);
                (block, plan)
            }
            FaultStep::Remap(block, plan) => (block, plan),
            _ => panic!("the address is mapped and slots are free"),
        };
        let shown = &block.deref(&disk.cache)[..plan.remap];
        assert!(plan.dst <= addr && addr < plan.dst + plan.remap);
        assert_eq!(shown[addr - plan.dst], object[addr - base]);
        let n = plan.end - plan.start;
        assert_eq!(&shown[..n], &object[plan.start..plan.end]);
        assert!(shown[n..].iter().all(|x| *x == 0));
        disk.cache.release(block);
    }
    assert_eq!(fetched, 4);
}

#[test]
fn faults_that_cannot_be_answered() {
    let mut mem = vec![0u8; RegionLayout::new(1, PAGE).size];
    let mut disk: DiskAlloc<(), ()> = DiskAlloc::new(&mut mem, true, 1, PAGE).ok().unwrap();
    assert!(matches!(disk.fault(PAGE), FaultStep::Unmapped));
    disk.callback_buffer(PAGE, 2 * PAGE, (), Md5Digest(1), ());
    assert!(matches!(disk.fault(PAGE - 1), FaultStep::Unmapped));
    assert!(matches!(disk.fault(3 * PAGE), FaultStep::Unmapped));
    assert!(matches!(disk.fault(PAGE + 7), FaultStep::Fetch(_, _, _)));
    assert!(matches!(disk.fault(PAGE + 9), FaultStep::Wait(Wait::Loading(0))));
    assert!(matches!(disk.fault(2 * PAGE), FaultStep::Wait(Wait::Full)));
}

#[test]
fn a_cache_file_is_opened_again() {
    let mut mem = vec![0u8; RegionLayout::new(1, PAGE).size];
    assert_eq!(
        DiskAlloc::<(), ()>::new(&mut mem, false, 1, PAGE).err(),
        Some(OpenError::Capacity)
    );
    {
        let mut disk: DiskAlloc<(), ()> = DiskAlloc::new(&mut mem, true, 1, PAGE).ok().unwrap();
        disk.callback_buffer(0, PAGE, (), Md5Digest(1), ());
        match disk.fault(0) {
            FaultStep::Fetch(block, _, _) => {
                disk.cache.publish(&block, b"kept");
                disk.cache.release(block);
            }
            _ => panic!("nothing is cached yet"),
        }
    }
    let mut disk: DiskAlloc<(), ()> = DiskAlloc::new(&mut mem, false, 1, PAGE).ok().unwrap();
    assert!(disk.cache.is_sound());
    assert!(matches!(disk.fault(0), FaultStep::Unmapped));
    disk.callback_buffer(0, PAGE, (), Md5Digest(1), ());
    match disk.fault(0) {
        FaultStep::Remap(block, _) => assert_eq!(&block.deref(&disk.cache)[..4], b"kept"),
        _ => panic!("cached in an earlier session"),
    }
}

#[test]
fn headers_of_an_object() {
    let o = describe(Some(b"400000128"), Some(b"\"9b2cf535f27731c974343645a3985328\"")).unwrap();
    assert_eq!(o.size, 400000128);
    assert_eq!(o.digest, Md5Digest(0x9b2cf535f27731c974343645a3985328));
    assert!(describe(None, Some(b"\"1\"")).is_none());
    assert!(describe(Some(b""), None).is_none());
    assert!(describe(Some(b"+"), None).is_none());
    assert!(describe(Some(b"-1"), None).is_none());
    assert!(describe(Some(b" 1"), None).is_none());
    assert!(describe(Some(b"1a"), None).is_none());
    assert!(describe(Some(b"18446744073709551616"), None).is_none());
    assert_eq!(describe(Some(b"18446744073709551615"), None).unwrap().size, usize::MAX);
    assert_eq!(describe(Some(b"+0017"), None).unwrap().size, 17);
    assert_eq!(describe(Some(b"0"), None).unwrap().digest, Md5Digest(0));
}

#[test]
fn entity_tags() {
    assert_eq!(object_digest(None), Md5Digest(0));
    assert_eq!(object_digest(Some(b"\"aBc\"")), Md5Digest(0xabc));
    assert_eq!(object_digest(Some(b"W/\"abc\"")), Md5Digest(0xabc));
    assert_eq!(object_digest(Some(b"W/W/\"\"abc\"\"\"")), Md5Digest(0xabc));
    assert_eq!(object_digest(Some(b"abc")), Md5Digest(0xabc));
    assert_eq!(object_digest(Some(b"\"abc-5\"")), Md5Digest(0));
    assert_eq!(object_digest(Some(b"\"\"")), Md5Digest(0));
    assert_eq!(object_digest(Some(b"\"W/abc\"")), Md5Digest(0));
    assert_eq!(object_digest(Some(&[b'f'; 32])), Md5Digest(u128::MAX));
    assert_eq!(object_digest(Some(b"100000000000000000000000000000000")), Md5Digest(0));
    assert_eq!(object_digest(Some(b"000000000000000000000000000000000000001")), Md5Digest(1));
}

#[test]
fn range_headers() {
    assert_eq!(range_header(0, 0), b"bytes=0-0".to_vec());
    assert_eq!(range_header(0, 4096), b"bytes=0-4096".to_vec());
    assert_eq!(range_header(2097152, 3145727), b"bytes=2097152-3145727".to_vec());
    assert_eq!(
        range_header(9, usize::MAX),
        format!("bytes=9-{}", usize::MAX).into_bytes()
    );
}

#[test]
fn bodies_that_come_in_pieces() {
    let mut buf = vec![7u8; 6];
    let mut fill = BodyFill::new(6);
    assert!(fill.wants_more());
    fill.take(Some(4));
    assert_eq!(fill.off(), 4);
    assert!(fill.wants_more());
    fill.take(Some(0));
    assert!(!fill.wants_more());
    fill.finish(&mut buf);
    assert_eq!(buf, vec![7u8, 7, 7, 7, 0, 0]);

    let mut buf = vec![7u8; 3];
    let mut fill = BodyFill::new(3);
    fill.take(Some(1));
    fill.take(Some(2));
    assert!(!fill.wants_more());
    fill.finish(&mut buf);
    assert_eq!(buf, vec![7u8, 7, 7]);

    let mut buf = vec![7u8; 3];
    let mut fill = BodyFill::new(3);
    fill.take(None);
    assert!(!fill.wants_more());
    fill.finish(&mut buf);
    assert_eq!(buf, vec![0u8, 0, 0]);
}

#[test]
fn blocks_of_neighbouring_faults_do_not_overlap() {
    let size = 2 * PAGE_SIZE;
    let range = PtrRange(PAGE_SIZE, 6 * PAGE_SIZE + 1);
    let plans: Vec<FaultPlan> = (1..=6).map(|n| plan(range, n * PAGE_SIZE, size)).collect();
    assert_eq!(plans[0], plans[1]);
    assert_eq!(plans[2], plans[3]);
    assert_eq!(plans[4], plans[5]);
    assert_eq!(plans[0].end, plans[2].start);
    assert_eq!(plans[2].end, plans[4].start);
    assert_eq!(plans[4].end, 5 * PAGE_SIZE + 1);
}

#[test]
fn decimal_numbers_are_read_back() {
    for n in [0usize, 9, 10, 1048576, usize::MAX] {
        let header = range_header(n, 0);
        let digits = &header[6..header.len() - 2];
        assert_eq!(describe(Some(digits), None).unwrap().size, n);
    }
}

#[test]
fn every_byte_is_downloaded_once() {
    let size = 2 * PAGE;
    let total = 6 * PAGE + 100;
    let mut mem = vec![0u8; RegionLayout::new(4, size).size];
    let pins = RegionLayout::new(4, size).pins_off;
    {
        let mut disk: DiskAlloc<(), ()> = DiskAlloc::new(&mut mem, true, 4, size).ok().unwrap();
        disk.callback_buffer(PAGE, total, (), Md5Digest(7), ());
        let mut times = vec![0u8; total];
        for page in [4usize, 0, 6, 1, 1, 5, 0, 3, 2, 6, 4] {
            let block = match disk.fault(PAGE + page * PAGE + 5) {
                FaultStep::Fetch(block, plan, _) => {
                    let (first, last) = plan.wanted();
                    assert_eq!(last - first + 1, plan.wanted_len());
                    assert!(plan.wanted_len() <= size);
                    for x in first..=last {
                        times[x] += 1;
                    }
                    disk.cache.publish(&block, b"");
                    block
                }
                FaultStep::Remap(block, _) => block,
                _ => panic!("every page is mapped and there is room"),
            };
            disk.cache.release(block);
        }
        assert!(times.iter().all(|n| *n == 1));
    }
    assert_eq!(&mem[pins..pins + 8], &[0u8; 8]);
}

#[test]
fn an_unsound_cache_file_is_opened() {
    let mut mem = vec![0u8; RegionLayout::new(2, PAGE).size];
    {
        let disk: DiskAlloc<(), ()> = DiskAlloc::new(&mut mem, true, 2, PAGE).ok().unwrap();
        assert!(disk.cache.is_sound());
    }
    mem[28] = 9;
    let disk: DiskAlloc<(), ()> = DiskAlloc::new(&mut mem, false, 2, PAGE).ok().unwrap();
    assert!(!disk.cache.is_sound());
    assert_eq!(
        DiskAlloc::<(), ()>::new(&mut mem, false, 1, PAGE).err(),
        Some(OpenError::Capacity)
    );
}

#[test]
fn a_mapping_is_downloaded_once_through_a_busy_cache() {
    let total = 4 * PAGE + 1;
    let mut mem = vec![0u8; RegionLayout::new(1, PAGE).size];
    let mut disk: DiskAlloc<(), ()> = DiskAlloc::new(&mut mem, true, 1, PAGE).ok().unwrap();
    disk.callback_buffer(0, total, (), Md5Digest(7), ());
    let mut times = vec![0u8; total];
    for page in [3usize, 0, 4, 1, 2] {
        match disk.fault(page * PAGE) {
            FaultStep::Fetch(block, plan, _) => {
                let (first, last) = plan.wanted();
                for x in first..=last {
                    times[x] += 1;
                }
                disk.cache.publish(&block, b"");
                disk.cache.release(block);
            }
            _ => panic!("nothing of the object is held"),
        }
        // somebody else needs the only slot
        let other = BlockKey { digest: Md5Digest(8), block: page as u64 };
        let block = disk.cache.get_or_fetch(other, |_: &mut [u8]| ());
        disk.cache.release(block);
    }
    assert!(times.iter().all(|n| *n == 1));
}
