use std::cell::RefCell;
use std::rc::Rc;

use vm_backing::area::PmArea;
use vm_backing::backend::{Anonymous, BackEndFile, File};
use vm_backing::error::OSError;
use vm_backing::frame::{FrameAllocator, PAGE_SIZE};
use vm_backing::lazy::{PmAreaLazy, MAX_PAGE_COUNT};

/// A file held in memory; handles made by `duplicate` share the bytes.
struct MemFile {
    bytes: Rc<RefCell<Vec<u8>>>,
    readable: bool,
}

impl MemFile {
    fn with_bytes(bytes: Vec<u8>) -> Self {
        MemFile { bytes: Rc::new(RefCell::new(bytes)), readable: true }
    }
}

impl File for MemFile {
    fn read_from_offset(&self, pos: usize, buf: &mut [u8]) -> Option<usize> {
        if !self.readable {
            return None;
        }
        let bytes = self.bytes.borrow();
        if pos > bytes.len() {
            return Some(0);
        }
        let n = buf.len().min(bytes.len() - pos);
        buf[..n].copy_from_slice(&bytes[pos..pos + n]);
        Some(n)
    }

    fn write_to_offset(&self, pos: usize, buf: &[u8]) -> Option<usize> {
        let mut bytes = self.bytes.borrow_mut();
        if bytes.len() < pos + buf.len() {
            bytes.resize(pos + buf.len(), 0);
        }
        bytes[pos..pos + buf.len()].copy_from_slice(buf);
        Some(buf.len())
    }

    fn duplicate(&self) -> Self {
        MemFile { bytes: self.bytes.clone(), readable: self.readable }
    }
}

fn allocator(count: usize) -> FrameAllocator {
    FrameAllocator::new(0x8000_0000, count)
}

fn anon(pages: usize) -> PmAreaLazy<MemFile> {
    PmAreaLazy::new(pages, None).unwrap()
}

fn read_vec(area: &mut PmAreaLazy<MemFile>, offset: usize, len: usize, alloc: &mut FrameAllocator) -> Vec<u8> {
    let mut buf = vec![0u8; len];
    assert_eq!(area.read(offset, &mut buf, alloc), Ok(len));
    buf
}

#[test]
fn fresh_region_is_vacant_and_reads_zero() {
    for n in [1usize, 2, 5] {
        let mut alloc = allocator(8);
        let mut area = anon(n);
        assert_eq!(area.size(), n * PAGE_SIZE);
        for i in 0..n {
            assert_eq!(area.get_frame(i, false, &mut alloc), Ok(None));
        }
        for i in 0..n {
            assert!(matches!(area.get_frame(i, true, &mut alloc), Ok(Some(_))));
        }
        assert_eq!(read_vec(&mut area, 0, n * PAGE_SIZE, &mut alloc), vec![0u8; n * PAGE_SIZE]);
    }
}

#[test]
fn new_rejects_zero_and_too_many_pages() {
    assert!(matches!(PmAreaLazy::<MemFile>::new(0, None), Err(OSError::PmArea_InvalidRange)));
    assert!(matches!(
        PmAreaLazy::<MemFile>::new(MAX_PAGE_COUNT + 1, None),
        Err(OSError::Memory_RunOutOfMemory)
    ));
    assert!(PmAreaLazy::<MemFile>::new(MAX_PAGE_COUNT, None).is_ok());
}

#[test]
fn round_trip_across_page_boundaries() {
    let mut alloc = allocator(8);
    let mut area = anon(4);
    let data: Vec<u8> = (0..(2 * PAGE_SIZE + 100)).map(|i| (i % 251) as u8).collect();
    let offset = PAGE_SIZE - 50;
    assert_eq!(area.write(offset, &data, &mut alloc), Ok(data.len()));
    assert_eq!(read_vec(&mut area, offset, data.len(), &mut alloc), data);
    assert_eq!(read_vec(&mut area, 0, 10, &mut alloc), vec![0u8; 10]);
}

#[test]
fn two_page_example() {
    let mut alloc = allocator(8);
    let mut area = anon(2);
    assert_eq!(area.write(0, &[0xAA; 10], &mut alloc), Ok(10));
    assert_eq!(read_vec(&mut area, 0, 10, &mut alloc), vec![0xAA; 10]);
    assert_eq!(area.write(PAGE_SIZE - 5, &[0xBB; 10], &mut alloc), Ok(10));
    assert_eq!(read_vec(&mut area, PAGE_SIZE - 5, 10, &mut alloc), vec![0xBB; 10]);
    assert_eq!(area.shrink_left(PAGE_SIZE, &mut alloc), Ok(()));
    assert_eq!(area.size(), PAGE_SIZE);
    let page = read_vec(&mut area, 0, PAGE_SIZE, &mut alloc);
    assert_eq!(&page[..5], &[0xBB; 5]);
    assert!(page[5..].iter().all(|b| *b == 0));
}

#[test]
fn out_of_range_fails_without_change() {
    let mut alloc = allocator(8);
    let mut area = anon(2);
    let size = area.size();
    assert_eq!(area.write(0, &[7u8; 4], &mut alloc), Ok(4));
    let free = alloc.available();
    assert_eq!(area.write(size, &[1u8; 1], &mut alloc), Err(OSError::PmArea_OutOfRange));
    assert_eq!(area.write(size - 2, &[1u8; 3], &mut alloc), Err(OSError::PmArea_OutOfRange));
    assert_eq!(area.write(size, &[], &mut alloc), Err(OSError::PmArea_OutOfRange));
    let mut buf = [9u8; 3];
    assert_eq!(area.read(size - 2, &mut buf, &mut alloc), Err(OSError::PmArea_OutOfRange));
    assert_eq!(buf, [9u8; 3]);
    assert_eq!(area.read(usize::MAX, &mut buf, &mut alloc), Err(OSError::PmArea_OutOfRange));
    assert_eq!(alloc.available(), free);
    assert_eq!(area.get_frame(1, false, &mut alloc), Ok(None));
    assert_eq!(read_vec(&mut area, 0, 4, &mut alloc), vec![7u8; 4]);
}

#[test]
fn write_without_enough_frames_changes_nothing() {
    let mut alloc = allocator(1);
    let mut area = anon(3);
    assert_eq!(area.write(PAGE_SIZE - 1, &[5u8; 2], &mut alloc), Err(OSError::Memory_RunOutOfMemory));
    assert_eq!(alloc.available(), 1);
    assert_eq!(area.get_frame(0, false, &mut alloc), Ok(None));
    assert_eq!(area.write(0, &[5u8; 2], &mut alloc), Ok(2));
    assert_eq!(alloc.available(), 0);
}

#[test]
fn get_frame_runs_out_of_memory() {
    let mut alloc = allocator(1);
    let mut area = anon(2);
    assert_eq!(area.get_frame(0, true, &mut alloc), Ok(Some(0x8000_0000)));
    assert_eq!(area.get_frame(0, true, &mut alloc), Ok(Some(0x8000_0000)));
    assert_eq!(area.get_frame(1, true, &mut alloc), Err(OSError::Memory_RunOutOfMemory));
    assert_eq!(area.get_frame(1, false, &mut alloc), Ok(None));
}

#[test]
fn shrink_right_to_page_boundary() {
    let mut alloc = allocator(8);
    let mut area = anon(3);
    let size = area.size();
    assert_eq!(area.write(0, &vec![1u8; size], &mut alloc), Ok(size));
    assert_eq!(area.shrink_right(size, &mut alloc), Err(OSError::PmArea_ShrinkFailed));
    assert_eq!(area.shrink_right(size + 1, &mut alloc), Err(OSError::PmArea_ShrinkFailed));
    assert_eq!(area.size(), size);
    assert_eq!(alloc.available(), 5);
    assert_eq!(area.shrink_right(PAGE_SIZE, &mut alloc), Ok(()));
    assert_eq!(area.size(), PAGE_SIZE);
    assert_eq!(alloc.available(), 7);
    assert_eq!(area.release_frame(1, &mut alloc), Err(OSError::PmAreaLazy_ReleaseNotAllocatedPage));
    assert_eq!(area.release_frame(2, &mut alloc), Err(OSError::PmAreaLazy_ReleaseNotAllocatedPage));
    assert_eq!(read_vec(&mut area, 0, PAGE_SIZE, &mut alloc), vec![1u8; PAGE_SIZE]);
}

#[test]
fn shrink_left_fails_outside_region() {
    let mut alloc = allocator(8);
    let mut area = anon(2);
    assert_eq!(area.shrink_left(2 * PAGE_SIZE, &mut alloc), Err(OSError::PmArea_ShrinkFailed));
    assert_eq!(area.size(), 2 * PAGE_SIZE);
}

#[test]
fn split_three_pages() {
    let mut alloc = allocator(8);
    let mut left = anon(3);
    assert_eq!(left.write(0, &[0x11; 8], &mut alloc), Ok(8));
    assert_eq!(left.write(PAGE_SIZE, &[0x22; 8], &mut alloc), Ok(8));
    assert_eq!(left.write(2 * PAGE_SIZE, &[0x33; 8], &mut alloc), Ok(8));
    assert_eq!(alloc.available(), 5);
    let mut right = left.split(PAGE_SIZE, 2 * PAGE_SIZE, &mut alloc).unwrap();
    assert_eq!(alloc.available(), 6);
    assert_eq!(left.size(), PAGE_SIZE);
    assert_eq!(right.size(), PAGE_SIZE);
    assert_eq!(read_vec(&mut left, 0, 8, &mut alloc), vec![0x11; 8]);
    assert_eq!(read_vec(&mut right, 0, 8, &mut alloc), vec![0x33; 8]);
}

#[test]
fn split_rejects_bad_bounds() {
    let mut alloc = allocator(8);
    let mut area = anon(3);
    assert!(matches!(area.split(2 * PAGE_SIZE, PAGE_SIZE, &mut alloc), Err(OSError::PmArea_SplitFailed)));
    assert!(matches!(area.split(PAGE_SIZE, 3 * PAGE_SIZE, &mut alloc), Err(OSError::PmArea_SplitFailed)));
    assert_eq!(area.size(), 3 * PAGE_SIZE);
}

#[test]
fn split_shifts_the_backing_window() {
    let mut alloc = allocator(8);
    let mut content = vec![0u8; 3 * PAGE_SIZE];
    content[2 * PAGE_SIZE] = 0x5A;
    let file = MemFile::with_bytes(content);
    let mut area = PmAreaLazy::new(3, Some(BackEndFile::new(file, 0))).unwrap();
    let mut right = area.split(PAGE_SIZE, 2 * PAGE_SIZE, &mut alloc).unwrap();
    let paddr = right.get_frame(0, true, &mut alloc).unwrap().unwrap();
    assert_eq!(paddr, 0x8000_0000);
    assert_eq!(read_vec(&mut right, 0, 2, &mut alloc), vec![0x5A, 0]);
}

#[test]
fn fork_refaults_as_zero() {
    let mut alloc = allocator(8);
    let mut parent = anon(2);
    assert_eq!(parent.write(0, &vec![0xCC; 2 * PAGE_SIZE], &mut alloc), Ok(2 * PAGE_SIZE));
    let mut child = parent.clone_as_fork().unwrap();
    assert_eq!(child.size(), parent.size());
    assert_eq!(child.get_frame(0, false, &mut alloc), Ok(None));
    assert_eq!(child.get_frame(1, false, &mut alloc), Ok(None));
    assert!(child.get_frame(0, true, &mut alloc).unwrap().is_some());
    assert_eq!(read_vec(&mut child, 0, PAGE_SIZE, &mut alloc), vec![0u8; PAGE_SIZE]);
    assert_eq!(read_vec(&mut parent, 0, 4, &mut alloc), vec![0xCC; 4]);
}

#[test]
fn release_vacant_and_resident() {
    let mut alloc = allocator(4);
    let mut area = anon(2);
    assert_eq!(area.release_frame(0, &mut alloc), Err(OSError::PmAreaLazy_ReleaseNotAllocatedPage));
    let paddr = area.get_frame(0, true, &mut alloc).unwrap().unwrap();
    assert_eq!(alloc.available(), 3);
    assert_eq!(area.release_frame(0, &mut alloc), Ok(()));
    assert_eq!(alloc.available(), 4);
    assert_eq!(area.get_frame(0, false, &mut alloc), Ok(None));
    assert_eq!(area.release_frame(0, &mut alloc), Err(OSError::PmAreaLazy_ReleaseNotAllocatedPage));
    assert_eq!(area.get_frame(0, true, &mut alloc), Ok(Some(paddr)));
}

#[test]
fn fault_reads_through_backing_window() {
    let mut alloc = allocator(4);
    let mut content = vec![0u8; 2 * PAGE_SIZE];
    content[PAGE_SIZE] = 0x42;
    content[PAGE_SIZE + 1] = 0x43;
    let file = MemFile::with_bytes(content);
    let mut area = PmAreaLazy::new(2, Some(BackEndFile::new(file, 0))).unwrap();
    assert!(area.get_frame(1, true, &mut alloc).unwrap().is_some());
    assert_eq!(read_vec(&mut area, PAGE_SIZE, 3, &mut alloc), vec![0x42, 0x43, 0]);
}

#[test]
fn plain_write_does_not_read_through() {
    let mut alloc = allocator(4);
    let file = MemFile::with_bytes(vec![0x77; PAGE_SIZE]);
    let mut area = PmAreaLazy::new(1, Some(BackEndFile::new(file, 0))).unwrap();
    assert_eq!(area.write(0, &[1u8], &mut alloc), Ok(1));
    assert_eq!(read_vec(&mut area, 0, 2, &mut alloc), vec![1, 0]);
}

#[test]
fn failed_read_through_gives_zero_page() {
    let mut alloc = allocator(4);
    let file = MemFile { bytes: Rc::new(RefCell::new(vec![0x99; PAGE_SIZE])), readable: false };
    let mut area = PmAreaLazy::new(1, Some(BackEndFile::new(file, 0))).unwrap();
    assert!(area.get_frame(0, true, &mut alloc).unwrap().is_some());
    assert_eq!(read_vec(&mut area, 0, PAGE_SIZE, &mut alloc), vec![0u8; PAGE_SIZE]);
}

#[test]
fn release_and_sync_write_back() {
    let mut alloc = allocator(4);
    let shared = Rc::new(RefCell::new(vec![0u8; 2 * PAGE_SIZE]));
    let file = MemFile { bytes: shared.clone(), readable: true };
    let mut area = PmAreaLazy::new(2, Some(BackEndFile::new(file, 0))).unwrap();
    assert_eq!(area.write(PAGE_SIZE + 3, &[0xEE; 2], &mut alloc), Ok(2));
    assert_eq!(shared.borrow()[PAGE_SIZE + 3], 0);
    assert_eq!(area.sync_frame_with_file(1), Ok(()));
    assert_eq!(shared.borrow()[PAGE_SIZE + 3], 0xEE);
    assert_eq!(area.write(0, &[0xDD; 1], &mut alloc), Ok(1));
    assert_eq!(area.release_frame(0, &mut alloc), Ok(()));
    assert_eq!(shared.borrow()[0], 0xDD);
}

#[test]
fn shrink_left_moves_window() {
    let mut alloc = allocator(4);
    let mut content = vec![0u8; 2 * PAGE_SIZE];
    content[PAGE_SIZE] = 0x61;
    let file = MemFile::with_bytes(content);
    let mut area = PmAreaLazy::new(2, Some(BackEndFile::new(file, 0))).unwrap();
    assert_eq!(area.shrink_left(PAGE_SIZE, &mut alloc), Ok(()));
    assert!(area.get_frame(0, true, &mut alloc).unwrap().is_some());
    assert_eq!(read_vec(&mut area, 0, 1, &mut alloc), vec![0x61]);
}

#[test]
fn backend_window_offsets() {
    let file = MemFile::with_bytes(vec![1, 2, 3, 4, 5, 6]);
    let mut window = BackEndFile::new(file, 1);
    let mut buf = [0u8; 2];
    assert_eq!(window.read_from_offset(1, &mut buf), Some(2));
    assert_eq!(buf, [3, 4]);
    let part = window.split(2);
    assert_eq!(part.origin(), 3);
    window.modify_offset(usize::MAX);
    assert_eq!(window.origin(), usize::MAX);
    assert_eq!(window.read_from_offset(1, &mut buf), None);
    assert_eq!(window.clone_as_fork().origin(), usize::MAX);
}

#[test]
fn frame_allocator_hands_out_lowest_first() {
    let mut alloc = FrameAllocator::new(0x1000, 2);
    let a = alloc.allocate().unwrap();
    let b = alloc.allocate().unwrap();
    assert_eq!(a.start_paddr(), 0x1000);
    assert_eq!(b.start_paddr(), 0x1000 + PAGE_SIZE);
    assert!(a.as_slice().iter().all(|x| *x == 0));
    assert_eq!(a.as_slice().len(), PAGE_SIZE);
    assert!(alloc.allocate().is_none());
    alloc.deallocate(b);
    assert_eq!(alloc.available(), 1);
}

#[test]
fn split_inside_first_page_fails() {
    let mut alloc = allocator(8);
    let mut area = anon(2);
    assert!(matches!(area.split(10, PAGE_SIZE, &mut alloc), Err(OSError::PmArea_SplitFailed)));
    assert!(matches!(area.split(0, PAGE_SIZE, &mut alloc), Err(OSError::PmArea_SplitFailed)));
    assert_eq!(area.size(), 2 * PAGE_SIZE);
}

#[test]
fn shrink_right_inside_first_page_fails() {
    let mut alloc = allocator(8);
    let mut area = anon(2);
    assert_eq!(area.write(0, &[3u8; 4], &mut alloc), Ok(4));
    assert_eq!(area.shrink_right(0, &mut alloc), Err(OSError::PmArea_ShrinkFailed));
    assert_eq!(area.shrink_right(PAGE_SIZE - 1, &mut alloc), Err(OSError::PmArea_ShrinkFailed));
    assert_eq!(area.size(), 2 * PAGE_SIZE);
    assert_eq!(read_vec(&mut area, 0, 4, &mut alloc), vec![3u8; 4]);
}

#[test]
fn anonymous_region_through_the_trait() {
    fn fill<A: PmArea>(area: &mut A, alloc: &mut FrameAllocator) -> usize {
        area.write(PAGE_SIZE - 1, &[9u8; 2], alloc).unwrap();
        let mut buf = [0u8; 2];
        area.read(PAGE_SIZE - 1, &mut buf, alloc).unwrap();
        assert_eq!(buf, [9u8; 2]);
        area.size()
    }
    let mut alloc = allocator(4);
    let mut area: PmAreaLazy<Anonymous> = PmAreaLazy::new(2, Some(BackEndFile::new(Anonymous, 0))).unwrap();
    assert_eq!(fill(&mut area, &mut alloc), 2 * PAGE_SIZE);
    assert_eq!(area.writeback_pos(1), Some(PAGE_SIZE));
    assert_eq!(area.sync_frame_with_file(1), Ok(()));
    assert!(area.get_frame(1, false, &mut alloc).unwrap().is_some());
}

#[test]
fn writeback_position_per_slot() {
    let mut alloc = allocator(4);
    let file = MemFile::with_bytes(vec![0u8; 3 * PAGE_SIZE]);
    let mut backed = PmAreaLazy::new(3, Some(BackEndFile::new(file, 0))).unwrap();
    assert_eq!(backed.writeback_pos(2), None);
    assert!(backed.get_frame(2, true, &mut alloc).unwrap().is_some());
    assert_eq!(backed.writeback_pos(2), Some(2 * PAGE_SIZE));
    assert_eq!(backed.writeback_pos(3), None);
    let mut plain = anon(3);
    assert!(plain.get_frame(2, true, &mut alloc).unwrap().is_some());
    assert_eq!(plain.writeback_pos(2), None);
}

#[test]
fn settle_read_zeroes_on_failure() {
    let mut alloc = allocator(2);
    let mut frame = alloc.allocate().unwrap();
    frame.set(3, 0x44);
    frame.settle_read(Some(PAGE_SIZE));
    assert_eq!(frame.get(3), 0x44);
    frame.settle_read(None);
    assert!(frame.as_slice().iter().all(|b| *b == 0));
    assert_eq!(frame.as_slice().len(), PAGE_SIZE);
}

#[test]
fn window_positions_past_the_end_fail() {
    let file = MemFile::with_bytes(vec![1, 2, 3]);
    let window = BackEndFile::new(file, usize::MAX - 1);
    let mut buf = [7u8; 1];
    assert_eq!(window.read_from_offset(2, &mut buf), None);
    assert_eq!(buf, [7u8]);
    assert_eq!(window.write_to_offset(2, &[1u8]), None);
}
