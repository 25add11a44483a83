use oskit::early_allocator::{AllocError, EarlyAllocator};

const PAGE: usize = 4096;

fn fresh() -> EarlyAllocator<PAGE> {
    let mut a = EarlyAllocator::<PAGE>::new();
    a.init(0x10000, 0x10000);
    a
}

#[test]
fn new_allocator_is_empty() {
    let a = EarlyAllocator::<PAGE>::new();
    assert_eq!(a.total_bytes(), 0);
    assert_eq!(a.used_bytes(), 0);
    assert_eq!(a.available_bytes(), 0);
    assert_eq!(a.total_pages(), 0);
    assert_eq!(a.used_pages(), 0);
    assert_eq!(a.available_pages(), 0);
}

#[test]
fn init_takes_whole_range() {
    let a = fresh();
    assert_eq!(a.total_bytes(), 0x10000);
    assert_eq!(a.used_bytes(), 0);
    assert_eq!(a.available_bytes(), 0x10000);
    assert_eq!(a.total_pages(), 16);
    assert_eq!(a.used_pages(), 0);
    assert_eq!(a.available_pages(), 16);
    assert_eq!(a.page_lower_bound(), 0x10000);
    assert_eq!(a.page_upper_bound(), 0x20000);
}

#[test]
fn align_helpers() {
    assert_eq!(EarlyAllocator::<PAGE>::align_down(0x1234, 0x1000), 0x1000);
    assert_eq!(EarlyAllocator::<PAGE>::align_up(0x1234, 0x1000), 0x2000);
    assert_eq!(EarlyAllocator::<PAGE>::align_up(0x2000, 0x1000), 0x2000);
    assert_eq!(EarlyAllocator::<PAGE>::align_down(0x2000, 0x1000), 0x2000);
    assert_eq!(EarlyAllocator::<PAGE>::align_up(0, 8), 0);
    assert_eq!(EarlyAllocator::<PAGE>::align_up(9, 8), 16);
}

#[test]
fn bytes_go_forward_aligned() {
    let mut a = fresh();
    assert_eq!(a.alloc_bytes(100, 8), Ok(0x10000));
    assert_eq!(a.used_bytes(), 100);
    assert_eq!(a.available_bytes(), 0x10000 - 100);
    assert_eq!(a.alloc_bytes(8, 64), Ok(0x10080));
    assert_eq!(a.used_bytes(), 0x88);
}

#[test]
fn bytes_refused_when_out_of_room() {
    let mut a = fresh();
    assert_eq!(a.alloc_bytes(0x10001, 1), Err(AllocError::NoMemory));
    assert_eq!(a.alloc_bytes(usize::MAX, 1), Err(AllocError::InvalidParam));
    assert_eq!(a.used_bytes(), 0);
    assert_eq!(a.alloc_bytes(0x10000, 1), Ok(0x10000));
    assert_eq!(a.available_bytes(), 0);
}

#[test]
fn byte_area_released_with_last_allocation() {
    let mut a = fresh();
    let p = a.alloc_bytes(10, 8).unwrap();
    let q = a.alloc_bytes(20, 8).unwrap();
    a.dealloc(p, 10, 8);
    assert_eq!(a.used_bytes(), 0x10 + 20);
    a.dealloc(q, 20, 8);
    assert_eq!(a.used_bytes(), 0);
    a.dealloc(q, 20, 8);
    assert_eq!(a.used_bytes(), 0);
    assert_eq!(a.alloc_bytes(4, 4), Ok(0x10000));
}

#[test]
fn pages_go_backward() {
    let mut a = fresh();
    a.alloc_bytes(0x88, 8).unwrap();
    assert_eq!(a.alloc_pages(2, PAGE), Ok(0x1e000));
    assert_eq!(a.used_pages(), 2);
    assert_eq!(a.available_pages(), 13);
    assert_eq!(a.total_bytes(), 0xe000);
    assert_eq!(a.alloc_pages(1, 0x4000), Ok(0x1c000));
    assert_eq!(a.used_pages(), 4);
}

#[test]
fn page_requests_checked() {
    let mut a = fresh();
    assert_eq!(a.alloc_pages(0, PAGE), Err(AllocError::InvalidParam));
    assert_eq!(a.alloc_pages(1, 3000), Err(AllocError::InvalidParam));
    assert_eq!(a.alloc_pages(1, 2048), Err(AllocError::InvalidParam));
    assert_eq!(a.alloc_pages(usize::MAX, PAGE), Err(AllocError::InvalidParam));
    assert_eq!(a.alloc_pages(17, PAGE), Err(AllocError::NoMemory));
    assert_eq!(a.alloc_pages(16, PAGE), Ok(0x10000));
    assert_eq!(a.available_pages(), 0);
    assert_eq!(a.alloc_pages(1, PAGE), Err(AllocError::NoMemory));
}

#[test]
fn page_alignment_larger_than_page() {
    let mut a = EarlyAllocator::<PAGE>::new();
    a.init(0x10000, 0x7000);
    // the window is [0x10000, 0x17000); the highest 0x4000-aligned place for
    // one page is 0x14000
    assert_eq!(a.alloc_pages(1, 0x4000), Ok(0x14000));
    // no 0x8000-aligned page fits below 0x14000 except 0x10000
    assert_eq!(a.alloc_pages(1, 0x8000), Ok(0x10000));
    assert_eq!(a.alloc_pages(1, PAGE), Err(AllocError::NoMemory));
}

#[test]
fn pages_at_fixed_base() {
    let mut a = fresh();
    assert_eq!(a.alloc_pages_at(0x1f800, 1, PAGE), Err(AllocError::InvalidParam));
    assert_eq!(a.alloc_pages_at(0x10000, 1, PAGE), Err(AllocError::NoMemory));
    assert_eq!(a.alloc_pages_at(0x1f000, 1, PAGE), Ok(0x1f000));
    assert_eq!(a.alloc_pages_at(0x1e000, 1, PAGE), Ok(0x1e000));
    assert_eq!(a.used_pages(), 2);
    assert_eq!(a.alloc_pages_at(0x1e000, 0, PAGE), Err(AllocError::InvalidParam));
    assert_eq!(a.alloc_pages_at(0x0, 0x100, PAGE), Err(AllocError::NoMemory));
}

#[test]
fn pages_never_released() {
    let mut a = fresh();
    let p = a.alloc_pages(2, PAGE).unwrap();
    a.dealloc_pages(p, 2);
    assert_eq!(a.used_pages(), 2);
}

#[test]
fn add_memory_cases() {
    let mut a = EarlyAllocator::<PAGE>::new();
    assert_eq!(a.add_memory(0x5000, 0), Ok(()));
    assert_eq!(a.total_bytes(), 0);
    assert_eq!(a.add_memory(0x1000, 0x1000), Ok(()));
    assert_eq!(a.total_bytes(), 0x1000);
    assert_eq!(a.add_memory(0x2000, 0x1000), Ok(()));
    assert_eq!(a.total_bytes(), 0x2000);
    assert_eq!(a.total_pages(), 2);
    assert_eq!(a.add_memory(0x5000, 0x1000), Err(AllocError::InvalidParam));
    a.alloc_pages(1, PAGE).unwrap();
    assert_eq!(a.add_memory(0x3000, 0x1000), Err(AllocError::InvalidParam));
}

#[test]
fn byte_and_page_areas_meet() {
    let mut a = fresh();
    a.alloc_pages(15, PAGE).unwrap();
    assert_eq!(a.available_bytes(), 0x1000);
    assert_eq!(a.alloc_bytes(0x1001, 1), Err(AllocError::NoMemory));
    assert_eq!(a.alloc_bytes(0x800, 1), Ok(0x10000));
    assert_eq!(a.alloc_pages(1, PAGE), Err(AllocError::NoMemory));
}

#[test]
fn state_reports_positions() {
    let mut a = fresh();
    a.alloc_bytes(16, 8).unwrap();
    a.alloc_pages(1, PAGE).unwrap();
    let s = a.state();
    assert_eq!((s.start, s.end, s.b_pos, s.p_pos, s.count), (0x10000, 0x20000, 0x10010, 0x1f000, 1));
    assert_eq!(a.total_bytes(), a.used_bytes() + a.available_bytes());
}

#[test]
fn pages_from_the_top_of_a_fresh_range() {
    let mut a = EarlyAllocator::<PAGE>::new();
    a.init(0x8000_0000, 0x10000);
    assert_eq!(a.available_pages(), 16);
    assert_eq!(a.alloc_pages(2, 4096), Ok(0x8000_E000));
    assert_eq!(a.alloc_pages(1, 0x4000), Ok(0x8000_C000));
    assert_eq!(a.used_pages(), 4);
    assert_eq!(a.available_pages(), 12);
    assert_eq!(a.total_pages(), 16);
    assert_eq!(a.alloc_pages(13, 4096), Err(AllocError::NoMemory));
    assert_eq!(a.alloc_pages(0, 4096), Err(AllocError::InvalidParam));
    assert_eq!(a.alloc_pages(1, 0x3000), Err(AllocError::InvalidParam));
    assert_eq!(a.alloc_pages(12, 4096), Ok(0x8000_0000));
    assert_eq!(a.available_pages(), 0);
}
