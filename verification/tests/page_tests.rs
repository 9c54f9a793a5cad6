use cinnamos_kernel::page::{Page, PageAllocator, PAGE_TAKEN};

#[test]
fn first_fit_allocation() {
    let mut h = PageAllocator::new(0x8800_0000, 8);
    assert_eq!(h.alloc_pages(2), Some(0x8800_0000));
    assert_eq!(h.alloc_pages(3), Some(0x8800_2000));
    assert_eq!(h.alloc_pages(3), None);
    h.dealloc(0x8800_0000);
    assert_eq!(h.alloc_pages(1), Some(0x8800_0000));
    assert_eq!(h.alloc_pages(1), Some(0x8800_1000));
}

#[test]
fn release_frees_the_whole_run() {
    let mut h = PageAllocator::new(0x1000, 6);
    assert_eq!(h.alloc_pages(3), Some(0x1000));
    h.dealloc(0x1000);
    assert_eq!(h.alloc_pages(4), Some(0x1000));
}

#[test]
fn the_last_run_is_never_chosen() {
    let mut h = PageAllocator::new(0x1000, 4);
    assert_eq!(h.alloc_pages(4), None);
    assert_eq!(h.alloc_pages(3), Some(0x1000));
}

#[test]
fn page_flags() {
    let mut p = Page::new();
    p.set_flag(PAGE_TAKEN);
    p.clear();
    let _ = p;
}
