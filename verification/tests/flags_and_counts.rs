use tricolor_gc::flags::{GcColor, GcFlags};
use tricolor_gc::root_count::RootCount;

#[test]
fn fresh_flags_are_white_and_attached() {
    let flags = GcFlags::new();
    assert_eq!(flags.color(), GcColor::White);
    assert!(!flags.is_detached());
}

#[test]
fn each_color_reads_back() {
    let mut flags = GcFlags::new();
    for color in [GcColor::LightGray, GcColor::DarkGray, GcColor::Black, GcColor::White] {
        flags.set_color(color);
        assert_eq!(flags.color(), color);
        assert!(!flags.is_detached());
    }
}

#[test]
fn detached_bit_is_independent_of_color() {
    let mut flags = GcFlags::new();
    flags.set_color(GcColor::DarkGray);
    flags.set_detached(true);
    assert!(flags.is_detached());
    assert_eq!(flags.color(), GcColor::DarkGray);
    flags.set_color(GcColor::Black);
    assert!(flags.is_detached());
    assert_eq!(flags.color(), GcColor::Black);
    flags.set_detached(false);
    assert!(!flags.is_detached());
    assert_eq!(flags.color(), GcColor::Black);
}

#[test]
fn white_attached_flags_are_not_detached() {
    // The detached test reads the flag bit alone: colour bits do not count.
    let mut flags = GcFlags::new();
    flags.set_color(GcColor::Black);
    assert!(!flags.is_detached());
    flags.set_color(GcColor::White);
    assert!(!flags.is_detached());
}

#[test]
fn fresh_root_count_is_unrooted() {
    let count = RootCount::new();
    assert!(!count.is_rooted());
    assert_eq!(count.get(), 0);
}

#[test]
fn root_count_goes_up_and_down() {
    let mut count = RootCount::new();
    count.increment();
    assert!(count.is_rooted());
    assert_eq!(count.get(), 1);
    count.increment();
    assert_eq!(count.get(), 2);
    count.decrement();
    assert!(count.is_rooted());
    assert_eq!(count.get(), 1);
    count.decrement();
    assert!(!count.is_rooted());
    assert_eq!(count.get(), 0);
}
