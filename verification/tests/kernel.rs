use solaros::bytes::{put_bytes, r16, r32, r64, same_bytes, w16, w32, w64, zero_range, zeros};
use solaros::gdt;
use solaros::heap;
use solaros::heap::HeapAllocator;
use solaros::interrupts::{
    calibrate_smoke, exception, rdtsc, rearm, sleep_ms, slept, ticks, Clock, InterruptIndex,
};
use solaros::mem::{MemoryRegion, RegionKind};
use solaros::path::{pop_comp, split_parent, strip_slashes};
use solaros::ring::Ring;
use solaros::sched;
use solaros::sched::{Scheduler, TaskState};
use solaros::settings::{layout, layout_code, set_layout, KbdLayout, Settings};
use solaros::terminal::{LineEdit, Step};
use solaros::text::{
    dec_of, eq_ci_str, hex_of, push_bool, push_centered, push_dec2, push_left, push_right,
    same_chars, to_lower,
};
use solaros::tty::Out;

fn chars(s: &str) -> Vec<char> {
    s.chars().collect()
}

fn text(v: &[char]) -> String {
    v.iter().collect()
}

fn lines(v: &[Out]) -> Vec<String> {
    let mut r = Vec::new();
    for o in v {
        if let Out::Text(t) = o {
            r.push(text(t));
        }
    }
    r
}

// ---------- bytes and text ----------

#[test]
fn fields_read_back() {
    let mut b = zeros(32);
    w16(&mut b, 1, 0xBEEF);
    w32(&mut b, 4, 0x1234_5678);
    w64(&mut b, 16, 0x0102_0304_0506_0708);
    assert_eq!(r16(&b, 1), 0xBEEF);
    assert_eq!(r32(&b, 4), 0x1234_5678);
    assert_eq!(r64(&b, 16), 0x0102_0304_0506_0708);
    assert_eq!(b[1..3], [0xEF, 0xBE]);
    assert_eq!(b[16], 8);
    put_bytes(&mut b, 30, &[7, 9]);
    assert_eq!(b[30..], [7, 9]);
    zero_range(&mut b, 16, 8);
    assert_eq!(r64(&b, 16), 0);
    assert!(same_bytes(&[1, 2], &[1, 2]));
    assert!(!same_bytes(&[1, 2], &[1, 3]));
    assert!(!same_bytes(&[1], &[1, 2]));
}

#[test]
fn numbers_as_text() {
    assert_eq!(text(&dec_of(0)), "0");
    assert_eq!(text(&dec_of(u64::MAX)), "18446744073709551615");
    assert_eq!(text(&hex_of(0xABC, 0)), "abc");
    assert_eq!(text(&hex_of(0xABC, 8)), "00000abc");
    assert_eq!(text(&hex_of(0, 0)), "0");
    let mut v = Vec::new();
    push_dec2(&mut v, 7);
    push_dec2(&mut v, 42);
    push_bool(&mut v, true);
    push_bool(&mut v, false);
    assert_eq!(text(&v), "0742truefalse");
}

#[test]
fn padded_text() {
    let s = chars("abc");
    let mut v = Vec::new();
    push_left(&mut v, &s, 5);
    v.push('|');
    push_right(&mut v, &s, 5);
    v.push('|');
    push_centered(&mut v, &s, 6);
    v.push('|');
    push_left(&mut v, &s, 2);
    assert_eq!(text(&v), format!("{:<5}|{:>5}|{:^6}|{:<2}", "abc", "abc", "abc", "abc"));
}

#[test]
fn letters_without_case() {
    assert_eq!(to_lower('A'), 'a');
    assert_eq!(to_lower('z'), 'z');
    assert_eq!(to_lower('1'), '1');
    assert!(eq_ci_str(&chars("HeLp"), "help"));
    assert!(!eq_ci_str(&chars("helps"), "help"));
    assert!(same_chars(&chars("x"), &chars("x")));
    assert!(!same_chars(&chars("x"), &chars("X")));
}

#[test]
fn path_components() {
    assert_eq!(text(strip_slashes(&chars("//a/b"))), "a/b");
    let p = chars("/usr//bin/");
    let (first, rest) = pop_comp(&p).unwrap();
    assert_eq!(text(first), "usr");
    let (second, rest2) = pop_comp(rest).unwrap();
    assert_eq!(text(second), "bin");
    assert!(pop_comp(rest2).is_none());
    assert!(pop_comp(&chars("///")).is_none());
    let p = chars("/a/b/c");
    let (parent, leaf) = split_parent(&p);
    assert_eq!((text(parent), text(leaf)), ("/a/b".to_string(), "c".to_string()));
    let p = chars("/c");
    let (parent, leaf) = split_parent(&p);
    assert_eq!((text(parent), text(leaf)), ("".to_string(), "c".to_string()));
    let p = chars("c");
    let (parent, leaf) = split_parent(&p);
    assert_eq!((text(parent), text(leaf)), ("".to_string(), "c".to_string()));
}

// ---------- queues and lines ----------

#[test]
fn ring_gives_back_in_order() {
    let mut q = Ring::new(4);
    assert_eq!(q.pop(), None);
    assert!(q.push(1));
    assert!(q.push(2));
    assert!(q.push(3));
    assert!(!q.push(4));
    assert_eq!(q.pop(), Some(1));
    assert!(q.push(5));
    assert_eq!(q.pop(), Some(2));
    assert_eq!(q.pop(), Some(3));
    assert_eq!(q.pop(), Some(5));
    assert_eq!(q.pop(), None);
}

#[test]
fn line_is_typed_and_erased() {
    let mut l = LineEdit::new(true);
    assert_eq!(l.feed('\u{8}'), Step::Nothing);
    assert_eq!(l.feed('a'), Step::Show('a'));
    assert_eq!(l.feed('b'), Step::Show('b'));
    assert_eq!(l.feed('\u{8}'), Step::Erase);
    assert_eq!(l.feed('\u{1}'), Step::Nothing);
    assert_eq!(l.feed('c'), Step::Show('c'));
    assert_eq!(text(&l.line[..l.len]), "ac");
    assert_eq!(l.feed('\n'), Step::Enter);
    assert_eq!(l.feed('\u{3}'), Step::Cancel);
    let mut p = LineEdit::new(false);
    for _ in 0..64 {
        assert_eq!(p.feed('x'), Step::Show('*'));
    }
    assert_eq!(p.feed('y'), Step::Nothing);
    assert_eq!(p.len, 64);
}

#[test]
fn layouts() {
    let mut s = Settings::new();
    assert_eq!(layout_code(&s), "trq");
    set_layout(&mut s, KbdLayout::Us);
    assert!(layout(&s) == KbdLayout::Us);
    assert_eq!(layout_code(&s), "en-us");
}

// ---------- clock and segments ----------

#[test]
fn clock_counts_milliseconds() {
    let mut c = Clock::new();
    for _ in 0..5 {
        c.tick();
    }
    assert_eq!(ticks(&c), 5);
    assert_eq!(sleep_ms(&c, 0), 6);
    assert_eq!(sleep_ms(&c, 100), 105);
    assert_eq!(sleep_ms(&c, u64::MAX), u64::MAX);
    assert!(!slept(10, 19, 10));
    assert!(slept(10, 20, 10));
    assert!(slept(u64::MAX, 4, 5));
    assert_eq!(rdtsc(1, 2), 0x1_0000_0002);
    assert!(calibrate_smoke(1, 2));
    assert!(!calibrate_smoke(2, 2));
    assert_eq!(rearm(&mut c), [(0x43, 0x34), (0x40, 0xA9), (0x40, 0x04)]);
    assert_eq!(ticks(&c), 0);
    assert_eq!(InterruptIndex::Timer.as_u8(), 32);
    assert_eq!(InterruptIndex::Keyboard.as_u8(), 33);
}

#[test]
fn exception_report() {
    let v = lines(&exception("PAGE FAULT", 0x1000, 8, 0xABC));
    let all: String = v.concat();
    assert!(all.contains("  !!! SOLAROS EXCEPTION !!!"));
    assert!(all.contains("  PAGE FAULT"));
    assert!(all.contains("  RIP: 0x1000"));
    assert!(all.contains("  RSP: 0xabc"));
}

#[test]
fn user_mode_frame() {
    let mut s = gdt::init(0x9000);
    assert_eq!(gdt::boot_stack_top(&s), 0x9000);
    gdt::set_rsp0(&mut s, 0x7000);
    assert_eq!((s.boot_top, s.rsp0), (0x9000, 0x7000));
    assert_eq!(gdt::enter_user_mode(0x400000, 0x8000), [0x1B, 0x8000, 0x202, 0x23, 0x400000]);
}

// ---------- tasks ----------

#[test]
fn tasks_take_turns() {
    let mut s = Scheduler::new();
    assert_eq!((s.current, s.tasks.len()), (0, 0));
    assert!(!sched::active(&s));
    assert!(sched::schedule(&mut s, 0).is_none());
    sched::init(&mut s);
    assert!(sched::active(&s));
    assert!(sched::schedule(&mut s, 0).is_none());
    let (a, sp) = sched::spawn(&mut s, "a", 0x10000).unwrap();
    assert_eq!(sp, 0x10000 + 65536 - 56);
    let (b, _) = sched::spawn(&mut s, "b", 0x40008).unwrap();
    assert_eq!((a, b), (1, 2));
    let mut order = Vec::new();
    for _ in 0..6 {
        order.push(sched::schedule(&mut s, 1).unwrap().0);
    }
    assert_eq!(order, [1, 2, 0, 1, 2, 0]);
    assert_eq!(sched::switches(&s), 6);
}

#[test]
fn sleeping_task_wakes_at_its_tick() {
    let mut s = Scheduler::new();
    sched::init(&mut s);
    sched::spawn(&mut s, "a", 0x10000);
    let (id, sp) = sched::schedule(&mut s, 0).unwrap();
    assert_eq!(id, 1);
    sched::save_rsp(&mut s, 0, 0x555);
    sched::sleep_until(&mut s, 10);
    assert_eq!(sched::schedule(&mut s, 1), Some((0, 0x555)));
    sched::save_rsp(&mut s, 1, sp);
    for now in 2..10 {
        assert!(sched::schedule(&mut s, now).is_none());
    }
    assert_eq!(sched::schedule(&mut s, 10), Some((1, sp)));
    sched::terminate_current(&mut s);
    assert!(s.tasks[1].state == TaskState::Terminated);
    assert_eq!(sched::schedule(&mut s, 11).unwrap().0, 0);
    assert!(sched::schedule(&mut s, 12).is_none());
}

#[test]
fn tasks_may_come_before_the_scheduler() {
    let mut s = Scheduler::new();
    assert_eq!(sched::spawn(&mut s, "early", 0x10000).unwrap().0, 0);
    assert!(!sched::active(&s));
    assert!(sched::schedule(&mut s, 0).is_none());
    sched::init(&mut s);
    assert_eq!(s.tasks.len(), 2);
}

#[test]
fn task_table_fills_up() {
    let mut s = Scheduler::new();
    sched::init(&mut s);
    let mut n = 0;
    while sched::spawn(&mut s, "t", 0x10000).is_some() {
        n += 1;
        assert!(n < 1000);
    }
    assert_eq!(n + 1, s.tasks.len());
}

// ---------- heap ----------

fn heap_at(phys: u64, size: u64) -> HeapAllocator {
    let mut h = HeapAllocator::new();
    h.init(phys, size);
    h
}

#[test]
fn heap_blocks_lie_apart() {
    let mut h = heap_at(0x10_0000, 0x1_0000);
    let mut got: Vec<(u64, u64)> = Vec::new();
    for n in [1u64, 16, 100, 17, 4000] {
        let p = h.alloc_locked(n, 8).unwrap();
        assert_eq!(p % 8, 0);
        for (q, m) in &got {
            assert!(p + n <= *q || q + m <= p);
        }
        got.push((p, n));
    }
    let (total, used, allocs) = h.stats();
    assert_eq!(total, 0x1_0000);
    assert_eq!(allocs, 5);
    assert!(used >= 4134);
    for (p, _) in &got {
        h.dealloc(*p, 8);
    }
    assert_eq!(h.stats().1, 0);
}

#[test]
fn heap_keeps_alignments() {
    let mut h = heap_at(0x10_0010, 0x4_0000);
    for align in [1u64, 2, 4, 8, 16, 32, 64, 4096, 8192] {
        let p = h.alloc_locked(40, align).unwrap();
        assert_eq!(p % align, 0);
        h.alloc_locked(24, 8).unwrap();
        let q = h.alloc_locked(40, align).unwrap();
        assert_eq!(q % align, 0);
        h.dealloc(p, align);
    }
}

#[test]
fn heap_takes_back_what_it_gave() {
    let mut h = heap_at(0x10_0000, 0x1_0000);
    let p = h.alloc_locked(1000, 16).unwrap();
    h.dealloc(p, 16);
    assert_eq!(h.alloc_locked(1000, 16), Some(p));
    assert_eq!(h.alloc_locked(0x2_0000, 16), None);
    assert_eq!(h.alloc_locked(u64::MAX, 16), None);
    h.dealloc(0, 16);
    assert_eq!(h.alloc_locked(1000, 16).map(|q| q != p), Some(true));
}

#[test]
fn heap_resizes() {
    let mut h = heap_at(0x10_0000, 0x1_0000);
    let p = h.alloc_locked(100, 16).unwrap();
    let (q, copied) = h.realloc(p, 100, 16, 300).unwrap();
    assert_ne!(p, q);
    assert_eq!(copied, 100);
    assert!(h.realloc(q, 300, 16, 0x10_0000).is_none());
}

#[test]
fn heap_goes_to_the_largest_region() {
    let usable = |start: u64, end: u64| MemoryRegion { start, end, kind: RegionKind::Usable };
    let r = vec![
        usable(0, 0x10_0000),
        MemoryRegion { start: 0x10_0000, end: 0xF000_0000, kind: RegionKind::Bootloader },
        usable(0x1_0000_0000, 0x1_0800_0000),
    ];
    assert_eq!(heap::init(&r), Some((0x1_0700_0000, 0x800_0000)));
    assert_eq!(heap::init(&vec![usable(0, 0xFF_FFFF)]), None);
    let h = heap_at(0x1_0700_0000, 0x100_0000);
    assert_eq!(
        text(&heap::init_line(&h, 0x1_0700_0000, 0x800_0000)),
        "Heap: 16 MB @ phys 0x107000000 (last 16 MB of 128 MB usable region) - 0 used after init, 0 allocs"
    );
}
