use servertime::range::Range;

#[test]
fn transpose_keeps_the_common_part() {
    let mut r = Range::new(-100, 500);
    r.transpose(Range::new(0, 1000));
    assert_eq!(r, Range { min: 0, max: 500 });
}

#[test]
fn transpose_commutes() {
    let a = Range::new(-300, 200);
    let b = Range::new(-50, 900);
    let mut ab = a;
    ab.transpose(b);
    let mut ba = b;
    ba.transpose(a);
    assert_eq!(ab, ba);
    assert_eq!(ab, Range { min: -50, max: 200 });
}

#[test]
fn transpose_is_idempotent() {
    let mut a = Range::new(10, 20);
    a.transpose(Range::new(15, 30));
    let once = a;
    a.transpose(Range::new(15, 30));
    assert_eq!(a, once);
}

#[test]
fn transpose_of_disjoint_windows_is_empty() {
    let mut a = Range::new(0, 10);
    a.transpose(Range::new(20, 30));
    assert_eq!(a, Range { min: 20, max: 10 });
    assert!(a.min > a.max);
}

#[test]
fn to_string_writes_both_ends_in_milliseconds() {
    assert_eq!(Range::new(-5, 995).to_string(), "-5ms, 995ms");
    assert_eq!(Range::new(i16::MIN, i16::MAX).to_string(), "-32768ms, 32767ms");
    assert_eq!(Range::new(0, 10).to_string(), "0ms, 10ms");
}
