use smallish::fmt::{push_decimal, FormatIter};

#[test]
fn format_iter() {
    let iter = FormatIter::new(&["hello", "world", "!"][..], ", ");
    let s = iter.join();
    assert_eq!(s, "hello, world, !");
}

#[test]
fn format_iter_edges() {
    assert_eq!("", FormatIter::new(&[][..], ", ").join());
    assert_eq!("one", FormatIter::new(&["one"][..], ", ").join());
    assert_eq!("a-b", FormatIter::new(&["a", "b"][..], "-").join());
}

#[test]
fn decimals() {
    let mut s = String::from("n=");
    push_decimal(&mut s, 0);
    assert_eq!("n=0", s);
    let mut s = String::new();
    push_decimal(&mut s, 10);
    assert_eq!("10", s);
    let mut s = String::new();
    push_decimal(&mut s, usize::MAX);
    assert_eq!(usize::MAX.to_string(), s);
}
