use markup_type::analyzer::stage::{Buffer, Peekable, Stage};

#[test]
fn buffer_hands_out_its_items_first_to_last() {
    let mut buffer = Buffer::new(vec!['a', 'b', 'c']);
    assert_eq!(buffer.next(), Some('a'));
    assert_eq!(buffer.next(), Some('b'));
    assert_eq!(buffer.next(), Some('c'));
    assert_eq!(buffer.next(), None);
    assert_eq!(buffer.next(), None);
}

#[test]
fn empty_buffer_has_nothing() {
    let mut buffer = Buffer::new(Vec::<u8>::new());
    assert_eq!(buffer.next(), None);
}

#[test]
fn peek_does_not_take_the_item() {
    let mut peekable = Peekable::new(Buffer::new(vec![1u8, 2, 3]));
    assert_eq!(peekable.peek(), Some(&1));
    assert_eq!(peekable.peek(), Some(&1));
    assert_eq!(peekable.next(), Some(1));
    assert_eq!(peekable.next(), Some(2));
    assert_eq!(peekable.peek(), Some(&3));
    assert_eq!(peekable.next(), Some(3));
    assert_eq!(peekable.peek(), None);
    assert_eq!(peekable.next(), None);
    assert_eq!(peekable.peek(), None);
}

#[test]
fn peekable_can_wrap_a_peekable() {
    let mut outer = Peekable::new(Peekable::new(Buffer::new(vec!['x', 'y'])));
    assert_eq!(outer.peek(), Some(&'x'));
    assert_eq!(outer.next(), Some('x'));
    assert_eq!(outer.next(), Some('y'));
    assert_eq!(outer.next(), None);
}
