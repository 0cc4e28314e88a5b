use emir::buffer::Buffer;
use emir::error::BufferError;

#[test]
fn new_fills_with_default() {
    let buffer = Buffer::<u32>::new(16, 16);
    assert_eq!(buffer.w, 16);
    assert_eq!(buffer.h, 16);
    assert_eq!(buffer.buff.len(), 256);
    assert!(buffer.buff.iter().all(|v| *v == 0));
}

#[test]
fn default_is_empty() {
    let buffer: Buffer<u8> = Default::default();
    assert_eq!(buffer.w, 0);
    assert_eq!(buffer.h, 0);
    assert!(buffer.buff.is_empty());
}

#[test]
fn from_element_and_get() {
    let buff = Buffer::from_element(10, 10, 10u8);
    assert_eq!(buff.get(1, 1), Some(&10u8));
    assert_eq!(buff.get(9999, 9999), None);
    assert_eq!(buff.buff.len(), 100);
}

#[test]
fn try_from_iterator_builds_rows() {
    let buffer = Buffer::try_from_iterator(3, (0..).take(9).collect()).unwrap();
    assert_eq!(buffer.w, 3);
    assert_eq!(buffer.h, 3);
    assert_eq!(buffer.get_cloned(0, 0), Some(0));
    assert_eq!(buffer.get_cloned(0, 1), Some(3));
    assert_eq!(buffer.get_cloned(2, 2), Some(8));
}

#[test]
fn try_from_iterator_rejects_empty() {
    let r = Buffer::<u8>::try_from_iterator(3, Vec::new());
    assert_eq!(r.unwrap_err(), BufferError::EmptyIteratorOnInit {});
}

#[test]
fn try_from_iterator_rejects_ragged() {
    let r = Buffer::try_from_iterator(3, (0..10).collect::<Vec<u32>>());
    assert_eq!(r.unwrap_err(), BufferError::InvalidSize { w: 3, iterator_size: 10 });
}

#[test]
fn try_from_iterator_rejects_zero_width() {
    let r = Buffer::try_from_iterator(0, vec![1u8, 2]);
    assert_eq!(r.unwrap_err(), BufferError::InvalidSize { w: 0, iterator_size: 2 });
}

#[test]
fn get_checks_each_coordinate() {
    let buffer = Buffer::try_from_iterator(3, (0..9).collect::<Vec<u32>>()).unwrap();
    assert_eq!(buffer.get(2, 1), Some(&5));
    assert_eq!(buffer.get(3, 0), None);
    assert_eq!(buffer.get(0, 3), None);
    assert_eq!(buffer.get_cloned(9, 0), None);
    assert_eq!(buffer.get_cloned(2, 2), Some(8));
}

#[test]
fn get_doc_example() {
    let buff = Buffer::from_element(10, 10, 10u8);
    assert_eq!(buff.get(1, 1), Some(&10u8));
    assert_eq!(buff.get(9999, 9999), None);
    assert_eq!(buff.get(10, 0), None);
    assert_eq!(buff.get(usize::MAX, usize::MAX), None);
}

#[test]
fn idx_is_row_major() {
    assert_eq!(Buffer::<u8>::idx(2, 3, 10), 32);
    assert_eq!(Buffer::<u8>::idx(0, 0, 0), 0);
}

#[test]
fn set_unchecked_fills() {
    let mut buff = Buffer::new(16, 16);
    for x in 0..16u8 {
        for y in 0..16u8 {
            buff.set_unchecked(x as usize, y as usize, x + y);
        }
    }
    assert_eq!(buff.get_cloned(0, 0), Some(0));
    assert_eq!(buff.get_cloned(4, 3), Some(7));
    assert_eq!(buff.get_cloned(10, 10), Some(20));
    assert_eq!(buff.get_cloned(15, 15), Some(30));
}

#[test]
fn set_reports_bounds() {
    let mut buff = Buffer::<u32>::new(4, 3);
    assert!(buff.set(3, 2, 7));
    assert!(!buff.set(4, 0, 9));
    assert!(!buff.set(0, 3, 9));
    assert_eq!(buff.buff.iter().filter(|v| **v != 0).count(), 1);
    assert_eq!(buff.get_cloned(3, 2), Some(7));
}

#[test]
fn read_after_write_keeps_others() {
    let mut buff = Buffer::try_from_iterator(2, vec![1u32, 2, 3, 4]).unwrap();
    assert!(buff.set(1, 0, 20));
    assert_eq!(*buff.get_unchecked(1, 0), 20);
    assert_eq!(buff.get_unchecked_cloned(0, 0), 1);
    assert_eq!(buff.get_unchecked_cloned(0, 1), 3);
    assert_eq!(buff.get_unchecked_cloned(1, 1), 4);
}

#[test]
fn lines_of_default_buffer() {
    let buffer = Buffer::<u8>::new(3, 3);
    let mut lines = buffer.lines();
    for _ in 0..3 {
        assert_eq!(lines.next(), Some(vec![0, 0, 0]));
    }
    assert_eq!(lines.next(), None);
}

#[test]
fn lines_hand_out_rows_in_order() {
    let buffer = Buffer::try_from_iterator(3, (0..6).collect::<Vec<u32>>()).unwrap();
    let mut lines = buffer.lines();
    assert_eq!(lines.next(), Some(vec![0, 1, 2]));
    assert_eq!(lines.position, 3);
    assert_eq!(lines.next(), Some(vec![3, 4, 5]));
    assert_eq!(lines.next(), None);
    assert_eq!(lines.position, 6);
}

#[test]
fn lines_stop_on_partial_row() {
    let mut lines = emir::buffer::BufferIterator { w: 4, position: 0, data: vec![1u8, 2, 3, 4, 5, 6] };
    assert_eq!(lines.next(), Some(vec![1, 2, 3, 4]));
    assert_eq!(lines.next(), None);
    assert_eq!(lines.position, 6);
}

#[test]
fn lines_of_zero_width_buffer_are_empty() {
    let mut lines = Buffer::<u8>::new(0, 0).lines();
    assert_eq!(lines.next(), Some(vec![]));
    let mut lines = Buffer::<u8>::new(0, 5).lines();
    assert_eq!(lines.next(), Some(vec![]));
    assert_eq!(lines.next(), Some(vec![]));
    assert_eq!(lines.position, 0);
}
