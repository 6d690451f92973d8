use std::io::Read;
use textbuilder::sliceiterators::{flatten, Insert, Reader, Rows, Skip, SliceIter, Take};
use textbuilder::Once;

#[derive(Debug)]
struct Test(Vec<Vec<u8>>);

impl Test {
    fn slices<'a>(&'a self) -> Rows<'a, u8> {
        Rows::new(&self.0)
    }

    fn new(n_rows: usize, n_cols: usize) -> (Self, Vec<u8>) {
        let mut vself = vec![];
        let mut vflat = vec![];
        let mut count = 0usize;
        for _ in 0..n_rows {
            let mut row = vec![];
            for _ in 0..n_cols {
                vflat.push(count as u8);
                row.push(count as u8);
                count += 1;
            }
            vself.push(row);
        }
        (Test(vself), vflat)
    }
}

/// The elements of a chunk sequence as an iterator of the standard library.
fn elements<'a, I: SliceIter<'a, u8> + 'a>(it: I) -> impl Iterator<Item = u8> + 'a {
    let mut flat = flatten(it);
    std::iter::from_fn(move || flat.next().cloned())
}

fn chunks<'a, I: SliceIter<'a, u8>>(mut it: I) -> Vec<Vec<u8>> {
    let mut v = Vec::new();
    while let Some(chunk) = it.next() {
        v.push(chunk.to_vec());
    }
    v
}

/// A reader of this library behind the standard library's `Read`.
struct Io<'a, I>(Reader<'a, I>);

impl<'a, I: SliceIter<'a, u8>> Read for Io<'a, I> {
    fn read(&mut self, buf: &mut [u8]) -> std::io::Result<usize> {
        Ok(self.0.read(buf))
    }
}

/// Drains `it` through a buffer of `size` bytes, one `read` after another.
fn drain<'a, I: SliceIter<'a, u8>>(it: I, size: usize) -> Vec<u8> {
    let mut reader = Reader::new(it);
    let mut buf = vec![0xAAu8; size];
    let mut out = Vec::new();
    loop {
        let n = reader.read(&mut buf);
        if n == 0 {
            break;
        }
        out.extend_from_slice(&buf[..n]);
    }
    out
}

#[test]
fn test_vecs_creation() {
    let (v, flat) = Test::new(2, 3);
    assert_eq!(v.0, vec![vec![0, 1, 2], vec![3, 4, 5]]);
    let vflat: Vec<u8> = elements(v.slices()).collect();
    assert_eq!(vflat, flat);
}

#[test]
fn simple_skip() {
    let (v, _) = Test::new(3, 3);
    let i = v.slices();
    let i = Skip::new(i, 5);
    let mut result = vec![];
    Io(Reader::new(i)).read_to_end(&mut result).unwrap();
    assert_eq!(result, vec![5, 6, 7, 8]);
}

#[test]
fn big_simple_skip() {
    let (test, flat) = Test::new(3, 10);

    for i in 0..flat.len() {
        let iter_flat: Vec<u8> = elements(test.slices()).skip(i).collect();
        let skip = test.slices();
        let skip: Vec<u8> = elements(Skip::new(skip, i)).collect();
        let expected: Vec<u8> = flat.iter().cloned().skip(i).collect();
        assert_eq!(iter_flat, expected);
        assert_eq!(skip, expected);
    }
}

#[test]
fn big_simple_take() {
    let (test, flat) = Test::new(3, 4);

    for i in 0..flat.len() {
        let iter_flat: Vec<u8> = elements(test.slices()).take(i).collect();
        let take = test.slices();
        let take: Vec<u8> = elements(Take::new(take, i)).collect();
        let expected: Vec<u8> = flat.iter().cloned().take(i).collect();
        assert_eq!(iter_flat, expected);
        assert_eq!(take, expected);
    }
}

#[test]
fn simple_insert() {
    let (v, _) = Test::new(3, 3);
    let i = v.slices();
    let in1 = &[4, 3, 2];
    let in1 = Once::new(&in1[..]);
    let in2 = &[3, 4];
    let in2 = Once::new(&in2[..]);
    let i = Insert::new(i, in1, 6);
    let i = Insert::new(i, in2, 9);
    let mut result = vec![];
    Io(Reader::new(i)).read_to_end(&mut result).unwrap();
    assert_eq!(result, vec![0, 1, 2, 3, 4, 5, 4, 3, 2, 3, 4, 6, 7, 8]);
}

#[test]
fn skip_then_read_with_any_buffer() {
    let rows = vec![vec![1u8, 2, 3], vec![4, 5, 6], vec![7, 8, 9]];
    for size in 1..12 {
        assert_eq!(drain(Skip::new(Rows::new(&rows), 5), size), vec![6, 7, 8, 9]);
    }
}

#[test]
fn skip_cuts_the_front_of_one_chunk() {
    let rows = vec![vec![1u8, 2, 3], vec![4, 5, 6], vec![7, 8, 9]];
    assert_eq!(chunks(Skip::new(Rows::new(&rows), 5)), vec![vec![6], vec![7, 8, 9]]);
    assert_eq!(chunks(Skip::new(Rows::new(&rows), 3)), vec![vec![4, 5, 6], vec![7, 8, 9]]);
    assert_eq!(
        chunks(Skip::new(Rows::new(&rows), 0)),
        vec![vec![1, 2, 3], vec![4, 5, 6], vec![7, 8, 9]]
    );
}

#[test]
fn skip_beyond_the_end_is_empty() {
    let rows = vec![vec![1u8, 2, 3], vec![4, 5, 6]];
    assert_eq!(chunks(Skip::new(Rows::new(&rows), 6)), Vec::<Vec<u8>>::new());
    assert_eq!(chunks(Skip::new(Rows::new(&rows), 7)), Vec::<Vec<u8>>::new());
    assert_eq!(chunks(Skip::new(Rows::new(&rows), usize::MAX)), Vec::<Vec<u8>>::new());
    let mut skip = Skip::new(Rows::new(&rows), 100);
    assert!(skip.next().is_none());
    assert!(skip.next().is_none());
}

#[test]
fn take_cuts_the_last_chunk_short() {
    let rows = vec![vec![1u8, 2, 3], vec![4, 5, 6], vec![7, 8, 9]];
    assert_eq!(chunks(Take::new(Rows::new(&rows), 5)), vec![vec![1, 2, 3], vec![4, 5]]);
    assert_eq!(chunks(Take::new(Rows::new(&rows), 3)), vec![vec![1, 2, 3]]);
    assert_eq!(chunks(Take::new(Rows::new(&rows), 0)), Vec::<Vec<u8>>::new());
    let mut take = Take::new(Rows::new(&rows), 4);
    assert_eq!(take.next().unwrap(), &[1, 2, 3]);
    assert_eq!(take.next().unwrap(), &[4]);
    assert!(take.next().is_none());
    assert!(take.next().is_none());
}

#[test]
fn take_beyond_the_end_is_everything() {
    let rows = vec![vec![1u8, 2, 3], vec![4, 5, 6]];
    assert_eq!(chunks(Take::new(Rows::new(&rows), 6)), vec![vec![1, 2, 3], vec![4, 5, 6]]);
    assert_eq!(chunks(Take::new(Rows::new(&rows), 7)), vec![vec![1, 2, 3], vec![4, 5, 6]]);
    assert_eq!(
        chunks(Take::new(Rows::new(&rows), usize::MAX)),
        vec![vec![1, 2, 3], vec![4, 5, 6]]
    );
}

#[test]
fn insert_at_every_offset() {
    let (test, flat) = Test::new(3, 4);
    let ins = [100u8, 101, 102];
    for k in 0..=flat.len() {
        let mut expected = flat[..k].to_vec();
        expected.extend_from_slice(&ins);
        expected.extend_from_slice(&flat[k..]);
        let got: Vec<u8> = elements(Insert::new(test.slices(), Once::new(&ins[..]), k)).collect();
        assert_eq!(got, expected);
    }
}

#[test]
fn insert_splits_the_chunk_it_falls_in() {
    let rows = vec![vec![1u8, 2, 3], vec![4, 5, 6]];
    let ins = [9u8];
    assert_eq!(
        chunks(Insert::new(Rows::new(&rows), Once::new(&ins[..]), 4)),
        vec![vec![1, 2, 3], vec![4], vec![9], vec![5, 6]]
    );
    assert_eq!(
        chunks(Insert::new(Rows::new(&rows), Once::new(&ins[..]), 3)),
        vec![vec![1, 2, 3], vec![9], vec![4, 5, 6]]
    );
    assert_eq!(
        chunks(Insert::new(Rows::new(&rows), Once::new(&ins[..]), 0)),
        vec![vec![9], vec![1, 2, 3], vec![4, 5, 6]]
    );
}

#[test]
fn insert_beyond_the_end_appends() {
    let rows = vec![vec![1u8, 2, 3], vec![4, 5, 6]];
    let ins = [9u8];
    assert_eq!(
        chunks(Insert::new(Rows::new(&rows), Once::new(&ins[..]), 6)),
        vec![vec![1, 2, 3], vec![4, 5, 6], vec![9]]
    );
    assert_eq!(
        chunks(Insert::new(Rows::new(&rows), Once::new(&ins[..]), 60)),
        vec![vec![1, 2, 3], vec![4, 5, 6], vec![9]]
    );
}

#[test]
fn flatten_walks_all_elements() {
    let rows = vec![vec![1u16, 2], vec![], vec![3], vec![], vec![]];
    let mut flat = flatten(Rows::new(&rows));
    assert_eq!(flat.next(), Some(&1));
    assert_eq!(flat.next(), Some(&2));
    assert_eq!(flat.next(), Some(&3));
    assert_eq!(flat.next(), None);
    assert_eq!(flat.next(), None);
}

#[test]
fn once_hands_its_item_out_once() {
    let data = [1u8, 2, 3];
    let mut once = Once::new(&data[..]);
    assert_eq!(once.next(), Some(&data[..]));
    assert_eq!(once.next(), None);
    assert_eq!(once.next(), None);
}

#[test]
fn read_with_a_buffer_smaller_than_the_first_chunk() {
    let rows = vec![vec![1u8, 2, 3, 4, 5], vec![6, 7]];
    let mut reader = Reader::new(Rows::new(&rows));
    let mut buf = [0u8; 2];
    assert_eq!(reader.read(&mut buf), 2);
    assert_eq!(buf, [1, 2]);
    assert_eq!(reader.read(&mut buf), 2);
    assert_eq!(buf, [3, 4]);
    assert_eq!(reader.read(&mut buf), 2);
    assert_eq!(buf, [5, 6]);
    assert_eq!(reader.read(&mut buf), 1);
    assert_eq!(buf, [7, 6]);
    assert_eq!(reader.read(&mut buf), 0);
    assert_eq!(buf, [7, 6]);
}

#[test]
fn read_with_a_buffer_larger_than_everything() {
    let rows = vec![vec![1u8, 2, 3], vec![], vec![4, 5]];
    let mut reader = Reader::new(Rows::new(&rows));
    let mut buf = [0xEEu8; 8];
    assert_eq!(reader.read(&mut buf), 5);
    assert_eq!(buf, [1, 2, 3, 4, 5, 0xEE, 0xEE, 0xEE]);
    assert_eq!(reader.read(&mut buf), 0);
}

#[test]
fn read_into_an_empty_buffer_keeps_everything() {
    let rows = vec![vec![1u8, 2, 3]];
    let mut reader = Reader::new(Rows::new(&rows));
    let mut none = [0u8; 0];
    assert_eq!(reader.read(&mut none), 0);
    let mut buf = [0u8; 3];
    assert_eq!(reader.read(&mut buf), 3);
    assert_eq!(buf, [1, 2, 3]);
}

#[test]
fn read_every_byte_once_whatever_the_buffer() {
    let (test, flat) = Test::new(5, 7);
    for size in 1..40 {
        assert_eq!(drain(test.slices(), size), flat);
    }
}

#[test]
fn read_to_end_through_a_small_buffer() {
    let (test, flat) = Test::new(4, 5);
    let mut reader = Reader::new(test.slices());
    let mut out = vec![42u8];
    let mut buf = [0u8; 3];
    reader.read_to_end(&mut out, &mut buf);
    let mut expected = vec![42u8];
    expected.extend_from_slice(&flat);
    assert_eq!(out, expected);
    reader.read_to_end(&mut out, &mut buf);
    assert_eq!(out, expected);
}

#[test]
fn read_to_end_with_an_empty_buffer_reads_nothing() {
    let rows = vec![vec![1u8, 2, 3]];
    let mut reader = Reader::new(Rows::new(&rows));
    let mut out = Vec::new();
    let mut none = [0u8; 0];
    reader.read_to_end(&mut out, &mut none);
    assert_eq!(out, Vec::<u8>::new());
    let mut buf = [0u8; 2];
    reader.read_to_end(&mut out, &mut buf);
    assert_eq!(out, vec![1, 2, 3]);
}
