use endlessgrid::{Chunk, Index, CHUNK_SIZE};

#[derive(Clone, Debug, PartialEq)]
struct Test;

#[test]
fn chunk_test() {
    let mut chunk = Chunk::default() as Chunk<Test>;
    assert_eq!(chunk.storage_len(), 0);
    assert_eq!(chunk.len(), 0);
    chunk.insert(0, Test);
    assert_eq!(chunk.storage_len(), CHUNK_SIZE * CHUNK_SIZE);
    assert_eq!(chunk.len(), 1);
    chunk.insert(0, Test);
    assert_eq!(chunk.len(), 1);
    chunk.insert(1, Test);
    assert_eq!(chunk.len(), 2);
    chunk.clear();
    assert_eq!(chunk.len(), 0);
    assert_eq!(chunk.storage_len(), 0);

    let chunk = Chunk::default() as Chunk<Test>;
    assert_eq!(chunk.top_left(), (0, 0));
    assert_eq!(chunk.bottom_right(), (CHUNK_SIZE as i32 - 1, CHUNK_SIZE as i32 - 1));

    let p = (-1024, -1024);
    let chunk_index = Index::from(p).chunk_index();
    let chunk = Chunk::<Test>::new(chunk_index);

    assert_eq!(chunk.top_left(), p);
    assert_eq!(chunk.bottom_right(), (p.0 + CHUNK_SIZE as i32 - 1, p.1 + CHUNK_SIZE as i32 - 1));
}

#[test]
fn chunk_bottom_right_at_the_end_of_the_range() {
    let c = Index::from((i32::MAX, i32::MAX)).chunk_index();
    let chunk = Chunk::<u8>::new(c);
    assert_eq!(chunk.top_left(), (i32::MAX - 15, i32::MAX - 15));
    assert_eq!(chunk.bottom_right(), (i32::MAX, i32::MAX));
    let c = Index::from((i32::MIN, i32::MIN)).chunk_index();
    let chunk = Chunk::<u8>::new(c);
    assert_eq!(chunk.top_left(), (i32::MIN, i32::MIN));
}

#[test]
fn chunk_get_local() {
    let mut chunk = Chunk::<u32>::default();
    assert!(chunk.get_local(3).is_none());
    chunk.insert(3, 7);
    assert_eq!(chunk.get_local(3), Some(&Some(7)));
    assert_eq!(chunk.get_local(4), Some(&None));
    assert_eq!(chunk.get_local(256), None);
    chunk.insert(3, 9);
    assert_eq!(chunk.get_local(3), Some(&Some(9)));
    assert_eq!(chunk.len(), 1);
}

#[test]
fn chunk_get_local_mut() {
    let mut chunk = Chunk::<u32>::default();
    assert!(chunk.get_local_mut(0).is_none());
    chunk.insert(10, 1);
    assert!(chunk.get_local_mut(11).is_none());
    assert!(chunk.get_local_mut(300).is_none());
    *chunk.get_local_mut(10).unwrap() = 42;
    assert_eq!(chunk.get_local(10), Some(&Some(42)));
    assert_eq!(chunk.len(), 1);
}

#[test]
fn chunk_clear_resets_len() {
    let mut chunk = Chunk::<u32>::default();
    for i in 0..256 {
        chunk.insert(i, i as u32);
    }
    assert_eq!(chunk.len(), 256);
    chunk.clear();
    assert_eq!(chunk.len(), 0);
    assert!(chunk.get_local(0).is_none());
}

#[test]
fn chunk_iteration_order_and_coordinates() {
    let c = Index::from((-32, 16)).chunk_index();
    let mut chunk = Chunk::<u32>::new(c);
    chunk.insert(17, 5);
    chunk.insert(2, 3);
    chunk.insert(255, 9);
    let mut it = chunk.iter();
    assert_eq!(it.next(), Some(((-30, 16), &3)));
    assert_eq!(it.next(), Some(((-31, 17), &5)));
    assert_eq!(it.next(), Some(((-17, 31), &9)));
    assert_eq!(it.next(), None);
    assert_eq!(it.next(), None);

    let empty = Chunk::<u32>::new(c);
    let mut it = empty.iter();
    assert_eq!(it.next(), None);
}

#[test]
fn chunk_iteration_mut() {
    let c = Index::from((0, 0)).chunk_index();
    let mut chunk = Chunk::<u32>::new(c);
    chunk.insert(0, 1);
    chunk.insert(20, 2);
    let mut it = chunk.iter_mut();
    let mut seen = Vec::new();
    while let Some((p, cell)) = it.next(&mut chunk) {
        *cell *= 10;
        seen.push(p);
    }
    assert_eq!(seen, vec![(0, 0), (4, 1)]);
    assert_eq!(chunk.get_local(0), Some(&Some(10)));
    assert_eq!(chunk.get_local(20), Some(&Some(20)));
    assert_eq!(chunk.len(), 2);
    let mut empty = Chunk::<u32>::new(c);
    let mut it = empty.iter_mut();
    assert!(it.next(&mut empty).is_none());
}
