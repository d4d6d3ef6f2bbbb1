use endlessgrid::{Index, CHUNK_SIZE};

#[test]
fn index_test() {
    let p1: Index = (0, 0).into();
    let p2: Index = (0, 0).into();
    assert_eq!(p1, p2);
    let p1: Index = (5, 3).into();
    let p2: Index = (5, 3).into();
    assert_eq!(p1, p2);
    let p1: Index = (1, 2).into();
    let p2: Index = (2, 1).into();
    assert_ne!(p1, p2);
    let p1: Index = (i32::MIN, i32::MAX).into();
    let p2: Index = (i32::MIN, i32::MAX).into();
    assert_eq!(p1, p2);

    let p1: Index = (0, 0).into();
    let p2: Index = (15, 15).into();
    assert_ne!(p1, p2);
    assert_eq!(p1.chunk_index(), p2.chunk_index());

    let p1: Index = (-7, -7).into();
    let p2: Index = (-9, -9).into();
    assert_ne!(p1, p2);
    assert_eq!(p1.chunk_index(), p2.chunk_index());

    let p1: Index = (CHUNK_SIZE as i32 * 10, CHUNK_SIZE as i32 * 10).into();
    let p2 = p1.chunk_index().index();
    assert_eq!(p1, p2);
    let p1: Index = (CHUNK_SIZE as i32 * -10, CHUNK_SIZE as i32 * -10).into();
    let p2 = p1.chunk_index().index();
    assert_eq!(p1, p2);

    let p1 = (1024, 5431);
    let p2: Index = p1.into();
    let p2: (i32, i32) = p2.into();
    assert_eq!(p1, p2);

    let p1 = (-1024, -5431);
    let p2: Index = p1.into();
    let p2: (i32, i32) = p2.into();
    assert_eq!(p1, p2);
}

#[test]
fn index_round_trip_at_extremes() {
    let samples = [i32::MIN, i32::MIN + 1, -17, -16, -15, -1, 0, 1, 15, 16, 17, i32::MAX - 1, i32::MAX];
    for &x in samples.iter() {
        for &y in samples.iter() {
            let i: Index = (x, y).into();
            let back: (i32, i32) = i.into();
            assert_eq!(back, (x, y));
        }
    }
}

#[test]
fn index_bias_values() {
    let i: Index = (i32::MIN, i32::MAX).into();
    assert_eq!((i.x, i.y), (0, u32::MAX));
    let i: Index = (0, -1).into();
    assert_eq!((i.x, i.y), (0x8000_0000, 0x7fff_ffff));
}

#[test]
fn chunk_index_locality() {
    let a: Index = (0, 0).into();
    let b: Index = (-1, 0).into();
    assert_ne!(a.chunk_index(), b.chunk_index());
    let a: Index = (-16, 5).into();
    let b: Index = (-1, 10).into();
    assert_eq!(a.chunk_index(), b.chunk_index());
    let a: Index = (-16, 5).into();
    let b: Index = (-17, 5).into();
    assert_ne!(a.chunk_index(), b.chunk_index());
    let a: Index = (i32::MAX, i32::MIN).into();
    let b: Index = (i32::MAX - 15, i32::MIN + 15).into();
    assert_eq!(a.chunk_index(), b.chunk_index());
    let c = a.chunk_index();
    assert_eq!((c.x, c.y), (0x0fff_ffff, 0));
}

#[test]
fn local_index_row_major() {
    let i: Index = (0, 0).into();
    assert_eq!(i.local_index(), 0);
    let i: Index = (3, 2).into();
    assert_eq!(i.local_index(), 2 * 16 + 3);
    let i: Index = (-1, -1).into();
    assert_eq!(i.local_index(), 255);
}

#[test]
fn chunk_key_distinct() {
    let a: Index = (0, 16).into();
    let b: Index = (16, 0).into();
    assert_ne!(a.chunk_index().key(), b.chunk_index().key());
    let a: Index = (0, 0).into();
    assert_eq!(a.chunk_index().key(), 0x0800_0000u64 * 0x1_0000_0000 + 0x0800_0000);
}
