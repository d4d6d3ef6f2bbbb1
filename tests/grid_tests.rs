use endlessgrid::{Chunk, ChunkIndex, Grid, Index, LayoutError};

#[test]
fn grid_test2() {
    let mut grid = Grid::default() as Grid<(i32, i32)>;
    let size = 64;
    for y in 0..size {
        for x in 0..size {
            let p = (x, y);
            grid.insert(p, p);
        }
    }
    assert_eq!(grid.len(), size as usize * size as usize);
}

#[test]
fn grid_test3() {
    let mut grid = Grid::default() as Grid<(i32, i32)>;
    let size: i32 = 33;
    let mut inserted = 0;
    for y in -size..size {
        for x in -size..size {
            let p = (x, y);
            grid.insert(p, p);
            inserted += 1;
        }
    }

    let mut read = 0;
    let mut coords = Vec::new();
    for chunk in grid.chunks() {
        let mut cells = chunk.iter();
        while let Some((p, cell)) = cells.next() {
            assert_eq!(p, *cell);
            coords.push(p);
            read += 1;
        }
    }
    assert_eq!(read, inserted);

    let mut read = 0;
    for i in 0..grid.chunks().len() {
        let mut cursor = grid.chunks()[i].iter_mut();
        while let Some((_, cell)) = grid.next_cell_mut(i, &mut cursor) {
            *cell = Default::default();
            assert_eq!((0, 0), *cell);
            read += 1;
        }
    }
    assert_eq!(read, inserted);

    for p in coords {
        assert_eq!(grid.get(p), Some(&(0, 0)));
    }
}

#[test]
fn grid_test4() {
    let mut grid = Grid::default() as Grid<(i32, i32)>;
    let values = vec![(14, 0), (-1011, 32), (-6654, -213), (5543, 123), (65645, 12312), (0, 0)];
    for v in values.iter() {
        grid.insert(v.to_owned(), v.to_owned());
    }

    let mut count = 0;
    for chunk in grid.chunks() {
        let mut cells = chunk.iter();
        while let Some(cell) = cells.next() {
            assert_eq!(cell.0.to_owned(), cell.1.to_owned());
            count += 1;
        }
    }

    assert_eq!(count, values.len());
    assert_eq!(grid.len(), values.len());
}

#[test]
fn grid_insert_get_round_trip() {
    let mut grid = Grid::<(i32, i32)>::new();
    for y in -64..64 {
        for x in -64..64 {
            grid.insert((x, y), (x, y));
            assert_eq!(grid.get((x, y)), Some(&(x, y)));
            *grid.get_mut((x, y)).unwrap() = (0, 0);
            assert_eq!(grid.get_mut((x, y)), Some(&mut (0, 0)));
        }
    }
    for y in -64..64 {
        for x in -64..64 {
            assert_eq!(grid.get((x, y)), Some(&(0, 0)));
        }
    }
    assert_eq!(grid.get((64, 0)), None);
    assert_eq!(grid.get((-65, -65)), None);
    assert_eq!(grid.get_mut((64, 64)), None);
    assert_eq!(grid.len(), 128 * 128);
}

#[test]
fn grid_overwrite_keeps_len() {
    let mut grid = Grid::<u8>::new();
    grid.insert((3, -4), 1);
    grid.insert((100, 100), 2);
    assert_eq!(grid.len(), 2);
    grid.insert((3, -4), 5);
    assert_eq!(grid.len(), 2);
    assert_eq!(grid.get((3, -4)), Some(&5));
}

#[test]
fn grid_empty() {
    let grid = Grid::<u8>::new();
    assert_eq!(grid.len(), 0);
    assert_eq!(grid.get((0, 0)), None);
    assert_eq!(grid.chunks().len(), 0);
}

#[test]
fn grid_extreme_coordinates() {
    let mut grid = Grid::<i64>::new();
    let corners = [(i32::MIN, i32::MIN), (i32::MIN, i32::MAX), (i32::MAX, i32::MIN), (i32::MAX, i32::MAX), (0, 0)];
    for (n, c) in corners.iter().enumerate() {
        grid.insert(*c, n as i64);
    }
    for (n, c) in corners.iter().enumerate() {
        assert_eq!(grid.get(*c), Some(&(n as i64)));
    }
    assert_eq!(grid.len(), corners.len());
    assert_eq!(grid.chunks().len(), corners.len());
    assert_eq!(grid.get((i32::MAX - 1, i32::MAX)), None);
}

#[test]
fn grid_chunk_counts_add_up() {
    let mut grid = Grid::<u8>::new();
    for x in -20..20 {
        grid.insert((x, x * 3), 1);
    }
    let total: usize = grid.chunks().iter().map(|c| c.len()).sum();
    assert_eq!(total, grid.len());
    assert_eq!(total, 40);
    for chunk in grid.chunks() {
        let (tl, br) = (chunk.top_left(), chunk.bottom_right());
        let mut cells = chunk.iter();
        while let Some((p, _)) = cells.next() {
            assert!(tl.0 <= p.0 && p.0 <= br.0 && tl.1 <= p.1 && p.1 <= br.1);
        }
    }
}

#[test]
fn grid_chunks_round_trip() {
    let mut grid = Grid::<(i32, i32)>::new();
    for y in -64..64 {
        for x in -64..64 {
            grid.insert((x, y), (x, y));
        }
    }
    let mut copy = Grid::<(i32, i32)>::new();
    for y in -64..64 {
        for x in -64..64 {
            copy.insert((x, y), (x, y));
        }
    }
    let rebuilt = Grid::from_chunks(copy.into_chunks()).unwrap();
    for y in -65..65 {
        for x in -65..65 {
            assert_eq!(grid.get((x, y)), rebuilt.get((x, y)));
        }
    }
    assert_eq!(rebuilt.len(), grid.len());
}

#[test]
fn grid_from_chunks_rejects_shared_chunk() {
    let c = Index::from((5, 5)).chunk_index();
    let mut a = Chunk::<u8>::new(c);
    a.insert(0, 1);
    let mut b = Chunk::<u8>::new(c);
    b.insert(1, 2);
    assert!(Grid::from_chunks(vec![a, b]).is_none());
}

#[test]
fn grid_from_chunks_skips_empty_chunks() {
    let c = Index::from((5, 5)).chunk_index();
    let mut a = Chunk::<u8>::new(c);
    a.insert(17, 1);
    let b = Chunk::<u8>::new(c);
    let g = Grid::from_chunks(vec![a, b]).unwrap();
    assert_eq!(g.len(), 1);
    assert_eq!(g.get((1, 1)), Some(&1));
    assert_eq!(g.chunks().len(), 1);
    let empty = Grid::<u8>::from_chunks(vec![]).unwrap();
    assert_eq!(empty.len(), 0);
}

#[test]
fn chunk_from_slots_checks_layout() {
    let c = Index::from((-40, 7)).chunk_index();
    assert!(Chunk::<u8>::from_slots(c, vec![None; 5]).is_none());
    assert!(Chunk::<u8>::from_slots(ChunkIndex { x: 0x1000_0000, y: 0 }, vec![]).is_none());
    let empty = Chunk::<u8>::from_slots(c, vec![]).unwrap();
    assert_eq!(empty.len(), 0);
    assert_eq!(empty.storage_len(), 0);
    let mut slots = vec![None; 256];
    slots[0] = Some(4);
    slots[100] = Some(5);
    slots[255] = Some(6);
    let chunk = Chunk::from_slots(c, slots).unwrap();
    assert_eq!(chunk.len(), 3);
    assert_eq!(chunk.top_left(), (-48, 0));
    assert_eq!(chunk.get_local(100), Some(&Some(5)));
    let back = chunk.into_slots();
    assert_eq!(back.len(), 256);
    assert_eq!(back[255], Some(6));
}

#[test]
fn chunk_from_parts_checks_each_part() {
    let c = Index::from((3, 3)).chunk_index();
    let d = Index::from((100, 3)).chunk_index();
    let mut slots = vec![None; 256];
    slots[9] = Some(1u8);
    assert_eq!(Chunk::from_parts(d, c, 1, slots.clone()).err(), Some(LayoutError::Misfiled));
    assert_eq!(Chunk::<u8>::from_parts(c, c, 0, vec![None; 3]).err(), Some(LayoutError::BadLayout));
    assert_eq!(Chunk::from_parts(c, c, 2, slots.clone()).err(), Some(LayoutError::WrongLength));
    let ch = Chunk::from_parts(c, c, 1, slots).unwrap();
    assert_eq!(ch.len(), 1);
    assert_eq!(ch.get_local(9), Some(&Some(1)));
    let empty = Chunk::<u8>::from_parts(c, c, 0, vec![]).unwrap();
    assert_eq!(empty.storage_len(), 0);
}

#[test]
fn grid_insert_creates_chunk_only_when_needed() {
    let mut grid = Grid::<u8>::new();
    grid.insert((0, 0), 1);
    assert_eq!(grid.chunks().len(), 1);
    grid.insert((15, 15), 2);
    assert_eq!(grid.chunks().len(), 1);
    grid.insert((-1, 0), 3);
    assert_eq!(grid.chunks().len(), 2);
    assert_eq!(grid.chunks()[1].top_left(), (-16, 0));
    assert!(grid.get_mut((5, 5)).is_none());
    assert!(grid.get_mut((500, 5)).is_none());
    assert_eq!(grid.chunks().len(), 2);
    assert_eq!(grid.len(), 3);
    for chunk in grid.chunks() {
        assert!(chunk.len() > 0);
    }
}

#[test]
fn grid_mutable_walk_in_slot_order() {
    let mut grid = Grid::<u32>::new();
    grid.insert((2, 0), 20);
    grid.insert((1, 0), 10);
    grid.insert((0, 1), 30);
    let mut cursor = grid.chunks()[0].iter_mut();
    let mut seen = Vec::new();
    while let Some((p, cell)) = grid.next_cell_mut(0, &mut cursor) {
        seen.push((p, *cell));
        *cell += 1;
    }
    assert_eq!(seen, vec![((1, 0), 10), ((2, 0), 20), ((0, 1), 30)]);
    assert_eq!(grid.get((1, 0)), Some(&11));
    assert_eq!(grid.get((0, 1)), Some(&31));
    assert_eq!(grid.len(), 3);
}
