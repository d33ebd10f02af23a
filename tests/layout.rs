use retained_gui::layout::{AccessLayout, Cell, GridLayout, LayoutError, LayoutPosition};
use std::cmp::Ordering;

#[test]
fn test_basic_grid_layout() {
    assert_eq!(Ordering::Less, LayoutPosition::new(0, 1).cmp(&LayoutPosition::new(0, 2)));
    assert_eq!(Ordering::Less, LayoutPosition::new(1, 2).cmp(&LayoutPosition::new(2, 2)));
    assert_eq!(Ordering::Less, LayoutPosition::new(1, 0).cmp(&LayoutPosition::new(0, 1)));
    assert_ne!(Ordering::Less, LayoutPosition::new(0, 1).cmp(&LayoutPosition::new(1, 0)));
    assert_ne!(Ordering::Less, LayoutPosition::new(0, 2).cmp(&LayoutPosition::new(0, 1)));

    let mut layouter = GridLayout::new().set_wrap(4);

    let w: Vec<i32> = (0..10).collect();

    let mut l = AccessLayout::new();
    l.add(w[0]);
    l.add(w[1]).span(2, 2);
    l.add(w[2]);
    l.add(w[3]);
    l.add(w[4]);
    l.add(w[5]);
    l.add(w[6]).wrap().wrap();
    l.add(w[7]).add(w[8]).add(w[9]);
    layouter.access(&l, |_| (30, 12)).unwrap();

    for (index, rect) in layouter.update() {
        println!("{}: ({}, {}, {}, {})", index, rect.0, rect.1, rect.2, rect.3);
    }
}

fn sample() -> GridLayout {
    let mut layouter = GridLayout::new().set_wrap(4);
    let w: Vec<i32> = (0..10).collect();
    let mut l = AccessLayout::new();
    l.add(w[0]);
    l.add(w[1]).span(2, 2);
    l.add(w[2]);
    l.add(w[3]);
    l.add(w[4]);
    l.add(w[5]);
    l.add(w[6]).wrap().wrap();
    l.add(w[7]).add(w[8]).add(w[9]);
    layouter.access(&l, |_| (30, 12)).unwrap();
    layouter
}

fn position_of(g: &GridLayout, item: i32) -> (u32, u32) {
    for s in g.cells() {
        if let Cell::Component(c) = s.cell {
            if c.item == item {
                return (s.position.col, s.position.row);
            }
        }
    }
    panic!("missing item");
}

#[test]
fn wrap_four_grid_places_every_widget() {
    let g = sample();
    let expected = [(0, 0), (1, 0), (3, 0), (0, 1), (3, 1), (0, 2), (1, 2), (0, 4), (1, 4), (2, 4)];
    for (item, pos) in expected.iter().enumerate() {
        assert_eq!(position_of(&g, item as i32), *pos);
    }
    let spans: Vec<(u32, u32)> = g
        .cells()
        .iter()
        .filter(|s| matches!(s.cell, Cell::Span(_)))
        .map(|s| (s.position.col, s.position.row))
        .collect();
    assert_eq!(spans, vec![(2, 0), (1, 1), (2, 1)]);
}

#[test]
fn wrap_four_grid_solves_without_overlap() {
    let g = sample();
    let placed: Vec<(i32, (u32, u32, u32, u32))> = g.update();
    assert_eq!(placed.len(), 10);
    // Leading offsets grow along each row, tops grow down each column.
    for a in &placed {
        for b in &placed {
            if a.0 == b.0 {
                continue;
            }
            let pa = position_of(&g, a.0);
            let pb = position_of(&g, b.0);
            if pa.1 == pb.1 && pa.0 < pb.0 {
                assert!(a.1 .0 < b.1 .0, "{:?} {:?}", a, b);
            }
            if pa.0 == pb.0 && pa.1 < pb.1 {
                assert!(a.1 .1 < b.1 .1, "{:?} {:?}", a, b);
            }
            let (ax, ay, aw, ah) = a.1;
            let (bx, by, bw, bh) = b.1;
            let overlap = ax < bx + bw && bx < ax + aw && ay < by + bh && by < ay + ah;
            assert!(!overlap, "{:?} {:?}", a, b);
        }
    }
    // Row-major order.
    let items: Vec<i32> = placed.iter().map(|p| p.0).collect();
    assert_eq!(items, vec![0, 1, 2, 3, 4, 5, 6, 7, 8, 9]);
}

#[test]
fn single_cell_takes_the_margins() {
    let mut g = GridLayout::new();
    let mut l = AccessLayout::new();
    l.add(5);
    g.access(&l, |_| (30, 12)).unwrap();
    let placed = g.update();
    assert_eq!(placed.len(), 1);
    let (item, (x, y, w, _h)) = placed[0];
    assert_eq!(item, 5);
    assert_eq!(x, 12);
    assert_eq!(y, 12);
    assert_eq!(w, 276);
}

#[test]
fn span_without_a_cell_is_refused() {
    let mut g = GridLayout::new();
    assert_eq!(g.span(2, 2), Err(LayoutError::NoCellToSpan));
    let mut l = AccessLayout::new();
    l.span(1, 1);
    assert_eq!(g.access(&l, |_| (1, 1)), Err(LayoutError::NoCellToSpan));
}

#[test]
fn empty_grid_is_refused() {
    let mut g = GridLayout::new();
    let l = AccessLayout::new();
    assert_eq!(g.access(&l, |_| (1, 1)), Err(LayoutError::EmptyGrid));
}

#[test]
fn unwrapped_grid_uses_the_longest_row() {
    let mut g = GridLayout::new();
    let mut l = AccessLayout::new();
    l.add(0).add(1).add(2).wrap();
    l.add(3);
    g.access(&l, |_| (10, 10)).unwrap();
    assert_eq!(position_of(&g, 2), (2, 0));
    assert_eq!(position_of(&g, 3), (0, 1));
    let placed = g.update();
    // Three columns of equal width share the row.
    let w0 = placed[0].1 .2;
    assert_eq!(placed[1].1 .2, w0);
    assert_eq!(placed[2].1 .2, w0);
    assert!(placed[1].1 .0 > placed[0].1 .0);
}

#[test]
fn preferred_height_of_a_span_is_twelve() {
    let c = retained_gui::layout::new_span(2, 2);
    assert_eq!(c.get_preferred_height(), 12);
    let d = retained_gui::layout::new_component(3, 40, 17);
    assert_eq!(d.get_preferred_height(), 17);
}

#[test]
fn setters_change_one_field() {
    let mut c = retained_gui::layout::new_component(3, 40, 17);
    c.set_leading(1);
    c.set_width(2);
    c.set_top(3);
    c.set_height(4);
    match c {
        Cell::Component(k) => {
            assert_eq!((k.leading, k.width, k.top, k.height), (1, 2, 3, 4));
            assert_eq!((k.standard_width, k.standard_height, k.item), (40, 17, 3));
        }
        _ => panic!("wrong cell"),
    }
}

#[test]
fn span_fills_the_block_but_the_anchor() {
    let mut g = GridLayout::new();
    g.add(0, 10, 10).unwrap();
    g.span(2, 2).unwrap();
    let kinds: Vec<(u32, u32, bool)> = g
        .cells()
        .iter()
        .map(|s| (s.position.col, s.position.row, matches!(s.cell, Cell::Component(_))))
        .collect();
    assert_eq!(kinds, vec![(0, 0, true), (1, 0, false), (0, 1, false), (1, 1, false)]);
    // A second span over the same block leaves every taken cell as it is.
    g.span(2, 2).unwrap();
    assert_eq!(g.cells().len(), 4);
    assert!(matches!(g.cells()[0].cell, Cell::Component(_)));
}

#[test]
fn system_of_a_single_cell() {
    let mut g = GridLayout::new();
    g.add(0, 30, 12).unwrap();
    let sys = g.system_of(1, 1);
    // One bottom edit; the row's height edit, width sum and two margins; the
    // column's height sum and two margins; the container's two edits.
    assert_eq!(sys.len(), 10);
    match &sys[1] {
        retained_gui::layout::Request::Edit(v, h) => {
            assert_eq!(*v, retained_gui::layout::VarRef::Height(0, 0));
            assert_eq!(*h, 12);
        }
        _ => panic!("expected an edit"),
    }
    match &sys[2] {
        retained_gui::layout::Request::Constrain(c) => {
            assert_eq!(c.terms.len(), 4);
            assert_eq!(c.strength, retained_gui::layout::REQUIRED);
        }
        _ => panic!("expected a constraint"),
    }
}
