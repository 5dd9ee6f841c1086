use rtree::geom::{Point, Rect};

#[test]
fn needed_growth_test() {
    let r1 = Rect { x0: 0, y0: 0, x1: 100, y1: 100 };
    let r2 = Rect { x0: 0, y0: 0, x1: 100, y1: 101 };
    let r3 = Rect { x0: 0, y0: 0, x1: 101, y1: 101 };
    let r4 = Rect { x0: -1, y0: -1, x1: 101, y1: 101 };
    assert_eq!(r1.needed_growth(&r2), 100);
    assert_eq!(r1.needed_growth(&r3), 201);
    assert_eq!(r1.needed_growth(&r4), 404);
}

#[test]
fn grow_test() {
    let r1 = Rect { x0: 0, y0: 0, x1: 100, y1: 100 };
    let r2 = Rect { x0: 200, y0: 200, x1: 200, y1: 200 };
    let g = r1.grow(&r2);
    assert_eq!(g.x0, 0);
    assert_eq!(g.y0, 0);
    assert_eq!(g.x1, 200);
    assert_eq!(g.y1, 200);
}

#[test]
fn growth_of_self_is_zero() {
    let rects = [
        Rect { x0: 0, y0: 0, x1: 0, y1: 0 },
        Rect { x0: -7, y0: 3, x1: 12, y1: 9 },
        Rect { x0: 5, y0: 5, x1: 5, y1: 5 },
    ];
    for r in rects.iter() {
        assert_eq!(r.needed_growth(r), 0);
    }
}

#[test]
fn growth_monotone_in_target() {
    let base = Rect { x0: 0, y0: 0, x1: 10, y1: 10 };
    let small = Rect { x0: 12, y0: 0, x1: 14, y1: 10 };
    let big = Rect { x0: 12, y0: -5, x1: 20, y1: 10 };
    // `big` contains `small`, so covering it costs at least as much.
    assert!(base.needed_growth(&small) <= base.needed_growth(&big));
    let bigger = Rect { x0: -100, y0: -100, x1: 100, y1: 100 };
    assert!(base.needed_growth(&big) <= base.needed_growth(&bigger));
}

#[test]
fn grow_commutative_associative_idempotent() {
    let a = Rect { x0: -3, y0: 2, x1: 4, y1: 8 };
    let b = Rect { x0: 0, y0: -5, x1: 9, y1: 1 };
    let c = Rect { x0: 7, y0: 7, x1: 30, y1: 30 };
    assert_eq!(a.grow(&b), b.grow(&a));
    assert_eq!(a.grow(&b).grow(&c), a.grow(&b.grow(&c)));
    assert_eq!(a.grow(&a), a);
}

#[test]
fn width_height_and_center() {
    let r = Rect { x0: 0, y0: 0, x1: 5, y1: 9 };
    assert_eq!(r.width(), 5);
    assert_eq!(r.height(), 9);
    assert_eq!(r.center(), Point { x: 2, y: 4 });
    let n = Rect { x0: -5, y0: -5, x1: 0, y1: 0 };
    assert_eq!(n.center(), Point { x: -3, y: -3 });
    // A malformed rectangle still has a center, rounded toward zero.
    let m = Rect { x0: 10, y0: 10, x1: 0, y1: 0 };
    assert_eq!(m.center(), Point { x: 5, y: 5 });
}
