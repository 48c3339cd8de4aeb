use txt::layout::{Container, ContainerType, Layout, Rect, SizeTypeEnum};

fn leaf(key: &str, size: usize, size_type: SizeTypeEnum) -> Container {
    Container {
        size,
        size_type,
        container_type: ContainerType::Leaf,
        nodes: None,
        key: Some(String::from(key)),
    }
}

fn split(kind: ContainerType, size: usize, size_type: SizeTypeEnum, kids: Vec<Container>) -> Container {
    Container { size, size_type, container_type: kind, nodes: Some(kids), key: None }
}

fn rect_of<'a>(out: &'a [(Rect, String)], key: &str) -> &'a Rect {
    &out.iter().find(|(_, k)| k == key).unwrap().0
}

fn overlap(a: &Rect, b: &Rect) -> bool {
    a.x < b.x + b.w && b.x < a.x + a.w && a.y < b.y + b.h && b.y < a.y + a.h
}

#[test]
fn thirty_seventy_split_fills_the_window() {
    let l = Layout {
        gap: 0,
        root: split(
            ContainerType::HSplit,
            100,
            SizeTypeEnum::Percent,
            vec![
                leaf("a", 30, SizeTypeEnum::Percent),
                leaf("b", 70, SizeTypeEnum::Percent),
            ],
        ),
    };
    let out = l.generate(100, 100);
    assert_eq!(out.len(), 2);
    assert_eq!(out[0], (Rect { x: 0, y: 0, w: 30, h: 100 }, String::from("a")));
    assert_eq!(out[1], (Rect { x: 30, y: 0, w: 70, h: 100 }, String::from("b")));
}

#[test]
fn percent_children_conserve_any_extent() {
    // Weights that sum to 100 hand out the whole width, whatever it is,
    // integer division notwithstanding.
    for width in 1..200usize {
        let l = Layout {
            gap: 0,
            root: split(
                ContainerType::HSplit,
                100,
                SizeTypeEnum::Percent,
                vec![
                    leaf("a", 33, SizeTypeEnum::Percent),
                    leaf("b", 33, SizeTypeEnum::Percent),
                    leaf("c", 34, SizeTypeEnum::Percent),
                ],
            ),
        };
        let out = l.generate(width, 50);
        let total: usize = out.iter().map(|(r, _)| r.w).sum();
        assert_eq!(total, width);
    }
}

#[test]
fn gaps_come_out_of_the_extent() {
    let l = Layout {
        gap: 10,
        root: split(
            ContainerType::HSplit,
            100,
            SizeTypeEnum::Percent,
            vec![
                leaf("a", 50, SizeTypeEnum::Percent),
                leaf("b", 50, SizeTypeEnum::Percent),
            ],
        ),
    };
    let out = l.generate(110, 40);
    assert_eq!(*rect_of(&out, "a"), Rect { x: 0, y: 0, w: 50, h: 40 });
    assert_eq!(*rect_of(&out, "b"), Rect { x: 60, y: 0, w: 50, h: 40 });
}

#[test]
fn fixed_child_takes_pixels_and_percents_take_the_rest() {
    let l = Layout {
        gap: 5,
        root: split(
            ContainerType::HSplit,
            100,
            SizeTypeEnum::Percent,
            vec![
                leaf("t1", 100, SizeTypeEnum::Percent),
                split(
                    ContainerType::VSplit,
                    300,
                    SizeTypeEnum::Fixed,
                    vec![
                        leaf("t2", 50, SizeTypeEnum::Percent),
                        leaf("t3", 50, SizeTypeEnum::Percent),
                    ],
                ),
            ],
        ),
    };
    let out = l.generate(1024, 768);
    assert_eq!(out.len(), 3);
    assert_eq!(*rect_of(&out, "t1"), Rect { x: 0, y: 0, w: 719, h: 768 });
    assert_eq!(*rect_of(&out, "t2"), Rect { x: 724, y: 0, w: 300, h: 381 });
    assert_eq!(*rect_of(&out, "t3"), Rect { x: 724, y: 386, w: 300, h: 382 });
}

#[test]
fn leaf_rectangles_never_overlap() {
    let l = Layout {
        gap: 3,
        root: split(
            ContainerType::VSplit,
            100,
            SizeTypeEnum::Percent,
            vec![
                leaf("top", 25, SizeTypeEnum::Percent),
                split(
                    ContainerType::HSplit,
                    40,
                    SizeTypeEnum::Fixed,
                    vec![
                        leaf("left", 60, SizeTypeEnum::Percent),
                        leaf("mid", 80, SizeTypeEnum::Fixed),
                        leaf("right", 40, SizeTypeEnum::Percent),
                    ],
                ),
                leaf("bottom", 75, SizeTypeEnum::Percent),
            ],
        ),
    };
    let out = l.generate(321, 207);
    for i in 0..out.len() {
        for j in (i + 1)..out.len() {
            assert!(!overlap(&out[i].0, &out[j].0));
        }
    }
}

#[test]
fn overflowing_fixed_children_collapse_to_zero() {
    let l = Layout {
        gap: 0,
        root: split(
            ContainerType::HSplit,
            100,
            SizeTypeEnum::Percent,
            vec![
                leaf("big", 200, SizeTypeEnum::Fixed),
                leaf("rest", 100, SizeTypeEnum::Percent),
            ],
        ),
    };
    let out = l.generate(100, 100);
    assert_eq!(*rect_of(&out, "big"), Rect { x: 0, y: 0, w: 100, h: 100 });
    assert_eq!(*rect_of(&out, "rest"), Rect { x: 100, y: 0, w: 0, h: 100 });
}

#[test]
fn single_leaf_fills_the_window() {
    let l = Layout { gap: 7, root: leaf("only", 100, SizeTypeEnum::Percent) };
    let out = l.generate(640, 480);
    assert_eq!(out.len(), 1);
    assert_eq!(out[0].0, Rect { x: 0, y: 0, w: 640, h: 480 });
    assert_eq!(out[0].1, String::from("only"));
}
