use lykoi_data::lay::{Direction, Element, Instruction, LayoutError, Sizing};

fn leaf(w: Sizing, h: Sizing) -> Element {
    Element {
        size: (w, h),
        padding: 0,
        gap: 0,
        direction: Direction::LeftRight,
        children: Vec::new(),
    }
}

fn rect(x: u32, y: u32, w: u32, h: u32) -> Instruction {
    Instruction::Rectangle { position: (x, y), size: (w, h) }
}

#[test]
fn lay_end_to_end_left_right() {
    let root = Element {
        size: (Sizing::Fixed(400), Sizing::Fit),
        padding: 20,
        gap: 20,
        direction: Direction::LeftRight,
        children: vec![
            leaf(Sizing::Fixed(100), Sizing::Fixed(100)),
            leaf(Sizing::Grow, Sizing::Grow),
            leaf(Sizing::Fixed(100), Sizing::Fixed(80)),
        ],
    };
    let inst = root.build((0, 0), (0, 0)).unwrap();
    assert_eq!(
        inst,
        vec![
            rect(0, 0, 400, 140),
            rect(20, 20, 100, 100),
            rect(140, 20, 120, 100),
            rect(280, 20, 100, 80),
        ]
    );
}

#[test]
fn lay_unsatisfiable_root() {
    let root = Element {
        size: (Sizing::Fixed(50), Sizing::Fit),
        padding: 0,
        gap: 0,
        direction: Direction::LeftRight,
        children: vec![
            leaf(Sizing::Fixed(40), Sizing::Fixed(40)),
            leaf(Sizing::Fixed(40), Sizing::Fixed(40)),
        ],
    };
    match root.build((0, 0), (0, 0)) {
        Err(LayoutError::Unsatisfiable(path)) => assert!(path.is_empty()),
        Ok(v) => panic!("expected a failure, got {:?}", v),
    }
}

#[test]
fn lay_unsatisfiable_nested_path() {
    // The second child is itself too small for its own content.
    let bad = Element {
        size: (Sizing::Fixed(50), Sizing::Fit),
        padding: 0,
        gap: 0,
        direction: Direction::LeftRight,
        children: vec![leaf(Sizing::Fixed(60), Sizing::Fixed(10))],
    };
    let root = Element {
        size: (Sizing::Fixed(400), Sizing::Fit),
        padding: 0,
        gap: 0,
        direction: Direction::LeftRight,
        children: vec![leaf(Sizing::Fixed(10), Sizing::Fixed(10)), bad],
    };
    match root.build((0, 0), (0, 0)) {
        Err(LayoutError::Unsatisfiable(path)) => assert_eq!(path, vec![1]),
        Ok(v) => panic!("expected a failure, got {:?}", v),
    }
}

#[test]
fn lay_deterministic() {
    let make = || Element {
        size: (Sizing::Fixed(300), Sizing::Fixed(60)),
        padding: 4,
        gap: 3,
        direction: Direction::LeftRight,
        children: vec![
            leaf(Sizing::Grow, Sizing::Grow),
            leaf(Sizing::Fixed(30), Sizing::Fixed(20)),
            leaf(Sizing::Grow, Sizing::Fit),
        ],
    };
    let a = make().build((640, 480), (7, 9)).unwrap();
    let b = make().build((640, 480), (7, 9)).unwrap();
    assert_eq!(a, b);
}

#[test]
fn lay_grow_equalization_residual_to_front() {
    // 10 pixels over three empty growing children: 4, 3, 3.
    let root = Element {
        size: (Sizing::Fixed(10), Sizing::Fixed(5)),
        padding: 0,
        gap: 0,
        direction: Direction::LeftRight,
        children: vec![
            leaf(Sizing::Grow, Sizing::Fixed(5)),
            leaf(Sizing::Grow, Sizing::Fixed(5)),
            leaf(Sizing::Grow, Sizing::Fixed(5)),
        ],
    };
    let inst = root.build((0, 0), (0, 0)).unwrap();
    assert_eq!(
        inst,
        vec![
            rect(0, 0, 10, 5),
            rect(0, 0, 4, 5),
            rect(4, 0, 3, 5),
            rect(7, 0, 3, 5),
        ]
    );
}

#[test]
fn lay_grow_tiers_fill_smallest_first() {
    // Children start at 10 and 30; 40 leftover pixels end them both at 40.
    let root = Element {
        size: (Sizing::Fixed(80), Sizing::Fixed(10)),
        padding: 0,
        gap: 0,
        direction: Direction::LeftRight,
        children: vec![
            Element {
                size: (Sizing::Grow, Sizing::Fixed(10)),
                padding: 5,
                gap: 0,
                direction: Direction::LeftRight,
                children: Vec::new(),
            },
            Element {
                size: (Sizing::Grow, Sizing::Fixed(10)),
                padding: 15,
                gap: 0,
                direction: Direction::LeftRight,
                children: Vec::new(),
            },
        ],
    };
    let inst = root.build((0, 0), (0, 0)).unwrap();
    assert_eq!(
        inst,
        vec![
            rect(0, 0, 80, 10),
            rect(0, 0, 40, 10),
            rect(40, 0, 40, 10),
        ]
    );
}

#[test]
fn lay_cross_stretch() {
    let root = Element {
        size: (Sizing::Fixed(100), Sizing::Fixed(50)),
        padding: 5,
        gap: 0,
        direction: Direction::LeftRight,
        children: vec![leaf(Sizing::Fixed(10), Sizing::Grow)],
    };
    let inst = root.build((0, 0), (0, 0)).unwrap();
    // The growing cross-axis child spans the cross size less both paddings.
    assert_eq!(inst[1], rect(5, 5, 10, 40));
}

#[test]
fn lay_top_bottom_direction() {
    let root = Element {
        size: (Sizing::Fit, Sizing::Fit),
        padding: 2,
        gap: 3,
        direction: Direction::TopBottom,
        children: vec![
            leaf(Sizing::Fixed(10), Sizing::Fixed(4)),
            leaf(Sizing::Fixed(6), Sizing::Fixed(5)),
        ],
    };
    let inst = root.build((0, 0), (0, 0)).unwrap();
    // Fit sizes: width = max(10, 6) + 4 = 14, height = 4 + 3 + 5 + 4 = 16.
    assert_eq!(
        inst,
        vec![
            rect(0, 0, 14, 16),
            rect(2, 2, 10, 4),
            rect(2, 9, 6, 5),
        ]
    );
}

#[test]
fn lay_grow_root_takes_viewport() {
    let root = Element {
        size: (Sizing::Grow, Sizing::Grow),
        padding: 0,
        gap: 0,
        direction: Direction::LeftRight,
        children: Vec::new(),
    };
    let inst = root.build((640, 480), (0, 0)).unwrap();
    assert_eq!(inst, vec![rect(0, 0, 640, 480)]);
}

#[test]
fn lay_childless_fit_is_twice_padding() {
    let root = Element {
        size: (Sizing::Fit, Sizing::Fit),
        padding: 9,
        gap: 7,
        direction: Direction::LeftRight,
        children: Vec::new(),
    };
    let inst = root.build((0, 0), (0, 0)).unwrap();
    assert_eq!(inst, vec![rect(0, 0, 18, 18)]);
}

#[test]
fn lay_padding_larger_than_fixed_size_fails() {
    let root = Element {
        size: (Sizing::Fixed(10), Sizing::Fixed(10)),
        padding: 20,
        gap: 0,
        direction: Direction::LeftRight,
        children: Vec::new(),
    };
    assert!(root.build((0, 0), (0, 0)).is_err());
}

#[test]
fn lay_fixed_fidelity_under_pressure() {
    // A Fixed child keeps its declared size whether space is scarce or
    // abundant next to a growing sibling.
    let root = Element {
        size: (Sizing::Fixed(500), Sizing::Fixed(50)),
        padding: 0,
        gap: 0,
        direction: Direction::LeftRight,
        children: vec![
            leaf(Sizing::Fixed(100), Sizing::Fixed(33)),
            leaf(Sizing::Grow, Sizing::Fixed(10)),
        ],
    };
    let inst = root.build((0, 0), (0, 0)).unwrap();
    assert_eq!(inst[1], rect(0, 0, 100, 33));
    assert_eq!(inst[2], rect(100, 0, 400, 10));
}

#[test]
fn lay_containment_on_built_tree() {
    let root = Element {
        size: (Sizing::Fixed(97), Sizing::Fixed(40)),
        padding: 3,
        gap: 5,
        direction: Direction::LeftRight,
        children: vec![
            leaf(Sizing::Fixed(20), Sizing::Fixed(10)),
            leaf(Sizing::Grow, Sizing::Fixed(10)),
            leaf(Sizing::Fixed(30), Sizing::Fixed(10)),
        ],
    };
    let inst = root.build((0, 0), (0, 0)).unwrap();
    let widths: Vec<u32> = inst[1..]
        .iter()
        .map(|i| match i {
            Instruction::Rectangle { size, .. } => size.0,
        })
        .collect();
    let total: u32 = widths.iter().sum::<u32>() + 5 * 2 + 3 * 2;
    assert!(total <= 97);
    // With a growing child present the space is consumed exactly.
    assert_eq!(total, 97);
}

#[test]
fn lay_largest_size_single_grow() {
    let root = Element {
        size: (Sizing::Fixed(u32::MAX), Sizing::Fixed(1)),
        padding: 0,
        gap: 0,
        direction: Direction::LeftRight,
        children: vec![leaf(Sizing::Grow, Sizing::Fixed(1))],
    };
    let inst = root.build((0, 0), (0, 0)).unwrap();
    assert_eq!(inst[1], rect(0, 0, u32::MAX, 1));
}

#[test]
fn lay_origin_near_pixel_limit_fails() {
    let root = Element {
        size: (Sizing::Fixed(100), Sizing::Fixed(100)),
        padding: 0,
        gap: 0,
        direction: Direction::LeftRight,
        children: Vec::new(),
    };
    // The root's frame would leave the pixel range.
    match root.build((0, 0), (u32::MAX - 10, 0)) {
        Err(LayoutError::Unsatisfiable(path)) => assert!(path.is_empty()),
        Ok(v) => panic!("expected a failure, got {:?}", v),
    }
}

#[test]
fn lay_default_element_is_empty_fit() {
    let e = Element::new();
    let inst = e.build((100, 100), (3, 4)).unwrap();
    assert_eq!(inst, vec![rect(3, 4, 0, 0)]);
}
