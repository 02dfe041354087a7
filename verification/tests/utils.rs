use snake::utils::TwoDimensionalMap;

#[test]
fn should_be_able_to_add_values() {
    let mut arr = TwoDimensionalMap::<i32>::new(30, 30);

    arr[(25, 20)] = 15;
    arr[(13, 9)] = -12;

    assert_eq!(arr[(25, 20)], 15);
    assert_eq!(arr[(13, 9)], -12);
}

#[test]
fn new_table_holds_defaults() {
    let arr = TwoDimensionalMap::<i32>::new(4, 3);
    for y in 0..3 {
        for x in 0..4 {
            assert_eq!(arr[(x, y)], 0);
        }
    }
}

#[test]
fn set_overwrites_one_cell_only() {
    let mut arr = TwoDimensionalMap::<u8>::new(6, 5);
    arr.set((5, 0), 7);
    arr.set((0, 1), 9);
    for y in 0..5 {
        for x in 0..6 {
            let expected = if (x, y) == (5, 0) {
                7
            } else if (x, y) == (0, 1) {
                9
            } else {
                0
            };
            assert_eq!(arr[(x, y)], expected);
        }
    }
}

#[test]
fn cells_of_a_wide_table_are_distinct() {
    let mut arr = TwoDimensionalMap::<u32>::new(7, 2);
    for y in 0..2 {
        for x in 0..7 {
            arr[(x, y)] = (10 * y + x) as u32;
        }
    }
    for y in 0..2 {
        for x in 0..7 {
            assert_eq!(arr[(x, y)], (10 * y + x) as u32);
        }
    }
}

#[test]
fn empty_table_can_be_made() {
    let _arr = TwoDimensionalMap::<bool>::new(0, 5);
    let _arr = TwoDimensionalMap::<bool>::new(5, 0);
}

#[test]
#[should_panic]
fn should_panic_when_out_of_bounds_requested_x() {
    let arr = TwoDimensionalMap::<i32>::new(30, 30);

    arr[(31, 15)];
}

#[test]
#[should_panic]
fn should_panic_when_out_of_bounds_requested_y() {
    let arr = TwoDimensionalMap::<i32>::new(30, 30);

    arr[(15, 31)];
}
