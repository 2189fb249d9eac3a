use algorithms_and_data_structures::coin::{toss_coin_next, toss_coin_start, TossStep};

/// Runs a draw from `start..end` on the given tosses, in order.
fn draw_d(start: usize, end: usize, tosses: &[usize], arity: usize) -> usize {
    let mut step = toss_coin_start(start, end, arity);
    let mut next = tosses.iter();
    loop {
        match step {
            TossStep::Done(r) => return r,
            TossStep::Toss(d) => {
                let coin = *next.next().expect("ran out of tosses");
                assert!(coin < arity, "invalid predetermined toss coin value");
                step = toss_coin_next(d, coin);
            }
        }
    }
}

fn draw2(start: usize, end: usize, tosses: &[usize]) -> usize {
    draw_d(start, end, tosses, 2)
}

#[test]
fn random_should_return_one_deterministic_element() {
    assert_eq!(draw2(0, 1, &[]), 0);
    assert_eq!(draw2(1, 2, &[]), 1);
    assert_eq!(draw2(2, 3, &[]), 2);
    assert_eq!(draw2(1000023, 1000024, &[]), 1000023);
}

#[test]
fn random_should_return_an_element_from_2_size_range() {
    assert_eq!(draw2(0, 2, &[0]), 0);
    assert_eq!(draw2(0, 2, &[1]), 1);
    assert_eq!(
        draw2(100, 102, &[0]),
        100
    );
    assert_eq!(draw2(45, 47, &[1]), 46);
}

#[test]
fn random_should_return_an_element_from_25_size_range_with_repetition() {
    assert_eq!(
        draw2(0, 25, &[1, 0, 0, 1, 0]),
        18
    );
    assert_eq!(
        draw2(
            101,
            126,
            &[
                1, 1, 1, 1, 1, // 63
                1, 1, 1, 0, 0, // 60
                1, 1, 1, 1, 0, // 62
                1, 0, 0, 1, 0
            ]
        ),
        119
    );
}

#[test]
fn random_should_return_an_element_from_3_size_range() {
    assert_eq!(draw2(0, 3, &[0, 0]), 0);
    assert_eq!(draw2(0, 3, &[0, 1]), 1);
    assert_eq!(draw2(0, 3, &[1, 0]), 2);
    assert_eq!(
        draw2(0, 3, &[1, 1, 0, 1]),
        1
    );

    let start = 10005;
    assert_eq!(
        draw2(start, start + 3, &[0, 0]),
        start
    );
    assert_eq!(
        draw2(start, start + 3, &[0, 1]),
        start + 1
    );
    assert_eq!(
        draw2(start, start + 3, &[1, 0]),
        start + 2
    );
    assert_eq!(
        draw2(start, start + 3, &[1, 1, 0, 1]),
        start + 1
    );
}

#[test]
fn random_should_return_an_element_from_10_size_range() {
    assert_eq!(
        draw2(0, 10, &[0, 0, 0, 0]),
        0
    );
    assert_eq!(
        draw2(0, 10, &[0, 0, 0, 1]),
        1
    );
    assert_eq!(
        draw2(0, 10, &[0, 0, 1, 0]),
        2
    );
    assert_eq!(
        draw2(0, 10, &[0, 0, 1, 1]),
        3
    );
    assert_eq!(
        draw2(0, 10, &[0, 1, 0, 0]),
        4
    );
    assert_eq!(
        draw2(0, 10, &[0, 1, 0, 1]),
        5
    );
    assert_eq!(
        draw2(0, 10, &[0, 1, 1, 0]),
        6
    );
    assert_eq!(
        draw2(0, 10, &[0, 1, 1, 1]),
        7
    );
    assert_eq!(
        draw2(0, 10, &[1, 0, 0, 0]),
        8
    );
    assert_eq!(
        draw2(0, 10, &[1, 0, 0, 1]),
        9
    );
    assert_eq!(
        draw2(0, 10, &[1, 0, 1, 1, 1, 0, 0, 1]),
        9
    );
    assert_eq!(
        draw2(0, 11, &[1, 0, 1, 0]),
        10
    );

    let start = 1234567;
    assert_eq!(
        draw2(start, start + 10, &[0, 0, 0, 0]),
        start
    );
    assert_eq!(
        draw2(start, start + 10, &[0, 0, 0, 1]),
        start + 1
    );
    assert_eq!(
        draw2(start, start + 10, &[0, 0, 1, 0]),
        start + 2
    );
    assert_eq!(
        draw2(start, start + 10, &[0, 0, 1, 1]),
        start + 3
    );
    assert_eq!(
        draw2(start, start + 10, &[0, 1, 0, 0]),
        start + 4
    );
    assert_eq!(
        draw2(start, start + 10, &[0, 1, 0, 1]),
        start + 5
    );
    assert_eq!(
        draw2(start, start + 10, &[0, 1, 1, 0]),
        start + 6
    );
    assert_eq!(
        draw2(start, start + 10, &[0, 1, 1, 1]),
        start + 7
    );
    assert_eq!(
        draw2(start, start + 10, &[1, 0, 0, 0]),
        start + 8
    );
    assert_eq!(
        draw2(start, start + 10, &[1, 0, 0, 1]),
        start + 9
    );
    assert_eq!(
        draw2(
            start,
            start + 10,
            &[1, 0, 1, 1, 1, 0, 0, 1]
        ),
        start + 9
    );
}

#[test]
fn d_ary_should_return_one_deterministic_element() {
    assert_eq!(draw_d(0, 1, &[], 10), 0);
    assert_eq!(draw_d(1, 2, &[], 10), 1);
    assert_eq!(draw_d(2, 3, &[], 2), 2);
    assert_eq!(
        draw_d(1000023, 1000024, &[], 3),
        1000023
    );
}

#[test]
fn d_ary_should_return_an_element_from_2_size_range() {
    assert_eq!(
        draw_d(0, 2, &[0], 2),
        0
    );
    assert_eq!(
        draw_d(0, 2, &[1], 2),
        1
    );
    assert_eq!(
        draw_d(100, 102, &[0], 2),
        100
    );
    assert_eq!(
        draw_d(45, 47, &[1], 2),
        46
    );
    assert_eq!(
        draw_d(45, 47, &[1], 3),
        46
    );
    assert_eq!(
        draw_d(45, 47, &[0], 80),
        45
    );
}

#[test]
fn d_ary_should_return_an_element_from_25_size_range_with_repetition() {
    assert_eq!(
        draw_d(0, 25, &[1, 0, 0, 1, 0], 2),
        18
    );
    assert_eq!(
        draw_d(0, 25, &[2, 0, 0], 3),
        18
    );
    assert_eq!(
        draw_d(
            0,
            25,
            &[2, 2, 2, 2, 0, 0],
            3
        ),
        18
    );
    assert_eq!(
        draw_d(
            101,
            126,
            &[
                1, 1, 1, 1, 1, // 63
                1, 1, 1, 0, 0, // 60
                1, 1, 1, 1, 0, // 62
                1, 0, 0, 1, 0
            ],
            2
        ),
        119
    );
    assert_eq!(
        draw_d(
            101,
            126,
            &[
                2, 0, 0, // 32
                2, 0, 3, // 35
                1, 0, 2
            ],
            4
        ),
        119
    );
}

#[test]
fn d_ary_should_return_an_element_from_3_size_range() {
    assert_eq!(
        draw_d(0, 3, &[0, 0], 2),
        0
    );
    assert_eq!(
        draw_d(0, 3, &[0, 1], 2),
        1
    );
    assert_eq!(
        draw_d(0, 3, &[1, 0], 2),
        2
    );
    assert_eq!(
        draw_d(0, 3, &[1, 1, 0, 1], 2),
        1
    );

    let start = 10005;
    assert_eq!(
        draw_d(start, start + 3, &[0, 0], 2),
        start
    );
    assert_eq!(
        draw_d(start, start + 3, &[0, 1], 2),
        start + 1
    );
    assert_eq!(
        draw_d(start, start + 3, &[1, 0], 2),
        start + 2
    );
    assert_eq!(
        draw_d(
            start,
            start + 3,
            &[1, 1, 0, 1],
            2
        ),
        start + 1
    );
}

#[test]
fn d_ary_should_return_an_element_from_10_size_range() {
    assert_eq!(
        draw_d(0, 10, &[0, 0, 0, 0], 2),
        0
    );
    assert_eq!(
        draw_d(0, 10, &[0, 0, 0, 1], 2),
        1
    );
    assert_eq!(
        draw_d(0, 10, &[0, 0, 1, 0], 2),
        2
    );
    assert_eq!(
        draw_d(0, 10, &[0, 0, 1, 1], 2),
        3
    );
    assert_eq!(
        draw_d(0, 10, &[0, 1, 0, 0], 2),
        4
    );
    assert_eq!(
        draw_d(0, 10, &[0, 1, 0, 1], 2),
        5
    );
    assert_eq!(
        draw_d(0, 10, &[0, 1, 1, 0], 2),
        6
    );
    assert_eq!(
        draw_d(0, 10, &[0, 1, 1, 1], 2),
        7
    );
    assert_eq!(
        draw_d(0, 10, &[1, 0, 0, 0], 2),
        8
    );
    assert_eq!(
        draw_d(0, 10, &[1, 0, 0, 1], 2),
        9
    );
    assert_eq!(
        draw_d(
            0,
            10,
            &[1, 0, 1, 1, 1, 0, 0, 1],
            2
        ),
        9
    );
    assert_eq!(
        draw_d(0, 11, &[1, 0, 1, 0], 2),
        10
    );

    let start = 1234567;
    assert_eq!(
        draw_d(
            start,
            start + 10,
            &[0, 0, 0, 0],
            2
        ),
        start
    );
    assert_eq!(
        draw_d(
            start,
            start + 10,
            &[0, 0, 0, 1],
            2
        ),
        start + 1
    );
    assert_eq!(
        draw_d(
            start,
            start + 10,
            &[0, 0, 1, 0],
            2
        ),
        start + 2
    );
    assert_eq!(
        draw_d(
            start,
            start + 10,
            &[0, 0, 1, 1],
            2
        ),
        start + 3
    );
    assert_eq!(
        draw_d(
            start,
            start + 10,
            &[0, 1, 0, 0],
            2
        ),
        start + 4
    );
    assert_eq!(
        draw_d(
            start,
            start + 10,
            &[0, 1, 0, 1],
            2
        ),
        start + 5
    );
    assert_eq!(
        draw_d(
            start,
            start + 10,
            &[0, 1, 1, 0],
            2
        ),
        start + 6
    );
    assert_eq!(
        draw_d(
            start,
            start + 10,
            &[0, 1, 1, 1],
            2
        ),
        start + 7
    );
    assert_eq!(
        draw_d(
            start,
            start + 10,
            &[1, 0, 0, 0],
            2
        ),
        start + 8
    );
    assert_eq!(
        draw_d(
            start,
            start + 10,
            &[1, 0, 0, 1],
            2
        ),
        start + 9
    );
    assert_eq!(
        draw_d(
            start,
            start + 10,
            &[1, 0, 1, 1, 1, 0, 0, 1],
            2
        ),
        start + 9
    );
    assert_eq!(
        draw_d(
            start,
            start + 10,
            &[1, 1],
            8
        ),
        start + 9
    );
}

#[test]
fn rejected_round_restarts_with_the_full_bound() {
    // 0..3: the first round reads 2 digits (bound 2); 11 = 3 is rejected and
    // the next round, with bound 3, still reads 2 digits
    assert_eq!(draw2(0, 3, &[1, 1, 0, 1]), 1);
    // 0..4 in base 3: bound 3 takes two digits; 22 (= 8) is rejected, then
    // 01 (= 1) is taken
    assert_eq!(draw_d(0, 4, &[2, 2, 0, 1], 3), 1);
}
