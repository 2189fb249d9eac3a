use algorithms_and_data_structures::logic_gates::{and, xor};

/// One input pair of a gate, with the expected output.
struct TestTemplate<'a> {
    input: (u8, u8),
    expected: u8,
    description: &'a str,
}

#[test]
fn test_and() {
    let test_cases: [TestTemplate; 4] = [
        TestTemplate { input: (0, 0), expected: 0, description: "0 ^ 0 = 0" },
        TestTemplate { input: (0, 1), expected: 0, description: "0 ^ 1 = 0" },
        TestTemplate { input: (1, 0), expected: 0, description: "1 ^ 0 = 0" },
        TestTemplate { input: (1, 1), expected: 1, description: "1 ^ 1 = 1" },
    ];
    for TestTemplate { input: (a, b), expected, description } in test_cases {
        assert_eq!(and(a, b), expected, "{}", description);
    }
}

#[test]
fn test_xor() {
    let test_cases: [TestTemplate; 4] = [
        TestTemplate { input: (0, 0), expected: 0, description: "0 ^ 0 = 0" },
        TestTemplate { input: (0, 1), expected: 1, description: "0 ^ 1 = 1" },
        TestTemplate { input: (1, 0), expected: 1, description: "1 ^ 0 = 1" },
        TestTemplate { input: (1, 1), expected: 0, description: "1 ^ 1 = 0" },
    ];
    for TestTemplate { input: (a, b), expected, description } in test_cases {
        assert_eq!(xor(a, b), expected, "{}", description);
    }
}

type Sum = u8;
type Carry = u8;

fn half_adder_test_cases() -> Vec<((u8, u8), (Sum, Carry))> {
    vec![
        ((0, 0), (0, 0)),
        ((0, 1), (1, 0)),
        ((1, 0), (1, 0)),
        ((1, 1), (0, 1)),
    ]
}

fn half_adder(a: u8, b: u8) -> (Sum, Carry) {
    (xor(a, b), and(a, b))
}

#[test]
fn one_bit_adder() {
    for (input, output) in half_adder_test_cases() {
        let (a, b) = input;
        let (sum, carry) = output;
        println!("Testing: {} + {} = {} (Carry: {})", a, b, sum, carry);
        assert_eq!(half_adder(a, b), output);
    }
}

#[test]
fn gates_read_only_the_lowest_bit() {
    assert_eq!(and(3, 5), 1);
    assert_eq!(and(2, 3), 0);
    assert_eq!(xor(2, 3), 1);
    assert_eq!(xor(7, 9), 0);
}
