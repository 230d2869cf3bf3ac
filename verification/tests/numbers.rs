use sim_circuit::arithmetic_circuit::{AGateType, UnknownGateType};
use sim_circuit::execution::{
    operation_is_defined, power, power_fits, process_operation, truth_value, Operation,
};
use sim_circuit::{Number, NumberError, NumberU32};

fn apply(left: u32, op: AGateType, right: u32) -> Result<u32, NumberError> {
    NumberU32(left).infix_op(op, &NumberU32(right)).map(|number| number.0)
}

fn value(left: u32, op: AGateType, right: u32) -> u32 {
    apply(left, op, right).unwrap()
}

const ALL: [AGateType; 20] = [
    AGateType::AAdd,
    AGateType::ADiv,
    AGateType::AEq,
    AGateType::AGEq,
    AGateType::AGt,
    AGateType::ALEq,
    AGateType::ALt,
    AGateType::AMul,
    AGateType::ANeq,
    AGateType::ASub,
    AGateType::AXor,
    AGateType::APow,
    AGateType::AIntDiv,
    AGateType::AMod,
    AGateType::AShiftL,
    AGateType::AShiftR,
    AGateType::ABoolOr,
    AGateType::ABoolAnd,
    AGateType::ABitOr,
    AGateType::ABitAnd,
];

#[test]
fn operations_compute_on_32_bits() {
    assert_eq!(process_operation(Operation::Add, 4_000_000_000, 294_967_295), u32::MAX);
    assert_eq!(process_operation(Operation::Subtract, 7, 7), 0);
    assert_eq!(process_operation(Operation::Subtract, 9, 2), 7);
    assert_eq!(process_operation(Operation::Multiply, 65_535, 65_537), u32::MAX);
    assert_eq!(process_operation(Operation::Divide, 17, 5), 3);
    assert_eq!(process_operation(Operation::Exponentiate, 2, 31), 2_147_483_648);
    assert_eq!(process_operation(Operation::Exponentiate, 3, 4), 81);
    assert_eq!(process_operation(Operation::Modulus, 17, 5), 2);
    assert_eq!(process_operation(Operation::Equals, 3, 3), 1);
    assert_eq!(process_operation(Operation::Equals, 3, 4), 0);
    assert_eq!(process_operation(Operation::NotEquals, 3, 3), 0);
    assert_eq!(process_operation(Operation::NotEquals, 3, 4), 1);
    assert_eq!(process_operation(Operation::LessThan, 3, 4), 1);
    assert_eq!(process_operation(Operation::LessThan, 4, 4), 0);
    assert_eq!(process_operation(Operation::LessOrEqual, 4, 4), 1);
    assert_eq!(process_operation(Operation::LessOrEqual, 5, 4), 0);
    assert_eq!(process_operation(Operation::GreaterThan, 5, 4), 1);
    assert_eq!(process_operation(Operation::GreaterThan, 4, 4), 0);
    assert_eq!(process_operation(Operation::GreaterOrEqual, 4, 4), 1);
    assert_eq!(process_operation(Operation::GreaterOrEqual, 3, 4), 0);
    assert_eq!(process_operation(Operation::And, 2, 4), 1);
    assert_eq!(process_operation(Operation::And, 2, 0), 0);
    assert_eq!(process_operation(Operation::Or, 0, 4), 1);
    assert_eq!(process_operation(Operation::Or, 0, 0), 0);
    assert_eq!(process_operation(Operation::AndBitwise, 0b1100, 0b1010), 0b1000);
    assert_eq!(process_operation(Operation::OrBitwise, 0b1100, 0b1010), 0b1110);
    assert_eq!(process_operation(Operation::XorBitwise, 0b1100, 0b1010), 0b0110);
    assert_eq!(process_operation(Operation::ShiftLeft, 0x8000_0001, 1), 2);
    assert_eq!(process_operation(Operation::ShiftLeft, 1, 31), 0x8000_0000);
    assert_eq!(process_operation(Operation::ShiftRight, 0x8000_0001, 31), 1);
    assert_eq!(process_operation(Operation::ShiftRight, 5, 0), 5);
}

#[test]
fn power_is_repeated_multiplication() {
    assert_eq!(power(0, 0), 1);
    assert_eq!(power(0, 5), 0);
    assert_eq!(power(1, u32::MAX), 1);
    assert_eq!(power(7, 0), 1);
    assert_eq!(power(7, 1), 7);
    assert_eq!(power(10, 9), 1_000_000_000);
    assert_eq!(power(65_535, 2), 4_294_836_225);
    for base in 0..40u32 {
        for exponent in 0..40u32 {
            assert_eq!(power_fits(base, exponent), base.checked_pow(exponent).is_some());
            if let Some(expected) = base.checked_pow(exponent) {
                assert_eq!(power(base, exponent), expected);
            }
        }
    }
    assert!(power_fits(0, u32::MAX));
    assert!(power_fits(1, u32::MAX));
    assert!(!power_fits(2, u32::MAX));
    assert!(!power_fits(65_536, 2));
}

#[test]
fn defined_is_what_has_a_result_of_32_bits() {
    assert!(operation_is_defined(Operation::Add, u32::MAX, 0));
    assert!(!operation_is_defined(Operation::Add, u32::MAX, 1));
    assert!(operation_is_defined(Operation::Subtract, 4, 4));
    assert!(!operation_is_defined(Operation::Subtract, 4, 5));
    assert!(operation_is_defined(Operation::Multiply, 65_535, 65_537));
    assert!(!operation_is_defined(Operation::Multiply, 65_536, 65_536));
    assert!(operation_is_defined(Operation::Divide, 0, 1));
    assert!(!operation_is_defined(Operation::Divide, 1, 0));
    assert!(!operation_is_defined(Operation::Modulus, 1, 0));
    assert!(operation_is_defined(Operation::Exponentiate, 2, 31));
    assert!(!operation_is_defined(Operation::Exponentiate, 2, 32));
    assert!(operation_is_defined(Operation::ShiftLeft, u32::MAX, 31));
    assert!(!operation_is_defined(Operation::ShiftLeft, 0, 32));
    assert!(!operation_is_defined(Operation::ShiftRight, 0, 32));
    assert!(operation_is_defined(Operation::Equals, u32::MAX, u32::MAX));
    assert!(operation_is_defined(Operation::XorBitwise, u32::MAX, u32::MAX));
}

#[test]
fn truth_is_one_and_falsehood_zero() {
    assert_eq!(truth_value(true), 1);
    assert_eq!(truth_value(false), 0);
}

#[test]
fn gates_compute_on_32_bits() {
    assert_eq!(value(4_000_000_000, AGateType::AAdd, 294_967_295), u32::MAX);
    assert_eq!(value(3, AGateType::AEq, 3), 1);
    assert_eq!(value(3, AGateType::AEq, 2), 0);
    assert_eq!(value(3, AGateType::AGEq, 3), 1);
    assert_eq!(value(2, AGateType::AGEq, 3), 0);
    assert_eq!(value(4, AGateType::AGt, 3), 1);
    assert_eq!(value(3, AGateType::AGt, 3), 0);
    assert_eq!(value(3, AGateType::ALEq, 3), 1);
    assert_eq!(value(4, AGateType::ALEq, 3), 0);
    assert_eq!(value(2, AGateType::ALt, 3), 1);
    assert_eq!(value(3, AGateType::ALt, 3), 0);
    assert_eq!(value(65_535, AGateType::AMul, 65_537), u32::MAX);
    assert_eq!(value(3, AGateType::ANeq, 2), 1);
    assert_eq!(value(3, AGateType::ANeq, 3), 0);
    assert_eq!(value(9, AGateType::ASub, 2), 7);
    assert_eq!(value(0b1100, AGateType::AXor, 0b1010), 0b0110);
    assert_eq!(value(2, AGateType::APow, 31), 2_147_483_648);
    assert_eq!(value(17, AGateType::AIntDiv, 5), 3);
    assert_eq!(value(17, AGateType::AMod, 5), 2);
    assert_eq!(value(0x8000_0001, AGateType::AShiftL, 1), 2);
    assert_eq!(value(0x8000_0001, AGateType::AShiftR, 31), 1);
    assert_eq!(value(0, AGateType::ABoolOr, 9), 1);
    assert_eq!(value(0, AGateType::ABoolOr, 0), 0);
    assert_eq!(value(5, AGateType::ABoolAnd, 9), 1);
    assert_eq!(value(5, AGateType::ABoolAnd, 0), 0);
    assert_eq!(value(0b1100, AGateType::ABitOr, 0b1010), 0b1110);
    assert_eq!(value(0b1100, AGateType::ABitAnd, 0b1010), 0b1000);
}

#[test]
fn division_by_zero_and_field_division_are_errors() {
    assert!(matches!(apply(5, AGateType::AIntDiv, 0), Err(NumberError::DivisionByZero)));
    assert!(matches!(apply(5, AGateType::AMod, 0), Err(NumberError::DivisionByZero)));
    assert!(matches!(
        apply(6, AGateType::ADiv, 3),
        Err(NumberError::UnsupportedOperation(AGateType::ADiv))
    ));
    assert!(matches!(
        apply(6, AGateType::ADiv, 0),
        Err(NumberError::UnsupportedOperation(AGateType::ADiv))
    ));
}

#[test]
fn admitted_is_what_has_a_result_of_32_bits() {
    let admits = |left: u32, op, right: u32| NumberU32(left).admits_op(op, &NumberU32(right));
    assert!(admits(u32::MAX, AGateType::AAdd, 0));
    assert!(!admits(u32::MAX, AGateType::AAdd, 1));
    assert!(admits(65_535, AGateType::AMul, 65_537));
    assert!(!admits(65_536, AGateType::AMul, 65_536));
    assert!(admits(5, AGateType::ASub, 5));
    assert!(!admits(5, AGateType::ASub, 6));
    assert!(admits(2, AGateType::APow, 31));
    assert!(!admits(2, AGateType::APow, 32));
    assert!(admits(1, AGateType::AShiftL, 31));
    assert!(!admits(1, AGateType::AShiftL, 32));
    assert!(admits(1, AGateType::AShiftR, 31));
    assert!(!admits(1, AGateType::AShiftR, 32));
    assert!(admits(1, AGateType::AIntDiv, 0));
    assert!(admits(1, AGateType::AMod, 0));
    assert!(admits(1, AGateType::ADiv, 0));
    for op in ALL {
        assert!(admits(3, op, 2));
    }
}

#[test]
fn numbers_read_as_the_standard_library_reads_them() {
    for text in [
        "0", "7", "007", "+7", "+0", "4294967295", "4294967296", "+4294967295", "99999999999",
        "", "+", "-", "-1", "++1", "1+", " 1", "1 ", "1_000", "0x10", "١٢", "1.0", "+-1",
        "00000000000000000004294967295", "18446744073709551616",
    ] {
        let expected = text.parse::<u32>().ok();
        let found = <NumberU32 as Number>::from_str(text).ok().map(|number| number.0);
        assert_eq!(found, expected);
    }
    assert!(matches!(<NumberU32 as Number>::from_str("x"), Err(NumberError::ParseError)));
    assert_eq!(<NumberU32 as Number>::from_str("+12").unwrap(), NumberU32(12));
}

#[test]
fn numbers_print_in_decimal() {
    for number in [0, 1, 9, 10, 11, 99, 100, 101, 4_294_967_295, 1_000_000_000, 2_147_483_648] {
        assert_eq!(Number::to_string(&NumberU32(number)), number.to_string());
    }
    assert_eq!(Number::to_string(&NumberU32(1203)), "1203");
}

#[test]
fn zero_is_zero_and_a_clone_is_the_number() {
    assert_eq!(<NumberU32 as Number>::zero(), NumberU32(0));
    let number = NumberU32(77);
    assert_eq!(number.clone(), number);
}

#[test]
fn gate_types_are_read_back_from_their_names() {
    let names = [
        "AAdd", "ADiv", "AEq", "AGEq", "AGt", "ALEq", "ALt", "AMul", "ANeq", "ASub", "AXor",
        "APow", "AIntDiv", "AMod", "AShiftL", "AShiftR", "ABoolOr", "ABoolAnd", "ABitOr",
        "ABitAnd",
    ];
    for (op, name) in ALL.iter().zip(names) {
        assert_eq!(op.name(), name);
        assert_eq!(op.to_string(), name);
        assert_eq!(format!("{:?}", op), name);
        assert_eq!(name.parse::<AGateType>(), Ok(*op));
        assert_eq!(AGateType::from_name(&name.chars().collect()), Some(*op));
    }
    for name in ["", "aadd", "AADD", "AAdd ", " AAdd", "AAd", "AAddd", "Add", "ABool", "ABitXor"] {
        assert_eq!(name.parse::<AGateType>(), Err(UnknownGateType));
    }
}
