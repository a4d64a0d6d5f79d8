use katas::ast::{Ast, ParseAstError};
use katas::decimal::Decimal;
use std::str::FromStr;

fn decimal(negative: bool, digits: Vec<u8>, scale: usize) -> Ast {
    Ast::Num(Decimal { negative, digits, scale })
}

fn whole(n: i64) -> Ast {
    let mut digits: Vec<u8> = n.unsigned_abs().to_string().bytes().map(|b| b - b'0').collect();
    if n == 0 {
        digits.clear();
    }
    decimal(n < 0, digits, 0)
}

fn op(c: char, l: Ast, r: Ast) -> Ast {
    Ast::Op(c, Box::new(l), Box::new(r))
}

#[test]
fn number() {
    assert_eq!("5".parse(), Ok(whole(5)))
}

#[test]
fn error() {
    assert_eq!(Ast::from_str("abc"), Err(ParseAstError(0)))
}

#[test]
fn negative_number() {
    assert_eq!("-7".parse(), Ok(whole(-7)))
}

#[test]
fn addition() {
    assert_eq!("4+9".parse(), Ok(op('+', whole(4), whole(9))))
}

#[test]
fn left_hand_side_error_low_priority_op() {
    assert_eq!(Ast::from_str("abc+5"), Err(ParseAstError(0)))
}

#[test]
fn right_hand_side_error_low_priority_op() {
    assert_eq!(Ast::from_str("5+abc"), Err(ParseAstError(2)))
}

#[test]
fn subtraction() {
    assert_eq!("6-9".parse(), Ok(op('-', whole(6), whole(9))))
}

#[test]
fn multiplication() {
    assert_eq!("5*6".parse(), Ok(op('*', whole(5), whole(6))))
}

#[test]
fn division() {
    assert_eq!("8/2".parse(), Ok(op('/', whole(8), whole(2))))
}

#[test]
fn many_operation() {
    assert_eq!(
        "5+4*2-27/3".parse(),
        Ok(op(
            '-',
            op('+', whole(5), op('*', whole(4), whole(2))),
            op('/', whole(27), whole(3))
        ))
    )
}

#[test]
fn unknown_operator() {
    assert_eq!(Ast::from_str("5&6"), Err(ParseAstError(1)))
}

#[test]
fn decimal_literals_hold_their_exact_value() {
    assert_eq!("3.25".parse(), Ok(decimal(false, vec![3, 2, 5], 2)));
    assert_eq!("-0.05".parse(), Ok(decimal(true, vec![5], 2)));
    assert_eq!("12.340".parse(), Ok(decimal(false, vec![1, 2, 3, 4], 2)));
    assert_eq!("007".parse(), Ok(whole(7)));
    assert_eq!("5.".parse(), Ok(whole(5)));
    assert_eq!(".5".parse(), Ok(decimal(false, vec![5], 1)));
    assert_eq!("1.000".parse(), Ok(whole(1)));
}

#[test]
fn zero_is_unsigned_in_every_spelling() {
    assert_eq!("0".parse(), Ok(whole(0)));
    assert_eq!("-0".parse(), Ok(whole(0)));
    assert_eq!("-0.00".parse(), Ok(whole(0)));
}

#[test]
fn long_numerals_do_not_overflow() {
    let text = "123456789012345678901234567890";
    let digits: Vec<u8> = text.bytes().map(|b| b - b'0').collect();
    assert_eq!(Ast::from_str(text), Ok(decimal(false, digits, 0)));
}

#[test]
fn empty_input_fails_at_zero() {
    assert_eq!(Ast::from_str(""), Err(ParseAstError(0)));
}

#[test]
fn leading_operator_fails_at_zero() {
    assert_eq!(Ast::from_str("+5"), Err(ParseAstError(0)));
    assert_eq!(Ast::from_str("*5"), Err(ParseAstError(0)));
    assert_eq!(Ast::from_str("x"), Err(ParseAstError(0)));
}

#[test]
fn malformed_literals_fail_at_their_start() {
    assert_eq!(Ast::from_str("1.2.3"), Err(ParseAstError(0)));
    assert_eq!(Ast::from_str("-"), Err(ParseAstError(0)));
    assert_eq!(Ast::from_str("."), Err(ParseAstError(0)));
    assert_eq!(Ast::from_str("2*1..5"), Err(ParseAstError(2)));
    assert_eq!(Ast::from_str("--5"), Err(ParseAstError(0)));
}

#[test]
fn missing_operand_at_the_end_fails_at_zero() {
    assert_eq!(Ast::from_str("5+"), Err(ParseAstError(0)));
    assert_eq!(Ast::from_str("5*"), Err(ParseAstError(0)));
}

#[test]
fn bad_character_fails_at_its_own_offset() {
    assert_eq!(Ast::from_str("12x"), Err(ParseAstError(2)));
    assert_eq!(Ast::from_str("1 + 2"), Err(ParseAstError(1)));
    assert_eq!(Ast::from_str("3*4+5a"), Err(ParseAstError(5)));
}

#[test]
fn first_error_wins() {
    assert_eq!(Ast::from_str("1+a+b"), Err(ParseAstError(2)));
    assert_eq!(Ast::from_str("1.1.1*b"), Err(ParseAstError(0)));
}

#[test]
fn minus_starts_a_negative_operand() {
    assert_eq!("5*-3".parse(), Ok(op('*', whole(5), whole(-3))));
    assert_eq!("6--9".parse(), Ok(op('-', whole(6), whole(-9))));
    assert_eq!("-1-2".parse(), Ok(op('-', whole(-1), whole(2))));
}

#[test]
fn operators_of_one_level_group_to_the_left() {
    assert_eq!(
        "2*3*4".parse(),
        Ok(op('*', op('*', whole(2), whole(3)), whole(4)))
    );
    assert_eq!(
        "8-4-2".parse(),
        Ok(op('-', op('-', whole(8), whole(4)), whole(2)))
    );
}

#[test]
fn multiplicative_nodes_stand_below_additive_ones() {
    assert_eq!(
        "1-2*3+4/5".parse(),
        Ok(op(
            '+',
            op('-', whole(1), op('*', whole(2), whole(3))),
            op('/', whole(4), whole(5))
        ))
    );
    assert_eq!(
        "1*2+3*4".parse(),
        Ok(op('+', op('*', whole(1), whole(2)), op('*', whole(3), whole(4))))
    );
}

#[test]
fn non_ascii_offsets_count_characters() {
    assert_eq!(Ast::from_str("1+é"), Err(ParseAstError(2)));
    assert_eq!(Ast::from_str("2*3-€"), Err(ParseAstError(4)));
}

#[test]
fn numerals_are_read_exactly() {
    assert_eq!(
        Decimal::from_numeral(&['-', '1', '.', '5', '0']),
        Some(Decimal { negative: true, digits: vec![1, 5], scale: 1 })
    );
    assert_eq!(Decimal::from_numeral(&['4', '2']), Some(Decimal { negative: false, digits: vec![4, 2], scale: 0 }));
    assert_eq!(Decimal::from_numeral(&[]), None);
    assert_eq!(Decimal::from_numeral(&['1', '-']), None);
    assert_eq!(Decimal::from_numeral(&['.', '.', '1']), None);
    assert_eq!(Decimal::from_numeral(&['-', '.']), None);
}

#[test]
fn numbers_are_written_as_plain_decimal_text() {
    assert_eq!(Decimal { negative: true, digits: vec![5], scale: 2 }.to_text(), "-0.05");
    assert_eq!(Decimal { negative: false, digits: vec![1, 2, 3, 4], scale: 2 }.to_text(), "12.34");
    assert_eq!(Decimal { negative: false, digits: vec![1, 5], scale: 1 }.to_text(), "1.5");
    assert_eq!(Decimal { negative: false, digits: vec![7], scale: 0 }.to_text(), "7");
    assert_eq!(Decimal { negative: false, digits: vec![], scale: 0 }.to_text(), "0");
    assert_eq!(Decimal { negative: false, digits: vec![3, 1], scale: 3 }.to_text(), "0.031");
}

#[test]
fn literal_text_parses_back_to_the_same_number() {
    assert_eq!(Ast::from_str("-7"), Ok(whole(-7)));
    let numbers = vec![
        Decimal { negative: true, digits: vec![7], scale: 0 },
        Decimal { negative: false, digits: vec![], scale: 0 },
        Decimal { negative: true, digits: vec![2, 5], scale: 3 },
        Decimal { negative: false, digits: vec![9, 0, 1], scale: 1 },
    ];
    for d in numbers {
        let text = d.to_text();
        assert_eq!(Ast::from_str(&text), Ok(Ast::Num(d)));
    }
}
