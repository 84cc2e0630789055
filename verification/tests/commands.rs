use confertus::parse::{parse_command, parse_number, split_words, ParseError};
use confertus::script::{parse_bit, Script, ScriptError};
use confertus::{BitVecError, Command, DynamicBitVector};

#[test]
fn lines_are_cut_at_spaces() {
    assert_eq!(split_words(b"insert 5 1"), vec![b"insert".to_vec(), b"5".to_vec(), b"1".to_vec()]);
    assert_eq!(split_words(b"  flip   12 "), vec![b"flip".to_vec(), b"12".to_vec()]);
    assert_eq!(split_words(b""), Vec::<Vec<u8>>::new());
    assert_eq!(split_words(b"   "), Vec::<Vec<u8>>::new());
    assert_eq!(split_words(b"a"), vec![b"a".to_vec()]);
}

#[test]
fn numbers_are_decimal_digits() {
    assert_eq!(parse_number(b"0"), Some(0));
    assert_eq!(parse_number(b"007"), Some(7));
    assert_eq!(parse_number(b"1234567890"), Some(1_234_567_890));
    assert_eq!(parse_number(b""), None);
    assert_eq!(parse_number(b"12a"), None);
    assert_eq!(parse_number(b"-1"), None);
    assert_eq!(parse_number(b" 1"), None);
    assert_eq!(parse_number(usize::MAX.to_string().as_bytes()), Some(usize::MAX));
    assert_eq!(parse_number(b"18446744073709551616"), None);
    assert_eq!(parse_number(b"99999999999999999999999"), None);
}

#[test]
fn commands_are_read_by_their_first_word() {
    assert_eq!(parse_command(b"insert 5 1"), Ok(Command::Insert(5, true)));
    assert_eq!(parse_command(b"insert 5 0"), Ok(Command::Insert(5, false)));
    assert_eq!(parse_command(b"insert 5 yes"), Ok(Command::Insert(5, true)));
    assert_eq!(parse_command(b"delete 77"), Ok(Command::Delete(77)));
    assert_eq!(parse_command(b"flip   3"), Ok(Command::Flip(3)));
    assert_eq!(parse_command(b"rank 0 12"), Ok(Command::Rank(false, 12)));
    assert_eq!(parse_command(b"rank 1 12"), Ok(Command::Rank(true, 12)));
    assert_eq!(parse_command(b"select 1 0 and more"), Ok(Command::Select(true, 0)));
}

#[test]
fn lines_that_are_no_commands() {
    assert_eq!(parse_command(b""), Err(ParseError::Empty));
    assert_eq!(parse_command(b"  "), Err(ParseError::Empty));
    assert_eq!(parse_command(b"push 1"), Err(ParseError::UnknownCommand));
    assert_eq!(parse_command(b"Insert 1 1"), Err(ParseError::UnknownCommand));
    assert_eq!(parse_command(b"insert"), Err(ParseError::MissingArgument));
    assert_eq!(parse_command(b"insert 4"), Err(ParseError::MissingArgument));
    assert_eq!(parse_command(b"insert x"), Err(ParseError::BadNumber));
    assert_eq!(parse_command(b"insert x 1"), Err(ParseError::BadNumber));
    assert_eq!(parse_command(b"delete"), Err(ParseError::MissingArgument));
    assert_eq!(parse_command(b"flip 1x"), Err(ParseError::BadNumber));
    assert_eq!(parse_command(b"rank 1"), Err(ParseError::MissingArgument));
    assert_eq!(parse_command(b"rank 1 x"), Err(ParseError::BadNumber));
    assert_eq!(parse_command(b"select x"), Err(ParseError::MissingArgument));
}

#[test]
fn bit_lines() {
    assert_eq!(parse_bit(b"0"), Some(false));
    assert_eq!(parse_bit(b"1"), Some(true));
    assert_eq!(parse_bit(b""), None);
    assert_eq!(parse_bit(b"2"), None);
    assert_eq!(parse_bit(b"01"), None);
}

#[test]
fn running_commands() {
    let mut d = DynamicBitVector::new();
    for b in [true, false, true, true] {
        d.push(b);
    }
    assert_eq!(d.run(Command::Rank(true, 4)), Ok(Some(3)));
    assert_eq!(d.run(Command::Rank(false, 2)), Ok(Some(1)));
    assert_eq!(d.run(Command::Rank(false, 5)), Err(BitVecError::OutOfBounds));
    assert_eq!(d.run(Command::Select(true, 2)), Ok(Some(3)));
    assert_eq!(d.run(Command::Select(false, 1)), Err(BitVecError::NotFound));
    assert_eq!(d.run(Command::Insert(1, true)), Ok(None));
    assert_eq!(d.run(Command::Flip(0)), Ok(None));
    assert_eq!(d.run(Command::Delete(4)), Ok(None));
    assert_eq!(d.run(Command::Delete(4)), Err(BitVecError::OutOfBounds));
    assert_eq!(d.run(Command::Insert(5, true)), Err(BitVecError::OutOfBounds));
    assert_eq!(d.run(Command::Flip(4)), Err(BitVecError::OutOfBounds));
    let bits: Vec<bool> = (0..d.len()).map(|i| d.access(i)).collect();
    assert_eq!(bits, vec![false, true, false, true]);
}

#[test]
fn a_script_line_by_line() {
    let mut d = DynamicBitVector::new();
    let mut s = Script::new();
    let lines: [&[u8]; 9] = [
        b"3", b"1", b"0", b"1", b"insert 0 0", b"rank 1 4", b"select 0 1", b"flip 3", b"rank 1 4",
    ];
    let mut out = Vec::new();
    for line in lines {
        if let Some(v) = s.step(&mut d, line).unwrap() {
            out.push(v);
        }
    }
    assert_eq!(out, vec![2, 2, 1]);
    assert_eq!(s, Script { started: true, to_push: 0 });
    assert_eq!(d.len(), 4);
}

#[test]
fn a_script_that_fails() {
    let mut d = DynamicBitVector::new();
    let mut s = Script::new();
    assert_eq!(s.step(&mut d, b"two"), Err(ScriptError::Count));
    assert_eq!(s, Script::new());
    assert_eq!(s.step(&mut d, b"2"), Ok(None));
    assert_eq!(s.step(&mut d, b"x"), Err(ScriptError::Bit));
    assert_eq!(s.step(&mut d, b"1"), Ok(None));
    assert_eq!(s.step(&mut d, b"1"), Ok(None));
    assert_eq!(s.step(&mut d, b"1"), Err(ScriptError::Line(ParseError::UnknownCommand)));
    assert_eq!(s.step(&mut d, b"delete 2"), Err(ScriptError::Vector(BitVecError::OutOfBounds)));
    assert_eq!(s.step(&mut d, b"select 0 0"), Err(ScriptError::Vector(BitVecError::NotFound)));
    assert_eq!(s.step(&mut d, b"delete 1"), Ok(None));
    assert_eq!(d.len(), 1);
}
