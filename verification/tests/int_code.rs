use aoc::y19_intcode::{execute_int_code, parse_int_code, Error};

#[test]
fn test_execute_int_code0() {
    let mut int_code = vec![1, 9, 10, 3, 2, 3, 11, 0, 99, 30, 40, 50];
    let _step_count = execute_int_code(&mut int_code).unwrap();
    assert_eq!(int_code[0], 3500);
}

#[test]
fn int_code_small_programs() {
    let mut code = vec![1, 0, 0, 0, 99, 0, 0, 0];
    assert!(matches!(execute_int_code(&mut code), Ok(1)));
    assert_eq!(code, vec![2, 0, 0, 0, 99, 0, 0, 0]);

    let mut code = vec![1, 1, 1, 4, 99, 5, 6, 0, 99, 0, 0, 0];
    assert!(matches!(execute_int_code(&mut code), Ok(2)));
    assert_eq!(code, vec![30, 1, 1, 4, 2, 5, 6, 0, 99, 0, 0, 0]);
}

#[test]
fn int_code_halt_reads_a_whole_instruction() {
    let mut code = vec![2, 4, 4, 5, 99, 0];
    assert!(matches!(execute_int_code(&mut code), Err(Error::IndexError(6))));
    assert_eq!(code, vec![2, 4, 4, 5, 99, 9801]);
}

#[test]
fn int_code_errors() {
    let mut code = vec![7, 0, 0, 0];
    assert!(matches!(execute_int_code(&mut code), Err(Error::InvalidOpCode(7))));

    let mut code = vec![1, 0, 0];
    assert!(matches!(execute_int_code(&mut code), Err(Error::IndexError(3))));

    let mut code = vec![1, 0, 10, 0, 99];
    assert!(matches!(execute_int_code(&mut code), Err(Error::IndexError(10))));

    let mut code = vec![99];
    assert!(matches!(execute_int_code(&mut code), Err(Error::IndexError(1))));
}

#[test]
fn programs_are_read() {
    assert_eq!(parse_int_code("1,9,10,3, 2,3,11,0 ,99").unwrap(), vec![1, 9, 10, 3, 2, 3, 11, 0, 99]);
    assert!(matches!(parse_int_code("1,x,3"), Err(Error::ParseIntError(s)) if s == "x"));
    assert!(matches!(parse_int_code("1, -2 ,3"), Err(Error::ParseIntError(s)) if s == " -2 "));
    assert!(matches!(parse_int_code("1,2,"), Err(Error::ParseIntError(s)) if s.is_empty()));
}
