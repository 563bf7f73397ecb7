use bf_ir::error::CompileError;
use bf_ir::opcode::{Code, Opcode};

fn lex(src: &str) -> Result<Code, CompileError> {
    Code::from(src.as_bytes().to_vec())
}

#[test]
fn byte_table_is_fixed() {
    assert_eq!(Opcode::SHR.into(), 0x3E);
    assert_eq!(Opcode::SHL.into(), 0x3C);
    assert_eq!(Opcode::ADD.into(), 0x2B);
    assert_eq!(Opcode::SUB.into(), 0x2D);
    assert_eq!(Opcode::PUTCHAR.into(), 0x2E);
    assert_eq!(Opcode::GETCHAR.into(), 0x2C);
    assert_eq!(Opcode::LB.into(), 0x5B);
    assert_eq!(Opcode::RB.into(), 0x5D);
}

#[test]
fn from_byte_gives_each_opcode() {
    assert_eq!(Opcode::from(b'>'), Opcode::SHR);
    assert_eq!(Opcode::from(b'<'), Opcode::SHL);
    assert_eq!(Opcode::from(b'+'), Opcode::ADD);
    assert_eq!(Opcode::from(b'-'), Opcode::SUB);
    assert_eq!(Opcode::from(b'.'), Opcode::PUTCHAR);
    assert_eq!(Opcode::from(b','), Opcode::GETCHAR);
    assert_eq!(Opcode::from(b'['), Opcode::LB);
    assert_eq!(Opcode::from(b']'), Opcode::RB);
}

#[test]
fn recognizes_exactly_the_alphabet() {
    let mut count = 0;
    for b in 0..=255u8 {
        if Opcode::recognizes(b) {
            count += 1;
            assert_eq!(Opcode::from(b).into(), b);
        }
    }
    assert_eq!(count, 8);
    assert!(!Opcode::recognizes(b' '));
    assert!(!Opcode::recognizes(b'a'));
    assert!(!Opcode::recognizes(0));
}

#[test]
fn lex_moves_and_increments() {
    let code = lex(">>++<<").unwrap();
    assert_eq!(
        code.instruct,
        vec![
            Opcode::SHR,
            Opcode::SHR,
            Opcode::ADD,
            Opcode::ADD,
            Opcode::SHL,
            Opcode::SHL
        ]
    );
    assert!(code.j_table.is_empty());
}

#[test]
fn lex_empty_input() {
    let code = Code::from(Vec::new()).unwrap();
    assert!(code.instruct.is_empty());
    assert!(code.j_table.is_empty());
}

#[test]
fn lex_drops_other_bytes() {
    let code = lex("a + b\n- c [x] \t.,").unwrap();
    assert_eq!(
        code.instruct,
        vec![
            Opcode::ADD,
            Opcode::SUB,
            Opcode::LB,
            Opcode::RB,
            Opcode::PUTCHAR,
            Opcode::GETCHAR
        ]
    );
    assert_eq!(code.j_table.len(), 2);
    assert_eq!(code.j_table.get(&2), Some(&3));
    assert_eq!(code.j_table.get(&3), Some(&2));
}

#[test]
fn lex_only_comments() {
    let code = lex("hello world\n").unwrap();
    assert!(code.instruct.is_empty());
    assert!(code.j_table.is_empty());
}

#[test]
fn lex_links_a_loop_both_ways() {
    let code = lex("[]").unwrap();
    assert_eq!(code.instruct, vec![Opcode::LB, Opcode::RB]);
    assert_eq!(code.j_table.len(), 2);
    assert_eq!(code.j_table.get(&0), Some(&1));
    assert_eq!(code.j_table.get(&1), Some(&0));
}

#[test]
fn lex_links_nested_and_adjacent_loops() {
    let code = lex("[[-]>[+]]").unwrap();
    assert_eq!(code.j_table.len(), 6);
    assert_eq!(code.j_table.get(&0), Some(&8));
    assert_eq!(code.j_table.get(&8), Some(&0));
    assert_eq!(code.j_table.get(&1), Some(&3));
    assert_eq!(code.j_table.get(&3), Some(&1));
    assert_eq!(code.j_table.get(&5), Some(&7));
    assert_eq!(code.j_table.get(&7), Some(&5));
    assert_eq!(code.j_table.get(&2), None);
}

#[test]
fn lex_table_is_symmetric() {
    let code = lex("+[>[<-]>[[.],]<]-[]").unwrap();
    for (k, v) in code.j_table.iter() {
        assert_eq!(code.j_table.get(v), Some(k));
        let (open, close) = if k < v { (*k, *v) } else { (*v, *k) };
        assert_eq!(code.instruct[open], Opcode::LB);
        assert_eq!(code.instruct[close], Opcode::RB);
    }
    let markers = code
        .instruct
        .iter()
        .filter(|op| **op == Opcode::LB || **op == Opcode::RB)
        .count();
    assert_eq!(code.j_table.len(), markers);
}

#[test]
fn lex_close_alone_fails() {
    assert_eq!(lex("]").err(), Some(CompileError::UnbalancedLoop));
}

#[test]
fn lex_close_after_closed_loop_fails() {
    assert_eq!(lex("[]]").err(), Some(CompileError::UnbalancedLoop));
    assert_eq!(lex("+]+[").err(), Some(CompileError::UnbalancedLoop));
}

#[test]
fn lex_trailing_open_is_accepted() {
    let code = lex("[").unwrap();
    assert_eq!(code.instruct, vec![Opcode::LB]);
    assert!(code.j_table.is_empty());
    let code = lex("[[]").unwrap();
    assert_eq!(code.j_table.len(), 2);
    assert_eq!(code.j_table.get(&1), Some(&2));
    assert_eq!(code.j_table.get(&2), Some(&1));
    assert_eq!(code.j_table.get(&0), None);
}
