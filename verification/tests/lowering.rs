use bf_ir::error::CompileError;
use bf_ir::ir::{Code, IR};
use bf_ir::opcode::Opcode;

fn lower(src: &str) -> Result<Code, CompileError> {
    let lexed = bf_ir::opcode::Code::from(src.as_bytes().to_vec())?;
    Code::from(lexed.instruct)
}

#[test]
fn lower_folds_moves_and_increments() {
    let code = lower(">>++<<").unwrap();
    assert_eq!(code.instruct, vec![IR::SHR(2), IR::ADD(2), IR::SHL(2)]);
}

#[test]
fn lower_empty_loop() {
    let code = lower("[]").unwrap();
    assert_eq!(code.instruct, vec![IR::JIZ(1), IR::JNZ(0)]);
}

#[test]
fn lower_clear_loop() {
    let code = lower("[-]").unwrap();
    assert_eq!(code.instruct, vec![IR::JIZ(2), IR::SUB(1), IR::JNZ(0)]);
}

#[test]
fn lower_close_alone_fails() {
    assert_eq!(
        Code::from(vec![Opcode::RB]).err(),
        Some(CompileError::UnbalancedLoop)
    );
    assert_eq!(lower("]").err(), Some(CompileError::UnbalancedLoop));
}

#[test]
fn lower_close_without_opener_fails_midway() {
    assert_eq!(
        Code::from(vec![Opcode::LB, Opcode::RB, Opcode::RB, Opcode::ADD]).err(),
        Some(CompileError::UnbalancedLoop)
    );
}

#[test]
fn lower_ignores_comment_bytes() {
    let code = lower("  > x > \n + y + <z<").unwrap();
    assert_eq!(code.instruct, vec![IR::SHR(2), IR::ADD(2), IR::SHL(2)]);
}

#[test]
fn lower_empty_program() {
    let code = Code::from(Vec::new()).unwrap();
    assert!(code.instruct.is_empty());
}

#[test]
fn lower_add_wraps_at_256() {
    let code = Code::from(vec![Opcode::ADD; 255]).unwrap();
    assert_eq!(code.instruct, vec![IR::ADD(255)]);
    let code = Code::from(vec![Opcode::ADD; 256]).unwrap();
    assert_eq!(code.instruct, vec![IR::ADD(0)]);
    let code = Code::from(vec![Opcode::ADD; 257]).unwrap();
    assert_eq!(code.instruct, vec![IR::ADD(1)]);
}

#[test]
fn lower_sub_wraps_at_256() {
    let code = Code::from(vec![Opcode::SUB; 256]).unwrap();
    assert_eq!(code.instruct, vec![IR::SUB(0)]);
    let code = Code::from(vec![Opcode::SUB; 515]).unwrap();
    assert_eq!(code.instruct, vec![IR::SUB(3)]);
}

#[test]
fn folded_add_acts_as_single_increments() {
    for n in [0usize, 1, 7, 255, 256, 257, 1000] {
        let code = Code::from(vec![Opcode::ADD; n]).unwrap();
        for start in [0u8, 1, 200, 255] {
            let mut stepwise = start;
            for _ in 0..n {
                stepwise = stepwise.wrapping_add(1);
            }
            let mut folded = start;
            for ins in code.instruct.iter() {
                match ins {
                    IR::ADD(c) => folded = folded.wrapping_add(*c),
                    _ => panic!("only additions are expected"),
                }
            }
            assert_eq!(folded, stepwise);
        }
    }
}

#[test]
fn lower_moves_do_not_wrap() {
    let code = Code::from(vec![Opcode::SHR; 300]).unwrap();
    assert_eq!(code.instruct, vec![IR::SHR(300)]);
    let code = Code::from(vec![Opcode::SHL; 70000]).unwrap();
    assert_eq!(code.instruct, vec![IR::SHL(70000)]);
}

#[test]
fn lower_never_folds_output_or_input() {
    let code = lower("..,,").unwrap();
    assert_eq!(
        code.instruct,
        vec![IR::PUTCHAR, IR::PUTCHAR, IR::GETCHAR, IR::GETCHAR]
    );
}

#[test]
fn lower_does_not_fold_across_other_instructions() {
    let code = lower("+>+<+.+-+").unwrap();
    assert_eq!(
        code.instruct,
        vec![
            IR::ADD(1),
            IR::SHR(1),
            IR::ADD(1),
            IR::SHL(1),
            IR::ADD(1),
            IR::PUTCHAR,
            IR::ADD(1),
            IR::SUB(1),
            IR::ADD(1)
        ]
    );
}

#[test]
fn lower_does_not_fold_across_loop_markers() {
    let code = lower("+[+]+").unwrap();
    assert_eq!(
        code.instruct,
        vec![IR::ADD(1), IR::JIZ(3), IR::ADD(1), IR::JNZ(1), IR::ADD(1)]
    );
}

#[test]
fn lower_nested_loops() {
    let code = lower("[>>[-]<<]").unwrap();
    assert_eq!(
        code.instruct,
        vec![
            IR::JIZ(6),
            IR::SHR(2),
            IR::JIZ(4),
            IR::SUB(1),
            IR::JNZ(2),
            IR::SHL(2),
            IR::JNZ(0)
        ]
    );
}

#[test]
fn lower_trailing_open_keeps_placeholder() {
    let code = lower("+[").unwrap();
    assert_eq!(code.instruct, vec![IR::ADD(1), IR::JIZ(0)]);
    let code = lower("[[]").unwrap();
    assert_eq!(code.instruct, vec![IR::JIZ(0), IR::JIZ(2), IR::JNZ(1)]);
}

#[test]
fn lower_is_deterministic() {
    let src = "++[>+++[>.<-]<-],[.,]";
    assert_eq!(lower(src).unwrap().instruct, lower(src).unwrap().instruct);
}

#[test]
fn balanced_program_has_paired_and_nested_jumps() {
    let code = lower("+[>[<-]>[[.],]<]-[][[[]]]").unwrap().instruct;
    let mut pairs: Vec<(usize, usize)> = Vec::new();
    for (p, ins) in code.iter().enumerate() {
        match ins {
            IR::JIZ(t) => {
                let t = *t as usize;
                assert!(p < t && t < code.len());
                assert_eq!(code[t], IR::JNZ(p as u32));
                pairs.push((p, t));
            }
            IR::JNZ(t) => {
                let t = *t as usize;
                assert!(t < p);
                assert_eq!(code[t], IR::JIZ(p as u32));
            }
            _ => {}
        }
    }
    assert_eq!(pairs.len(), 8);
    for (a, b) in pairs.iter() {
        for (c, d) in pairs.iter() {
            if a < c && c < b {
                assert!(d < b);
            }
        }
    }
}

#[test]
fn jumps_stand_where_the_markers_went() {
    let lexed = bf_ir::opcode::Code::from(b"+[>[<-]>[[.],]<]-[][[[]]]++[".to_vec()).unwrap();
    let ops = lexed.instruct;
    let code = Code::from(ops.clone()).unwrap().instruct;
    let slot = |i: usize| Code::from(ops[..=i].to_vec()).unwrap().instruct.len() - 1;
    let mut closed = 0;
    for (i, op) in ops.iter().enumerate() {
        match op {
            Opcode::LB => match lexed.j_table.get(&i) {
                Some(j) => {
                    assert_eq!(code[slot(i)], IR::JIZ(slot(*j) as u32));
                    closed += 1;
                }
                None => assert_eq!(code[slot(i)], IR::JIZ(0)),
            },
            Opcode::RB => {
                let j = lexed.j_table.get(&i).unwrap();
                assert_eq!(code[slot(i)], IR::JNZ(slot(*j) as u32));
            }
            _ => {}
        }
    }
    assert_eq!(closed, 8);
}

#[test]
fn run_after_other_code_folds_into_one_instruction() {
    let mut ops = vec![Opcode::LB, Opcode::SHR];
    let before = Code::from(ops.clone()).unwrap().instruct;
    ops.extend(vec![Opcode::SUB; 300]);
    let mut expected = before;
    expected.push(IR::SUB(44));
    assert_eq!(Code::from(ops).unwrap().instruct, expected);
}
