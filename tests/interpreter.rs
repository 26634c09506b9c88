use interpreter::error::ExecError;
use interpreter::lexer::{lexer, optimize};
use interpreter::loops::build_brace_list;
use interpreter::machine::{Action, Executor, Program, DATA_SIZE};
use interpreter::source::tokens_to_source;
use interpreter::token::Token as T;

/// Drives a run to its end, feeding the first byte of each input line.
fn run_collect(tokens: Vec<T>, lines: &[&str]) -> (Result<Vec<u8>, ExecError>, Executor) {
    let mut ex = Executor::new(tokens).unwrap();
    let mut out = Vec::new();
    let mut next_line = 0;
    loop {
        match ex.step() {
            Ok(Action::Continue) => {}
            Ok(Action::Output(b)) => out.push(b),
            Ok(Action::NeedInput) => {
                let byte = lines.get(next_line).and_then(|l| l.bytes().next());
                next_line += 1;
                if let Err(e) = ex.feed(byte) {
                    return (Err(e), ex);
                }
            }
            Ok(Action::Halted) => return (Ok(out), ex),
            Err(e) => return (Err(e), ex),
        }
    }
}

#[test]
fn test_lexer() {
    let source = "+ - <> [] 21092 \
        foobar @$#²³£¬¢£ . , ";

    let expected = vec![
        T::Plus(1), T::Minus(1),
        T::LeftAngle(1), T::RightAngle(1),
        T::OpenBrace, T::CloseBrace,
        T::Dot, T::Comma,
    ];

    assert_eq!(expected, lexer(source, false));
}

#[test]
fn test_optimization() {
    let source = "++++ ++++ -- -- -- . . \
                  [++] wdkj";

    let expected = vec![
        T::Plus(8), T::Minus(6),
        T::Dot, T::Dot,
        T::OpenBrace, T::Plus(2),
        T::CloseBrace,
    ];

    assert_eq!(expected, lexer(source, true));
}

#[test]
fn lexer_without_commands_is_empty() {
    assert_eq!(lexer("hello world 123\n", false), vec![]);
    assert_eq!(lexer("", true), vec![]);
}

#[test]
fn source_round_trip_keeps_only_commands() {
    let source = "a+b-c<d>e.f,g[h]i é";
    assert_eq!(tokens_to_source(lexer(source, false)), "+-<>.,[]");
}

#[test]
fn serializer_drops_counts() {
    let tokens = vec![T::Plus(5), T::RightAngle(3), T::Dot, T::Minus(2), T::LeftAngle(9), T::Comma];
    assert_eq!(tokens_to_source(tokens), "+>.-<,");
    assert_eq!(tokens_to_source(lexer("++++ ++++ -- -- --", true)), "+-");
}

#[test]
fn optimizer_folds_runs_of_eight_and_six() {
    assert_eq!(lexer("++++ ++++ -- -- --", true), vec![T::Plus(8), T::Minus(6)]);
}

#[test]
fn optimizer_keeps_braces_and_io_apart() {
    let tokens = lexer("[[..,,]]>><<", false);
    assert_eq!(
        optimize(&tokens),
        vec![
            T::OpenBrace, T::OpenBrace, T::Dot, T::Dot, T::Comma, T::Comma,
            T::CloseBrace, T::CloseBrace, T::RightAngle(2), T::LeftAngle(2),
        ]
    );
}

#[test]
fn optimizer_splits_runs_longer_than_a_count() {
    let source = "+".repeat(300);
    assert_eq!(lexer(&source, true), vec![T::Plus(255), T::Plus(45)]);
    let source = ">".repeat(510);
    assert_eq!(lexer(&source, true), vec![T::RightAngle(255), T::RightAngle(255)]);
}

#[test]
fn optimizer_leaves_input_unchanged() {
    let tokens = lexer("+++--", false);
    let copy = tokens.clone();
    let folded = optimize(&tokens);
    assert_eq!(tokens, copy);
    assert_eq!(folded, vec![T::Plus(3), T::Minus(2)]);
}

#[test]
fn jump_table_pairs_each_brace_with_its_partner() {
    let tokens = lexer("+[>[-]<-]", false);
    let table = build_brace_list(&tokens).unwrap();
    assert_eq!(table.len(), 4);
    assert_eq!(table[&1], 8);
    assert_eq!(table[&8], 1);
    assert_eq!(table[&3], 5);
    assert_eq!(table[&5], 3);
    for (k, v) in table.iter() {
        assert_eq!(table[v], *k);
    }
}

#[test]
fn lone_close_brace_is_a_mismatch() {
    let tokens = lexer("]", false);
    assert_eq!(
        build_brace_list(&tokens).unwrap_err(),
        ExecError::BracketMismatch { position: 0 }
    );
    assert_eq!(
        Executor::new(tokens).unwrap_err(),
        ExecError::BracketMismatch { position: 0 }
    );
}

#[test]
fn first_unmatched_close_is_reported() {
    let tokens = lexer("[]]+]", false);
    assert_eq!(
        build_brace_list(&tokens).unwrap_err(),
        ExecError::BracketMismatch { position: 2 }
    );
}

#[test]
fn last_unclosed_open_is_reported() {
    let tokens = lexer("[+[[-]", false);
    assert_eq!(
        build_brace_list(&tokens).unwrap_err(),
        ExecError::BracketMismatch { position: 2 }
    );
}

#[test]
fn plus_three_then_dot_outputs_three() {
    let (out, _) = run_collect(lexer("+++.", false), &[]);
    assert_eq!(out.unwrap(), vec![3]);
}

#[test]
fn cell_doubling_outputs_sixty_four() {
    for opt in [false, true] {
        let (out, ex) = run_collect(lexer("++++++++[>++++++++<-]>.", opt), &[]);
        assert_eq!(out.unwrap(), vec![64]);
        assert_eq!(ex.program().cell(0), 0);
        assert_eq!(ex.program().cell(1), 64);
        assert_eq!(ex.program().ptr(), 1);
    }
}

#[test]
fn comma_reads_first_byte_of_line() {
    let (out, _) = run_collect(lexer(",.", false), &["A\n"]);
    assert_eq!(out.unwrap(), vec![b'A']);
}

#[test]
fn comma_without_input_is_exhausted() {
    let (out, ex) = run_collect(lexer("+,", false), &[]);
    assert_eq!(out.unwrap_err(), ExecError::InputExhausted { ip: 1 });
    assert_eq!(ex.program().cell(0), 1);
}

#[test]
fn loop_on_zero_cell_is_skipped() {
    let (out, ex) = run_collect(lexer("[-]", false), &[]);
    assert_eq!(out.unwrap(), vec![]);
    assert_eq!(ex.program().cell(0), 0);
    assert!(ex.is_halted());
}

#[test]
fn increment_wraps_to_zero() {
    let mut p = Program::new();
    p.set_current(255);
    p.increment(1);
    assert_eq!(p.current(), 0);
    let (out, _) = run_collect(lexer(&format!("{}.", "+".repeat(256)), true), &[]);
    assert_eq!(out.unwrap(), vec![0]);
}

#[test]
fn decrement_wraps_to_max() {
    let mut p = Program::new();
    p.decrement(1);
    assert_eq!(p.current(), 255);
    let (out, _) = run_collect(lexer("-.", false), &[]);
    assert_eq!(out.unwrap(), vec![255]);
}

#[test]
fn counted_arithmetic_wraps() {
    let mut p = Program::new();
    p.set_current(200);
    p.increment(100);
    assert_eq!(p.current(), 44);
    p.decrement(50);
    assert_eq!(p.current(), 250);
}

#[test]
fn move_left_from_cell_zero_underflows() {
    let (out, ex) = run_collect(lexer("+<", false), &[]);
    assert_eq!(out.unwrap_err(), ExecError::TapeUnderflow { ip: 1, ptr: 0, by: 1 });
    assert_eq!(ex.program().cell(0), 1);
    assert_eq!(ex.ip(), 1);
}

#[test]
fn move_right_past_last_cell_overflows() {
    let mut p = Program::new();
    assert!(p.move_right(255));
    assert_eq!(p.ptr(), 255);
    let source = format!("{}>", ">".repeat(DATA_SIZE - 1));
    let (out, ex) = run_collect(lexer(&source, false), &[]);
    assert_eq!(
        out.unwrap_err(),
        ExecError::TapeOverflow { ip: DATA_SIZE - 1, ptr: DATA_SIZE - 1, by: 1 }
    );
    assert_eq!(ex.program().ptr(), DATA_SIZE - 1);
}

#[test]
fn moves_inside_the_tape_succeed() {
    let mut p = Program::new();
    assert!(!p.move_left(1));
    assert_eq!(p.ptr(), 0);
    assert!(p.move_right(10));
    assert!(p.move_left(10));
    assert_eq!(p.ptr(), 0);
    let source = format!("{}.", ">".repeat(DATA_SIZE - 1));
    let (out, _) = run_collect(lexer(&source, true), &[]);
    assert_eq!(out.unwrap(), vec![0]);
}

#[test]
fn folded_move_overflow_matches_unfolded() {
    let source = ">".repeat(DATA_SIZE);
    let (plain, plain_ex) = run_collect(lexer(&source, false), &[]);
    let (folded, folded_ex) = run_collect(lexer(&source, true), &[]);
    assert!(matches!(plain, Err(ExecError::TapeOverflow { .. })));
    assert!(matches!(folded, Err(ExecError::TapeOverflow { .. })));
    for i in 0..DATA_SIZE {
        assert_eq!(plain_ex.program().cell(i), folded_ex.program().cell(i));
    }
}

#[test]
fn folded_program_gives_same_output_and_tape() {
    let source = "++++[>+++++<-]>[<++>-]<.>,.++++[-->+<]>.";
    let (plain, plain_ex) = run_collect(lexer(source, false), &["z\n"]);
    let (folded, folded_ex) = run_collect(lexer(source, true), &["z\n"]);
    assert_eq!(plain.unwrap(), folded.unwrap());
    for i in 0..DATA_SIZE {
        assert_eq!(plain_ex.program().cell(i), folded_ex.program().cell(i));
    }
    assert_eq!(plain_ex.program().ptr(), folded_ex.program().ptr());
}

#[test]
fn step_on_halted_run_reports_halted() {
    let mut ex = Executor::new(vec![]).unwrap();
    assert!(ex.is_halted());
    assert_eq!(ex.step().unwrap(), Action::Halted);
}

#[test]
fn run_steps_collects_output() {
    let mut ex = Executor::new(lexer("+++.", false)).unwrap();
    let report = ex.run_steps(&vec![], 1000);
    assert_eq!(report.output, vec![3]);
    assert_eq!(report.steps, 4);
    assert_eq!(report.consumed, 0);
    assert_eq!(report.error, None);
    assert!(ex.is_halted());
}

#[test]
fn run_steps_reads_bytes_in_order() {
    let mut ex = Executor::new(lexer(",.,+.", false)).unwrap();
    let report = ex.run_steps(&vec![b'A', b'x'], 1000);
    assert_eq!(report.output, vec![b'A', b'y']);
    assert_eq!(report.consumed, 2);
    assert_eq!(report.error, None);
}

#[test]
fn run_steps_stops_at_the_step_limit() {
    let mut ex = Executor::new(lexer("+[]", false)).unwrap();
    let report = ex.run_steps(&vec![], 100);
    assert_eq!(report.steps, 100);
    assert_eq!(report.error, None);
    assert!(!ex.is_halted());
}

#[test]
fn run_steps_reports_exhausted_input() {
    let mut ex = Executor::new(lexer("+,", false)).unwrap();
    let report = ex.run_steps(&vec![], 100);
    assert_eq!(report.error, Some(ExecError::InputExhausted { ip: 1 }));
    assert_eq!(report.steps, 2);
    assert_eq!(ex.program().cell(0), 1);
}

#[test]
fn run_steps_same_result_folded_and_unfolded() {
    let source = "++++++++[>++++++++<-]>[<++++>-]<+.";
    let mut plain = Executor::new(lexer(source, false)).unwrap();
    let mut folded = Executor::new(lexer(source, true)).unwrap();
    let a = plain.run_steps(&vec![], 100_000);
    let b = folded.run_steps(&vec![], 100_000);
    assert_eq!(a.output, vec![1]);
    assert_eq!(a.output, b.output);
    assert!(b.steps < a.steps);
    assert_eq!(plain.program().ptr(), folded.program().ptr());
    for i in 0..16 {
        assert_eq!(plain.program().cell(i), folded.program().cell(i));
    }
}
