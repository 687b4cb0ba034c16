use rusty_brainfuck::BfError;
use rusty_brainfuck::Brainfuck;

#[test]
fn pointer_overflow() {
    let program = ">".repeat(30_000);
    let mut bf = Brainfuck::new(program).unwrap();
    let e = bf.step().unwrap_err();
    assert_eq!(e.message(), "Too large pointer than the size of memory.");
}

#[test]
fn pointer_minus() {
    let program = String::from("<");
    let mut bf = Brainfuck::new(program).unwrap();
    let e = bf.step().unwrap_err();
    assert_eq!(e.message(), "Too small pointer than the first address of memory.");
}

#[test]
fn shift_to_last_cell_succeeds() {
    let program = ">".repeat(29_999);
    let mut bf = Brainfuck::new(program).unwrap();
    assert!(bf.step().is_ok());
    assert!(bf.reach_eop());
}

#[test]
fn failed_shift_changes_nothing() {
    let mut bf = Brainfuck::new(String::from("<")).unwrap();
    assert_eq!(bf.step().unwrap_err(), BfError::BoundsUnderflow);
    assert!(!bf.reach_eop());
    // the counter did not advance and the pointer is unchanged, so the
    // very same step fails the very same way again
    assert_eq!(bf.step().unwrap_err(), BfError::BoundsUnderflow);
}

#[test]
fn hello_world() {
    let program = String::from(
        "++++++++[>++++[>++>+++>+++>+<<<<-]>+>+>->>+[<]<-]>>.>---.+++++++..+++.>>.<-.<.+++.------.--------.>>+.>++.",
    );
    let mut bf = Brainfuck::new(program).unwrap();
    bf.step_loop().unwrap();
    assert!(bf.reach_eop());
    assert_eq!(bf.pop_result(), "Hello World!\n");
}

#[test]
fn clear_loop_zeroes_every_byte() {
    for v in 0..=255u32 {
        let program = format!("{}[-].", "+".repeat(v as usize));
        let mut bf = Brainfuck::new(program).unwrap();
        let mut steps = 0u32;
        while !bf.reach_eop() {
            bf.step().unwrap();
            steps += 1;
        }
        // one step for the value run (when there is one), one for the
        // rewritten clear, one for the write
        let expected_steps = if v == 0 { 2 } else { 3 };
        assert_eq!(steps, expected_steps);
        // the rewritten form spends exactly one step on the loop, while
        // executing it literally would take 1 + 2 v steps
        let loop_steps = steps - (expected_steps - 1);
        assert_eq!(loop_steps, 1);
        if v > 0 {
            assert!(loop_steps < 1 + 2 * v);
        }
        let out: Vec<char> = bf.pop_result().chars().collect();
        assert_eq!(out, vec!['\u{0}']);
    }
}

#[test]
fn empty_input_rejected() {
    let mut bf = Brainfuck::new(String::from(",")).unwrap();
    bf.step().unwrap();
    assert!(bf.is_input_mode());
    let e = bf.set_input(String::new()).unwrap_err();
    assert_eq!(e, BfError::EmptyInput);
    assert_eq!(e.message(), "input empty String.");
    assert!(bf.is_input_mode());
    assert_eq!(bf.queue_remain(), 0);
}

#[test]
fn non_ascii_input_discarded() {
    let mut bf = Brainfuck::new(String::from(",.")).unwrap();
    bf.step().unwrap();
    assert!(bf.is_input_mode());
    let high = (200u8 as char).to_string();
    let e = bf.set_input(high).unwrap_err();
    assert_eq!(e, BfError::NonAsciiInput);
    assert_eq!(e.message(), "Input contains non-ascii code.");
    // the rejected character left the queue, the engine still awaits
    // input, and the cell is untouched
    assert!(bf.is_input_mode());
    assert_eq!(bf.queue_remain(), 0);
    bf.set_input(String::from("A")).unwrap();
    assert!(!bf.is_input_mode());
    bf.step().unwrap();
    assert!(bf.reach_eop());
    assert_eq!(bf.pop_result(), "A");
}

#[test]
fn queued_input_feeds_later_reads() {
    let mut bf = Brainfuck::new(String::from(",.,.")).unwrap();
    bf.step().unwrap();
    assert!(bf.is_input_mode());
    bf.set_input(String::from("AB")).unwrap();
    assert_eq!(bf.queue_remain(), 1);
    bf.interpret().unwrap();
    assert!(bf.reach_eop());
    assert_eq!(bf.pop_result(), "AB");
}

#[test]
fn interpret_reports_rejected_queue_head() {
    let mut bf = Brainfuck::new(String::from(",.")).unwrap();
    bf.step().unwrap();
    assert!(bf.is_input_mode());
    let mut staged = (200u8 as char).to_string();
    staged.push('A');
    let e = bf.set_input(staged).unwrap_err();
    assert_eq!(e, BfError::NonAsciiInput);
    assert_eq!(bf.queue_remain(), 1);
    bf.interpret().unwrap();
    assert!(bf.reach_eop());
    assert_eq!(bf.pop_result(), "A");
}

#[test]
fn step_loop_matches_single_stepping() {
    let program = "++>+++[<+>-]<.";
    let mut fast = Brainfuck::new(String::from(program)).unwrap();
    fast.step_loop().unwrap();
    assert!(fast.reach_eop());
    let fast_out = fast.pop_result();

    let mut slow = Brainfuck::new(String::from(program)).unwrap();
    while !slow.reach_eop() {
        slow.step().unwrap();
    }
    let slow_out = slow.pop_result();
    assert_eq!(fast_out, slow_out);
    assert_eq!(fast_out, "\u{5}");
}

#[test]
fn initialize_resets_everything() {
    let mut bf = Brainfuck::new(String::from("+.")).unwrap();
    bf.step_loop().unwrap();
    assert_eq!(bf.pop_result(), "\u{1}");
    bf.initialize(String::from("++.")).unwrap();
    assert!(!bf.reach_eop());
    assert!(!bf.is_input_mode());
    assert_eq!(bf.queue_remain(), 0);
    bf.step_loop().unwrap();
    assert_eq!(bf.pop_result(), "\u{2}");
}

#[test]
fn initialize_rejects_unbalanced_and_keeps_state() {
    let mut bf = Brainfuck::new(String::from("+.")).unwrap();
    bf.step().unwrap();
    let e = bf.initialize(String::from("[")).unwrap_err();
    assert_eq!(e, BfError::UnbalancedBrackets);
    // the old run is untouched and finishes as if nothing happened
    bf.step().unwrap();
    assert!(bf.reach_eop());
    assert_eq!(bf.pop_result(), "\u{1}");
}

#[test]
fn include_comma_reports_read_instructions() {
    let bf = Brainfuck::new(String::from("+,+")).unwrap();
    assert!(bf.include_comma());
    let bf = Brainfuck::new(String::from("+.+")).unwrap();
    assert!(!bf.include_comma());
}

#[test]
fn step_loop_suspends_on_read() {
    let mut bf = Brainfuck::new(String::from("+,.")).unwrap();
    bf.step_loop().unwrap();
    assert!(bf.is_input_mode());
    assert!(!bf.reach_eop());
    bf.set_input(String::from("Z")).unwrap();
    bf.step_loop().unwrap();
    assert!(bf.reach_eop());
    assert_eq!(bf.pop_result(), "Z");
}

#[test]
fn wrapping_arithmetic() {
    // 256 increments wrap back to zero
    let program = format!("{}.", "+".repeat(256));
    let mut bf = Brainfuck::new(program).unwrap();
    bf.step_loop().unwrap();
    let out: Vec<char> = bf.pop_result().chars().collect();
    assert_eq!(out, vec!['\u{0}']);
    // one decrement from zero wraps to 255
    let mut bf = Brainfuck::new(String::from("-.")).unwrap();
    bf.step_loop().unwrap();
    let out: Vec<char> = bf.pop_result().chars().collect();
    assert_eq!(out, vec!['\u{ff}']);
}
