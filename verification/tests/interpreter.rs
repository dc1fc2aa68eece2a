use babble::engine::Babble;
use babble::ast::{Value, Op, BabbleError, Diag};
use babble::rational::Rat;

fn num(v: u32) -> Value {
    Value::Num(Rat::from_u32(v))
}

fn run(src: &str) -> (Babble, Vec<u8>, Result<Vec<Diag>, BabbleError>) {
    let mut b = Babble::new();
    let mut out: Vec<u8> = Vec::new();
    let mut inp: Vec<u8> = Vec::new();
    let r = b.run_with_io(src.to_string(), &mut out, &mut inp);
    (b, out, r)
}

#[test]
fn new_engine_initial_state() {
    let b = Babble::new();
    assert_eq!(b.primary, 0);
    assert_eq!(b.secondary, 1);
    assert_eq!(b.result, 2);
    assert_eq!(b.vars.len(), 26);
    for v in &b.vars {
        assert_eq!(*v, num(0));
    }
}

#[test]
fn num_literal_one() {
    let (b, _, r) = run("NUMBZ");
    assert!(r.is_ok());
    assert_eq!(b.vars[0], num(1));
}

#[test]
fn num_literal_sign_parity() {
    let (b, _, r) = run("NUMBZ");
    assert!(r.is_ok());
    assert_eq!(b.vars[0], num(1));

    let (b, _, r) = run("NUMZBZ");
    assert!(r.is_ok());
    match &b.vars[0] {
        Value::Num(rat) => {
            assert!(rat.n.neg);
            assert_eq!(rat.n.limbs, vec![1]);
            assert_eq!(rat.d.limbs, vec![1]);
        }
        other => panic!("expected a number, got {:?}", other),
    }

    let (b, _, r) = run("NUMZZBZCZ");
    assert!(r.is_ok());
    match &b.vars[0] {
        Value::Num(rat) => {
            assert!(!rat.n.neg);
            assert_eq!(rat.n.limbs, vec![1]);
            assert_eq!(rat.d.limbs, vec![2]);
        }
        other => panic!("expected a number, got {:?}", other),
    }

    let (b, _, r) = run("NUMZZZBZCZ");
    assert!(r.is_ok());
    match &b.vars[0] {
        Value::Num(rat) => {
            assert!(rat.n.neg);
            assert_eq!(rat.n.limbs, vec![1]);
            assert_eq!(rat.d.limbs, vec![2]);
        }
        other => panic!("expected a number, got {:?}", other),
    }
}

#[test]
fn num_literal_empty_denominator_fails() {
    let (_, _, r) = run("NUMZZBZ");
    assert_eq!(r, Err(BabbleError::ArithmeticFailure));
}

#[test]
fn array_literal_plain() {
    let (b, _, r) = run("ARRHIZE");
    assert!(r.is_ok());
    assert_eq!(b.vars[0], Value::Arr(vec![num(72), num(73)]));
}

#[test]
fn array_literal_escapes() {
    let (b, _, r) = run("ARRZLAZZZE");
    assert!(r.is_ok());
    assert_eq!(b.vars[0], Value::Arr(vec![num(97), num(90)]));
}

#[test]
fn array_literal_two_digit_escape() {
    let (b, _, r) = run("ARRZTBCZE");
    assert!(r.is_ok());
    assert_eq!(b.vars[0], Value::Arr(vec![num(27)]));
}

#[test]
fn array_truncation_aborts_rest() {
    let (b, _, r) = run("ARRH");
    assert!(r.is_ok());
    assert_eq!(b.vars[0], num(0));
}

#[test]
fn add_explicit_sequence() {
    let (b, _, r) = run("ONEPVBTWOPVAADD");
    assert!(r.is_ok());
    assert_eq!(b.vars[0], num(1));
    assert_eq!(b.vars[1], num(2));
    assert_eq!(b.vars[2], num(3));
}

#[test]
fn block_literal_nested() {
    let (b, _, r) = run("BLKBLKONEENDEND");
    assert!(r.is_ok());
    let inner = Value::Block(vec![Op::Lit(num(1))]);
    assert_eq!(b.vars[0], Value::Block(vec![Op::Lit(inner)]));
}

#[test]
fn block_consumes_one_end() {
    let (b, _, r) = run("BLKONEENDPVBTWO");
    assert!(r.is_ok());
    assert_eq!(b.vars[0], Value::Block(vec![Op::Lit(num(1))]));
    assert_eq!(b.vars[1], num(2));
}

#[test]
fn whl_false_condition_skips_body() {
    let (b, _, r) = run("BLKPVCZROENDPVBBLKPVDONEENDPVAWHL");
    assert!(r.is_ok());
    assert_eq!(b.vars[2], num(0));
    assert_eq!(b.vars[3], num(0));
    assert_eq!(b.primary, 2);
}

#[test]
fn whl_toggling_condition_terminates() {
    // The condition swaps registers D and C each round and restores the
    // secondary cursor, so it is re-read from register A every iteration:
    // with D starting at 1 the test is true once, then false.
    let (b, _, r) = run("PVDONEPVABLKSVDXSRSVBENDWHL");
    assert!(r.is_ok());
    assert_eq!(b.vars[2], num(0));
    assert_eq!(b.vars[3], num(1));
}

#[test]
fn whl_rereads_condition_each_iteration() {
    // The condition swaps itself out of the register the primary cursor
    // selects; the next iteration reads that register afresh, finds a
    // number, and runs an empty condition against a still-truthy result,
    // so the loop never ends.
    let prog = Babble::tokenize("BLKXPRENDWHL".to_string()).unwrap();
    let mut b = Babble::new();
    let mut out: Vec<u8> = Vec::new();
    let mut diags: Vec<Diag> = Vec::new();
    let r = b.exec_run(&prog, &mut out, &mut diags, 1000);
    assert_eq!(r, Ok(false));
}

#[test]
fn div_by_zero_fatal() {
    let (_, _, r) = run("DIV");
    assert_eq!(r, Err(BabbleError::ArithmeticFailure));
}

#[test]
fn div_reduces_to_lowest_terms() {
    let (b, _, r) = run("TWOPVBEGTPVADIV");
    assert!(r.is_ok());
    match &b.vars[2] {
        Value::Num(rat) => {
            assert!(!rat.n.neg);
            assert_eq!(rat.n.limbs, vec![1]);
            assert_eq!(rat.d.limbs, vec![4]);
        }
        other => panic!("expected a number, got {:?}", other),
    }
}

#[test]
fn put_array_zero_element_emits_nothing() {
    let (_, out, r) = run("ARRZTAAZEPUT");
    assert!(r.is_ok());
    assert_eq!(out, Vec::<u8>::new());
}

#[test]
fn put_number_text() {
    let (_, out, r) = run("TENPUT");
    assert!(r.is_ok());
    assert_eq!(out, b"10".to_vec());
}

#[test]
fn put_negative_number_text() {
    let (_, out, r) = run("NUMZBZPUT");
    assert!(r.is_ok());
    assert_eq!(out, b"-1".to_vec());
}

#[test]
fn put_rational_text() {
    let (_, out, r) = run("NUMZZZBZCZPUT");
    assert!(r.is_ok());
    assert_eq!(out, b"-1/2".to_vec());
}

#[test]
fn put_array_bytes() {
    let (_, out, r) = run("ARRHIZEPUT");
    assert!(r.is_ok());
    assert_eq!(out, vec![72u8, 73u8]);
}

#[test]
fn put_large_element_expands_little_endian() {
    // `M`,`A` decode to 12 * 25 + 0 = 300 = 1 * 256 + 44.
    let (_, out, r) = run("ARRZTMAZEPUT");
    assert!(r.is_ok());
    assert_eq!(out, vec![44u8, 1u8]);
}

#[test]
fn num_literal_long_digit_run() {
    let (b, _, r) = run("NUMBBBZ");
    assert!(r.is_ok());
    match &b.vars[0] {
        Value::Num(rat) => {
            assert_eq!(rat.n.limbs, vec![651]);
            assert_eq!(rat.d.limbs, vec![1]);
        }
        other => panic!("expected a number, got {:?}", other),
    }
}

#[test]
fn put_block_reports_diagnostic() {
    let (_, out, r) = run("BLKENDPUT");
    assert_eq!(out, Vec::<u8>::new());
    assert_eq!(r, Ok(vec![Diag::BlockOutput]));
}

#[test]
fn put_array_skips_non_numeric_element() {
    let mut b = Babble::new();
    let prog = vec![
        Op::Lit(Value::Arr(vec![num(65), Value::Block(vec![]), num(66)])),
        Op::Put,
    ];
    let mut out: Vec<u8> = Vec::new();
    let mut diags: Vec<Diag> = Vec::new();
    let r = b.exec_run(&prog, &mut out, &mut diags, 1000);
    assert_eq!(r, Ok(true));
    assert_eq!(out, vec![65u8, 66u8]);
    assert_eq!(diags, vec![Diag::NonNumericElement]);
}

#[test]
fn unknown_opcode_is_noop() {
    let (b, _, r) = run("QQQONE");
    assert!(r.is_ok());
    assert_eq!(b.vars[0], num(1));
}

#[test]
fn lowercase_and_noise_filtered() {
    let (b, _, r) = run("O1n!N x E?");
    assert!(r.is_ok());
    assert_eq!(b.vars[0], num(1));
}

#[test]
fn swap_registers() {
    let (b, _, r) = run("ONEPVBTWOPVAXPS");
    assert!(r.is_ok());
    assert_eq!(b.vars[0], num(2));
    assert_eq!(b.vars[1], num(1));
}

#[test]
fn select_out_of_range_fatal() {
    let (_, _, r) = run("PV\u{00C0}");
    assert_eq!(r, Err(BabbleError::RegisterOutOfRange));
}

#[test]
fn step_limit_on_endless_loop() {
    let prog = Babble::tokenize("BLKPVCONEENDWHL".to_string()).unwrap();
    let mut b = Babble::new();
    let mut out: Vec<u8> = Vec::new();
    let mut diags: Vec<Diag> = Vec::new();
    let r = b.exec_run(&prog, &mut out, &mut diags, 1000);
    assert_eq!(r, Ok(false));
}

#[test]
fn state_persists_across_runs() {
    let mut b = Babble::new();
    let mut out: Vec<u8> = Vec::new();
    let mut inp: Vec<u8> = Vec::new();
    assert!(b.run_with_io("TEN".to_string(), &mut out, &mut inp).is_ok());
    assert!(b.run_with_io("PUT".to_string(), &mut out, &mut inp).is_ok());
    assert_eq!(out, b"10".to_vec());
}
