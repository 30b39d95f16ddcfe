use mpz_ts::js_conn::RecvQueue;
use mpz_ts::js_fn_executor::{next_executor_step, ExecutorStep, TaskPoll};
use mpz_ts::session::{
    as_uint, decode_outputs, garble_input, ot_count, parse_usize, read_eval_outputs, role_for, EvalError,
    GarbleInput, InputError, JsInput,
};
use mpz_ts::setup_garble::{deap_role, ot_setup_order, DeapRole, OtEnd, Role};
use mpz_ts::circuit::WordKind;
use mpz_ts::js_conn::ReadStep;
use mpz_ts::value::{encode_input, is_number, Value};

fn bits(b: &[bool]) -> Value {
    Value::Array(b.iter().map(|x| Value::Bit(*x)).collect())
}

#[test]
fn leader_is_alice() {
    assert_eq!(role_for(true), Role::Alice);
    assert_eq!(role_for(false), Role::Bob);
    assert_eq!(deap_role(Role::Alice), DeapRole::Leader);
    assert_eq!(deap_role(Role::Bob), DeapRole::Follower);
}

#[test]
fn setup_orders_pair_up() {
    assert_eq!(ot_setup_order(Role::Alice), (OtEnd::Sender, OtEnd::Receiver));
    assert_eq!(ot_setup_order(Role::Bob), (OtEnd::Receiver, OtEnd::Sender));
}

#[test]
fn ot_count_is_32_per_input() {
    assert_eq!(ot_count(0), 0);
    assert_eq!(ot_count(3), 96);
}

#[test]
fn inputs_are_blind_or_private() {
    assert_eq!(garble_input(WordKind::Bit, 4, None), Some(GarbleInput::Blind { width: 4 }));
    assert_eq!(
        garble_input(WordKind::Bit, 3, Some(6)),
        Some(GarbleInput::Private { width: 3, value: bits(&[true, true, false]) })
    );
    assert_eq!(
        garble_input(WordKind::U32, 1, Some(7)),
        Some(GarbleInput::Private { width: 1, value: Value::U32(7) })
    );
    assert_eq!(garble_input(WordKind::U32, 2, Some(7)), None);
    assert_eq!(garble_input(WordKind::U32, 2, None), Some(GarbleInput::Blind { width: 2 }));
}

#[test]
fn only_low_bits_are_encoded() {
    assert_eq!(encode_input(WordKind::Bit, 3, 13), encode_input(WordKind::Bit, 3, 5));
    assert_eq!(encode_input(WordKind::U32, 1, 5), Some(Value::U32(5)));
}

#[test]
fn words_are_decoded() {
    let names = vec![("c".to_string(), 1)];
    assert_eq!(decode_outputs(&names, &vec![Value::U32(8)]), vec![("c".to_string(), 8)]);
    assert!(is_number(&Value::U32(1)));
    assert!(!is_number(&Value::U8(1)));
}

#[test]
fn outputs_are_named() {
    let names = vec![("c".to_string(), 2), ("d".to_string(), 3)];
    let values = vec![bits(&[true, false]), bits(&[true, true, true])];
    assert_eq!(decode_outputs(&names, &values), vec![("c".to_string(), 2), ("d".to_string(), 7)]);
    assert_eq!(decode_outputs(&names, &vec![bits(&[true, false])]), vec![("c".to_string(), 2)]);
    assert_eq!(read_eval_outputs(&names, &values), Ok(vec![("c".to_string(), 2), ("d".to_string(), 7)]));
    assert_eq!(read_eval_outputs(&names, &vec![bits(&[true])]), Err(EvalError::OutputCountMismatch));
}

#[test]
fn as_uint_reads_each_kind() {
    assert_eq!(as_uint(&JsInput::Undefined), Err(InputError::Undefined));
    assert_eq!(as_uint(&JsInput::Null), Err(InputError::Null));
    assert_eq!(as_uint(&JsInput::Bool(true)), Ok(1));
    assert_eq!(as_uint(&JsInput::Bool(false)), Ok(0));
    assert_eq!(as_uint(&JsInput::Text(b"42".to_vec())), Ok(42));
    assert_eq!(as_uint(&JsInput::Text(b"4x".to_vec())), Err(InputError::UnparsableString));
    assert_eq!(as_uint(&JsInput::Number(17)), Ok(17));
    assert_eq!(as_uint(&JsInput::Other), Err(InputError::Invalid));
}

#[test]
fn parse_usize_agrees_with_std() {
    let max = usize::MAX.to_string();
    let over = format!("{}0", usize::MAX);
    let cases: Vec<&str> = vec!["0", "007", "+5", "+", "", "-0", "-5", " 1", "1 ", "1_0", &max, &over, "12a"];
    for case in cases {
        let expected = case.parse::<usize>().ok();
        assert_eq!(parse_usize(&case.as_bytes().to_vec()), expected, "{:?}", case);
    }
}

#[test]
fn executor_steps() {
    assert_eq!(next_executor_step(TaskPoll::Ready), ExecutorStep::RunTask);
    assert_eq!(next_executor_step(TaskPoll::Empty), ExecutorStep::Sleep { millis: 10 });
    assert_eq!(next_executor_step(TaskPoll::Disconnected), ExecutorStep::Stop);
}

#[test]
fn receivers_drain_until_the_first_empty_one() {
    let mut q: RecvQueue<Option<Vec<u8>>> = RecvQueue::new();
    q.push_receiver(Some(vec![1, 2]));
    q.push_receiver(Some(vec![3]));
    q.push_receiver(None);
    q.push_receiver(Some(vec![9]));
    let n = q.try_empty_buf_receivers(|r| r.clone());
    assert_eq!(n, 2);
    assert_eq!(q.recv_buf, vec![1, 2, 3]);
    assert_eq!(q.buf_receivers, vec![None, Some(vec![9])]);
}

#[test]
fn reads_come_out_in_arrival_order() {
    let mut q: RecvQueue<Option<Vec<u8>>> = RecvQueue::new();
    q.push_receiver(Some(vec![1, 2, 3]));
    q.push_receiver(Some(vec![4, 5]));
    q.try_empty_buf_receivers(|r| r.clone());
    assert_eq!(q.take_ready(2), vec![1, 2]);
    assert_eq!(q.take_ready(10), vec![3, 4, 5]);
    assert_eq!(q.take_ready(10), Vec::<u8>::new());
    assert!(q.buf_receivers.is_empty());
}

#[test]
fn read_step_waits_only_when_empty() {
    let mut q: RecvQueue<Option<Vec<u8>>> = RecvQueue::new();
    match q.read_step(4) {
        ReadStep::Pending => {}
        ReadStep::Ready(_) => panic!("nothing is buffered"),
    }
    q.push_receiver(Some(vec![7, 8, 9]));
    assert_eq!(q.try_empty_buf_receivers(|r| r.clone()), 1);
    match q.read_step(2) {
        ReadStep::Ready(bytes) => assert_eq!(bytes, vec![7, 8]),
        ReadStep::Pending => panic!("bytes are buffered"),
    }
    match q.read_step(0) {
        ReadStep::Ready(bytes) => assert!(bytes.is_empty()),
        ReadStep::Pending => panic!("a byte is buffered"),
    }
    assert_eq!(q.recv_buf, vec![9]);
}

#[test]
fn second_emptying_with_nothing_new_changes_nothing() {
    let mut q: RecvQueue<Option<Vec<u8>>> = RecvQueue::new();
    q.push_receiver(Some(vec![1]));
    q.push_receiver(None);
    assert_eq!(q.try_empty_buf_receivers(|r| r.clone()), 1);
    assert_eq!(q.try_empty_buf_receivers(|r| r.clone()), 0);
    assert_eq!(q.recv_buf, vec![1]);
    assert_eq!(q.buf_receivers, vec![None]);
}
