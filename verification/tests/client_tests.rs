use ruply::bencode::{encode_eval_request, parse_message, BItem, ParseFail};
use ruply::nrepl::Nrepl;
use ruply::prepl::Prepl;
use ruply::edn::EdnAtom;
use ruply::prepl::{cause_event, LineOutcome};
use ruply::repl::{
    classify_probe_byte, probe_request, RecvOutcome, Repl, ReplKind, Response, ViolationKind,
};

fn event<R: Repl>(r: &mut R) -> Response {
    match r.recv() {
        Ok(RecvOutcome::Event(e)) => e,
        other => panic!("expected an event, got {:?}", other),
    }
}

fn violation<R: Repl>(r: &mut R) -> ViolationKind {
    match r.recv() {
        Err(e) => e.kind,
        other => panic!("expected a violation, got {:?}", other),
    }
}

#[test]
fn detection_selects_bencode_for_d() {
    assert_eq!(classify_probe_byte(b'd'), Some(ReplKind::Nrepl));
}

#[test]
fn detection_selects_structured_text_for_brace() {
    assert_eq!(classify_probe_byte(b'{'), Some(ReplKind::Prepl));
}

#[test]
fn detection_fails_on_other_bytes() {
    assert_eq!(classify_probe_byte(b'x'), None);
    assert_eq!(classify_probe_byte(0), None);
    assert_eq!(classify_probe_byte(b'e'), None);
}

#[test]
fn probe_request_is_the_fixed_eval_form() {
    assert_eq!(probe_request(), b"d4:code7:(+ 1 1)2:op4:evale\n".to_vec());
}

#[test]
fn eval_request_round_trip() {
    let enc = encode_eval_request(b"(+ 1 1)");
    assert_eq!(enc, b"d4:code7:(+ 1 1)2:op4:evale".to_vec());
    let (entries, used) = parse_message(&enc).expect("the encoder's output must parse");
    assert_eq!(used, enc.len());
    assert_eq!(entries.len(), 2);
    assert_eq!(entries[0].0, b"code".to_vec());
    assert_eq!(entries[0].1, BItem::Str(b"(+ 1 1)".to_vec()));
    assert_eq!(entries[1].0, b"op".to_vec());
    assert_eq!(entries[1].1, BItem::Str(b"eval".to_vec()));
}

#[test]
fn nrepl_send_encodes_the_eval_dictionary() {
    let mut c = Nrepl::new();
    c.send("(+ 1 2)").unwrap();
    assert_eq!(c.take_output(), b"d4:code7:(+ 1 2)2:op4:evale".to_vec());
    assert_eq!(c.take_output(), Vec::<u8>::new());
}

#[test]
fn nrepl_out_takes_precedence_over_value() {
    let mut c = Nrepl::new();
    c.feed(b"d3:out1:a5:value1:be");
    assert_eq!(event(&mut c), Response::StdOut("a".to_string()));
    c.feed(b"d5:value1:be");
    assert_eq!(event(&mut c), Response::StdOut("b\n".to_string()));
}

#[test]
fn nrepl_err_takes_precedence_over_out() {
    let mut c = Nrepl::new();
    c.feed(b"d3:err1:e3:out1:oe");
    assert_eq!(event(&mut c), Response::StdErr("e".to_string()));
}

#[test]
fn nrepl_status_done_is_terminal() {
    let mut c = Nrepl::new();
    c.feed(b"d6:statusl4:doneee");
    let e = event(&mut c);
    assert_eq!(e, Response::Done(None));
    assert!(e.is_terminal());
}

#[test]
fn nrepl_status_eval_error_is_ignorable() {
    let mut c = Nrepl::new();
    c.feed(b"d6:statusl10:eval-erroree");
    let e = event(&mut c);
    assert_eq!(e, Response::Other(String::new()));
    assert!(!e.is_terminal());
}

#[test]
fn nrepl_value_gets_a_trailing_newline() {
    let mut c = Nrepl::new();
    c.feed(b"d5:value1:2e");
    assert_eq!(event(&mut c), Response::StdOut("2\n".to_string()));
}

#[test]
fn nrepl_namespace_updates_and_stays_stable() {
    let mut c = Nrepl::new();
    assert_eq!(c.namespace(), "user");
    assert_eq!(c.namespace(), "user");
    c.feed(b"d3:out1:xe");
    let _ = event(&mut c);
    assert_eq!(c.namespace(), "user");
    c.feed(b"d2:ns7:my.core5:value1:1e");
    assert_eq!(event(&mut c), Response::StdOut("1\n".to_string()));
    assert_eq!(c.namespace(), "my.core");
    assert_eq!(c.namespace(), "my.core");
}

#[test]
fn nrepl_incremental_feeding_waits_for_a_full_message() {
    let mut c = Nrepl::new();
    assert!(matches!(c.recv(), Ok(RecvOutcome::NeedInput)));
    c.feed(b"d3:out");
    assert!(matches!(c.recv(), Ok(RecvOutcome::NeedInput)));
    c.feed(b"5:hel");
    assert!(matches!(c.recv(), Ok(RecvOutcome::NeedInput)));
    c.feed(b"loe");
    assert_eq!(event(&mut c), Response::StdOut("hello".to_string()));
}

#[test]
fn nrepl_two_messages_in_one_read() {
    let mut c = Nrepl::new();
    c.feed(b"d3:out1:aed6:statusl4:doneee");
    assert_eq!(event(&mut c), Response::StdOut("a".to_string()));
    assert_eq!(event(&mut c), Response::Done(None));
    assert!(matches!(c.recv(), Ok(RecvOutcome::NeedInput)));
}

#[test]
fn nrepl_non_dictionary_is_a_violation() {
    let mut c = Nrepl::new();
    c.feed(b"i42e");
    assert_eq!(violation(&mut c), ViolationKind::NotADictionary);
}

#[test]
fn nrepl_garbage_is_malformed() {
    let mut c = Nrepl::new();
    c.feed(b"xyz");
    assert_eq!(violation(&mut c), ViolationKind::MalformedMessage);
}

#[test]
fn nrepl_unknown_fields_are_a_violation() {
    let mut c = Nrepl::new();
    c.feed(b"d5:other1:xe");
    assert_eq!(violation(&mut c), ViolationKind::UnexpectedFields);
}

#[test]
fn nrepl_string_status_is_a_violation() {
    let mut c = Nrepl::new();
    c.feed(b"d6:status4:donee");
    assert_eq!(violation(&mut c), ViolationKind::UnexpectedFields);
}

#[test]
fn nrepl_integer_fields_are_parsed_past() {
    let mut c = Nrepl::new();
    c.feed(b"d3:agei42e3:out2:hie");
    assert_eq!(event(&mut c), Response::StdOut("hi".to_string()));
    c.feed(b"d3:negi-7e6:statusl4:doneee");
    assert_eq!(event(&mut c), Response::Done(None));
}

#[test]
fn nrepl_empty_dictionary_is_unexpected() {
    let mut c = Nrepl::new();
    c.feed(b"de");
    assert_eq!(violation(&mut c), ViolationKind::UnexpectedFields);
}

#[test]
fn nrepl_quit_sends_nothing() {
    let mut c = Nrepl::new();
    c.quit().unwrap();
    assert_eq!(c.take_output(), Vec::<u8>::new());
}

#[test]
fn bencode_incomplete_versus_malformed() {
    assert_eq!(parse_message(b"d3:ou"), Err(ParseFail::Incomplete));
    assert_eq!(parse_message(b""), Err(ParseFail::Incomplete));
    assert_eq!(parse_message(b"d3:out"), Err(ParseFail::Incomplete));
    assert_eq!(parse_message(b"d3:out#"), Err(ParseFail::Malformed));
    assert_eq!(parse_message(b"q"), Err(ParseFail::Malformed));
}

#[test]
fn prepl_send_writes_code_verbatim() {
    let mut c = Prepl::new();
    c.send("(+ 1 1)\n").unwrap();
    assert_eq!(c.take_output(), b"(+ 1 1)\n".to_vec());
}

#[test]
fn prepl_ret_is_terminal_with_value() {
    let mut c = Prepl::new();
    c.feed(b"{:tag :ret :val \"2\" :ns \"user\"}\n");
    let e = event(&mut c);
    assert_eq!(e, Response::Done(Some("2".to_string())));
    assert!(e.is_terminal());
    assert_eq!(c.namespace(), "user");
}

#[test]
fn prepl_exception_reports_the_cause() {
    let mut c = Prepl::new();
    c.feed(b"{:tag :ret :val \"{:cause \\\"Divide by zero\\\"}\" :exception true}\n");
    let e = event(&mut c);
    assert_eq!(e, Response::Exception("Divide by zero".to_string()));
    assert!(e.is_terminal());
}

#[test]
fn prepl_out_and_err_lines() {
    let mut c = Prepl::new();
    c.feed(b"{:tag :out :val \"hello\\n\"}\n{:tag :err :val \"oops\"}\n");
    assert_eq!(event(&mut c), Response::StdOut("hello\n".to_string()));
    assert_eq!(event(&mut c), Response::StdErr("oops".to_string()));
}

#[test]
fn prepl_missing_val_is_a_violation() {
    let mut c = Prepl::new();
    c.feed(b"{:tag :ret}\n");
    assert_eq!(violation(&mut c), ViolationKind::MissingVal);
}

#[test]
fn prepl_missing_tag_is_a_violation() {
    let mut c = Prepl::new();
    c.feed(b"{:val \"x\"}\n");
    assert_eq!(violation(&mut c), ViolationKind::MissingTag);
}

#[test]
fn prepl_unknown_tag_is_a_violation() {
    let mut c = Prepl::new();
    c.feed(b"{:tag :tap :val \"x\"}\n");
    assert_eq!(violation(&mut c), ViolationKind::UnknownTag);
}

#[test]
fn prepl_unparseable_line_is_a_violation() {
    let mut c = Prepl::new();
    c.feed(b"{:tag :ret :val }}}\n");
    assert_eq!(violation(&mut c), ViolationKind::MalformedMessage);
}

#[test]
fn prepl_non_map_line_is_a_violation() {
    let mut c = Prepl::new();
    c.feed(b"[1 2 3]\n");
    assert_eq!(violation(&mut c), ViolationKind::NotADictionary);
}

#[test]
fn prepl_exception_without_cause_is_a_violation() {
    let mut c = Prepl::new();
    c.feed(b"{:tag :ret :val \"{:x 1}\" :exception true}\n");
    assert_eq!(violation(&mut c), ViolationKind::CauseMissing);
}

#[test]
fn prepl_exception_with_unparseable_val_is_a_violation() {
    let mut c = Prepl::new();
    c.feed(b"{:tag :ret :val \"42\" :exception true}\n");
    assert_eq!(violation(&mut c), ViolationKind::ExceptionUnparsable);
}

#[test]
fn prepl_namespace_stays_until_a_new_one_arrives() {
    let mut c = Prepl::new();
    assert_eq!(c.namespace(), "user");
    c.feed(b"{:tag :out :val \"x\"}\n");
    let _ = event(&mut c);
    assert_eq!(c.namespace(), "user");
    assert_eq!(c.namespace(), "user");
    c.feed(b"{:tag :ret :val \"nil\" :ns \"other.ns\"}\n");
    let _ = event(&mut c);
    assert_eq!(c.namespace(), "other.ns");
}

#[test]
fn prepl_waits_for_a_full_line() {
    let mut c = Prepl::new();
    c.feed(b"{:tag :ret :val \"2\"");
    assert!(matches!(c.recv(), Ok(RecvOutcome::NeedInput)));
    c.feed(b"}\n");
    assert_eq!(event(&mut c), Response::Done(Some("2".to_string())));
}

#[test]
fn prepl_tolerates_numbers_and_nested_values() {
    let mut c = Prepl::new();
    c.feed(b"{:tag :ret, :val \"3\", :ns \"user\", :ms 2, :form \"(+ 1 2)\"}\n");
    assert_eq!(event(&mut c), Response::Done(Some("3".to_string())));
    c.feed(b"{:extra [1 {:a 2} (b c)] :tag :out :val \"x\"}\n");
    assert_eq!(event(&mut c), Response::StdOut("x".to_string()));
}

#[test]
fn prepl_exception_with_nested_trace_still_finds_cause() {
    let line = b"{:tag :ret :val \"{:cause \\\"Boom\\\" :via [{:type E :message \\\"Boom\\\"}] :trace [[f g 1]]}\" :exception true}\n";
    let mut c = Prepl::new();
    c.feed(line);
    assert_eq!(event(&mut c), Response::Exception("Boom".to_string()));
}

#[test]
fn prepl_quit_writes_the_quit_command() {
    let mut c = Prepl::new();
    c.quit().unwrap();
    assert_eq!(c.take_output(), b":repl/quit\n".to_vec());
}

#[test]
fn string_escapes_are_resolved() {
    let mut c = Prepl::new();
    c.feed(b"{:tag :out :val \"a\\tb\\\\c\\\"d\\re\"}\n");
    assert_eq!(event(&mut c), Response::StdOut("a\tb\\c\"d\re".to_string()));
}

#[test]
fn responses_know_their_terminal_status() {
    assert!(Response::Done(None).is_terminal());
    assert!(Response::Done(Some("2".to_string())).is_terminal());
    assert!(Response::Exception("x".to_string()).is_terminal());
    assert!(!Response::StdOut("x".to_string()).is_terminal());
    assert!(!Response::StdErr("x".to_string()).is_terminal());
    assert!(!Response::Other(String::new()).is_terminal());
}

#[test]
fn write_and_flush_appends_bytes() {
    let mut w: Vec<u8> = b"x".to_vec();
    ruply::util::write_and_flush(&mut w, "yz").unwrap();
    assert_eq!(w, b"xyz".to_vec());
}

#[test]
fn nrepl_duplicate_keys_last_one_wins() {
    let mut c = Nrepl::new();
    c.feed(b"d3:out1:a3:out1:be");
    assert_eq!(event(&mut c), Response::StdOut("b".to_string()));
}

#[test]
fn prepl_duplicate_keys_last_one_wins() {
    let mut c = Prepl::new();
    c.feed(b"{:tag :out :tag :err :val \"x\"}\n");
    assert_eq!(event(&mut c), Response::StdErr("x".to_string()));
}

#[test]
fn apply_line_map_classifies_and_moves_the_namespace() {
    let mut c = Prepl::new();
    let m = vec![
        (EdnAtom::Kw(b"tag".to_vec()), EdnAtom::Kw(b"ret".to_vec())),
        (EdnAtom::Kw(b"val".to_vec()), EdnAtom::Str(b"7".to_vec())),
        (EdnAtom::Kw(b"ns".to_vec()), EdnAtom::Str(b"abc".to_vec())),
    ];
    match c.apply_line_map(&m) {
        Ok(LineOutcome::Event(Response::Done(Some(s)))) => assert_eq!(s, "7"),
        other => panic!("unexpected outcome {:?}", other),
    }
    assert_eq!(c.namespace(), "abc");
}

#[test]
fn cause_event_requires_a_cause() {
    let with = vec![(EdnAtom::Kw(b"cause".to_vec()), EdnAtom::Str(b"Boom".to_vec()))];
    assert_eq!(cause_event(&with), Ok(Response::Exception("Boom".to_string())));
    let without = vec![(EdnAtom::Kw(b"type".to_vec()), EdnAtom::Opaque)];
    assert_eq!(cause_event(&without), Err(ViolationKind::CauseMissing));
}

#[test]
fn prepl_false_exception_is_a_plain_result() {
    let mut c = Prepl::new();
    c.feed(b"{:tag :ret :val \"2\" :exception false}\n");
    assert_eq!(event(&mut c), Response::Done(Some("2".to_string())));
}

#[test]
fn prepl_nil_exception_is_a_plain_result() {
    let mut c = Prepl::new();
    c.feed(b"{:tag :ret :val \"2\" :exception nil}\n");
    assert_eq!(event(&mut c), Response::Done(Some("2".to_string())));
}
