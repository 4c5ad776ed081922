use kv_gauntlet::base64::Base64Error;
use kv_gauntlet::systems::antidote::{eval_outcome, parse_read_output, AntidoteError, AntidoteStore};
use kv_gauntlet::systems::cassandra::first_row_value;
use kv_gauntlet::systems::etcd::first_value;

#[test]
fn erlang_literal_escapes() {
    assert_eq!(AntidoteStore::erlang_binary_literal("abc"), "<<\"abc\">>");
    assert_eq!(
        AntidoteStore::erlang_binary_literal("a\"b\\c\nd\re\tf"),
        "<<\"a\\\"b\\\\c\\nd\\re\\tf\">>"
    );
    assert_eq!(AntidoteStore::erlang_binary_literal(""), "<<\"\">>");
    assert_eq!(AntidoteStore::erlang_binary_literal("é"), "<<\"é\">>");
}

#[test]
fn endpoint_chooses_container() {
    let s = AntidoteStore::for_endpoint("antidote2".to_string());
    assert_eq!(s.container, "antidote2");
    assert_eq!(s.bucket, "kv_gauntlet");
    assert_eq!(AntidoteStore::for_endpoint("".to_string()).container, "antidote1");
    assert_eq!(AntidoteStore::for_endpoint("  \t".to_string()).container, "antidote1");
}

#[test]
fn put_expression_text() {
    let s = AntidoteStore::for_endpoint("antidote1".to_string());
    assert_eq!(
        s.put_expression("k", "v"),
        "Obj={<<\"k\">>, antidote_crdt_register_lww, <<\"kv_gauntlet\">>}, {ok,Tx}=antidote:start_transaction(ignore,[{update_clock,true}]), ok=antidote:update_objects([{Obj, assign, <<\"#v\">>}], Tx), {ok,_}=antidote:commit_transaction(Tx)."
    );
}

#[test]
fn get_expression_text() {
    let s = AntidoteStore::for_endpoint("antidote1".to_string());
    assert_eq!(
        s.get_expression("k"),
        "Obj={<<\"k\">>, antidote_crdt_register_lww, <<\"kv_gauntlet\">>}, {ok,Tx}=antidote:start_transaction(ignore,[{update_clock,true}]), Read=antidote:read_objects([Obj], Tx), {ok,_}=antidote:commit_transaction(Tx), case Read of {ok,[<<>>]} -> io:format(\"KVGAUNTLET_NONE~n\", []); {ok,[V]} -> io:format(\"KVGAUNTLET_VALUE=~s~n\", [binary_to_list(base64:encode(V))]); Other -> io:format(\"KVGAUNTLET_ERR=~p~n\", [Other]) end."
    );
}

#[test]
fn put_expression_marks_empty_value() {
    let s = AntidoteStore::for_endpoint("antidote1".to_string());
    assert!(s.put_expression("k", "").contains("assign, <<\"#\">>}"));
    assert!(s.put_expression("k", "a\"b").contains("assign, <<\"#a\\\"b\">>}"));
}

#[test]
fn read_output_marked_value() {
    assert_eq!(parse_read_output("KVGAUNTLET_VALUE=I2hlbGxv\n").unwrap(), Some("hello".to_string()));
    assert_eq!(parse_read_output("KVGAUNTLET_VALUE=I8Op\n").unwrap(), Some("é".to_string()));
    // a key written with the empty text reads back as the empty text
    assert_eq!(parse_read_output("KVGAUNTLET_VALUE=Iw==\n").unwrap(), Some(String::new()));
}

#[test]
fn read_output_value() {
    let r = parse_read_output("KVGAUNTLET_VALUE=aGVsbG8tYW50aWRvdGU=\nok\n").unwrap();
    assert_eq!(r, Some("hello-antidote".to_string()));
    let r = parse_read_output("noise\r\nKVGAUNTLET_VALUE=w6k=\r\n").unwrap();
    assert_eq!(r, Some("é".to_string()));
}

#[test]
fn read_output_none() {
    assert_eq!(parse_read_output("KVGAUNTLET_NONE\nok\n").unwrap(), None);
    assert_eq!(parse_read_output("  KVGAUNTLET_NONE  \n").unwrap(), None);
}

#[test]
fn read_output_errors() {
    match parse_read_output("KVGAUNTLET_ERR={error,timeout}\n") {
        Err(AntidoteError::UnexpectedPayload(l)) => assert_eq!(l, "KVGAUNTLET_ERR={error,timeout}"),
        other => panic!("unexpected {:?}", other),
    }
    assert!(matches!(parse_read_output("ok\n"), Err(AntidoteError::Unparseable)));
    assert!(matches!(parse_read_output(""), Err(AntidoteError::Unparseable)));
    assert!(matches!(
        parse_read_output("KVGAUNTLET_VALUE=abc\n"),
        Err(AntidoteError::InvalidBase64(Base64Error::InvalidLength))
    ));
    assert!(matches!(
        parse_read_output("KVGAUNTLET_VALUE=ab*c\n"),
        Err(AntidoteError::InvalidBase64(Base64Error::InvalidCharacter))
    ));
    assert!(matches!(parse_read_output("KVGAUNTLET_VALUE=/w==\n"), Err(AntidoteError::InvalidUtf8(_))));
}

#[test]
fn error_messages() {
    assert_eq!(AntidoteError::Unparseable.message(), "Antidote read did not return a parseable value");
    assert_eq!(
        AntidoteError::UnexpectedPayload("X".to_string()).message(),
        "Antidote read returned unexpected payload: X"
    );
    assert_eq!(AntidoteError::EvalFailed("boom".to_string()).message(), "Antidote eval failed: boom");
    assert_eq!(AntidoteError::InvalidBase64(Base64Error::InvalidLength).message(), "Invalid base64 length");
    assert_eq!(
        AntidoteError::InvalidBase64(Base64Error::InvalidCharacter).message(),
        "Invalid base64 character"
    );
    assert_eq!(
        AntidoteError::ConnectFailed { container: "c".to_string(), detail: "d".to_string() }.message(),
        "Failed to connect to Antidote container 'c': d"
    );
}

#[test]
fn eval_and_ping_outcomes() {
    assert_eq!(eval_outcome(true, b"out\n", b"ignored").unwrap(), "out\n");
    match eval_outcome(false, b"", b"  Node is not running!\n") {
        Err(AntidoteError::EvalFailed(d)) => assert_eq!(d, "Node is not running!"),
        other => panic!("unexpected {:?}", other),
    }
    let s = AntidoteStore::for_endpoint("antidote1".to_string());
    assert!(s.ping_outcome(true, b"").is_ok());
    match s.ping_outcome(false, b"no such container\n") {
        Err(AntidoteError::ConnectFailed { container, detail }) => {
            assert_eq!(container, "antidote1");
            assert_eq!(detail, "no such container");
        }
        other => panic!("unexpected {:?}", other),
    }
}

#[test]
fn cassandra_first_row() {
    assert_eq!(first_row_value(None), None);
    assert_eq!(first_row_value(Some(vec![])), None);
    assert_eq!(first_row_value(Some(vec![Some("v".to_string()), Some("w".to_string())])), Some("v".to_string()));
    assert_eq!(first_row_value(Some(vec![None])), None);
}

#[test]
fn etcd_first_value() {
    assert_eq!(first_value(vec![]).unwrap(), None);
    assert_eq!(first_value(vec![b"hello-etcd".to_vec(), b"x".to_vec()]).unwrap(), Some("hello-etcd".to_string()));
    assert!(first_value(vec![vec![0xff]]).is_err());
}

#[test]
fn distinct_keys_give_distinct_literals() {
    let pairs = [("a\"", "a\\\""), ("a\n", "a\\n"), ("x\\", "x\\\\"), ("t\t", "t\\t")];
    for (a, b) in pairs {
        assert_ne!(AntidoteStore::erlang_binary_literal(a), AntidoteStore::erlang_binary_literal(b));
    }
}

#[test]
fn eval_output_invalid_bytes_are_replaced() {
    assert_eq!(eval_outcome(true, &[0x66, 0xff], b"").unwrap(), "f\u{FFFD}");
}

#[test]
fn etcd_error_is_the_utf8_error() {
    let e = first_value(vec![vec![0x61, 0xff]]).unwrap_err();
    assert_eq!(e, std::str::from_utf8(&[0x61, 0xff]).unwrap_err());
    assert_eq!(e.valid_up_to(), 1);
}
