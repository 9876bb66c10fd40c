use red_mod::decimal::parse_decimal;
use red_mod::error::{GenericError, RedError};
use red_mod::redis::{
    handle_status, manifest_redis_reply, parse_args, to_raw_mode, KeyMode, LogLevel, RawReply,
    Redis, Reply, Status,
};

fn message(e: RedError) -> String {
    match e {
        RedError::Generic(g) => g.description().to_string(),
        other => panic!("{:?}", other),
    }
}

#[test]
fn errors_carry_their_message() {
    let e = GenericError::new("no room");
    assert_eq!(e.description(), "no room");
    assert_eq!(e.to_string(), "Store error: no room");
    assert_eq!(message(RedError::generic("gone")), "gone");
}

#[test]
fn a_call_takes_one_to_four_arguments() {
    let r = Redis {};
    let req = r.call("SET", &["k", "v"]).unwrap();
    assert_eq!(req.command, "SET");
    assert_eq!(req.format, "ss");
    assert_eq!(req.args.iter().map(|a| a.as_str()).collect::<Vec<_>>(), vec!["k", "v"]);
    assert_eq!(r.call("GET", &["k"]).unwrap().format, "s");
    assert_eq!(r.call("X", &["a", "b", "c", "d"]).unwrap().format, "ssss");
    assert_eq!(message(r.call("PING", &[]).unwrap_err()), "Can't support that many CALL arguments");
    assert_eq!(
        message(r.call("X", &["a", "b", "c", "d", "e"]).unwrap_err()),
        "Can't support that many CALL arguments"
    );
}

#[test]
fn texts_that_write_integers_are_read_as_integers() {
    let r = Redis {};
    let coerce = |s: &str| r.coerce_integer(Ok(Reply::String(s.to_string())));
    assert!(matches!(coerce("1234"), Ok(Reply::Integer(1234))));
    assert!(matches!(coerce("-7"), Ok(Reply::Integer(-7))));
    assert!(matches!(coerce("+7"), Ok(Reply::Integer(7))));
    assert!(matches!(coerce("-0"), Ok(Reply::Integer(0))));
    assert!(matches!(coerce("007"), Ok(Reply::Integer(7))));
    assert!(matches!(coerce("9223372036854775807"), Ok(Reply::Integer(i64::MAX))));
    assert!(matches!(coerce("-9223372036854775808"), Ok(Reply::Integer(i64::MIN))));
    assert!(matches!(coerce("9223372036854775808"), Ok(Reply::String(s)) if s == "9223372036854775808"));
    assert!(matches!(coerce("-9223372036854775809"), Ok(Reply::String(_))));
    assert!(matches!(coerce("99999999999999999999999999999999999999999999"), Ok(Reply::String(_))));
    assert!(matches!(coerce(""), Ok(Reply::String(s)) if s.is_empty()));
    assert!(matches!(coerce("+"), Ok(Reply::String(_))));
    assert!(matches!(coerce("-"), Ok(Reply::String(_))));
    assert!(matches!(coerce("12a"), Ok(Reply::String(s)) if s == "12a"));
    assert!(matches!(coerce(" 12"), Ok(Reply::String(_))));
    assert!(matches!(coerce("1-2"), Ok(Reply::String(_))));
    assert!(matches!(coerce("١٢"), Ok(Reply::String(_))));
    assert!(matches!(r.coerce_integer(Ok(Reply::Nil)), Ok(Reply::Nil)));
    assert!(matches!(r.coerce_integer(Ok(Reply::Integer(3))), Ok(Reply::Integer(3))));
    assert_eq!(message(r.coerce_integer(Err(RedError::generic("bad"))).unwrap_err()), "bad");
}

#[test]
fn decimal_parsing_agrees_with_the_standard_library() {
    for s in [
        "0", "1", "-1", "+1", "", "+", "-", "--1", "+-1", "1+", "12345678901234567890",
        "9223372036854775807", "9223372036854775808", "-9223372036854775808",
        "-9223372036854775809", "0000000000000000000000000000000000000001", "1 ", " 1", "0x10", "1e3",
        "18446744073709551616", "92233720368547758070",
    ] {
        assert_eq!(parse_decimal(s.as_bytes()), s.parse::<i64>().ok(), "{:?}", s);
    }
}

#[test]
fn replies_of_the_host_are_manifested() {
    assert!(matches!(manifest_redis_reply(RawReply::Integer(5)), Ok(Reply::Integer(5))));
    assert!(matches!(manifest_redis_reply(RawReply::Nil), Ok(Reply::Nil)));
    assert!(matches!(manifest_redis_reply(RawReply::Unknown), Ok(Reply::Unknown)));
    assert!(matches!(
        manifest_redis_reply(RawReply::String("héllo".as_bytes().to_vec())),
        Ok(Reply::String(s)) if s == "héllo"
    ));
    assert!(matches!(
        manifest_redis_reply(RawReply::String(vec![0xff])),
        Err(RedError::FromUtf8(_))
    ));
    assert_eq!(
        message(manifest_redis_reply(RawReply::Error).unwrap_err()),
        "Redis replied with an error."
    );
    assert_eq!(
        message(manifest_redis_reply(RawReply::Array).unwrap_err()),
        "Don't yet handle Redis type: Array"
    );
}

#[test]
fn log_lines_name_their_level() {
    let r = Redis {};
    assert_eq!(r.log(LogLevel::Debug, "m"), ("debug".to_string(), "m".to_string()));
    assert_eq!(r.log(LogLevel::Notice, "m"), ("notice".to_string(), "m".to_string()));
    assert_eq!(r.log(LogLevel::Verbose, "m"), ("verbose".to_string(), "m".to_string()));
    assert_eq!(r.log(LogLevel::Warning, "m"), ("warning".to_string(), "m".to_string()));
    assert_eq!(r.log_debug("hi"), ("notice".to_string(), "hi".to_string()));
    assert_eq!(r.create_string("text").as_str(), "text");
    assert_eq!(r.reply_string("done").as_str(), "done");
}

#[test]
fn keys_are_read_as_text() {
    let r = Redis {};
    let missing = r.open_key("k", None);
    assert!(missing.is_null());
    assert_eq!(missing.read().unwrap(), None);
    let held = r.open_key("k", Some(b"value".to_vec()));
    assert!(!held.is_null());
    assert_eq!(held.read().unwrap(), Some("value".to_string()));
    let broken = r.open_key("k", Some(vec![0xc3]));
    assert!(matches!(broken.read(), Err(RedError::FromUtf8(_))));

    let mut w = r.open_key_writable("k", Vec::new());
    assert_eq!(w.is_empty().unwrap(), true);
    assert_eq!(w.read().unwrap(), Some(String::new()));
    assert_eq!(message(w.write("new", Status::Refused).unwrap_err()), "Error while setting key");
    assert_eq!(w.read().unwrap(), Some(String::new()));
    w.write("new", Status::Done).unwrap();
    assert_eq!(w.is_empty().unwrap(), false);
    assert_eq!(w.read().unwrap(), Some("new".to_string()));
    let bad = r.open_key_writable("k", vec![0xff]);
    assert!(matches!(bad.is_empty(), Err(RedError::FromUtf8(_))));
    assert!(matches!(bad.read(), Err(RedError::FromUtf8(_))));
}

#[test]
fn a_status_is_an_error_or_nothing() {
    assert!(handle_status(Status::Done, "m").is_ok());
    assert_eq!(message(handle_status(Status::Refused, "Could not reply").unwrap_err()), "Could not reply");
    assert_eq!(to_raw_mode(KeyMode::Read), 1);
    assert_eq!(to_raw_mode(KeyMode::ReadWrite), 3);
}

#[test]
fn arguments_are_read_as_texts() {
    assert_eq!(parse_args(&[]).unwrap(), Vec::<String>::new());
    assert_eq!(
        parse_args(&[b"SET".to_vec(), "ké".as_bytes().to_vec(), vec![]]).unwrap(),
        vec!["SET".to_string(), "ké".to_string(), String::new()]
    );
    assert!(matches!(parse_args(&[b"ok".to_vec(), vec![0x80]]), Err(RedError::FromUtf8(_))));
}
