use goms_rs::reply;
use goms_rs::{CallError, Message};

fn reply_with(cmd: &str, values: &[&str]) -> Message {
    Message::new(cmd.to_string(), 1, values.iter().map(|s| s.to_string()).collect())
}

#[test]
fn hget_gives_the_first_value() {
    assert_eq!(reply::hget(&reply_with("hget", &["up"])), Ok("up".to_string()));
    assert_eq!(reply::hget(&reply_with("hget", &["a", "b"])), Ok("a".to_string()));
    assert_eq!(reply::hget(&reply_with("hget", &[""])), Ok(String::new()));
}

#[test]
fn hget_fails_on_an_empty_reply() {
    assert_eq!(reply::hget(&reply_with("hget", &[])), Err(CallError::EmptyResult));
}

#[test]
fn hset_succeeds_on_any_value() {
    assert_eq!(reply::hset(&reply_with("hset", &["ok"])), Ok(()));
    assert_eq!(reply::hset(&reply_with("hset", &[""])), Ok(()));
}

#[test]
fn hset_fails_on_an_empty_reply() {
    assert_eq!(reply::hset(&reply_with("hset", &[])), Err(CallError::EmptyResult));
}

#[test]
fn del_succeeds_on_any_value() {
    assert_eq!(reply::del(&reply_with("del", &["1"])), Ok(()));
}

#[test]
fn del_fails_on_an_empty_reply() {
    assert_eq!(reply::del(&reply_with("del", &[])), Err(CallError::EmptyResult));
}

#[test]
fn hgetall_gives_every_value_as_it_came() {
    let expected: Vec<String> = vec!["f1".to_string(), "v1".to_string(), "f2".to_string()];
    assert_eq!(reply::hgetall(reply_with("hgetall", &["f1", "v1", "f2"])), expected);
    assert_eq!(reply::hgetall(reply_with("hgetall", &[])), Vec::<String>::new());
}

#[test]
fn key_prefix_gives_every_key() {
    let expected: Vec<String> = vec!["nodeRegister:game0".to_string(), "nodeRegister:game1".to_string()];
    assert_eq!(
        reply::key_prefix(reply_with("key_prefix", &["nodeRegister:game0", "nodeRegister:game1"])),
        expected
    );
    assert_eq!(reply::key_prefix(reply_with("key_prefix", &[])), Vec::<String>::new());
}

#[test]
fn hincrby_reads_the_number_in_the_first_value() {
    assert_eq!(reply::hincrby(&reply_with("hincrby", &["5"])), Ok(5));
    assert_eq!(reply::hincrby(&reply_with("hincrby", &["-12", "x"])), Ok(-12));
    assert_eq!(
        reply::hincrby(&reply_with("hincrby", &["9223372036854775807"])),
        Ok(i64::MAX)
    );
}

#[test]
fn hincrby_fails_on_an_empty_reply() {
    assert_eq!(reply::hincrby(&reply_with("hincrby", &[])), Err(CallError::EmptyResult));
}

#[test]
fn hincrby_fails_on_a_value_that_is_no_number() {
    assert_eq!(reply::hincrby(&reply_with("hincrby", &["abc"])), Err(CallError::ParseError));
    assert_eq!(reply::hincrby(&reply_with("hincrby", &[""])), Err(CallError::ParseError));
    assert_eq!(reply::hincrby(&reply_with("hincrby", &["5.0"])), Err(CallError::ParseError));
    assert_eq!(
        reply::hincrby(&reply_with("hincrby", &["9223372036854775808"])),
        Err(CallError::ParseError)
    );
}
