use goms_rs::reply;
use goms_rs::{decode, encode, CallError, Client, Dispatch, FrameBuffer, Message};
use std::collections::BTreeMap;

/// A store that answers requests as the protocol's server would.
struct Store {
    keys: BTreeMap<String, BTreeMap<String, String>>,
}

impl Store {
    fn new() -> Store {
        Store { keys: BTreeMap::new() }
    }

    fn answer(&mut self, frame: &[u8]) -> Vec<u8> {
        let (req, used) = decode(frame).unwrap();
        assert_eq!(used, frame.len());
        let v = &req.values;
        let values: Vec<String> = match req.cmd.as_str() {
            "hset" => {
                self.keys.entry(v[0].clone()).or_default().insert(v[1].clone(), v[2].clone());
                vec!["ok".to_string()]
            }
            "hget" => match self.keys.get(&v[0]).and_then(|fields| fields.get(&v[1])) {
                Some(value) => vec![value.clone()],
                None => Vec::new(),
            },
            "hincrby" => {
                let fields = self.keys.entry(v[0].clone()).or_default();
                let old: i64 = fields.get(&v[1]).map(|s| s.parse().unwrap()).unwrap_or(0);
                let new = old + v[2].parse::<i64>().unwrap();
                fields.insert(v[1].clone(), new.to_string());
                vec![new.to_string()]
            }
            "del" => match self.keys.remove(&v[0]) {
                Some(_) => vec!["1".to_string()],
                None => Vec::new(),
            },
            "key_prefix" => self.keys.keys().filter(|k| k.starts_with(&v[0])).cloned().collect(),
            "hgetall" => match self.keys.get(&v[0]) {
                Some(fields) => fields.iter().flat_map(|(f, x)| [f.clone(), x.clone()]).collect(),
                None => Vec::new(),
            },
            _ => vec!["ok".to_string()],
        };
        encode(&Message::new(req.cmd, req.seq, values))
    }
}

/// Sends one request through the store and hands back the reply that the
/// client pairs with `slot`.
fn exchange(
    client: &mut Client<u32>,
    inbound: &mut FrameBuffer,
    store: &mut Store,
    request: Message,
    slot: u32,
) -> Message {
    let answer = store.answer(&encode(&request));
    assert!(inbound.extend(&answer));
    let arrived = inbound.next_message().unwrap().unwrap();
    match client.on_message(arrived) {
        Dispatch::Reply(ended) => {
            assert_eq!(ended.slot, slot);
            assert_eq!(ended.seq, request.seq);
            ended.outcome.unwrap()
        }
        other => panic!("unexpected {:?}", other),
    }
}

#[test]
fn register_a_node_then_find_it() {
    let mut client: Client<u32> = Client::new(vec!["nodeRegister:".to_string()]);
    assert!(client.connecting());
    assert!(client.connected());
    let mut inbound = FrameBuffer::new();
    let mut store = Store::new();

    let request = client.initialize(0).unwrap();
    exchange(&mut client, &mut inbound, &mut store, request, 0);

    let request = client.hset("nodeRegister:game0", "status", "up", 1).unwrap();
    let rsp = exchange(&mut client, &mut inbound, &mut store, request, 1);
    assert!(!rsp.values.is_empty());
    assert_eq!(reply::hset(&rsp), Ok(()));

    let request = client.hget("nodeRegister:game0", "status", 2).unwrap();
    let rsp = exchange(&mut client, &mut inbound, &mut store, request, 2);
    assert_eq!(reply::hget(&rsp), Ok("up".to_string()));

    let request = client.key_prefix("nodeRegister:", 3).unwrap();
    let rsp = exchange(&mut client, &mut inbound, &mut store, request, 3);
    let keys = reply::key_prefix(rsp);
    assert!(keys.contains(&"nodeRegister:game0".to_string()));
}

#[test]
fn count_with_hincrby_then_delete() {
    let mut client: Client<u32> = Client::new(Vec::new());
    client.connecting();
    client.connected();
    let mut inbound = FrameBuffer::new();
    let mut store = Store::new();

    let request = client.hincrby("k", "f", 5, 1).unwrap();
    let rsp = exchange(&mut client, &mut inbound, &mut store, request, 1);
    assert_eq!(reply::hincrby(&rsp), Ok(5));

    let request = client.hincrby("k", "f", -7, 2).unwrap();
    let rsp = exchange(&mut client, &mut inbound, &mut store, request, 2);
    assert_eq!(reply::hincrby(&rsp), Ok(-2));

    let request = client.hgetall("k", 3).unwrap();
    let rsp = exchange(&mut client, &mut inbound, &mut store, request, 3);
    assert_eq!(reply::hgetall(rsp), vec!["f".to_string(), "-2".to_string()]);

    let request = client.del("k", 4).unwrap();
    let rsp = exchange(&mut client, &mut inbound, &mut store, request, 4);
    assert_eq!(reply::del(&rsp), Ok(()));

    let request = client.del("k", 5).unwrap();
    let rsp = exchange(&mut client, &mut inbound, &mut store, request, 5);
    assert_eq!(reply::del(&rsp), Err(CallError::EmptyResult));

    let request = client.hget("k", "f", 6).unwrap();
    let rsp = exchange(&mut client, &mut inbound, &mut store, request, 6);
    assert_eq!(reply::hget(&rsp), Err(CallError::EmptyResult));
}

#[test]
fn replies_and_pushes_share_one_stream() {
    let mut client: Client<u32> = Client::new(Vec::new());
    client.connecting();
    client.connected();
    let mut store = Store::new();
    let first = client.hset("k", "f", "v", 10).unwrap();
    let second = client.hget("k", "f", 20).unwrap();

    let mut stream: Vec<u8> = Vec::new();
    let answer_first = store.answer(&encode(&first));
    let answer_second = store.answer(&encode(&second));
    stream.extend_from_slice(&answer_second);
    stream.extend_from_slice(&encode(&Message::new(
        "watch".to_string(),
        0,
        vec!["k".to_string(), "f".to_string(), "v".to_string()],
    )));
    stream.extend_from_slice(&answer_first);

    let mut inbound = FrameBuffer::new();
    let mut seen: Vec<String> = Vec::new();
    for chunk in stream.chunks(7) {
        assert!(inbound.extend(chunk));
        while let Some(msg) = inbound.next_message().unwrap() {
            match client.on_message(msg) {
                Dispatch::Reply(ended) => {
                    seen.push(format!("reply {} to {}", ended.seq, ended.slot))
                }
                Dispatch::Push { key, field, value } => {
                    seen.push(format!("push {} {} {}", key, field, value))
                }
                Dispatch::Dropped => seen.push("dropped".to_string()),
            }
        }
    }
    assert_eq!(seen, vec!["reply 2 to 20", "push k f v", "reply 1 to 10"]);
}

#[test]
fn the_stream_ends_while_two_calls_wait() {
    let mut client: Client<u32> = Client::new(Vec::new());
    client.connecting();
    client.connected();
    let first = client.hget("k", "f", 1).unwrap();
    let second = client.hget("k", "g", 2).unwrap();

    let mut inbound = FrameBuffer::new();
    let reply = encode(&Message::new("hget".to_string(), first.seq, vec!["v".to_string()]));
    assert!(inbound.extend(&reply[..reply.len() - 2]));
    assert_eq!(inbound.next_message(), Ok(None));

    let mut ended = client.close();
    ended.sort_by_key(|r| r.seq);
    assert_eq!(ended.len(), 2);
    assert_eq!(ended[0].slot, 1);
    assert_eq!(ended[0].outcome, Err(CallError::ConnectionClosed));
    assert_eq!(ended[1].seq, second.seq);
    assert_eq!(ended[1].outcome, Err(CallError::ConnectionClosed));
    assert_eq!(client.hget("k", "f", 3), Err(CallError::ConnectionClosed));
}
