use kvstore::server::{handle_request, parse_request, Action, Command, MapType, Session};

fn handle(map: &mut MapType, session: &mut Session, line: &str) -> Action {
    handle_request(map, session, line, true, "done")
}

#[test]
fn parse_get_set_and_others() {
    assert!(matches!(parse_request("GET key1\r\n", "x"), Command::Get(k) if k == "key1"));
    assert!(matches!(parse_request("SET key1 some value\n", "x"), Command::Put(k, v) if k == "key1" && v == "some value"));
    assert!(matches!(parse_request("ENDBATCH\r\n", "x"), Command::EndBatch));
    assert!(matches!(parse_request("ENDBATCH now\r\n", "x"), Command::EndBatch));
    assert!(matches!(parse_request("STATS\n", "x"), Command::Stats));
    assert!(matches!(parse_request("CLEAR\n", "x"), Command::Clear));
    assert!(matches!(parse_request("EXIT x\n", "x"), Command::Exit));
    assert!(matches!(parse_request("EXIT y\n", "x"), Command::Unknown));
    assert!(matches!(parse_request("GET\n", "x"), Command::Unknown));
    assert!(matches!(parse_request("GET a b\n", "x"), Command::Unknown));
    assert!(matches!(parse_request("SET a\n", "x"), Command::Unknown));
    assert!(matches!(parse_request("get a\n", "x"), Command::Unknown));
    assert!(matches!(parse_request("GET  a\n", "x"), Command::Unknown));
}

#[test]
fn get_after_set_replies_with_the_value() {
    let mut map = MapType::new();
    let mut session = Session::new();
    assert!(matches!(handle(&mut map, &mut session, "SET key1 value1\r\n"), Action::Continue));
    assert!(matches!(handle(&mut map, &mut session, "GET key1\r\n"), Action::Continue));
    assert!(matches!(handle(&mut map, &mut session, "GET key2\r\n"), Action::Continue));
    assert_eq!(session.response, "OK\r\nOK value1\r\nERR NotFound\r\n");
    match handle(&mut map, &mut session, "ENDBATCH\r\n") {
        Action::SendBatch { response, log } => {
            assert_eq!(response, "OK\r\nOK value1\r\nERR NotFound\r\n");
            assert!(log.is_none());
        }
        _ => panic!("ENDBATCH must send the batch"),
    }
    assert_eq!(session.response, "");
}

#[test]
fn set_logs_the_line_when_persisting() {
    let mut map = MapType::new();
    let mut session = Session::new();
    handle_request(&mut map, &mut session, "SET a 1\r\n", false, "");
    handle_request(&mut map, &mut session, "GET a\r\n", false, "");
    assert_eq!(session.log, "SET a 1\r\n\n");
    match handle_request(&mut map, &mut session, "ENDBATCH\r\n", false, "") {
        Action::SendBatch { response, log } => {
            assert_eq!(response, "OK\r\nOK 1\r\n");
            assert_eq!(log, Some("SET a 1\r\n\n".to_string()));
        }
        _ => panic!("ENDBATCH must send the batch"),
    }
    assert_eq!(session.log, "");
}

#[test]
fn unknown_command_replaces_the_gathered_replies() {
    let mut map = MapType::new();
    let mut session = Session::new();
    handle(&mut map, &mut session, "GET a\r\n");
    handle(&mut map, &mut session, "FOO\r\n");
    assert_eq!(session.response, "ERR UnknownCommand\r\n");
}

#[test]
fn stats_reports_size_and_depth() {
    let mut map = MapType::new();
    let mut session = Session::new();
    handle(&mut map, &mut session, "SET a 1\r\n");
    handle(&mut map, &mut session, "SET b 2\r\n");
    match handle(&mut map, &mut session, "STATS\r\n") {
        Action::Stats { stats, reply } => {
            assert_eq!(stats.size, 2);
            assert_eq!(stats.depth, 1);
            assert_eq!(reply, "2 1\r\n");
        }
        _ => panic!("STATS must report"),
    }
}

#[test]
fn clear_empties_the_map() {
    let mut map = MapType::new();
    let mut session = Session::new();
    handle(&mut map, &mut session, "SET a 1\r\n");
    match handle(&mut map, &mut session, "CLEAR\r\n") {
        Action::Cleared { reply } => assert_eq!(reply, "OK\r\n"),
        _ => panic!("CLEAR must clear"),
    }
    assert!(map.is_empty());
    handle(&mut map, &mut session, "GET a\r\n");
    assert_eq!(session.response, "OK\r\nERR NotFound\r\n");
}

#[test]
fn exit_with_the_right_code() {
    let mut map = MapType::new();
    let mut session = Session::new();
    assert!(matches!(handle(&mut map, &mut session, "EXIT done\r\n"), Action::Exit));
    assert!(matches!(handle(&mut map, &mut session, "EXIT nope\r\n"), Action::Continue));
    assert_eq!(session.response, "ERR UnknownCommand\r\n");
}

#[test]
fn one_reply_line_per_request() {
    let mut map = MapType::new();
    let mut session = Session::new();
    let lines = ["SET a 1\r\n", "GET a\r\n", "GET b\r\n", "SET b two words\r\n", "GET b\n"];
    for l in lines {
        handle(&mut map, &mut session, l);
    }
    assert_eq!(session.response.matches('\n').count(), lines.len());
    assert_eq!(session.response, "OK\r\nOK 1\r\nERR NotFound\r\nOK\r\nOK two words\r\n");
}
