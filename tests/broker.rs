use broker::codec::{make_delivery_line, parse_publish, record, split_channels};
use broker::registry::{clean, Delivery, Registry, RegistryError};
use broker::secret::{Secret, SecretError};
use broker::worker::{on_end, on_line, Action, Phase};

const SECRET: &str = "YETTBDYZGYSDBGULZNUKXHSTLWPKDYBJ";

fn secret() -> Secret {
    Secret::new(SECRET).expect("strong secret")
}

fn names(list: &[&str]) -> Vec<Vec<u8>> {
    list.iter().map(|s| s.as_bytes().to_vec()).collect()
}

fn conns(ds: &[Delivery]) -> Vec<u64> {
    ds.iter().map(|d| d.conn).collect()
}

fn subscribed(reg: &mut Registry, conn: u64, line: &str) {
    match on_line(Phase::AwaitChannels, line.as_bytes(), &secret()) {
        (Phase::Subscriber, Action::Subscribe(chs)) => assert!(reg.subscribe(conn, &chs)),
        other => panic!("unexpected {:?}", other),
    }
}

fn published(line: &str) -> (Vec<u8>, Vec<u8>) {
    match on_line(Phase::Publisher, line.as_bytes(), &secret()) {
        (Phase::Publisher, Action::Publish { channel, line }) => (channel, line),
        other => panic!("unexpected {:?}", other),
    }
}

#[test]
fn strong_secret_is_accepted() {
    assert!(Secret::new(SECRET).is_ok());
}

#[test]
fn short_secret_is_refused() {
    assert_eq!(Secret::new("abc").err(), Some(SecretError::TooShort));
    assert_eq!(Secret::new(&SECRET[..31]).err(), Some(SecretError::TooShort));
    assert_eq!(Secret::new("").err(), Some(SecretError::TooShort));
}

#[test]
fn length_counts_characters_not_bytes() {
    // sixteen two-byte characters: 32 bytes but 16 characters
    let s: String = "éàüöäßçñøåîôûêâë".to_string();
    assert_eq!(s.len(), 32);
    assert_eq!(Secret::new(&s).err(), Some(SecretError::TooShort));
}

#[test]
fn run_of_five_is_refused() {
    let s = format!("aaaaa{}", &SECRET[..27]);
    assert_eq!(Secret::new(&s).err(), Some(SecretError::RepeatedRun));
    let t = format!("{}ZZZZZZ", SECRET);
    assert_eq!(Secret::new(&t).err(), Some(SecretError::RepeatedRun));
}

#[test]
fn run_of_four_is_accepted() {
    let s = format!("aaaa{}", &SECRET[..28]);
    assert!(Secret::new(&s).is_ok());
}

#[test]
fn run_of_newlines_does_not_count() {
    let s = format!("\n\n\n\n\n{}", SECRET);
    assert!(Secret::new(&s).is_ok());
}

#[test]
fn judge_follows_the_matcher() {
    let run = format!("bbbbbb{}", SECRET);
    assert_eq!(Secret::judge(&run, Some(true)).err(), Some(SecretError::RepeatedRun));
    assert_eq!(Secret::judge(&run, None).err(), Some(SecretError::Unchecked));
    assert_eq!(Secret::judge(SECRET, None).err(), Some(SecretError::Unchecked));
    assert!(Secret::judge(SECRET, Some(false)).is_ok());
    assert_eq!(Secret::judge("short", Some(false)).err(), Some(SecretError::TooShort));
}

#[test]
fn secret_line_is_admitted_and_others_rejected() {
    let s = secret();
    assert!(s.admits(format!("{}\n", SECRET).as_bytes()));
    assert!(s.admits(format!("{}\r\n", SECRET).as_bytes()));
    assert!(s.admits(SECRET.as_bytes()));
    assert!(!s.admits(b"wrongsecret\n"));
    assert!(!s.admits(format!("{} \n", SECRET).as_bytes()));
    assert!(!s.admits(format!(" {}\n", SECRET).as_bytes()));
    assert!(!s.admits(&SECRET.as_bytes()[..31]));
    assert!(!s.admits(b"\n"));
}

#[test]
fn unauthenticated_connection_is_rejected() {
    let reg = Registry::new();
    let (phase, action) = on_line(Phase::AwaitAuth, b"wrongsecret\n", &secret());
    assert_eq!(phase, Phase::Closed);
    assert_eq!(action, Action::Reject(b"Authentication failed\n".to_vec()));
    assert_eq!(on_line(phase, b"news hi\n", &secret()), (Phase::Closed, Action::Close));
    assert_eq!(reg.len(), 0);
}

#[test]
fn authenticated_connection_is_acknowledged() {
    let line = format!("{}\n", SECRET);
    let (phase, action) = on_line(Phase::AwaitAuth, line.as_bytes(), &secret());
    assert_eq!(phase, Phase::AwaitChannels);
    assert_eq!(action, Action::Reply(b"Authentication successful\n".to_vec()));
}

#[test]
fn idle_before_auth_closes() {
    assert_eq!(on_end(Phase::AwaitAuth), (Phase::Closed, Action::Close));
    assert_eq!(on_end(Phase::AwaitChannels), (Phase::Closed, Action::Close));
    assert_eq!(on_end(Phase::Publisher), (Phase::Closed, Action::Close));
    assert_eq!(on_end(Phase::Subscriber), (Phase::Closed, Action::Leave));
}

#[test]
fn empty_declaration_makes_a_publisher() {
    assert_eq!(on_line(Phase::AwaitChannels, b"\n", &secret()), (Phase::Publisher, Action::Idle));
    assert_eq!(on_line(Phase::AwaitChannels, b",,\r\n", &secret()), (Phase::Publisher, Action::Idle));
}

#[test]
fn publisher_ends_on_empty_line_and_skips_records_without_space() {
    assert_eq!(on_line(Phase::Publisher, b"\n", &secret()), (Phase::Closed, Action::Close));
    assert_eq!(on_line(Phase::Publisher, b"news\n", &secret()), (Phase::Publisher, Action::Idle));
    assert_eq!(on_line(Phase::Subscriber, b"news hi\n", &secret()), (Phase::Subscriber, Action::Idle));
}

#[test]
fn round_trip_news_and_sports() {
    let mut reg = Registry::new();
    let s = secret();
    let auth = format!("{}\n", SECRET);
    // client A subscribes to news and sports
    assert_eq!(on_line(Phase::AwaitAuth, auth.as_bytes(), &s).0, Phase::AwaitChannels);
    subscribed(&mut reg, 1, "news,sports\n");
    // a sports-only subscriber
    subscribed(&mut reg, 3, "sports\n");
    // client B publishes
    assert_eq!(on_line(Phase::AwaitAuth, auth.as_bytes(), &s).0, Phase::AwaitChannels);
    assert_eq!(on_line(Phase::AwaitChannels, b"\n", &s), (Phase::Publisher, Action::Idle));
    let (channel, line) = published("news hello world\n");
    assert_eq!(channel, b"news".to_vec());
    assert_eq!(line, b"news hello world\n".to_vec());
    let targets = reg.targets(&channel);
    assert_eq!(conns(&targets), vec![1]);
    assert_eq!(conns(&reg.targets(b"sports")), vec![1, 3]);
}

#[test]
fn two_publishers_fan_in_to_one_subscriber() {
    let mut reg = Registry::new();
    subscribed(&mut reg, 7, "x\n");
    let (c1, l1) = published("x first message\n");
    let (c2, l2) = published("x second one\r\n");
    assert_eq!(conns(&reg.targets(&c1)), vec![7]);
    assert_eq!(conns(&reg.targets(&c2)), vec![7]);
    assert_eq!(l1, b"x first message\n".to_vec());
    assert_eq!(l2, b"x second one\r\n".to_vec());
}

#[test]
fn each_live_subscriber_gets_one_copy() {
    let mut reg = Registry::new();
    subscribed(&mut reg, 1, "x,x,,y\n");
    assert_eq!(reg.len(), 2);
    subscribed(&mut reg, 1, "x\n");
    assert_eq!(reg.len(), 2);
    subscribed(&mut reg, 2, "y,x\n");
    assert_eq!(reg.len(), 4);
    assert_eq!(conns(&reg.targets(b"x")), vec![1, 2]);
    assert_eq!(conns(&reg.targets(b"z")), Vec::<u64>::new());
}

#[test]
fn failed_write_does_not_stop_the_others() {
    let mut reg = Registry::new();
    subscribed(&mut reg, 1, "x\n");
    subscribed(&mut reg, 2, "x\n");
    subscribed(&mut reg, 3, "x\n");
    let sent = reg.targets(b"x");
    assert_eq!(conns(&sent), vec![1, 2, 3]);
    reg.record_outcomes(&sent, &vec![true, false, true]);
    assert!(reg.is_pending(sent[1].id));
    assert!(!reg.is_pending(sent[0].id));
    assert_eq!(conns(&reg.targets(b"x")), vec![1, 3]);
    assert_eq!(reg.len(), 3);
    clean(&mut reg);
    assert_eq!(reg.len(), 2);
    assert!(!reg.is_pending(sent[1].id));
    assert_eq!(conns(&reg.targets(b"x")), vec![1, 3]);
}

#[test]
fn reconcile_with_nothing_staged_changes_nothing() {
    let mut reg = Registry::new();
    reg.reconcile();
    assert_eq!(reg.len(), 0);
    subscribed(&mut reg, 1, "a,b\n");
    let before = reg.targets(b"a");
    reg.reconcile();
    assert_eq!(reg.len(), 2);
    assert_eq!(reg.targets(b"a"), before);
}

#[test]
fn disconnected_subscriber_is_dropped() {
    let mut reg = Registry::new();
    subscribed(&mut reg, 1, "x\n");
    subscribed(&mut reg, 2, "x,y\n");
    assert_eq!(on_end(Phase::Subscriber).1, Action::Leave);
    reg.unsubscribe_connection(2);
    assert_eq!(conns(&reg.targets(b"x")), vec![1]);
    assert_eq!(conns(&reg.targets(b"y")), Vec::<u64>::new());
    assert_eq!(reg.len(), 1);
}

#[test]
fn closed_sink_is_swept_by_the_janitor() {
    let mut reg = Registry::new();
    subscribed(&mut reg, 4, "x\n");
    let sent = reg.targets(b"x");
    reg.record_outcomes(&sent, &vec![false]);
    assert!(reg.targets(b"x").is_empty());
    clean(&mut reg);
    assert_eq!(reg.len(), 0);
    assert!(reg.targets(b"x").is_empty());
}

#[test]
fn leaving_drops_staged_ids_too() {
    let mut reg = Registry::new();
    subscribed(&mut reg, 1, "x\n");
    let sent = reg.targets(b"x");
    reg.mark_failed(sent[0].id);
    assert!(reg.is_pending(sent[0].id));
    reg.unsubscribe_connection(1);
    assert!(!reg.is_pending(sent[0].id));
}

#[test]
fn mark_failed_ignores_unbound_ids() {
    let mut reg = Registry::new();
    reg.mark_failed(42);
    assert!(!reg.is_pending(42));
}

#[test]
fn bind_reports_skips_and_id_clashes() {
    let mut reg = Registry::new();
    assert_eq!(reg.bind(5, 1, b"x"), Ok(true));
    assert_eq!(reg.bind(6, 1, b"x"), Ok(false));
    assert_eq!(reg.bind(6, 1, b""), Ok(false));
    assert_eq!(reg.bind(5, 2, b"x"), Err(RegistryError::IdInUse));
    assert_eq!(reg.bind(6, 2, b"x"), Ok(true));
    assert!(reg.id_in_use(6));
    assert!(reg.is_bound(2, b"x"));
    assert!(!reg.is_bound(2, b"y"));
    assert_eq!(reg.targets(b"x"), vec![Delivery { id: 5, conn: 1 }, Delivery { id: 6, conn: 2 }]);
}

#[test]
fn subscription_ids_are_random_v4() {
    let mut reg = Registry::new();
    subscribed(&mut reg, 1, "a,b\n");
    let a = reg.targets(b"a")[0].id;
    let b = reg.targets(b"b")[0].id;
    assert_ne!(a, b);
    assert_eq!((a >> 76) & 0xf, 4);
    assert_eq!((a >> 62) & 0x3, 2);
}

#[test]
fn codec_records_and_fields() {
    assert_eq!(record(b"abc\r\n"), b"abc".to_vec());
    assert_eq!(record(b"abc\n\n"), b"abc".to_vec());
    assert_eq!(record(b"a b "), b"a b ".to_vec());
    assert_eq!(record(b""), Vec::<u8>::new());
    assert_eq!(split_channels(b"a,,b"), names(&["a", "", "b"]));
    assert_eq!(split_channels(b""), names(&[""]));
    assert_eq!(parse_publish(b"ch a  b"), Some((b"ch".to_vec(), b"a  b".to_vec())));
    assert_eq!(parse_publish(b" x"), Some((Vec::new(), b"x".to_vec())));
    assert_eq!(parse_publish(b"nospace"), None);
    assert_eq!(make_delivery_line(b"ch", b"m"), b"ch m\n".to_vec());
}

#[test]
fn subscribe_with_given_ids_is_all_or_nothing() {
    let mut reg = Registry::new();
    let chs = names(&["a", "", "b", "a"]);
    assert_eq!(reg.subscribe_with_ids(1, &chs, &vec![10, 11]), Err(RegistryError::IdCountMismatch));
    assert_eq!(reg.len(), 0);
    assert_eq!(reg.subscribe_with_ids(1, &chs, &vec![10, 11, 12, 13]), Ok(()));
    assert_eq!(reg.len(), 2);
    assert_eq!(reg.targets(b"a"), vec![Delivery { id: 10, conn: 1 }]);
    assert_eq!(reg.targets(b"b"), vec![Delivery { id: 12, conn: 1 }]);
    // the second name would reuse id 12: nothing is added, not even "c"
    let more = names(&["c", "d"]);
    assert_eq!(reg.subscribe_with_ids(2, &more, &vec![20, 12]), Err(RegistryError::IdInUse));
    assert_eq!(reg.len(), 2);
    assert!(reg.targets(b"c").is_empty());
    // an id that is only repeated for a skipped name does no harm
    let again = names(&["a", "c"]);
    assert_eq!(reg.subscribe_with_ids(1, &again, &vec![10, 30]), Ok(()));
    assert_eq!(reg.targets(b"c"), vec![Delivery { id: 30, conn: 1 }]);
}

#[test]
fn subscribe_refuses_ids_repeated_within_one_call() {
    let mut reg = Registry::new();
    let chs = names(&["a", "b"]);
    assert_eq!(reg.subscribe_with_ids(1, &chs, &vec![5, 5]), Err(RegistryError::IdInUse));
    assert_eq!(reg.len(), 0);
}

#[test]
fn publish_record_is_forwarded_up_to_its_final_newline() {
    assert_eq!(published("x a\r\n"), (b"x".to_vec(), b"x a\r\n".to_vec()));
    assert_eq!(published("x  a b \n"), (b"x".to_vec(), b"x  a b \n".to_vec()));
    assert_eq!(published("x a"), (b"x".to_vec(), b"x a\n".to_vec()));
    assert_eq!(on_line(Phase::Publisher, b"\r\n", &secret()), (Phase::Closed, Action::Close));
}

#[test]
fn text_that_is_not_utf8_closes_the_connection() {
    assert_eq!(on_line(Phase::AwaitChannels, &[0xff, b'\n'], &secret()), (Phase::Closed, Action::Close));
    assert_eq!(on_line(Phase::AwaitChannels, &[b'a', 0xc3, b'\n'], &secret()), (Phase::Closed, Action::Close));
    assert_eq!(on_line(Phase::Publisher, &[b'x', b' ', 0xff, b'\n'], &secret()), (Phase::Closed, Action::Close));
    // well-formed multi-byte text is accepted
    let (phase, action) = on_line(Phase::AwaitChannels, "caf\u{e9}\n".as_bytes(), &secret());
    assert_eq!(phase, Phase::Subscriber);
    assert_eq!(action, Action::Subscribe(names(&["caf\u{e9}"])));
}

#[test]
fn subscribe_with_nothing_to_bind_succeeds_unchanged() {
    let mut reg = Registry::new();
    assert!(reg.subscribe(1, &names(&["", ""])));
    assert_eq!(reg.len(), 0);
    assert!(reg.subscribe(1, &names(&["a"])));
    assert!(reg.subscribe(1, &names(&["a", ""])));
    assert_eq!(reg.len(), 1);
}
