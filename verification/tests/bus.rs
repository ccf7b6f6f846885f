use ivy_rs::announce::{accept_announce, announce_message, watcher_id, PROTOCOL_VERSION};
use ivy_rs::bus::{Action, BusState, Command, UDPLISTENER_THD_ID};
use ivy_rs::ivy_messages::IvyMsg;
use ivy_rs::pattern::{params_of, Matcher};
use ivy_rs::peer::Peer;

fn sends(actions: &[Action]) -> Vec<(u32, String)> {
    actions
        .iter()
        .filter_map(|a| match a {
            Action::Send(pid, m) => Some((*pid, format!("{:?}", m))),
            _ => None,
        })
        .collect()
}

fn bus_with_peer() -> (BusState, u32) {
    let mut bus = BusState::new("me".to_string());
    let (pid, _) = bus.accept_connection();
    (bus, pid)
}

#[test]
fn new_bus_state() {
    let bus = BusState::new("app".to_string());
    assert_eq!(bus.appname, "app");
    assert!(bus.peers.is_empty() && bus.subscriptions.is_empty() && bus.threads.is_empty());
    assert_eq!((bus.next_thread_id, bus.next_sub_id, bus.next_ping_id, bus.local_port), (2, 0, 0, 0));
    assert!(!bus.should_terminate);
}

#[test]
fn subscription_ids() {
    let mut bus = BusState::new("app".to_string());
    assert_eq!(bus.add_subscription("a"), 0);
    assert_eq!(bus.add_subscription("b"), 1);
    bus.remove_subscription(0);
    assert_eq!(bus.subscriptions.len(), 1);
    assert_eq!(bus.subscriptions[&1], "b");
    assert_eq!(bus.add_subscription("c"), 2);
    assert_eq!(bus.new_ping_id(), 0);
    assert_eq!(bus.new_ping_id(), 1);
}

#[test]
fn subscribe_then_unsubscribe_restores() {
    let mut bus = BusState::new("app".to_string());
    bus.add_subscription("keep");
    let id = bus.add_subscription("drop");
    bus.remove_subscription(id);
    assert_eq!(bus.subscriptions.len(), 1);
    assert_eq!(bus.subscriptions[&0], "keep");
}

#[test]
fn connection_opens_with_subscriptions() {
    let mut bus = BusState::new("me".to_string());
    bus.add_subscription("(yo.*)");
    let (pid, msgs) = bus.accept_connection();
    assert_eq!(pid, 2);
    assert_eq!(msgs.len(), 2);
    assert!(matches!(msgs[0], IvyMsg::Sub(0, ref r) if r == "(yo.*)"));
    assert!(matches!(msgs[1], IvyMsg::EndSub));
    assert!(bus.peers.contains_key(&2) && bus.threads.contains(&2));
    assert_eq!(bus.peers[&2].get_id(), 2);
    assert_eq!(bus.peers[&2].get_name(), "");
    assert_eq!(bus.next_thread_id, 3);
}

#[test]
fn announced_peer_gets_our_id_first() {
    let mut bus = BusState::new("me".to_string());
    bus.set_local_port(4242);
    let (pid, msgs) = bus.connect_announced_peer("other\n".to_string());
    assert_eq!(pid, 2);
    assert!(matches!(msgs[0], IvyMsg::PeerId(4242, ref n) if n == "me"));
    assert!(matches!(msgs[1], IvyMsg::EndSub));
    assert_eq!(bus.peers[&2].name, "other\n");
}

#[test]
fn connections_get_distinct_ids() {
    let mut bus = BusState::new("me".to_string());
    let (a, _) = bus.accept_connection();
    let (b, _) = bus.connect_announced_peer("x".to_string());
    assert_ne!(a, b);
    assert!(bus.peers.contains_key(&a) && bus.peers.contains_key(&b));
}

#[test]
fn peer_messages_update_the_peer() {
    let (mut bus, pid) = bus_with_peer();
    assert!(bus.handle_ivymsg(pid, IvyMsg::Sub(5, "hello (.*)".to_string())).is_empty());
    assert_eq!(bus.peers[&pid].subscriptions[&5], "hello (.*)");
    assert!(bus.handle_ivymsg(pid, IvyMsg::PeerId(1, "bob".to_string())).is_empty());
    assert_eq!(bus.peers[&pid].name, "bob");
    assert!(bus.handle_ivymsg(pid, IvyMsg::DelSub(5)).is_empty());
    assert!(bus.peers[&pid].subscriptions.is_empty());
}

#[test]
fn peer_messages_call_back() {
    let (mut bus, pid) = bus_with_peer();
    let sid = bus.add_subscription("az (.*)");
    let a = bus.handle_ivymsg(pid, IvyMsg::TextMsg(sid, vec!["1".to_string()]));
    assert!(matches!(a[..], [Action::Deliver(s, p, ref ps)] if s == sid && p == pid && *ps == vec!["1".to_string()]));
    assert!(bus.handle_ivymsg(pid, IvyMsg::TextMsg(sid + 1, vec![])).is_empty());
    assert!(matches!(bus.handle_ivymsg(pid, IvyMsg::EndSub)[..], [Action::PeerConnected(p)] if p == pid));
    assert!(matches!(bus.handle_ivymsg(pid, IvyMsg::Quit)[..], [Action::QuitRequested(p)] if p == pid));
    assert!(matches!(bus.handle_ivymsg(pid, IvyMsg::DirectMsg(42, "yo".to_string()))[..],
        [Action::DirectMessage(p, 42, ref t)] if p == pid && t == "yo"));
    assert!(matches!(bus.handle_ivymsg(pid, IvyMsg::Ping(8))[..],
        [Action::Send(p, IvyMsg::Pong(8))] if p == pid));
}

#[test]
fn bye_stops_the_peer_reader() {
    let (mut bus, pid) = bus_with_peer();
    let a = bus.handle_ivymsg(pid, IvyMsg::Bye);
    assert!(matches!(a[..], [Action::StopPeer(p)] if p == pid));
    assert!(bus.peers[&pid].should_terminate);
}

#[test]
fn unknown_peer_is_ignored() {
    let (mut bus, pid) = bus_with_peer();
    let other = pid + 100;
    for m in [IvyMsg::Bye, IvyMsg::Quit, IvyMsg::EndSub, IvyMsg::Ping(1), IvyMsg::Pong(1),
              IvyMsg::Sub(1, "x".to_string()), IvyMsg::PeerId(1, "n".to_string())] {
        assert!(bus.handle_ivymsg(other, m).is_empty());
    }
    assert_eq!(bus.peers.len(), 1);
    assert!(!bus.peers[&pid].should_terminate);
    assert_eq!(bus.peers[&pid].name, "");
}

#[test]
fn ping_is_answered_once() {
    let (mut bus, pid) = bus_with_peer();
    let a = bus.handle_command(Command::Ping(pid, 3));
    assert!(matches!(a[..], [Action::PingStarted(p), Action::Send(q, IvyMsg::Ping(3))] if p == pid && q == pid));
    assert!(bus.pending_pings.contains(&pid));
    assert!(matches!(bus.handle_ivymsg(pid, IvyMsg::Pong(3))[..], [Action::PingAnswered(p)] if p == pid));
    assert!(bus.handle_ivymsg(pid, IvyMsg::Pong(3)).is_empty());
    assert!(bus.handle_command(Command::Ping(pid + 7, 4)).is_empty());
}

#[test]
fn subscription_changes_go_to_every_peer() {
    let (mut bus, a) = bus_with_peer();
    let (b, _) = bus.accept_connection();
    let acts = bus.handle_command(Command::Sub(9, "re".to_string()));
    let mut got = sends(&acts);
    got.sort();
    assert_eq!(got, vec![(a, "Sub(9, \"re\")".to_string()), (b, "Sub(9, \"re\")".to_string())]);
    let mut got = sends(&bus.handle_command(Command::UnSub(9)));
    got.sort();
    assert_eq!(got, vec![(a, "DelSub(9)".to_string()), (b, "DelSub(9)".to_string())]);
}

#[test]
fn send_matches_peer_subscriptions() {
    let (mut bus, a) = bus_with_peer();
    let (b, _) = bus.accept_connection();
    bus.handle_ivymsg(a, IvyMsg::Sub(1, "hello (.*)".to_string()));
    bus.handle_ivymsg(a, IvyMsg::Sub(2, "^bye$".to_string()));
    bus.handle_ivymsg(b, IvyMsg::Sub(3, "(h)(x)?ello".to_string()));
    let acts = bus.handle_command(Command::SendMsg("hello you".to_string()));
    let mut got = sends(&acts);
    got.sort();
    assert_eq!(got, vec![
        (a, "TextMsg(1, [\"you\"])".to_string()),
        (b, "TextMsg(3, [\"h\"])".to_string()),
    ]);
}

#[test]
fn send_with_bad_peer_pattern_is_refused() {
    let (mut bus, a) = bus_with_peer();
    bus.handle_ivymsg(a, IvyMsg::Sub(1, "(".to_string()));
    assert!(!bus.all_patterns_compile());
    assert!(bus.try_handle_command(Command::SendMsg("x".to_string())).is_none());
    assert!(bus.try_handle_command(Command::UnSub(1)).is_some());
}

#[test]
fn direct_message_to_known_peer_only() {
    let (mut bus, a) = bus_with_peer();
    let acts = bus.handle_command(Command::SendDirectMsg(a, 42, "yo man".to_string()));
    assert!(matches!(acts[..], [Action::Send(p, IvyMsg::DirectMsg(42, ref t))] if p == a && t == "yo man"));
    assert!(bus.handle_command(Command::SendDirectMsg(a + 1, 42, "x".to_string())).is_empty());
}

#[test]
fn stop_says_bye_and_stops_everything() {
    let (mut bus, a) = bus_with_peer();
    let (b, _) = bus.accept_connection();
    bus.register_thread(UDPLISTENER_THD_ID);
    let acts = bus.handle_command(Command::Stop);
    assert_eq!(acts.len(), 5);
    let mut byes = sends(&acts);
    byes.sort();
    assert_eq!(byes, vec![(a, "Bye".to_string()), (b, "Bye".to_string())]);
    assert!(matches!(acts[4], Action::StopListeners));
    assert_eq!(acts.iter().filter(|x| matches!(x, Action::StopPeer(_))).count(), 2);
    assert!(bus.should_terminate);
    assert!(bus.peers.values().all(|p: &Peer| p.should_terminate));
    assert!(!bus.handle_terminated(a));
    assert!(!bus.handle_terminated(UDPLISTENER_THD_ID));
    assert!(bus.handle_terminated(b));
    assert!(bus.peers.is_empty());
}

#[test]
fn thread_end_without_stop_keeps_running() {
    let (mut bus, a) = bus_with_peer();
    assert!(!bus.handle_terminated(a));
    assert!(bus.peers.is_empty() && bus.threads.is_empty());
}

#[test]
fn matcher_params() {
    assert!(Matcher::compile("(").is_none());
    let m = Matcher::compile("az ([0-9]+) (.*)").unwrap();
    assert_eq!(m.matched_params("xx az 12 hello"), Some(vec!["12".to_string(), "hello".to_string()]));
    assert!(m.matched_params("nothing").is_none());
    let m = Matcher::compile("(a)?(b)").unwrap();
    assert_eq!(m.matched_params("b"), Some(vec!["b".to_string()]));
    let m = Matcher::compile("b").unwrap();
    assert_eq!(m.matched_params("abc"), Some(vec![]));
    assert_eq!(params_of(vec![Some("all".to_string()), None, Some("x".to_string())]), vec!["x".to_string()]);
    assert!(params_of(vec![]).is_empty());
}

#[test]
fn announce_text() {
    assert_eq!(PROTOCOL_VERSION, 3);
    assert_eq!(announce_message("app", 2010), b"3 2010 app_2010 app\n".to_vec());
    assert_eq!(watcher_id("app", 2010), "app_2010");
}

#[test]
fn own_announce_is_ignored() {
    let me = watcher_id("app", 2010);
    let text = String::from_utf8(announce_message("app", 2010)).unwrap();
    assert!(accept_announce(&text, &me).is_none());
}

#[test]
fn other_announce_is_accepted() {
    let me = watcher_id("app", 2010);
    let text = String::from_utf8(announce_message("other", 3000)).unwrap();
    assert_eq!(accept_announce(&text, &me), Some((3000, "other\n".to_string())));
    assert!(accept_announce("4 3000 other_3000 other\n", &me).is_none());
    assert!(accept_announce("garbage", &me).is_none());
}

#[test]
fn peers_keep_their_ids_and_threads() {
    let mut bus = BusState::new("me".to_string());
    let (a, _) = bus.accept_connection();
    let (b, _) = bus.connect_announced_peer("x".to_string());
    bus.handle_ivymsg(a, IvyMsg::PeerId(1, "renamed".to_string()));
    bus.handle_ivymsg(b, IvyMsg::Bye);
    bus.handle_command(Command::Stop);
    bus.handle_terminated(a);
    for (pid, peer) in bus.peers.iter() {
        assert_eq!(peer.id, *pid);
        assert!(bus.threads.contains(pid));
    }
    assert!(bus.peers.contains_key(&b) && !bus.peers.contains_key(&a));
}
