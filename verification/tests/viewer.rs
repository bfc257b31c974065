//! A simulated network, and the commands that drive it.

use blackwood::viewer::command::{answer, command_in, respond, run};
use blackwood::viewer::http::{parse_request, Request};
use blackwood::viewer::json::json_string;
use blackwood::viewer::sim::{Delivery, Sim};

/// The network as it opens.
const OPENING: &str = r#"{"version":11,"now":0,"nodes":[{"id":1,"root":1,"parent":null,"path":[1],"cost":0,"peers":[2],"knows":4},{"id":2,"root":1,"parent":1,"path":[1,2],"cost":1,"peers":[1,3,4],"knows":4},{"id":3,"root":1,"parent":2,"path":[1,2,3],"cost":2,"peers":[2,4],"knows":4},{"id":4,"root":1,"parent":3,"path":[1,2,3,4],"cost":3,"peers":[2,3,5],"knows":4},{"id":5,"root":1,"parent":4,"path":[1,2,3,4,5],"cost":4,"peers":[4],"knows":4}],"links":[{"a":1,"b":2,"cost":1,"tree":true},{"a":2,"b":3,"cost":1,"tree":true},{"a":2,"b":4,"cost":5,"tree":false},{"a":3,"b":4,"cost":1,"tree":true},{"a":4,"b":5,"cost":1,"tree":true}],"log":["network ready"]}"#;

fn request(line: &str) -> Request {
    parse_request(line).expect("a request line")
}

fn error<T>(result: Result<T, String>) -> String {
    match result {
        Ok(_) => panic!("that should have failed"),
        Err(error) => error,
    }
}

#[test]
fn the_network_opens_settled_on_the_cheapest_tree() {
    assert_eq!(Sim::new().snapshot(), OPENING);
    assert_eq!(Sim::default().snapshot(), OPENING);
    assert_eq!(Sim::new().now(), 0);
}

#[test]
fn a_packet_takes_the_cheap_way_round() {
    let mut sim = Sim::new();
    let delivery = sim.send(1, 5).expect("a route");
    assert_eq!(delivery.route, vec![1, 2, 3, 4, 5]);
    assert!(delivery.delivered);
    assert_eq!(delivery.cost, 4);
    assert_eq!(
        delivery.json_fields(),
        r#""route":[1,2,3,4,5],"delivered":true,"cost":4"#
    );
    assert!(sim
        .snapshot()
        .ends_with(r#""log":["packet 1 to 5: 1 → 2 → 3 → 4 → 5 (delivered, cost 4)","network ready"]}"#));
}

#[test]
fn a_packet_to_oneself_goes_nowhere() {
    let mut sim = Sim::new();
    let delivery = sim.send(3, 3).expect("already there");
    assert_eq!(delivery.route, vec![3]);
    assert!(delivery.delivered);
    assert_eq!(delivery.cost, 0);
}

#[test]
fn re_pricing_a_link_moves_the_tree_and_back() {
    let mut sim = Sim::new();
    sim.set_link_cost(4, 2, 1).expect("they are linked");
    let snapshot = sim.snapshot();
    assert!(snapshot.contains(r#"{"id":4,"root":1,"parent":2,"path":[1,2,4],"cost":2,"#));
    assert!(snapshot.contains(r#"{"a":2,"b":4,"cost":1,"tree":true}"#));
    assert!(snapshot.contains(r#"{"a":3,"b":4,"cost":1,"tree":false}"#));
    assert!(snapshot.contains(r#""log":["4 and 2 now cost 1, was 5","#));
    assert_eq!(sim.send(1, 5).expect("a route").route, vec![1, 2, 4, 5]);
}

#[test]
fn a_removed_node_takes_its_links_with_it() {
    let mut sim = Sim::new();
    sim.remove_node(4).expect("it is there");
    let snapshot = sim.snapshot();
    assert!(!snapshot.contains(r#""id":4"#));
    assert!(snapshot.contains(
        r#""links":[{"a":1,"b":2,"cost":1,"tree":true},{"a":2,"b":3,"cost":1,"tree":true}]"#
    ));
    assert!(snapshot.contains(r#"{"id":5,"root":5,"parent":null,"path":[5],"cost":0,"peers":[],"#));
    assert_eq!(error(sim.remove_link(4, 5)), "4 and 5 are not linked");
}

#[test]
fn labels_are_never_given_out_twice() {
    let mut sim = Sim::new();
    sim.remove_node(5).expect("it is there");
    assert_eq!(sim.add_node(), Ok(6), "and not 5 again");
    for id in 7..=254 {
        assert_eq!(sim.add_node(), Ok(id));
    }
    assert_eq!(sim.add_node(), Err("out of labels".to_string()));
}

#[test]
fn what_cannot_be_done_says_why_and_changes_nothing() {
    let mut sim = Sim::new();
    assert_eq!(error(sim.remove_node(9)), "no node 9");
    assert_eq!(error(sim.add_link(1, 1, 1)), "a node cannot link to itself");
    assert_eq!(error(sim.add_link(9, 1, 1)), "no node 9");
    assert_eq!(error(sim.add_link(1, 9, 1)), "no node 9");
    assert_eq!(error(sim.add_link(1, 3, 0)), "a link costs at least 1");
    assert_eq!(error(sim.add_link(2, 1, 1)), "2 and 1 are already linked");
    assert_eq!(error(sim.set_link_cost(1, 2, 0)), "a link costs at least 1");
    assert_eq!(error(sim.set_link_cost(1, 5, 1)), "1 and 5 are not linked");
    assert_eq!(error(sim.set_link_cost(1, 2, 1)), "1 and 2 already cost 1");
    assert_eq!(error(sim.remove_link(1, 5)), "1 and 5 are not linked");
    assert_eq!(error(sim.send(9, 1)), "no node 9");
    assert_eq!(error(sim.send(1, 9)), "no node 9");
    assert_eq!(sim.snapshot(), OPENING);
}

#[test]
fn a_packet_to_an_isolated_node_has_no_route() {
    let mut sim = Sim::new();
    sim.add_node().expect("a label is left");
    let before = sim.snapshot();
    assert_eq!(error(sim.send(1, 6)), "1 to 6: no route to destination");
    assert_eq!(sim.snapshot(), before);
}

#[test]
fn the_clock_moves_when_it_is_told_to_and_forgets_the_departed() {
    let mut sim = Sim::new();
    sim.remove_node(5).expect("it is there");
    assert!(sim.snapshot().contains(r#""path":[1],"cost":0,"peers":[2],"knows":4}"#));

    sim.advance(5_000, "5.0");
    assert_eq!(sim.now(), 5_000);
    let snapshot = sim.snapshot();
    assert!(snapshot.contains(r#""path":[1],"cost":0,"peers":[2],"knows":3}"#));
    assert!(snapshot.contains(r#""log":["clock at 5.0s, 4 announcements expired","removed node 5","#));

    sim.advance(1_500, "6.5");
    assert_eq!(sim.now(), 6_500);
    assert!(sim.snapshot().contains(r#""log":["clock at 6.5s","#));
}

#[test]
fn one_announcement_is_not_several() {
    let mut sim = Sim::new();
    for id in [1, 2, 3] {
        sim.remove_node(id).expect("it is there");
    }
    sim.advance(5_000, "5.0");
    sim.remove_node(5).expect("it is there");
    sim.advance(5_000, "10.0");
    assert!(sim
        .snapshot()
        .contains(r#""log":["clock at 10.0s, 1 announcement expired","#));
}

#[test]
fn a_clock_that_cannot_count_further_stops() {
    let mut sim = Sim::new();
    for id in [1, 2, 3, 4, 5] {
        sim.remove_node(id).expect("it is there");
    }
    sim.advance(2_500, "2.5");
    assert_eq!(sim.now(), 2_500);
    sim.advance(0, "2.5");
    assert_eq!(sim.now(), 2_500);
}

#[test]
fn only_the_last_lines_of_the_log_are_shown_newest_first() {
    let mut sim = Sim::new();
    for _ in 0..50 {
        sim.add_node().expect("a label is left");
    }
    let snapshot = sim.snapshot();
    let log = &snapshot[snapshot.find(r#""log":"#).expect("a log")..];
    assert!(log.starts_with(r#""log":["added node 55","added node 54","#));
    assert!(log.ends_with(r#""added node 17","added node 16"]}"#));
}

#[test]
fn json_strings_are_quoted_and_escaped() {
    assert_eq!(json_string("plain"), r#""plain""#);
    assert_eq!(json_string("a\"b\\c"), r#""a\"b\\c""#);
    assert_eq!(json_string("a\nb"), r#""a\nb""#);
    assert_eq!(json_string("a\tb\u{1}\u{1f}"), r#""a\u0009b\u0001\u001f""#);
    assert_eq!(json_string("→"), r#""→""#);
}

#[test]
fn a_command_is_named_by_its_path() {
    assert_eq!(command_in("/api/node/add"), Some("node/add".to_string()));
    assert_eq!(command_in("/api/"), Some(String::new()));
    assert_eq!(command_in("/api"), None);
    assert_eq!(command_in("/index.html"), None);
}

#[test]
fn commands_run_against_the_network() {
    let mut sim = Sim::new();
    let post = |query: &str| request(&format!("POST /x?{query} HTTP/1.1"));

    assert_eq!(run("state", &request("GET / x"), &mut sim), Ok(None));
    assert_eq!(run("node/add", &post(""), &mut sim), Ok(None));
    assert_eq!(run("link/add", &post("a=5&b=6"), &mut sim), Ok(None));
    assert!(sim.snapshot().contains(r#"{"a":5,"b":6,"cost":1,"tree":true}"#));
    assert_eq!(
        run("send", &post("from=1&to=6"), &mut sim),
        Ok(Some(
            r#""route":[1,2,3,4,5,6],"delivered":true,"cost":5"#.to_string()
        ))
    );
    assert_eq!(run("link/remove", &post("a=6&b=5"), &mut sim), Ok(None));
    assert_eq!(run("link/add", &post("a=1&b=6&cost=9"), &mut sim), Ok(None));
    assert!(sim.snapshot().contains(r#"{"a":1,"b":6,"cost":9,"tree":true}"#));
    assert_eq!(run("node/remove", &post("id=6"), &mut sim), Ok(None));
    assert_eq!(run("reset", &post(""), &mut sim), Ok(None));
    assert_eq!(sim.snapshot(), OPENING);
}

#[test]
fn commands_that_fail_say_why() {
    let mut sim = Sim::new();
    let post = |query: &str| request(&format!("POST /x?{query} HTTP/1.1"));
    let mut says = |command: &str, request: &Request| error(run(command, request, &mut sim));

    assert_eq!(
        says("node/add", &request("GET / x")),
        "node/add must be a POST"
    );
    assert_eq!(says("dance", &post("")), "unknown command dance");
    assert_eq!(says("dance", &request("GET / x")), "dance must be a POST");
    assert_eq!(says("node/remove", &post("")), "missing parameter id");
    assert_eq!(
        says("node/remove", &post("id=x")),
        "parameter id is not a number"
    );
    assert_eq!(says("node/remove", &post("id=9")), "no node 9");
    assert_eq!(says("link/add", &post("b=2")), "missing parameter a");
    assert_eq!(says("link/add", &post("a=1")), "missing parameter b");
    assert_eq!(
        says("link/add", &post("a=1&b=3&cost=dear")),
        "parameter cost is not a number"
    );
    assert_eq!(
        says("link/add", &post("a=1&b=3&cost=0")),
        "a link costs at least 1"
    );
    assert_eq!(says("link/remove", &post("a=1")), "missing parameter b");
    assert_eq!(says("link/remove", &post("b=1")), "missing parameter a");
    assert_eq!(
        says("link/remove", &post("a=1&b=3")),
        "1 and 3 are not linked"
    );
    assert_eq!(says("send", &post("to=1")), "missing parameter from");
    assert_eq!(says("send", &post("from=1")), "missing parameter to");
    assert_eq!(says("send", &post("from=1&to=9")), "no node 9");
    assert_eq!(sim.snapshot(), OPENING, "and nothing has changed");
}

#[test]
fn answers_carry_the_network_as_it_now_is() {
    let mut sim = Sim::new();
    assert_eq!(
        answer(&request("GET /api/state HTTP/1.1"), &mut sim),
        Some(format!(r#"{{"ok":true,"state":{OPENING}}}"#))
    );
    assert_eq!(
        answer(&request("GET /api/reset HTTP/1.1"), &mut sim),
        Some(format!(
            r#"{{"ok":false,"error":"reset must be a POST","state":{OPENING}}}"#
        ))
    );
    assert_eq!(answer(&request("GET /index.html HTTP/1.1"), &mut sim), None);

    let told = answer(&request("POST /api/send?from=2&to=1 HTTP/1.1"), &mut sim)
        .expect("a command");
    assert_eq!(
        told,
        format!(
            r#"{{"ok":true,"route":[2,1],"delivered":true,"cost":1,"state":{}}}"#,
            sim.snapshot()
        )
    );
}

#[test]
fn an_outcome_is_worded_for_the_browser() {
    let sim = Sim::new();
    assert_eq!(
        respond(&Err("say \"no\"".to_string()), &sim),
        format!(r#"{{"ok":false,"error":"say \"no\"","state":{OPENING}}}"#)
    );
    assert_eq!(
        respond(&Ok(Some("\"x\":1".to_string())), &sim),
        format!(r#"{{"ok":true,"x":1,"state":{OPENING}}}"#)
    );
}

#[test]
fn a_dropped_packet_says_so() {
    let delivery = Delivery {
        route: vec![1, 2],
        delivered: false,
        cost: 3,
    };
    assert_eq!(
        delivery.json_fields(),
        r#""route":[1,2],"delivered":false,"cost":3"#
    );
}

/// Where everybody sits, whom they hold links to and how many nodes they know,
/// and the links: everything a snapshot shows but its version, clock and log.
fn places(snapshot: &str) -> &str {
    let from = snapshot.find(r#""nodes":"#).expect("nodes");
    let to = snapshot.find(r#","log":"#).expect("a log");
    &snapshot[from..to]
}

#[test]
fn a_linked_network_is_undisturbed_by_ten_lifetimes() {
    let mut sim = Sim::new();
    sim.advance(30_000, "30.0");
    assert_eq!(sim.now(), 30_000);
    assert_eq!(places(&sim.snapshot()), places(OPENING));
    assert!(sim
        .snapshot()
        .ends_with(r#""log":["clock at 30.0s","network ready"]}"#));

    // By odd amounts as well as even ones.
    for by in [1, 999, 1_001, 2_999, 25_000] {
        sim.advance(by, "later");
        assert_eq!(places(&sim.snapshot()), places(OPENING));
    }
    assert_eq!(sim.now(), 60_000);
    assert_eq!(sim.send(1, 5).expect("a route").route, vec![1, 2, 3, 4, 5]);
    assert!(!sim.snapshot().contains("did not settle"));
}
