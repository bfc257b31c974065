//! The commands a browser can give, and what it is told.

use vstd::prelude::*;
use vstd::slice::slice_subrange;
use crate::text::{chars_of, spells, string_of};
use crate::viewer::http;
use crate::viewer::http::{Request, RequestView};
use crate::viewer::json;
use crate::viewer::json::push_quoted;
use crate::viewer::model;
use crate::viewer::model::SimView;
use crate::viewer::sim;
use crate::viewer::sim::{Id, Sim};

verus! {

/// What one command comes to: the network it leaves behind, and either the
/// extra JSON fields it produced or what was wrong with it.
#[verifier::ext_equal]
pub struct Outcome {
    pub sim: SimView,
    pub reply: Result<Option<Seq<char>>, Seq<char>>,
}

/// What reading a parameter as a label gives.
pub open spec fn label(request: RequestView, name: Seq<char>) -> Result<Id, Seq<char>> {
    match http::parameter(request.query, name, Id::MAX as nat) {
        Ok(number) => Ok(number as Id),
        Err(words) => Err(words),
    }
}

/// What a new link is to cost: one, unless the request says otherwise.
pub open spec fn price(request: RequestView) -> Result<u64, Seq<char>> {
    if http::setting(request.query, "cost"@) is None {
        Ok(1)
    } else {
        match http::parameter(request.query, "cost"@, u64::MAX as nat) {
            Ok(number) => Ok(number as u64),
            Err(words) => Err(words),
        }
    }
}

/// A command that says no more than that it worked.
pub open spec fn done<T>(result: (SimView, Result<T, Seq<char>>)) -> Outcome {
    Outcome {
        sim: result.0,
        reply: match result.1 {
            Ok(_) => Ok(None),
            Err(words) => Err(words),
        },
    }
}

/// A command that changes nothing, and says what is wrong.
pub open spec fn failed(sim: SimView, words: Seq<char>) -> Outcome {
    Outcome { sim, reply: Err(words) }
}

/// What bringing up the link a request names comes to.
pub open spec fn linking(sim: SimView, request: RequestView) -> Outcome {
    match label(request, "a"@) {
        Ok(a) => match label(request, "b"@) {
            Ok(b) => match price(request) {
                Ok(cost) => done(sim.link_added(a, b, cost)),
                Err(words) => failed(sim, words),
            },
            Err(words) => failed(sim, words),
        },
        Err(words) => failed(sim, words),
    }
}

/// What tearing down the link a request names comes to.
pub open spec fn unlinking(sim: SimView, request: RequestView) -> Outcome {
    match label(request, "a"@) {
        Ok(a) => match label(request, "b"@) {
            Ok(b) => done(sim.link_removed(a, b)),
            Err(words) => failed(sim, words),
        },
        Err(words) => failed(sim, words),
    }
}

/// What sending the packet a request asks for comes to.
pub open spec fn sending(sim: SimView, request: RequestView) -> Outcome {
    match label(request, "from"@) {
        Ok(from) => match label(request, "to"@) {
            Ok(to) => Outcome {
                sim: sim.sent(from, to).0,
                reply: match sim.sent(from, to).1 {
                    Ok(delivery) => Ok(Some(model::delivery_fields(delivery))),
                    Err(words) => Err(words),
                },
            },
            Err(words) => failed(sim, words),
        },
        Err(words) => failed(sim, words),
    }
}

/// What one command comes to. Reading the network is a GET; changing it is a
/// POST.
pub open spec fn outcome(sim: SimView, command: Seq<char>, request: RequestView) -> Outcome {
    if command == "state"@ {
        Outcome { sim, reply: Ok(None) }
    } else if request.method != "POST"@ {
        failed(sim, command + " must be a POST"@)
    } else if command == "node/add"@ {
        done(sim.node_added())
    } else if command == "node/remove"@ {
        match label(request, "id"@) {
            Ok(id) => done(sim.node_removed(id)),
            Err(words) => failed(sim, words),
        }
    } else if command == "link/add"@ {
        linking(sim, request)
    } else if command == "link/remove"@ {
        unlinking(sim, request)
    } else if command == "send"@ {
        sending(sim, request)
    } else if command == "reset"@ {
        Outcome { sim: model::opening(), reply: Ok(None) }
    } else {
        failed(sim, "unknown command "@ + command)
    }
}

/// What the browser is told of a command: whether it worked, what it produced
/// or what was wrong, and the network as it now is.
pub open spec fn body(outcome: Outcome) -> Seq<char> {
    let state = ",\"state\":"@ + outcome.sim.snapshot() + "}"@;
    match outcome.reply {
        Ok(None) => "{\"ok\":true"@ + state,
        Ok(Some(extra)) => "{\"ok\":true,"@ + extra + state,
        Err(words) => "{\"ok\":false,\"error\":"@ + json::quoted(words) + state,
    }
}

/// The command a path names, if it names one.
pub open spec fn command_of(path: Seq<char>) -> Option<Seq<char>> {
    if path.len() >= 5 && path.take(5) == "/api/"@ {
        Some(path.skip(5))
    } else {
        None
    }
}

/// Whether a command's reply is the one expected.
pub open spec fn replied(
    reply: Result<Option<String>, String>,
    expected: Result<Option<Seq<char>>, Seq<char>>,
) -> bool {
    match expected {
        Ok(None) => reply matches Ok(None),
        Ok(Some(fields)) => reply matches Ok(Some(extra)) && extra@ == fields,
        Err(words) => reply matches Err(error) && error@ == words,
    }
}

/// Reads what a new link is to cost.
fn read_price(request: &Request) -> (cost: Result<u64, String>)
    ensures
        sim::told(cost, price(request@)),
{
    if request.has("cost") {
        request.number::<u64>("cost")
    } else {
        Ok(1)
    }
}

/// A reply that says no more than whether the command worked.
fn plain<T>(result: Result<T, String>) -> (reply: Result<Option<String>, String>)
    ensures
        match result {
            Ok(_) => reply matches Ok(None),
            Err(words) => reply matches Err(error) && error@ == words@,
        },
{
    match result {
        Ok(_) => Ok(None),
        Err(error) => Err(error),
    }
}

/// Brings up the link a request names.
fn run_link_add(request: &Request, sim: &mut Sim) -> (reply: Result<Option<String>, String>)
    requires
        old(sim).wf(),
    ensures
        final(sim).wf(),
        final(sim)@ == linking(old(sim)@, request@).sim,
        replied(reply, linking(old(sim)@, request@).reply),
{
    let a = match request.number::<Id>("a") {
        Ok(a) => a,
        Err(error) => {
            return Err(error);
        },
    };
    let b = match request.number::<Id>("b") {
        Ok(b) => b,
        Err(error) => {
            return Err(error);
        },
    };
    let cost = match read_price(request) {
        Ok(cost) => cost,
        Err(error) => {
            return Err(error);
        },
    };
    plain(sim.add_link(a, b, cost))
}

/// Tears down the link a request names.
fn run_link_remove(request: &Request, sim: &mut Sim) -> (reply: Result<Option<String>, String>)
    requires
        old(sim).wf(),
    ensures
        final(sim).wf(),
        final(sim)@ == unlinking(old(sim)@, request@).sim,
        replied(reply, unlinking(old(sim)@, request@).reply),
{
    let a = match request.number::<Id>("a") {
        Ok(a) => a,
        Err(error) => {
            return Err(error);
        },
    };
    let b = match request.number::<Id>("b") {
        Ok(b) => b,
        Err(error) => {
            return Err(error);
        },
    };
    plain(sim.remove_link(a, b))
}

/// Sends the packet a request asks for.
fn run_send(request: &Request, sim: &mut Sim) -> (reply: Result<Option<String>, String>)
    requires
        old(sim).wf(),
    ensures
        final(sim).wf(),
        final(sim)@ == sending(old(sim)@, request@).sim,
        replied(reply, sending(old(sim)@, request@).reply),
{
    let from = match request.number::<Id>("from") {
        Ok(from) => from,
        Err(error) => {
            return Err(error);
        },
    };
    let to = match request.number::<Id>("to") {
        Ok(to) => to,
        Err(error) => {
            return Err(error);
        },
    };
    match sim.send(from, to) {
        Ok(delivery) => Ok(Some(delivery.json_fields())),
        Err(error) => Err(error),
    }
}

/// Runs one command, returning any extra JSON fields it produced.
pub fn run(command: &str, request: &Request, sim: &mut Sim) -> (reply: Result<
    Option<String>,
    String,
>)
    requires
        old(sim).wf(),
    ensures
        final(sim).wf(),
        final(sim)@ == outcome(old(sim)@, command@, request@).sim,
        replied(reply, outcome(old(sim)@, command@, request@).reply),
{
    let chars = chars_of(command);
    let name = chars.as_slice();
    if spells(name, "state") {
        return Ok(None);
    }
    if !spells(chars_of(request.method.as_str()).as_slice(), "POST") {
        let mut error = string_of(name);
        error.append(" must be a POST");
        return Err(error);
    }
    if spells(name, "node/add") {
        return plain(sim.add_node());
    }
    if spells(name, "node/remove") {
        return match request.number::<Id>("id") {
            Ok(id) => plain(sim.remove_node(id)),
            Err(error) => Err(error),
        };
    }
    if spells(name, "link/add") {
        return run_link_add(request, sim);
    }
    if spells(name, "link/remove") {
        return run_link_remove(request, sim);
    }
    if spells(name, "send") {
        return run_send(request, sim);
    }
    if spells(name, "reset") {
        *sim = Sim::new();
        return Ok(None);
    }
    let mut error = String::from_str("unknown command ");
    error.append(command);
    Err(error)
}

/// Words the outcome of a command for the browser.
pub fn respond(reply: &Result<Option<String>, String>, sim: &Sim) -> (words: String)
    requires
        sim.wf(),
    ensures
        forall|expected: Result<Option<Seq<char>>, Seq<char>>| #[trigger]
            replied(*reply, expected) ==> words@ == body(
                Outcome { sim: sim@, reply: expected },
            ),
{
    let mut words: String;
    match reply {
        Ok(None) => {
            words = String::from_str("{\"ok\":true");
        },
        Ok(Some(extra)) => {
            words = String::from_str("{\"ok\":true,");
            words.append(extra.as_str());
        },
        Err(error) => {
            words = String::from_str("{\"ok\":false,\"error\":");
            push_quoted(&mut words, error.as_str());
        },
    }
    let ghost head = words@;
    words.append(",\"state\":");
    words.append(sim.snapshot().as_str());
    words.append("}");
    assert(words@ =~= head + (",\"state\":"@ + sim@.snapshot() + "}"@));
    words
}

/// Finds the command a path names.
pub fn command_in(path: &str) -> (command: Option<String>)
    ensures
        match command {
            Some(command) => command_of(path@) == Some(command@),
            None => command_of(path@) is None,
        },
{
    let chars = chars_of(path);
    let text = chars.as_slice();
    if text.len() < 5 {
        return None;
    }
    let start = slice_subrange(text, 0, 5);
    assert(start@ =~= path@.take(5));
    if !spells(start, "/api/") {
        return None;
    }
    let rest = slice_subrange(text, 5, text.len());
    assert(rest@ =~= path@.skip(5));
    Some(string_of(rest))
}

/// Answers a request for a command, if it is one. One that is not asks for a
/// file.
pub fn answer(request: &Request, sim: &mut Sim) -> (words: Option<String>)
    requires
        old(sim).wf(),
    ensures
        final(sim).wf(),
        match command_of(request@.path) {
            Some(command) => {
                let expected = outcome(old(sim)@, command, request@);
                &&& final(sim)@ == expected.sim
                &&& words matches Some(words) && words@ == body(expected)
            },
            None => words is None && final(sim)@ == old(sim)@,
        },
{
    let command = match command_in(request.path.as_str()) {
        Some(command) => command,
        None => {
            return None;
        },
    };
    let ghost expected = outcome(sim@, command@, request@);
    let reply = run(command.as_str(), request, sim);
    assert(replied(reply, expected.reply));
    Some(respond(&reply, sim))
}

} // verus!
