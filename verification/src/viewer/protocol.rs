//! What requests ask for and what replies say, over every way of writing them.

use vstd::prelude::*;
use crate::text;
use crate::viewer::command;
use crate::viewer::http;
use crate::viewer::http::RequestView;
use crate::viewer::json;
use crate::viewer::model;
use crate::viewer::model::SimView;

verus! {

/// A run of white space, or of anything else, ends where the text does or where
/// the first character of the other kind stands.
proof fn lemma_run_ends(run: Seq<char>, rest: Seq<char>, space: bool)
    requires
        forall|i: int| 0 <= i < run.len() ==> text::is_space(#[trigger] run[i]) == space,
        rest.len() == 0 || text::is_space(rest[0]) != space,
    ensures
        http::leading(run + rest, space) == run.len(),
    decreases run.len(),
{
    let whole = run + rest;
    if run.len() == 0 {
        assert(whole =~= rest);
    } else {
        let fewer = run.drop_first();
        assert(whole[0] == run[0]);
        assert(whole.drop_first() =~= fewer + rest);
        assert forall|i: int| 0 <= i < fewer.len() implies text::is_space(#[trigger] fewer[i])
            == space by {
            assert(fewer[i] == run[i + 1]);
        }
        lemma_run_ends(fewer, rest, space);
    }
}

/// The first word of some text is what stands between the white space it starts
/// with, if any, and the white space after, or the end; text of white space
/// alone has none.
pub proof fn law_words_stand_between_white_space(
    before: Seq<char>,
    word: Seq<char>,
    rest: Seq<char>,
)
    requires
        forall|i: int| 0 <= i < before.len() ==> text::is_space(#[trigger] before[i]),
        forall|i: int| 0 <= i < word.len() ==> !text::is_space(#[trigger] word[i]),
        rest.len() == 0 || text::is_space(rest[0]),
    ensures
        word.len() > 0 ==> http::first_word(before + word + rest) == Some((word, rest)),
        http::first_word(before) is None,
{
    lemma_run_ends(before, Seq::empty(), true);
    assert(before + Seq::<char>::empty() =~= before);
    if word.len() > 0 {
        let whole = before + word + rest;
        let from = word + rest;
        assert(whole =~= before + from);
        assert(from[0] == word[0]);
        lemma_run_ends(before, from, true);
        lemma_run_ends(word, rest, false);
        assert(whole.skip(before.len() as int) =~= from);
        assert(from.take(word.len() as int) =~= word);
        assert(from.skip(word.len() as int) =~= rest);
    }
}

/// Where a character stands that does not stand before.
proof fn lemma_first_place(before: Seq<char>, c: char, after: Seq<char>)
    requires
        !before.contains(c),
    ensures
        http::place_of(before + seq![c] + after, c) == before.len(),
        http::place_of(before, c) == before.len(),
    decreases before.len(),
{
    let whole = before + seq![c] + after;
    if before.len() == 0 {
        assert(whole[0] == c);
    } else {
        let fewer = before.drop_first();
        assert(before.contains(before[0]));
        assert(!fewer.contains(c)) by {
            if fewer.contains(c) {
                let i = choose|i: int| 0 <= i < fewer.len() && fewer[i] == c;
                assert(before[i + 1] == c);
            }
        }
        assert(whole[0] == before[0]);
        assert(whole.drop_first() =~= fewer + seq![c] + after);
        lemma_first_place(fewer, c, after);
    }
}

/// Text is parted at the first of a character, and not at all where it has none.
pub proof fn law_text_is_parted_at_the_first(before: Seq<char>, c: char, after: Seq<char>)
    requires
        !before.contains(c),
    ensures
        http::split_once(before + seq![c] + after, c) == Some((before, after)),
        http::split_once(before, c) is None,
{
    lemma_first_place(before, c, after);
    let whole = before + seq![c] + after;
    assert(whole.take(before.len() as int) =~= before);
    assert(whole.skip(before.len() as int + 1) =~= after);
}

/// A request line is a method and a target, with white space around them and
/// anything after; the target's path ends at its first question mark, and what
/// follows that is the query. A line without both is no request.
pub proof fn law_a_request_line_is_a_method_and_a_target(
    lead: Seq<char>,
    method: Seq<char>,
    gap: Seq<char>,
    path: Seq<char>,
    query: Seq<char>,
    rest: Seq<char>,
)
    requires
        method.len() > 0,
        gap.len() > 0,
        forall|i: int| 0 <= i < lead.len() ==> text::is_space(#[trigger] lead[i]),
        forall|i: int| 0 <= i < method.len() ==> !text::is_space(#[trigger] method[i]),
        forall|i: int| 0 <= i < gap.len() ==> text::is_space(#[trigger] gap[i]),
        forall|i: int| 0 <= i < path.len() ==> !text::is_space(#[trigger] path[i]),
        forall|i: int| 0 <= i < query.len() ==> !text::is_space(#[trigger] query[i]),
        !path.contains('?'),
        rest.len() == 0 || text::is_space(rest[0]),
    ensures
        path.len() > 0 ==> http::request_of(lead + method + (gap + path + rest)) == Some(
            RequestView { method, path, query: Seq::empty() },
        ),
        http::request_of(lead + method + (gap + (path + seq!['?'] + query) + rest)) == Some(
            RequestView { method, path, query: http::pairs(query) },
        ),
        http::request_of(lead + method + gap) is None,
        http::request_of(lead + method) is None,
        http::request_of(lead) is None,
{
    let none = Seq::<char>::empty();
    text::law_white_space_is_what_shows_as_nothing('?');
    law_text_is_parted_at_the_first(path, '?', query);
    let bare = gap + path + rest;
    assert(bare[0] == gap[0]);
    law_words_stand_between_white_space(lead, method, bare);
    law_words_stand_between_white_space(gap, path, rest);
    let target = path + seq!['?'] + query;
    assert forall|i: int| 0 <= i < target.len() implies !text::is_space(#[trigger] target[i]) by {
        if i < path.len() {
            assert(target[i] == path[i]);
        } else if i > path.len() {
            assert(target[i] == query[i - path.len() - 1]);
        }
    }
    let full = gap + target + rest;
    assert(full[0] == gap[0]);
    law_words_stand_between_white_space(lead, method, full);
    law_words_stand_between_white_space(gap, target, rest);
    law_words_stand_between_white_space(lead, method, gap);
    law_words_stand_between_white_space(gap, none, none);
    law_words_stand_between_white_space(lead, method, none);
    assert(lead + method + none =~= lead + method);
    law_words_stand_between_white_space(none, none, none);
}

/// A query is its pieces between ampersands, in order: each gives the name before
/// its first equals sign the value after, and one without an equals sign gives
/// nothing.
pub proof fn law_a_query_is_its_pieces(
    name: Seq<char>,
    value: Seq<char>,
    piece: Seq<char>,
    rest: Seq<char>,
)
    requires
        !name.contains('='),
        !name.contains('&'),
        !value.contains('&'),
        !piece.contains('&'),
    ensures
        http::pairs(name + seq!['='] + value) == seq![(name, value)],
        http::pairs(name) == Seq::<(Seq<char>, Seq<char>)>::empty(),
        http::pairs(piece + seq!['&'] + rest) == http::pairs(piece) + http::pairs(rest),
{
    law_text_is_parted_at_the_first(name, '=', value);
    law_text_is_parted_at_the_first(name, '&', rest);
    law_text_is_parted_at_the_first(piece, '&', rest);
    let whole = name + seq!['='] + value;
    assert(!whole.contains('&')) by {
        if whole.contains('&') {
            let i = choose|i: int| 0 <= i < whole.len() && whole[i] == '&';
            if i < name.len() {
                assert(name[i] == '&');
            } else if i > name.len() {
                assert(value[i - name.len() - 1] == '&');
            }
        }
    }
    law_text_is_parted_at_the_first(whole, '&', rest);
}

/// A parameter is set to what the last piece that names it gives it, and is not
/// set where none does.
pub proof fn law_the_last_setting_wins(
    query: Seq<(Seq<char>, Seq<char>)>,
    name: Seq<char>,
    at: int,
)
    ensures
        0 <= at < query.len() && query[at].0 == name && (forall|i: int|
            at < i < query.len() ==> (#[trigger] query[i]).0 != name) ==> http::setting(query, name)
            == Some(query[at].1),
        (forall|i: int| 0 <= i < query.len() ==> (#[trigger] query[i]).0 != name) <==> http::setting(
            query,
            name,
        ) is None,
    decreases query.len(),
{
    if query.len() > 0 {
        let fewer = query.drop_last();
        law_the_last_setting_wins(fewer, name, at);
        if query.last().0 == name {
            assert(query[query.len() - 1].0 == name);
        } else {
            if http::setting(query, name) is None {
                assert forall|i: int| 0 <= i < query.len() implies (#[trigger] query[i]).0
                    != name by {
                    if i < fewer.len() {
                        assert(fewer[i].0 != name);
                    }
                }
            }
            if forall|i: int| 0 <= i < query.len() ==> (#[trigger] query[i]).0 != name {
                assert forall|i: int| 0 <= i < fewer.len() implies (#[trigger] fewer[i]).0
                    != name by {
                    assert(query[i].0 != name);
                }
            }
            if 0 <= at < query.len() && query[at].0 == name && (forall|i: int|
                at < i < query.len() ==> (#[trigger] query[i]).0 != name) {
                assert(at < fewer.len());
                assert(fewer[at] == query[at]);
                assert forall|i: int| at < i < fewer.len() implies (#[trigger] fewer[i]).0
                    != name by {
                    assert(query[i].0 != name);
                }
            }
        }
    }
}

/// Digits are read as the number they spell.
proof fn lemma_digits_read(digits: Seq<char>)
    requires
        forall|i: int| 0 <= i < digits.len() ==> '0' <= #[trigger] digits[i] <= '9',
    ensures
        http::number_of(digits) == digits.fold_left(
            0nat,
            |read: nat, c: char| (read * 10 + (c as int - '0' as int)) as nat,
        ),
    decreases digits.len(),
{
    let read = |read: nat, c: char| (read * 10 + (c as int - '0' as int)) as nat;
    reveal_with_fuel(Seq::fold_left, 2);
    if digits.len() > 0 {
        let head = digits.drop_last();
        assert forall|i: int| 0 <= i < head.len() implies '0' <= #[trigger] head[i] <= '9' by {
            assert(head[i] == digits[i]);
        }
        lemma_digits_read(head);
        assert('0' <= digits[digits.len() - 1] <= '9');
    }
}

/// A number is read as it was written, with or without a plus sign in front.
pub proof fn law_a_number_reads_back(number: nat)
    ensures
        http::numeral(text::decimal(number)) == Some(number),
        http::numeral(seq!['+'] + text::decimal(number)) == Some(number),
{
    let digits = text::decimal(number);
    text::law_a_decimal_reads_back(number);
    lemma_digits_read(digits);
    assert('0' <= digits[0] <= '9');
    assert((seq!['+'] + digits).drop_first() =~= digits);
}

/// What is not all digits behind at most one plus sign, or has no digit, is no
/// number; whatever is reads as its digits add up, each ten times the next.
pub proof fn law_a_number_is_its_digits(text: Seq<char>, digits: Seq<char>)
    requires
        text == digits && (text.len() == 0 || text[0] != '+') || text == seq!['+'] + digits,
    ensures
        http::numeral(text) is Some <==> digits.len() > 0 && forall|i: int|
            0 <= i < digits.len() ==> '0' <= #[trigger] digits[i] <= '9',
        http::numeral(text) matches Some(number) ==> number == digits.fold_left(
            0nat,
            |read: nat, c: char| (read * 10 + (c as int - '0' as int)) as nat,
        ),
{
    assert((seq!['+'] + digits).drop_first() =~= digits);
    assert(http::unsigned(text) == digits);
    if http::numeral(text) is Some {
        assert forall|i: int| 0 <= i < digits.len() implies '0' <= #[trigger] digits[i] <= '9' by {
            assert(http::is_digit(digits[i]));
        }
        lemma_digits_read(digits);
    }
    if digits.len() > 0 && forall|i: int|
        0 <= i < digits.len() ==> '0' <= #[trigger] digits[i] <= '9' {
        assert forall|i: int| 0 <= i < digits.len() implies http::is_digit(#[trigger] digits[i]) by {
            assert('0' <= digits[i] <= '9');
        }
    }
}

/// A parameter set to a number that is not too large reads as that number. One
/// that is not set is missing, and one set to anything else is not a number.
pub proof fn law_a_parameter_reads_as_it_is_set(
    query: Seq<(Seq<char>, Seq<char>)>,
    name: Seq<char>,
    most: nat,
    number: nat,
)
    ensures
        ({
            let read = http::parameter(query, name, most);
            &&& http::setting(query, name) is None ==> read == Err::<nat, Seq<char>>(
                "missing parameter "@ + name,
            )
            &&& http::setting(query, name) == Some(text::decimal(number)) && number <= most
                ==> read == Ok::<nat, Seq<char>>(number)
            &&& http::setting(query, name) == Some(text::decimal(number)) && number > most
                ==> read == Err::<nat, Seq<char>>("parameter "@ + name + " is not a number"@)
            &&& http::setting(query, name) is Some && http::numeral(
                http::setting(query, name)->0,
            ) is None ==> read == Err::<nat, Seq<char>>(
                "parameter "@ + name + " is not a number"@,
            )
        }),
{
    law_a_number_reads_back(number);
}

/// A command is what a path names after `/api/`, and no other path names one.
pub proof fn law_a_command_is_what_follows_the_prefix(name: Seq<char>, path: Seq<char>)
    ensures
        command::command_of("/api/"@ + name) == Some(name),
        command::command_of(path) is Some ==> path == "/api/"@ + command::command_of(path)->0,
{
    reveal_strlit("/api/");
    let whole = "/api/"@ + name;
    assert(whole.take(5) =~= "/api/"@);
    assert(whole.skip(5) =~= name);
    if command::command_of(path) is Some {
        assert(path =~= path.take(5) + path.skip(5));
    }
}

/// No two commands have the same name.
proof fn lemma_commands_differ()
    ensures
        "state"@.len() == 5,
        "node/add"@.len() == 8,
        "node/remove"@.len() == 11,
        "link/add"@.len() == 8,
        "link/remove"@.len() == 11,
        "send"@.len() == 4,
        "reset"@.len() == 5,
        "node/add"@[0] == 'n',
        "link/add"@[0] == 'l',
        "node/remove"@[0] == 'n',
        "link/remove"@[0] == 'l',
        "state"@[0] == 's',
        "reset"@[0] == 'r',
{
    reveal_strlit("state");
    reveal_strlit("node/add");
    reveal_strlit("node/remove");
    reveal_strlit("link/add");
    reveal_strlit("link/remove");
    reveal_strlit("send");
    reveal_strlit("reset");
}

/// Whether an operation's outcome is told as it went: what it left behind is what
/// there is, and where it failed its words are what is said.
pub open spec fn is_told<T>(
    outcome: command::Outcome,
    result: (SimView, Result<T, Seq<char>>),
) -> bool {
    &&& outcome.sim == result.0
    &&& outcome.reply == match result.1 {
        Ok(_) => Ok::<Option<Seq<char>>, Seq<char>>(None),
        Err(words) => Err::<Option<Seq<char>>, Seq<char>>(words),
    }
}

/// Each command posted does what it is named for, to the labels and at the cost
/// its parameters give; a link brought up without a cost costs one.
pub proof fn law_each_command_does_what_it_is_named_for(
    sim: SimView,
    request: RequestView,
    a: u8,
    b: u8,
    cost: u64,
)
    requires
        request.method == "POST"@,
    ensures
        ({
            let query = request.query;
            let has = |name: Seq<char>, number: nat|
                http::setting(query, name) == Some(text::decimal(number));
            &&& is_told(command::outcome(sim, "node/add"@, request), sim.node_added())
            &&& has("id"@, a as nat) ==> is_told(
                command::outcome(sim, "node/remove"@, request),
                sim.node_removed(a),
            )
            &&& has("a"@, a as nat) && has("b"@, b as nat) && has("cost"@, cost as nat) ==> is_told(
                command::outcome(sim, "link/add"@, request),
                sim.link_added(a, b, cost),
            )
            &&& has("a"@, a as nat) && has("b"@, b as nat) && http::setting(
                query,
                "cost"@,
            ) is None ==> is_told(
                command::outcome(sim, "link/add"@, request),
                sim.link_added(a, b, 1),
            )
            &&& has("a"@, a as nat) && has("b"@, b as nat) ==> is_told(
                command::outcome(sim, "link/remove"@, request),
                sim.link_removed(a, b),
            )
            &&& command::outcome(sim, "reset"@, request).sim == model::opening()
            &&& command::outcome(sim, "reset"@, request).reply == Ok::<
                Option<Seq<char>>,
                Seq<char>,
            >(None)
        }),
{
    lemma_commands_differ();
    law_a_parameter_reads_as_it_is_set(request.query, "id"@, 255, a as nat);
    law_a_parameter_reads_as_it_is_set(request.query, "a"@, 255, a as nat);
    law_a_parameter_reads_as_it_is_set(request.query, "b"@, 255, b as nat);
    law_a_parameter_reads_as_it_is_set(request.query, "cost"@, u64::MAX as nat, cost as nat);
}

/// A packet asked for is sent from one label to the other as named, and the reply
/// says how it fared.
pub proof fn law_a_packet_asked_for_is_sent(sim: SimView, request: RequestView, from: u8, to: u8)
    requires
        request.method == "POST"@,
        http::setting(request.query, "from"@) == Some(text::decimal(from as nat)),
        http::setting(request.query, "to"@) == Some(text::decimal(to as nat)),
    ensures
        ({
            let outcome = command::outcome(sim, "send"@, request);
            let (after, told) = sim.sent(from, to);
            &&& outcome.sim == after
            &&& told matches Err(words) ==> outcome.reply == Err::<Option<Seq<char>>, Seq<char>>(
                words,
            )
            &&& told matches Ok(delivery) ==> outcome.reply == Ok::<Option<Seq<char>>, Seq<char>>(
                Some(model::delivery_fields(delivery)),
            )
        }),
{
    lemma_commands_differ();
    law_a_parameter_reads_as_it_is_set(request.query, "from"@, 255, from as nat);
    law_a_parameter_reads_as_it_is_set(request.query, "to"@, 255, to as nat);
}

/// A command whose parameters cannot be read says which, the first one first, and
/// changes nothing.
pub proof fn law_an_unreadable_parameter_is_named(sim: SimView, request: RequestView)
    requires
        request.method == "POST"@,
    ensures
        ({
            let read = |name: Seq<char>| http::parameter(request.query, name, 255);
            let failed = |name: Seq<char>, words: Seq<char>|
                command::outcome(sim, name, request) == (command::Outcome {
                    sim,
                    reply: Err(words),
                });
            &&& read("id"@) matches Err(words) ==> failed("node/remove"@, words)
            &&& read("a"@) matches Err(words) ==> failed("link/add"@, words) && failed(
                "link/remove"@,
                words,
            )
            &&& read("a"@) is Ok ==> (read("b"@) matches Err(words) ==> failed("link/add"@, words)
                && failed("link/remove"@, words))
            &&& read("from"@) matches Err(words) ==> failed("send"@, words)
            &&& read("from"@) is Ok ==> (read("to"@) matches Err(words) ==> failed(
                "send"@,
                words,
            ))
            &&& read("a"@) is Ok && read("b"@) is Ok && http::setting(
                request.query,
                "cost"@,
            ) is Some ==> (http::parameter(request.query, "cost"@, u64::MAX as nat) matches Err(
                words,
            ) ==> failed("link/add"@, words))
        }),
{
    lemma_commands_differ();
}

/// Looking at the network is answered whatever the method; every other command
/// has to be posted, and one that is not known is named as such.
pub proof fn law_only_posts_are_carried_out(
    sim: SimView,
    name: Seq<char>,
    request: RequestView,
)
    ensures
        command::outcome(sim, "state"@, request) == (command::Outcome { sim, reply: Ok(None) }),
        name != "state"@ && request.method != "POST"@ ==> command::outcome(sim, name, request) == (
        command::Outcome { sim, reply: Err(name + " must be a POST"@) }),
        request.method == "POST"@ && name != "state"@ && name != "node/add"@ && name
            != "node/remove"@ && name != "link/add"@ && name != "link/remove"@ && name != "send"@
            && name != "reset"@ ==> command::outcome(sim, name, request) == (command::Outcome {
            sim,
            reply: Err("unknown command "@ + name),
        }),
{
}

/// A reply says whether the command worked, what it produced or what was wrong,
/// and shows the network as the command left it.
pub proof fn law_a_reply_says_how_it_went(outcome: command::Outcome)
    ensures
        command::body(outcome) == (match outcome.reply {
            Ok(None) => "{\"ok\":true"@,
            Ok(Some(extra)) => "{\"ok\":true,"@ + extra,
            Err(words) => "{\"ok\":false,\"error\":"@ + json::quoted(words),
        }) + ",\"state\":"@ + outcome.sim.snapshot() + "}"@,
{
    let head = match outcome.reply {
        Ok(None) => "{\"ok\":true"@,
        Ok(Some(extra)) => "{\"ok\":true,"@ + extra,
        Err(words) => "{\"ok\":false,\"error\":"@ + json::quoted(words),
    };
    let shown = outcome.sim.snapshot();
    assert(command::body(outcome) == head + (",\"state\":"@ + shown + "}"@));
    assert(head + (",\"state\":"@ + shown + "}"@) =~= head + ",\"state\":"@ + shown + "}"@);
}

/// What follows the slashes a path starts with is all of the path but for them.
proof fn lemma_past_slashes(slashes: Seq<char>, rest: Seq<char>)
    requires
        forall|i: int| 0 <= i < slashes.len() ==> #[trigger] slashes[i] == '/',
        rest.len() == 0 || rest[0] != '/',
    ensures
        http::past_slashes(slashes + rest) == rest,
    decreases slashes.len(),
{
    let whole = slashes + rest;
    if slashes.len() == 0 {
        assert(whole =~= rest);
    } else {
        let fewer = slashes.drop_first();
        assert(whole[0] == slashes[0]);
        assert(whole.drop_first() =~= fewer + rest);
        assert forall|i: int| 0 <= i < fewer.len() implies #[trigger] fewer[i] == '/' by {
            assert(fewer[i] == slashes[i + 1]);
        }
        lemma_past_slashes(fewer, rest);
    }
}

/// Whether the part of a path from `from` to `to` stands between its slashes and
/// names the directory above.
pub open spec fn is_step_up(path: Seq<char>, from: int, to: int) -> bool {
    &&& 0 <= from <= to <= path.len()
    &&& from == 0 || path[from - 1] == '/'
    &&& to == path.len() || path[to] == '/'
    &&& path.subrange(from, to) == seq!['.', '.']
}

/// A path climbs exactly where some part of it between slashes is two dots.
pub proof fn law_a_path_climbs_where_a_part_is_two_dots(path: Seq<char>)
    ensures
        http::climbs(path) <==> exists|from: int, to: int| is_step_up(path, from, to),
    decreases path.len(),
{
    reveal_strlit("..");
    assert(".."@ =~= seq!['.', '.']);
    let at = http::place_of(path, '/') as int;
    lemma_place(path, '/');
    if at < path.len() {
        let (part, rest) = (path.take(at), path.skip(at + 1));
        law_a_path_climbs_where_a_part_is_two_dots(rest);
        if part == ".."@ {
            assert(path.subrange(0, at) =~= part);
            assert(is_step_up(path, 0, at));
        }
        if http::climbs(rest) {
            let (from, to) = choose|from: int, to: int| is_step_up(rest, from, to);
            assert(rest.subrange(from, to) =~= path.subrange(at + 1 + from, at + 1 + to));
            assert(is_step_up(path, at + 1 + from, at + 1 + to));
        }
        if exists|from: int, to: int| is_step_up(path, from, to) {
            let (from, to) = choose|from: int, to: int| is_step_up(path, from, to);
            let piece = path.subrange(from, to);
            assert(piece.len() == 2);
            if from == 0 {
                assert(piece[0] == path[0] && piece[1] == path[1]);
                assert(at == to);
                assert(part =~= piece);
            } else {
                assert(path[from - 1] == '/');
                assert(from - 1 >= at);
                assert(rest.subrange(from - at - 1, to - at - 1) =~= piece);
                assert(is_step_up(rest, from - at - 1, to - at - 1));
            }
        }
    } else {
        if path == ".."@ {
            assert(path.subrange(0, 2) =~= path);
            assert(is_step_up(path, 0, 2));
        }
        if exists|from: int, to: int| is_step_up(path, from, to) {
            let (from, to) = choose|from: int, to: int| is_step_up(path, from, to);
            assert(from == 0 && to == path.len());
            assert(path.subrange(0, path.len() as int) =~= path);
        }
    }
}

/// Where a character first stands, it stands and stands nowhere before.
proof fn lemma_place(text: Seq<char>, c: char)
    ensures
        ({
            let at = http::place_of(text, c) as int;
            &&& at <= text.len()
            &&& at < text.len() ==> text[at] == c
            &&& forall|i: int| 0 <= i < at ==> #[trigger] text[i] != c
        }),
    decreases text.len(),
{
    if text.len() > 0 && text[0] != c {
        let rest = text.drop_first();
        lemma_place(rest, c);
        let at = http::place_of(text, c) as int;
        assert forall|i: int| 0 <= i < at implies #[trigger] text[i] != c by {
            if i > 0 {
                assert(text[i] == rest[i - 1]);
            }
        }
    }
}

/// A path asks for the file it names after the slashes it starts with, and for
/// the index where it names none; it is refused exactly where some part of it
/// is two dots.
pub proof fn law_a_path_asks_for_the_file_it_names(slashes: Seq<char>, name: Seq<char>)
    requires
        forall|i: int| 0 <= i < slashes.len() ==> #[trigger] slashes[i] == '/',
        name.len() == 0 || name[0] != '/',
    ensures
        name.len() == 0 ==> http::asset_of(slashes + name) == Some("index.html"@),
        name.len() > 0 && (exists|from: int, to: int| is_step_up(name, from, to))
            ==> http::asset_of(slashes + name) is None,
        name.len() > 0 && !(exists|from: int, to: int| is_step_up(name, from, to))
            ==> http::asset_of(slashes + name) == Some(name),
{
    lemma_past_slashes(slashes, name);
    law_a_path_climbs_where_a_part_is_two_dots(name);
    let index = "index.html"@;
    reveal_strlit("index.html");
    law_a_path_climbs_where_a_part_is_two_dots(index);
    if exists|from: int, to: int| is_step_up(index, from, to) {
        let (from, to) = choose|from: int, to: int| is_step_up(index, from, to);
        assert(index[from] == index.subrange(from, to)[0]);
        assert(index[from + 1] == index.subrange(from, to)[1]);
        assert(index[5] == '.');
        assert(index[from] == '.' ==> from == 5);
    }
}

/// An extension is what follows the last dot; a name without one has none.
proof fn lemma_extension(stem: Seq<char>, found: Seq<char>)
    requires
        !found.contains('.'),
    ensures
        http::extension(stem + seq!['.'] + found) == Some(found),
        http::extension(found) is None,
    decreases found.len(),
{
    let whole = stem + seq!['.'] + found;
    if found.len() == 0 {
        assert(whole.last() == '.');
        assert(found =~= Seq::empty());
    } else {
        let fewer = found.drop_last();
        assert(found.contains(found[found.len() - 1]));
        assert(!fewer.contains('.')) by {
            if fewer.contains('.') {
                let i = choose|i: int| 0 <= i < fewer.len() && fewer[i] == '.';
                assert(found[i] == '.');
            }
        }
        lemma_extension(stem, fewer);
        assert(whole.last() == found.last());
        assert(whole.drop_last() =~= stem + seq!['.'] + fewer);
        assert(fewer.push(found.last()) =~= found);
    }
}

/// What a file holds goes by what follows the last dot of its name; a name
/// without a dot, or with anything else after it, says nothing.
pub proof fn law_a_file_holds_what_its_name_says(stem: Seq<char>, found: Seq<char>)
    requires
        !found.contains('.'),
    ensures
        http::content_type(stem + seq!['.'] + "html"@) == "text/html; charset=utf-8"@,
        http::content_type(stem + seq!['.'] + "js"@) == "text/javascript; charset=utf-8"@,
        http::content_type(stem + seq!['.'] + "css"@) == "text/css; charset=utf-8"@,
        http::content_type(stem + seq!['.'] + "svg"@) == "image/svg+xml"@,
        http::content_type(stem + seq!['.'] + "wasm"@) == "application/wasm"@,
        http::content_type(stem + seq!['.'] + "json"@) == "application/json"@,
        http::content_type(stem + seq!['.'] + "ico"@) == "image/x-icon"@,
        http::content_type(found) == "application/octet-stream"@,
        found != "html"@ && found != "js"@ && found != "css"@ && found != "svg"@ && found
            != "wasm"@ && found != "json"@ && found != "ico"@ ==> http::content_type(
            stem + seq!['.'] + found,
        ) == "application/octet-stream"@,
{
    reveal_strlit("html");
    reveal_strlit("js");
    reveal_strlit("css");
    reveal_strlit("svg");
    reveal_strlit("wasm");
    reveal_strlit("json");
    reveal_strlit("ico");
    lemma_extension(stem, found);
    lemma_extension(stem, "html"@);
    lemma_extension(stem, "js"@);
    lemma_extension(stem, "css"@);
    lemma_extension(stem, "svg"@);
    lemma_extension(stem, "wasm"@);
    lemma_extension(stem, "json"@);
    lemma_extension(stem, "ico"@);
    assert("css"@[0] == 'c' && "svg"@[0] == 's' && "ico"@[0] == 'i');
    assert("html"@[0] == 'h' && "wasm"@[0] == 'w' && "json"@[0] == 'j');
}

/// Text is escaped character by character: a quotation mark, a backslash and the
/// end of a line get a backslash in front, any other control character is
/// written by its number, and everything else stands as it is.
pub proof fn law_text_is_escaped_character_by_character(a: Seq<char>, b: Seq<char>, c: char)
    ensures
        json::quoted(a) == "\""@ + json::escaped(a) + "\""@,
        json::escaped(a + b) == json::escaped(a) + json::escaped(b),
        json::escaped(seq!['"']) == seq!['\\', '"'],
        json::escaped(seq!['\\']) == seq!['\\', '\\'],
        json::escaped(seq!['\n']) == seq!['\\', 'n'],
        c as int >= 32 && c != '"' && c != '\\' ==> json::escaped(seq![c]) == seq![c],
        (c as int) < 32 && c != '\n' ==> json::escaped(seq![c]) == seq!['\\', 'u', '0', '0']
            + text::hex(seq![c as u8]),
    decreases b.len(),
{
    reveal_strlit("\\\"");
    reveal_strlit("\\\\");
    reveal_strlit("\\n");
    reveal_strlit("\\u00");
    reveal_with_fuel(json::escaped, 2);
    assert("\\\""@ =~= seq!['\\', '"']);
    assert("\\\\"@ =~= seq!['\\', '\\']);
    assert("\\n"@ =~= seq!['\\', 'n']);
    assert("\\u00"@ =~= seq!['\\', 'u', '0', '0']);
    assert(seq!['"'].drop_last() =~= Seq::empty());
    assert(seq!['\\'].drop_last() =~= Seq::empty());
    assert(seq!['\n'].drop_last() =~= Seq::empty());
    assert(seq![c].drop_last() =~= Seq::empty());
    if b.len() == 0 {
        assert(a + b =~= a);
        assert(json::escaped(a) + json::escaped(b) =~= json::escaped(a));
    } else {
        let fewer = b.drop_last();
        law_text_is_escaped_character_by_character(a, fewer, c);
        assert((a + b).drop_last() =~= a + fewer);
        assert(json::escaped(a) + json::escaped(b) =~= json::escaped(a) + json::escaped(fewer)
            + json::escape(b.last()));
    }
}

/// Labels are listed in order between brackets, with commas between them; a truth
/// value is written as one word.
pub proof fn law_labels_and_truths_are_written_plainly(ids: Seq<u8>)
    ensures
        json::labels(ids) == "["@ + text::joined(
            Seq::new(ids.len(), |i: int| text::decimal(ids[i] as nat)),
            ","@,
        ) + "]"@,
        json::boolean(true) == "true"@,
        json::boolean(false) == "false"@,
{
    assert(ids.map_values(|id: u8| text::decimal(id as nat)) =~= Seq::new(
        ids.len(),
        |i: int| text::decimal(ids[i] as nat),
    ));
}

} // verus!
