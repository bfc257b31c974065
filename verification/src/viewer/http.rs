//! Just enough HTTP to talk to a browser on the loopback interface.

use vstd::prelude::*;
use vstd::slice::slice_subrange;
use crate::text;
use crate::text::{chars_of, is_white, push_decimal, spells, string_of};

verus! {

/// How many characters text starts with that are white space, or that are not.
pub open spec fn leading(text: Seq<char>, space: bool) -> nat
    decreases text.len(),
{
    if text.len() == 0 || text::is_space(text[0]) != space {
        0
    } else {
        leading(text.drop_first(), space) + 1
    }
}

/// The first word of some text and what follows it, if there is a word in it.
pub open spec fn first_word(text: Seq<char>) -> Option<(Seq<char>, Seq<char>)> {
    let from = text.skip(leading(text, true) as int);
    let len = leading(from, false) as int;
    if from.len() == 0 {
        None
    } else {
        Some((from.take(len), from.skip(len)))
    }
}

/// Where a character first stands in some text, or its length if it does not.
pub open spec fn place_of(text: Seq<char>, c: char) -> nat
    decreases text.len(),
{
    if text.len() == 0 || text[0] == c {
        0
    } else {
        place_of(text.drop_first(), c) + 1
    }
}

/// What stands before and after the first `c` in some text, if there is one.
pub open spec fn split_once(text: Seq<char>, c: char) -> Option<(Seq<char>, Seq<char>)> {
    let at = place_of(text, c) as int;
    if at < text.len() {
        Some((text.take(at), text.skip(at + 1)))
    } else {
        None
    }
}

/// A name and a value, where a piece of a query gives both.
pub open spec fn pair_of(piece: Seq<char>) -> Seq<(Seq<char>, Seq<char>)> {
    match split_once(piece, '=') {
        Some(pair) => seq![pair],
        None => Seq::empty(),
    }
}

/// The parameters a query gives, in order. A piece without an `=` gives none.
pub open spec fn pairs(query: Seq<char>) -> Seq<(Seq<char>, Seq<char>)>
    decreases query.len(),
{
    match split_once(query, '&') {
        Some((piece, rest)) => pair_of(piece) + pairs(rest),
        None => pair_of(query),
    }
}

/// What a parameter is set to, where it is: the last setting wins.
pub open spec fn setting(query: Seq<(Seq<char>, Seq<char>)>, name: Seq<char>) -> Option<Seq<char>>
    decreases query.len(),
{
    if query.len() == 0 {
        None
    } else if query.last().0 == name {
        Some(query.last().1)
    } else {
        setting(query.drop_last(), name)
    }
}

/// Whether a character is a decimal digit.
pub open spec fn is_digit(c: char) -> bool {
    '0' <= c <= '9'
}

/// The number some decimal digits spell.
pub open spec fn number_of(digits: Seq<char>) -> nat
    decreases digits.len(),
{
    if digits.len() == 0 {
        0
    } else {
        number_of(digits.drop_last()) * 10 + (digits.last() as nat - '0' as nat) as nat
    }
}

/// Some text without the plus sign it may start with.
pub open spec fn unsigned(text: Seq<char>) -> Seq<char> {
    if text.len() > 0 && text[0] == '+' {
        text.drop_first()
    } else {
        text
    }
}

/// The number some text spells: at least one digit, a plus sign allowed in
/// front.
pub open spec fn numeral(text: Seq<char>) -> Option<nat> {
    let digits = unsigned(text);
    if digits.len() > 0 && forall|i: int| 0 <= i < digits.len() ==> is_digit(#[trigger] digits[i]) {
        Some(number_of(digits))
    } else {
        None
    }
}

/// A kind of number a parameter can be read as.
pub trait Numeral: Sized {
    /// The number it is.
    spec fn number(self) -> nat;

    /// The largest it can be.
    spec fn most() -> nat;

    /// A number as one of this kind, if it is not too large.
    fn fit(number: u64) -> (fitted: Option<Self>)
        ensures
            fitted is Some <==> number <= Self::most(),
            fitted matches Some(value) ==> value.number() == number,
    ;

    /// No number of this kind needs more room than a `u64` has.
    proof fn most_fits()
        ensures
            Self::most() <= u64::MAX,
    ;
}

impl Numeral for u8 {
    open spec fn number(self) -> nat {
        self as nat
    }

    open spec fn most() -> nat {
        u8::MAX as nat
    }

    fn fit(number: u64) -> (fitted: Option<Self>) {
        if number <= 255 {
            Some(number as u8)
        } else {
            None
        }
    }

    proof fn most_fits() {
    }
}

impl Numeral for u64 {
    open spec fn number(self) -> nat {
        self as nat
    }

    open spec fn most() -> nat {
        u64::MAX as nat
    }

    fn fit(number: u64) -> (fitted: Option<Self>) {
        Some(number)
    }

    proof fn most_fits() {
    }
}

/// A parsed request line. Bodies are never read: every command this server
/// takes says what it needs in the query string.
pub struct Request {
    /// `GET`, `POST`, and so on.
    pub method: String,
    /// The path, with the query string stripped off.
    pub path: String,
    /// Query parameters, undecoded, in the order they were given. Every value
    /// this server reads is a number.
    pub query: Vec<(String, String)>,
}

/// What a [`Request`] says.
#[verifier::ext_equal]
pub struct RequestView {
    pub method: Seq<char>,
    pub path: Seq<char>,
    pub query: Seq<(Seq<char>, Seq<char>)>,
}

/// What some query parameters say.
pub open spec fn settings(query: Seq<(String, String)>) -> Seq<(Seq<char>, Seq<char>)> {
    query.map_values(|pair: (String, String)| (pair.0@, pair.1@))
}

impl View for Request {
    type V = RequestView;

    open spec fn view(&self) -> RequestView {
        RequestView { method: self.method@, path: self.path@, query: settings(self.query@) }
    }
}

/// What a request line asks for, if it is one.
pub open spec fn request_of(line: Seq<char>) -> Option<RequestView> {
    match first_word(line) {
        None => None,
        Some((method, rest)) => match first_word(rest) {
            None => None,
            Some((target, _)) => Some(
                match split_once(target, '?') {
                    Some((path, query)) => RequestView { method, path, query: pairs(query) },
                    None => RequestView { method, path: target, query: Seq::empty() },
                },
            ),
        },
    }
}

/// What reading a parameter as a number gives.
pub open spec fn parameter(query: Seq<(Seq<char>, Seq<char>)>, name: Seq<char>, most: nat) -> Result<
    nat,
    Seq<char>,
> {
    match setting(query, name) {
        None => Err("missing parameter "@ + name),
        Some(value) => match numeral(value) {
            Some(number) if number <= most => Ok(number),
            _ => Err("parameter "@ + name + " is not a number"@),
        },
    }
}

/// How many of `text` from `from` on are white space, or are not.
fn run_of(text: &[char], from: usize, space: bool) -> (end: usize)
    requires
        from <= text@.len(),
    ensures
        from <= end <= text@.len(),
        end == from + leading(text@.skip(from as int), space),
{
    let mut end: usize = from;
    while end < text.len() && is_white(text[end]) == space
        invariant
            from <= end <= text@.len(),
            leading(text@.skip(from as int), space) == (end - from) + leading(
                text@.skip(end as int),
                space,
            ),
        decreases text@.len() - end,
    {
        assert(text@.skip(end as int).drop_first() =~= text@.skip(end + 1));
        end += 1;
    }
    end
}

/// The first word of `text` from `from` on and where it ends, if there is one.
fn word_from(text: &[char], from: usize) -> (word: Option<(usize, usize)>)
    requires
        from <= text@.len(),
    ensures
        match word {
            Some((start, end)) => from <= start <= end <= text@.len() && first_word(
                text@.skip(from as int),
            ) == Some((text@.subrange(start as int, end as int), text@.skip(end as int))),
            None => first_word(text@.skip(from as int)) is None,
        },
{
    let start = run_of(text, from, true);
    let ghost rest = text@.skip(from as int);
    assert(rest.skip(start - from) =~= text@.skip(start as int));
    if start == text.len() {
        return None;
    }
    let end = run_of(text, start, false);
    proof {
        let word = text@.skip(start as int);
        assert(word.take(end - start) =~= text@.subrange(start as int, end as int));
        assert(word.skip(end - start) =~= text@.skip(end as int));
    }
    Some((start, end))
}

/// Where `c` first stands in `text` from `from` on, or the end if it does not.
fn seek(text: &[char], from: usize, c: char) -> (at: usize)
    requires
        from <= text@.len(),
    ensures
        from <= at <= text@.len(),
        at == from + place_of(text@.skip(from as int), c),
{
    let mut at: usize = from;
    while at < text.len() && text[at] != c
        invariant
            from <= at <= text@.len(),
            place_of(text@.skip(from as int), c) == (at - from) + place_of(
                text@.skip(at as int),
                c,
            ),
        decreases text@.len() - at,
    {
        assert(text@.skip(at as int).drop_first() =~= text@.skip(at + 1));
        at += 1;
    }
    at
}

/// Puts the parameter a piece of a query gives, if it gives one, on the end of
/// `query`.
fn push_pair(query: &mut Vec<(String, String)>, piece: &[char])
    ensures
        settings(final(query)@) == settings(old(query)@) + pair_of(piece@),
{
    let ghost before = settings(query@);
    let at = seek(piece, 0, '=');
    assert(piece@.skip(0) =~= piece@);
    if at < piece.len() {
        let name = string_of(slice_subrange(piece, 0, at));
        let value = string_of(slice_subrange(piece, at + 1, piece.len()));
        query.push((name, value));
        proof {
            assert(name@ =~= piece@.take(at as int));
            assert(value@ =~= piece@.skip(at + 1));
            assert(settings(query@) =~= before.push((name@, value@)));
            assert(settings(query@) =~= before + pair_of(piece@));
        }
    } else {
        assert(settings(query@) =~= before + pair_of(piece@));
    }
}

fn parse_query(query: &[char]) -> (parsed: Vec<(String, String)>)
    ensures
        settings(parsed@) == pairs(query@),
{
    let mut parsed: Vec<(String, String)> = Vec::new();
    let mut from: usize = 0;
    assert(settings(parsed@) =~= Seq::empty());
    assert(query@.skip(0) =~= query@);
    loop
        invariant_except_break
            from <= query@.len(),
            settings(parsed@) + pairs(query@.skip(from as int)) == pairs(query@),
        ensures
            settings(parsed@) == pairs(query@),
        decreases query@.len() - from,
    {
        let ghost rest = query@.skip(from as int);
        let ghost before = settings(parsed@);
        let at = seek(query, from, '&');
        let piece = slice_subrange(query, from, at);
        push_pair(&mut parsed, piece);
        if at == query.len() {
            assert(piece@ =~= rest);
            assert(before + pair_of(rest) =~= pairs(query@));
            break;
        }
        proof {
            assert(piece@ =~= rest.take(at - from));
            assert(rest.skip(at - from + 1) =~= query@.skip(at + 1));
            assert(before + (pair_of(piece@) + pairs(query@.skip(at + 1))) =~= (before + pair_of(
                piece@,
            )) + pairs(query@.skip(at + 1)));
        }
        from = at + 1;
    }
    parsed
}

/// Parses a request line.
pub fn parse_request(line: &str) -> (request: Option<Request>)
    ensures
        match request {
            Some(request) => request_of(line@) == Some(request@),
            None => request_of(line@) is None,
        },
{
    let chars = chars_of(line);
    let text = chars.as_slice();
    assert(text@.skip(0) =~= line@);
    let (method_start, method_end) = match word_from(text, 0) {
        Some(word) => word,
        None => {
            return None;
        },
    };
    let (target_start, target_end) = match word_from(text, method_end) {
        Some(word) => word,
        None => {
            return None;
        },
    };
    let method = string_of(slice_subrange(text, method_start, method_end));
    let target = slice_subrange(text, target_start, target_end);
    let at = seek(target, 0, '?');
    assert(target@.skip(0) =~= target@);
    if at < target.len() {
        let path = string_of(slice_subrange(target, 0, at));
        let query = parse_query(slice_subrange(target, at + 1, target.len()));
        proof {
            assert(path@ =~= target@.take(at as int));
            assert(target@.subrange(at + 1, target@.len() as int) =~= target@.skip(at + 1));
        }
        Some(Request { method, path, query })
    } else {
        let query: Vec<(String, String)> = Vec::new();
        assert(settings(query@) =~= Seq::empty());
        Some(Request { method, path: string_of(target), query })
    }
}

/// Whether a line holds nothing but white space, as the one that ends the
/// headers does.
pub fn is_blank(line: &str) -> (blank: bool)
    ensures
        blank == (forall|i: int| 0 <= i < line@.len() ==> text::is_space(#[trigger] line@[i])),
{
    let chars = chars_of(line);
    let mut i: usize = 0;
    while i < chars.len()
        invariant
            chars@ == line@,
            0 <= i <= chars@.len(),
            forall|j: int| 0 <= j < i ==> text::is_space(#[trigger] line@[j]),
        decreases chars@.len() - i,
    {
        if !is_white(chars[i]) {
            assert(!text::is_space(line@[i as int]));
            return false;
        }
        i += 1;
    }
    true
}

/// Reads a number off some text, as far as a `u64` can hold it.
fn parse_number(text: &str) -> (number: Option<u64>)
    ensures
        match number {
            Some(number) => numeral(text@) == Some(number as nat),
            None => match numeral(text@) {
                Some(number) => number > u64::MAX,
                None => true,
            },
        },
{
    let chars = chars_of(text);
    let from: usize = if chars.len() > 0 && chars[0] == '+' {
        1
    } else {
        0
    };
    let ghost digits = chars@.skip(from as int);
    assert(digits =~= unsigned(text@));
    if from == chars.len() {
        return None;
    }
    let mut number: u64 = 0;
    let mut too_large: bool = false;
    let mut i: usize = from;
    assert(digits.take(0) =~= Seq::empty());
    while i < chars.len()
        invariant
            from <= i <= chars@.len(),
            digits == chars@.skip(from as int),
            digits == unsigned(text@),
            forall|j: int| 0 <= j < i - from ==> is_digit(#[trigger] digits[j]),
            !too_large ==> number == number_of(digits.take(i - from)),
            too_large ==> number_of(digits.take(i - from)) > u64::MAX,
        decreases chars@.len() - i,
    {
        let c = chars[i];
        assert(digits[i - from] == c);
        if c < '0' || '9' < c {
            assert(!is_digit(digits[i - from]));
            return None;
        }
        let digit: u64 = (c as u64) - ('0' as u64);
        proof {
            let taken = digits.take(i - from + 1);
            assert(taken.drop_last() =~= digits.take(i - from));
            assert(taken.last() == c);
        }
        if !too_large && number <= (u64::MAX - digit) / 10 {
            number = number * 10 + digit;
        } else {
            too_large = true;
        }
        i += 1;
    }
    assert(digits.take(i - from) =~= digits);
    if too_large {
        None
    } else {
        Some(number)
    }
}

impl Request {
    /// What a parameter is set to.
    fn get(&self, name: &str) -> (value: Option<&String>)
        ensures
            match value {
                Some(value) => setting(self@.query, name@) == Some(value@),
                None => setting(self@.query, name@) is None,
            },
    {
        let mut left: usize = self.query.len();
        let ghost query = self@.query;
        assert(query.take(left as int) =~= query);
        while left > 0
            invariant
                query == settings(self.query@),
                left <= self.query@.len(),
                setting(query, name@) == setting(query.take(left as int), name@),
            decreases left,
        {
            let pair = &self.query[left - 1];
            proof {
                assert(query.take(left as int).last() == (pair.0@, pair.1@));
                assert(query.take(left as int).drop_last() =~= query.take(left - 1));
            }
            if spells(chars_of(pair.0.as_str()).as_slice(), name) {
                return Some(&pair.1);
            }
            left -= 1;
        }
        None
    }

    /// Whether a parameter is set.
    pub fn has(&self, name: &str) -> (set: bool)
        ensures
            set == (setting(self@.query, name@) is Some),
    {
        self.get(name).is_some()
    }

    /// Reads a query parameter as a number.
    pub fn number<T: Numeral>(&self, name: &str) -> (read: Result<T, String>)
        ensures
            match parameter(self@.query, name@, T::most()) {
                Ok(number) => read matches Ok(value) && value.number() == number,
                Err(words) => read matches Err(error) && error@ == words,
            },
    {
        proof {
            T::most_fits();
        }
        let value = match self.get(name) {
            Some(value) => value,
            None => {
                let mut error = String::from_str("missing parameter ");
                error.append(name);
                return Err(error);
            },
        };
        if let Some(number) = parse_number(value.as_str()) {
            if let Some(fitted) = T::fit(number) {
                return Ok(fitted);
            }
        }
        let mut error = String::from_str("parameter ");
        error.append(name);
        error.append(" is not a number");
        Err(error)
    }
}

/// The head of a response: its status, its headers, and the line that ends
/// them.
pub fn response_head(status: &str, content_type: &str, length: u64) -> (head: String)
    ensures
        head@ == "HTTP/1.1 "@ + status@ + "\r\nContent-Type: "@ + content_type@
            + "\r\nContent-Length: "@ + text::decimal(length as nat)
            + "\r\nCache-Control: no-store\r\nConnection: close\r\n\r\n"@,
{
    let mut head = String::from_str("HTTP/1.1 ");
    head.append(status);
    head.append("\r\nContent-Type: ");
    head.append(content_type);
    head.append("\r\nContent-Length: ");
    push_decimal(&mut head, length);
    head.append("\r\nCache-Control: no-store\r\nConnection: close\r\n\r\n");
    head
}

/// What follows the slashes some text starts with.
pub open spec fn past_slashes(text: Seq<char>) -> Seq<char>
    decreases text.len(),
{
    if text.len() > 0 && text[0] == '/' {
        past_slashes(text.drop_first())
    } else {
        text
    }
}

/// Whether any part of a path between its slashes climbs to the directory
/// above.
pub open spec fn climbs(path: Seq<char>) -> bool
    decreases path.len(),
{
    match split_once(path, '/') {
        Some((part, rest)) => part == ".."@ || climbs(rest),
        None => path == ".."@,
    }
}

/// The file a path asks for, relative to the root, unless it tries to climb
/// out of it.
pub open spec fn asset_of(path: Seq<char>) -> Option<Seq<char>> {
    let relative = past_slashes(path);
    let named = if relative.len() == 0 {
        "index.html"@
    } else {
        relative
    };
    if climbs(named) {
        None
    } else {
        Some(named)
    }
}

fn tries_to_climb(path: &[char]) -> (found: bool)
    ensures
        found == climbs(path@),
{
    let mut from: usize = 0;
    assert(path@.skip(0) =~= path@);
    loop
        invariant
            from <= path@.len(),
            climbs(path@) == climbs(path@.skip(from as int)),
        decreases path@.len() - from,
    {
        let ghost rest = path@.skip(from as int);
        let at = seek(path, from, '/');
        let part = slice_subrange(path, from, at);
        assert(part@ =~= rest.take(at - from));
        let up = spells(part, "..");
        if at == path.len() {
            assert(part@ =~= rest);
            return up;
        }
        assert(rest.skip(at - from + 1) =~= path@.skip(at + 1));
        if up {
            return true;
        }
        from = at + 1;
    }
}

/// The file a path asks for, refusing anything that tries to climb out of the
/// root.
pub fn asset_path(path: &str) -> (asset: Option<String>)
    ensures
        match asset {
            Some(asset) => asset_of(path@) == Some(asset@),
            None => asset_of(path@) is None,
        },
{
    let chars = chars_of(path);
    let mut from: usize = 0;
    assert(chars@.skip(0) =~= path@);
    while from < chars.len() && chars[from] == '/'
        invariant
            from <= chars@.len(),
            past_slashes(path@) == past_slashes(chars@.skip(from as int)),
        decreases chars@.len() - from,
    {
        assert(chars@.skip(from as int).drop_first() =~= chars@.skip(from + 1));
        from += 1;
    }
    let named = if from == chars.len() {
        chars_of("index.html")
    } else {
        let relative = slice_subrange(chars.as_slice(), from, chars.len());
        assert(relative@ =~= chars@.skip(from as int));
        vstd::slice::slice_to_vec(relative)
    };
    assert(named@ =~= if past_slashes(path@).len() == 0 {
        "index.html"@
    } else {
        past_slashes(path@)
    });
    if tries_to_climb(named.as_slice()) {
        None
    } else {
        Some(string_of(named.as_slice()))
    }
}

/// What follows the last `.` of a path, if there is one.
pub open spec fn extension(path: Seq<char>) -> Option<Seq<char>>
    decreases path.len(),
{
    if path.len() == 0 {
        None
    } else if path.last() == '.' {
        Some(Seq::empty())
    } else {
        match extension(path.drop_last()) {
            Some(found) => Some(found.push(path.last())),
            None => None,
        }
    }
}

/// What a file of a given extension holds.
pub open spec fn content_type(path: Seq<char>) -> Seq<char> {
    match extension(path) {
        Some(found) => if found == "html"@ {
            "text/html; charset=utf-8"@
        } else if found == "js"@ {
            "text/javascript; charset=utf-8"@
        } else if found == "css"@ {
            "text/css; charset=utf-8"@
        } else if found == "svg"@ {
            "image/svg+xml"@
        } else if found == "wasm"@ {
            "application/wasm"@
        } else if found == "json"@ {
            "application/json"@
        } else if found == "ico"@ {
            "image/x-icon"@
        } else {
            "application/octet-stream"@
        },
        None => "application/octet-stream"@,
    }
}

/// What follows the last `.` of some characters, if there is one.
fn extension_of(path: &[char]) -> (found: Option<Vec<char>>)
    ensures
        match found {
            Some(found) => extension(path@) == Some(found@),
            None => extension(path@) is None,
        },
    decreases path@.len(),
{
    if path.len() == 0 {
        return None;
    }
    let last = path[path.len() - 1];
    if last == '.' {
        let none: Vec<char> = Vec::new();
        assert(none@ =~= Seq::empty());
        return Some(none);
    }
    let shorter = slice_subrange(path, 0, path.len() - 1);
    assert(shorter@ =~= path@.drop_last());
    match extension_of(shorter) {
        Some(mut found) => {
            found.push(last);
            Some(found)
        },
        None => None,
    }
}

/// What a file holds, going by its name.
pub fn content_type_for(path: &str) -> (kind: &'static str)
    ensures
        kind@ == content_type(path@),
{
    let chars = chars_of(path);
    let found = match extension_of(chars.as_slice()) {
        Some(found) => found,
        None => {
            return "application/octet-stream";
        },
    };
    let name = found.as_slice();
    if spells(name, "html") {
        "text/html; charset=utf-8"
    } else if spells(name, "js") {
        "text/javascript; charset=utf-8"
    } else if spells(name, "css") {
        "text/css; charset=utf-8"
    } else if spells(name, "svg") {
        "image/svg+xml"
    } else if spells(name, "wasm") {
        "application/wasm"
    } else if spells(name, "json") {
        "application/json"
    } else if spells(name, "ico") {
        "image/x-icon"
    } else {
        "application/octet-stream"
    }
}

} // verus!
