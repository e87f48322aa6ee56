//! The text a request carries: `Strip[0].Gain=-6.0;`.
//!
//! A request is a list of assignments, separated by semicolons or by
//! newlines, and a client may pack as many into one datagram as will fit.
//! The TEXT channel is one-way by design (to read the mixer's state a
//! client subscribes to the state packets instead), so everything here is
//! an assignment, and nothing needs a reply.
//!
//! What a parameter *means* is not decided here. This crate knows that
//! `Strip[0].Gain` addresses field `gain` of strip 0; whether that is
//! decibels, and what happens when it changes, belongs to the mixer. That
//! split keeps the protocol testable without a mixer attached.

use crate::number;
use crate::text::{self, Class};
use vstd::arithmetic::power::*;
use vstd::prelude::*;

verus! {

/// What a parameter addresses.
#[derive(Debug, Clone, Copy, PartialEq, Eq, Structural)]
pub enum Target {
    /// One of the eight input strips, zero-based as the protocol counts.
    Strip(usize),
    /// One of the eight buses.
    Bus(usize),
    /// The transport and the other verbs: `Command.Restart`, `Command.Show`.
    Command,
    /// The tape deck.
    Recorder,
    /// One of the macro buttons.
    Button(usize),
    /// Ours, outside Voicemeeter's tree: `PipeMeeter.Window=reverb`.
    ///
    /// A namespace of our own rather than new fields on `Command`, so a
    /// macro written for Voicemeeter can never collide with one of these
    /// and nothing here can be mistaken for a parameter Voicemeeter has.
    App,
    /// Something addressed by a name we do not implement. Kept whole so it
    /// can be logged and answered honestly rather than guessed at.
    Unknown,
}

/// One assignment from a request.
#[derive(Debug, Clone, PartialEq)]
pub struct Parameter {
    pub target: Target,
    /// The field, lowercased, with its dots kept: `gain`, `mute`, `a1`,
    /// `eq.on`, `mode.amix`. Lowercased because clients differ on case and
    /// Voicemeeter does not care.
    pub field: String,
    /// The value as it arrived. Text because a label is a string and a gain
    /// is a number, and the mixer knows which it wanted.
    pub value: String,
    /// The whole assignment, for logs.
    pub raw: String,
}

/// What an assignment says.
#[verifier::ext_equal]
pub struct ParameterView {
    pub target: Target,
    pub field: Seq<char>,
    pub value: Seq<char>,
    pub raw: Seq<char>,
}

impl View for Parameter {
    type V = ParameterView;

    open spec fn view(&self) -> ParameterView {
        ParameterView {
            target: self.target,
            field: self.field@,
            value: self.value@,
            raw: self.raw@,
        }
    }
}

/// What a value says as a switch.
pub open spec fn switch(value: Seq<char>) -> Option<bool> {
    let word = text::lowered(text::trimmed(value, Class::Space));
    if word == "1"@ || word == "on"@ || word == "true"@ || word == "yes"@ {
        Some(true)
    } else if word == "0"@ || word == "off"@ || word == "false"@ || word == "no"@ {
        Some(false)
    } else {
        number::not_zero(word)
    }
}

/// What a name in lower case and an index address together.
pub open spec fn target_of(kind: Seq<char>, index: Option<usize>) -> Target {
    match index {
        Some(i) if kind == "strip"@ => Target::Strip(i),
        Some(i) if kind == "bus"@ => Target::Bus(i),
        Some(i) if kind == "button"@ => Target::Button(i),
        _ if kind == "command"@ => Target::Command,
        None if kind == "recorder"@ => Target::Recorder,
        None if kind == "pipemeeter"@ => Target::App,
        _ => Target::Unknown,
    }
}

/// What stands before the dot of a name: a kind, and perhaps an index in
/// brackets behind it. Nothing when there is a bracket and no index.
pub open spec fn address(head: Seq<char>) -> Option<(Seq<char>, Option<usize>)> {
    let at = text::place(head, '[');
    if at == head.len() {
        Some((head, None))
    } else {
        let rest = head.skip(at + 1);
        if rest.len() == 0 || rest.last() != ']' {
            None
        } else {
            match number::index(text::trimmed(rest.drop_last(), Class::Space)) {
                Some(i) => Some((text::trimmed(head.take(at), Class::Space), Some(i))),
                None => None,
            }
        }
    }
}

/// What a name like `Strip[0].Gain` addresses, and which field. Nothing when
/// there is no dot, no field behind it, or a bracket without an index.
pub open spec fn named(name: Seq<char>) -> Option<(Target, Seq<char>)> {
    let dot = text::place(name, '.');
    let field = text::lowered(text::trimmed(name.skip(dot + 1), Class::Space));
    if dot == name.len() || field.len() == 0 {
        None
    } else {
        match address(text::trimmed(name.take(dot), Class::Space)) {
            Some((kind, index)) => Some((target_of(text::lowered(kind), index), field)),
            None => None,
        }
    }
}

/// What a line like `Strip[0].Gain=-6.0` says. Nothing when there is no
/// equals sign or no name that can be placed before it.
pub open spec fn assignment(line: Seq<char>) -> Option<ParameterView> {
    let at = text::place(line, '=');
    if at == line.len() {
        None
    } else {
        match named(text::trimmed(line.take(at), Class::Space)) {
            Some((target, field)) => Some(
                ParameterView {
                    target,
                    field,
                    value: text::trimmed(
                        text::trimmed(line.skip(at + 1), Class::Space),
                        Class::Quote,
                    ),
                    raw: line,
                },
            ),
            None => None,
        }
    }
}

/// The lines of a request: what stands between its separators.
pub open spec fn lines(request: Seq<char>) -> Seq<Seq<char>>
    decreases request.len(),
{
    let end = text::leading(request, Class::Line) as int;
    if end >= request.len() {
        seq![request]
    } else {
        seq![request.take(end)] + lines(request.skip(end + 1))
    }
}

/// What a line says, if it says anything.
pub open spec fn kept(line: Seq<char>) -> Seq<ParameterView> {
    match assignment(text::trimmed(line, Class::Space)) {
        Some(parameter) => seq![parameter],
        None => seq![],
    }
}

/// What the lines say, in their order.
pub open spec fn all_kept(given: Seq<Seq<char>>) -> Seq<ParameterView>
    decreases given.len(),
{
    if given.len() == 0 {
        seq![]
    } else {
        kept(given[0]) + all_kept(given.drop_first())
    }
}

/// What a request says: what its lines say, in their order.
pub open spec fn request(text: Seq<char>) -> Seq<ParameterView> {
    all_kept(lines(text))
}

/// What a list of assignments says.
pub open spec fn views(parameters: Seq<Parameter>) -> Seq<ParameterView> {
    Seq::new(parameters.len(), |i: int| parameters[i]@)
}

impl Parameter {
    /// The value as a switch. `1` and `0` are what the protocol uses;
    /// `on`, `off`, `true` and `false` are accepted because people type
    /// requests by hand and the cost of being kind here is nothing.
    #[must_use]
    pub fn as_bool(&self) -> (res: Option<bool>)
        ensures
            res == switch(self.value@),
    {
        let word: String = text::trim(self.value.as_str(), Class::Space).to_ascii_lowercase();
        let word: &str = word.as_str();
        if text::same(word, "1") || text::same(word, "on") || text::same(word, "true")
            || text::same(word, "yes") {
            Some(true)
        } else if text::same(word, "0") || text::same(word, "off") || text::same(word, "false")
            || text::same(word, "no") {
            Some(false)
        } else {
            // A number that is not 0 counts as on: clients send `1.0`.
            number::number_not_zero(word)
        }
    }
}

/// Split a request into its assignments.
///
/// Anything unparseable is dropped rather than failing the whole request:
/// a datagram with one bad line in it should still apply the good ones,
/// the same way the mixer would rather set seven parameters than none.
#[must_use]
pub fn parse_request(text: &str) -> (res: Vec<Parameter>)
    ensures
        views(res@) == request(text@),
{
    let mut out: Vec<Parameter> = Vec::new();
    let mut rest: &str = text;
    loop
        invariant
            views(out@) + request(rest@) == request(text@),
        decreases rest@.len(),
    {
        let ghost before = out@;
        let split: Option<(&str, &str)> = text::split_after(rest, Class::Line);
        let line: &str = match split {
            Some((line, _)) => line,
            None => rest,
        };
        if let Some(parameter) = parse_assignment(text::trim(line, Class::Space)) {
            out.push(parameter);
        }
        proof {
            assert(views(out@) =~= views(before) + kept(line@));
            lemma_request_step(rest@);
        }
        match split {
            Some((_, after)) => {
                assert(views(out@) + request(after@) =~= views(before) + request(rest@));
                rest = after;
            },
            None => {
                assert(views(out@) =~= request(text@));
                return out;
            },
        }
    }
}

/// One `name=value`.
#[must_use]
pub fn parse_assignment(line: &str) -> (res: Option<Parameter>)
    ensures
        match res {
            Some(parameter) => assignment(line@) == Some(parameter@),
            None => assignment(line@) is None,
        },
{
    let (name, value) = match text::split_after(line, Class::Except('=')) {
        Some(halves) => halves,
        None => {
            return None;
        },
    };
    let (target, field) = match parse_name(text::trim(name, Class::Space)) {
        Some(found) => found,
        None => {
            return None;
        },
    };
    Some(
        Parameter {
            target,
            field,
            // Quotes are stripped: a label with a space in it arrives quoted,
            // and the quotes are the protocol's, not part of the name.
            value: text::trim(text::trim(value, Class::Space), Class::Quote).to_owned(),
            raw: line.to_owned(),
        },
    )
}

/// Split `Strip[0].Gain` into what it addresses and which field.
#[must_use]
pub fn parse_name(name: &str) -> (res: Option<(Target, String)>)
    ensures
        match res {
            Some((target, field)) => named(name@) == Some((target, field@)),
            None => named(name@) is None,
        },
{
    // `Command.Restart` always has a dot; something without one is not a
    // parameter we can place.
    let (head, field) = match text::split_after(name, Class::Except('.')) {
        Some(halves) => halves,
        None => {
            return None;
        },
    };
    let field: String = text::trim(field, Class::Space).to_ascii_lowercase();
    if field.as_str().unicode_len() == 0 {
        return None;
    }
    let (kind, index) = match parse_address(text::trim(head, Class::Space)) {
        Some(found) => found,
        None => {
            return None;
        },
    };
    let kind: String = kind.to_ascii_lowercase();
    Some((place_target(kind.as_str(), index), field))
}

/// Split `Strip[0]` into its kind and its index.
fn parse_address(head: &str) -> (res: Option<(&str, Option<usize>)>)
    ensures
        match res {
            Some((kind, index)) => address(head@) == Some((kind@, index)),
            None => address(head@) is None,
        },
{
    let (kind, rest) = match text::split_after(head, Class::Except('[')) {
        Some(halves) => halves,
        None => {
            return Some((head, None));
        },
    };
    let len: usize = rest.unicode_len();
    if len == 0 || rest.get_char(len - 1) != ']' {
        return None;
    }
    let digits: &str = rest.substring_char(0, len - 1);
    assert(digits@ =~= rest@.drop_last());
    match number::parse_index(text::trim(digits, Class::Space)) {
        Some(index) => Some((text::trim(kind, Class::Space), Some(index))),
        None => None,
    }
}

/// What a name in lower case and an index address together.
fn place_target(kind: &str, index: Option<usize>) -> (res: Target)
    ensures
        res == target_of(kind@, index),
{
    proof {
        reveal_strlit("strip");
        reveal_strlit("bus");
        reveal_strlit("button");
        reveal_strlit("command");
        assert("strip"@.len() == 5 && "bus"@.len() == 3 && "button"@.len() == 6 && "command"@.len()
            == 7);
    }
    // Indexed or not: `Command.Button[3].State` puts the index on the
    // field rather than the head, and the mixer reads it from there.
    if text::same(kind, "command") {
        return Target::Command;
    }
    match index {
        Some(index) => {
            if text::same(kind, "strip") {
                Target::Strip(index)
            } else if text::same(kind, "bus") {
                Target::Bus(index)
            } else if text::same(kind, "button") {
                Target::Button(index)
            } else {
                Target::Unknown
            }
        },
        None => {
            if text::same(kind, "recorder") {
                Target::Recorder
            } else if text::same(kind, "pipemeeter") {
                Target::App
            } else {
                Target::Unknown
            }
        },
    }
}

/// A request is its first line and then the rest of it.
proof fn lemma_request_step(text: Seq<char>)
    ensures
        ({
            let end = text::leading(text, Class::Line) as int;
            request(text) == if end >= text.len() {
                kept(text)
            } else {
                kept(text.take(end)) + request(text.skip(end + 1))
            }
        }),
{
    let end = text::leading(text, Class::Line) as int;
    if end >= text.len() {
        assert(lines(text).drop_first() =~= seq![]);
        assert(all_kept(seq![]) =~= seq![]);
        assert(request(text) =~= kept(text));
    } else {
        assert(lines(text).drop_first() =~= lines(text.skip(end + 1)));
    }
}

/// What two lists of lines say is what one says and then what the other says.
proof fn lemma_all_kept_of_both(a: Seq<Seq<char>>, b: Seq<Seq<char>>)
    ensures
        all_kept(a + b) == all_kept(a) + all_kept(b),
    decreases a.len(),
{
    if a.len() == 0 {
        assert(a + b =~= b);
        assert(all_kept(a) + all_kept(b) =~= all_kept(b));
    } else {
        assert((a + b).drop_first() =~= a.drop_first() + b);
        lemma_all_kept_of_both(a.drop_first(), b);
        assert(all_kept(a + b) =~= all_kept(a) + all_kept(b));
    }
}

/// A separator parts the lines on either side of it.
proof fn lemma_lines_of_both(a: Seq<char>, separator: char, b: Seq<char>)
    requires
        !Class::Line.has(separator),
    ensures
        lines(a + seq![separator] + b) == lines(a) + lines(b),
    decreases a.len(),
{
    let whole = a + seq![separator] + b;
    let end = text::leading(a, Class::Line) as int;
    text::lemma_leading(a, Class::Line);
    assert forall|i: int| 0 <= i < end implies Class::Line.has(#[trigger] whole[i]) by {
        assert(whole[i] == a[i]);
    }
    text::lemma_leading_is(whole, Class::Line, end as nat);
    assert(whole.take(end) =~= a.take(end));
    if end >= a.len() {
        assert(a.take(end) =~= a);
        assert(whole.skip(end + 1) =~= b);
        assert(lines(whole) =~= lines(a) + lines(b));
    } else {
        assert(whole.skip(end + 1) =~= a.skip(end + 1) + seq![separator] + b);
        lemma_lines_of_both(a.skip(end + 1), separator, b);
        assert(lines(whole) =~= lines(a) + lines(b));
    }
}

/// Semicolons and newlines separate, and the order survives: two requests
/// with a separator between them say what the first says and then what the
/// second says.
pub proof fn law_requests_follow_each_other(a: Seq<char>, separator: char, b: Seq<char>)
    requires
        separator == ';' || separator == '\n' || separator == '\r',
    ensures
        request(a + seq![separator] + b) == request(a) + request(b),
{
    lemma_lines_of_both(a, separator, b);
    lemma_all_kept_of_both(lines(a), lines(b));
}

/// A line without a separator in it is one assignment or none.
pub proof fn law_one_line(line: Seq<char>)
    requires
        !line.contains(';'),
        !line.contains('\n'),
        !line.contains('\r'),
    ensures
        request(line) == match assignment(text::trimmed(line, Class::Space)) {
            Some(parameter) => seq![parameter],
            None => seq![],
        },
{
    assert forall|i: int| 0 <= i < line.len() implies Class::Line.has(#[trigger] line[i]) by {
        assert(line.contains(line[i]));
    }
    text::lemma_leading_is(line, Class::Line, line.len());
    lemma_request_step(line);
}

/// One bad line costs that line and nothing else: the request says the same
/// without it.
pub proof fn law_rubbish_is_dropped(a: Seq<char>, rubbish: Seq<char>, b: Seq<char>)
    requires
        !rubbish.contains(';'),
        !rubbish.contains('\n'),
        !rubbish.contains('\r'),
        assignment(text::trimmed(rubbish, Class::Space)) is None,
    ensures
        request(a + seq![';'] + rubbish + seq![';'] + b) == request(a + seq![';'] + b),
{
    law_one_line(rubbish);
    law_requests_follow_each_other(a + seq![';'] + rubbish, ';', b);
    law_requests_follow_each_other(a, ';', rubbish);
    law_requests_follow_each_other(a, ';', b);
    assert(request(a) + request(rubbish) =~= request(a));
}

/// The line that a kept assignment keeps has no separator in it and no space
/// around it.
proof fn lemma_kept_raw(line: Seq<char>)
    requires
        text::leading(line, Class::Line) == line.len(),
        kept(line).len() > 0,
    ensures
        kept(line).len() == 1,
        ({
            let raw = kept(line)[0].raw;
            &&& assignment(raw) == Some(kept(line)[0])
            &&& text::trimmed(raw, Class::Space) == raw
            &&& text::leading(raw, Class::Line) == raw.len()
        }),
{
    let raw = text::trimmed(line, Class::Space);
    let from = text::leading(line, Class::Space) as int;
    text::lemma_trimmed_twice(line, Class::Space);
    text::lemma_leading(line, Class::Line);
    text::lemma_leading(line, Class::Space);
    text::lemma_trailing(text::trimmed_start(line, Class::Space), Class::Space);
    assert forall|i: int| 0 <= i < raw.len() implies Class::Line.has(#[trigger] raw[i]) by {
        assert(raw[i] == line[from + i]);
    }
    text::lemma_leading_is(raw, Class::Line, raw.len());
}

/// Every assignment that is kept says itself what line it came from, without
/// the space around it: as a request that line alone says that assignment and
/// nothing else.
pub proof fn law_raw_is_the_whole_assignment(text: Seq<char>, i: int)
    requires
        0 <= i < request(text).len(),
    ensures
        assignment(request(text)[i].raw) == Some(request(text)[i]),
        request(request(text)[i].raw) == seq![request(text)[i]],
        text::trimmed(request(text)[i].raw, Class::Space) == request(text)[i].raw,
        !request(text)[i].raw.contains(';'),
        !request(text)[i].raw.contains('\n'),
        !request(text)[i].raw.contains('\r'),
    decreases text.len(),
{
    let end = text::leading(text, Class::Line) as int;
    lemma_request_step(text);
    text::lemma_leading(text, Class::Line);
    let line = text.take(end);
    if end >= text.len() {
        assert(line =~= text);
    }
    assert forall|j: int| 0 <= j < line.len() implies Class::Line.has(#[trigger] line[j]) by {
        assert(line[j] == text[j]);
    }
    text::lemma_leading_is(line, Class::Line, line.len());
    let first = kept(line);
    if i < first.len() {
        let raw = first[0].raw;
        lemma_kept_raw(line);
        assert(request(text)[i] == first[0]);
        text::lemma_leading(raw, Class::Line);
        assert(forall|j: int| 0 <= j < raw.len() ==> Class::Line.has(#[trigger] raw[j]));
        lemma_request_step(raw);
    } else {
        law_raw_is_the_whole_assignment(text.skip(end + 1), i - first.len());
    }
}

/// What is kept is tidy: the field is in lower case, is not empty and has no
/// space around it, the value has no quotes around it, and the line is kept
/// whole.
pub proof fn law_assignment_is_tidy(line: Seq<char>)
    requires
        assignment(line) is Some,
    ensures
        ({
            let parameter = assignment(line).unwrap();
            &&& parameter.raw == line
            &&& parameter.field.len() > 0
            &&& text::lowered(parameter.field) == parameter.field
            &&& text::trimmed(parameter.field, Class::Space) == parameter.field
            &&& text::trimmed(parameter.value, Class::Quote) == parameter.value
        }),
{
    let at = text::place(line, '=');
    let name = text::trimmed(line.take(at), Class::Space);
    let dot = text::place(name, '.');
    let field = text::trimmed(name.skip(dot + 1), Class::Space);
    text::lemma_lowered_twice(field);
    text::lemma_trimmed_twice(name.skip(dot + 1), Class::Space);
    text::lemma_lowered_trimmed(field, Class::Space);
    text::lemma_trimmed_twice(text::trimmed(line.skip(at + 1), Class::Space), Class::Quote);
}

/// Case does not change an index.
proof fn lemma_lowered_index(s: Seq<char>)
    ensures
        number::index(text::lowered(s)) == number::index(s),
{
    let unsigned = if s.len() > 0 && s[0] == '+' {
        s.skip(1)
    } else {
        s
    };
    if s.len() > 0 {
        text::lemma_lower(s[0], Class::Except('+'));
    }
    let low = if s.len() > 0 && s[0] == '+' {
        text::lowered(s).skip(1)
    } else {
        text::lowered(s)
    };
    assert(low =~= text::lowered(unsigned));
    text::lemma_lowered_leading(unsigned, Class::Digit);
    if number::all_digits(unsigned) {
        text::lemma_leading(unsigned, Class::Digit);
        assert forall|i: int| 0 <= i < unsigned.len() implies low[i] == unsigned[i] by {
            assert(Class::Digit.has(unsigned[i]));
        }
        assert(low =~= unsigned);
    }
}

/// What a name in lower case addresses is what the name addresses.
proof fn lemma_lowered_named(name: Seq<char>)
    ensures
        named(text::lowered(name)) == named(name),
{
    let low = text::lowered(name);
    let dot = text::place(name, '.');
    text::lemma_leading(name, Class::Except('.'));
    text::lemma_lowered_leading(name, Class::Except('.'));
    if dot < name.len() {
        let field = name.skip(dot + 1);
        assert(low.skip(dot + 1) =~= text::lowered(field));
        text::lemma_lowered_trimmed(field, Class::Space);
        text::lemma_lowered_twice(text::trimmed(field, Class::Space));
        assert(low.take(dot) =~= text::lowered(name.take(dot)));
        text::lemma_lowered_trimmed(name.take(dot), Class::Space);
        let head = text::trimmed(name.take(dot), Class::Space);
        let low_head = text::lowered(head);
        let at = text::place(head, '[');
        text::lemma_leading(head, Class::Except('['));
        text::lemma_lowered_leading(head, Class::Except('['));
        text::lemma_lowered_twice(head);
        if at < head.len() {
            let rest = head.skip(at + 1);
            assert(low_head.skip(at + 1) =~= text::lowered(rest));
            if rest.len() > 0 {
                text::lemma_lower(rest.last(), Class::Except(']'));
                assert(text::lowered(rest).drop_last() =~= text::lowered(rest.drop_last()));
                text::lemma_lowered_trimmed(rest.drop_last(), Class::Space);
                lemma_lowered_index(text::trimmed(rest.drop_last(), Class::Space));
            }
            assert(low_head.take(at) =~= text::lowered(head.take(at)));
            text::lemma_lowered_trimmed(head.take(at), Class::Space);
            text::lemma_lowered_twice(text::trimmed(head.take(at), Class::Space));
        }
    }
}

/// Case does not matter: two names that differ in case only are kept or
/// dropped alike, and address the same field of the same thing.
pub proof fn law_case_does_not_matter(name: Seq<char>, other: Seq<char>, value: Seq<char>)
    requires
        text::lowered(name) == text::lowered(other),
        !name.contains('='),
    ensures
        match assignment(name + seq!['='] + value) {
            Some(parameter) => {
                assignment(other + seq!['='] + value) == Some(
                    ParameterView { raw: other + seq!['='] + value, ..parameter },
                )
            },
            None => assignment(other + seq!['='] + value) is None,
        },
{
    assert(name.len() == text::lowered(name).len() && other.len() == text::lowered(other).len());
    assert forall|i: int| 0 <= i < other.len() implies other[i] != '=' by {
        text::lemma_lower(name[i], Class::Except('='));
        text::lemma_lower(other[i], Class::Except('='));
        assert(text::lowered(name)[i] == text::lower(name[i]));
        assert(text::lowered(other)[i] == text::lower(other[i]));
        assert(name.contains(name[i]));
    }
    text::lemma_place_is(name, '=', value);
    text::lemma_place_is(other, '=', value);
    let line = name + seq!['='] + value;
    let other_line = other + seq!['='] + value;
    assert(line.take(name.len() as int) =~= name);
    assert(other_line.take(other.len() as int) =~= other);
    assert(line.skip(name.len() as int + 1) =~= value);
    assert(other_line.skip(other.len() as int + 1) =~= value);
    text::lemma_lowered_trimmed(name, Class::Space);
    text::lemma_lowered_trimmed(other, Class::Space);
    lemma_lowered_named(text::trimmed(name, Class::Space));
    lemma_lowered_named(text::trimmed(other, Class::Space));
}

/// Names that differ in case only address the same field of the same thing.
pub proof fn law_name_ignores_case(name: Seq<char>, other: Seq<char>)
    requires
        text::lowered(name) == text::lowered(other),
    ensures
        named(name) == named(other),
{
    lemma_lowered_named(name);
    lemma_lowered_named(other);
}

/// A switch is read the same in capitals.
pub proof fn law_switch_ignores_case(value: Seq<char>)
    ensures
        switch(text::lowered(value)) == switch(value),
{
    text::lemma_lowered_trimmed(value, Class::Space);
    text::lemma_lowered_twice(text::trimmed(value, Class::Space));
}

/// A value that is a number is a switch, on unless the number is zero in
/// single precision, also where a word for a switch is spelled the same. A
/// value is no switch only when it is neither a number nor one of the words.
pub proof fn law_number_is_a_switch(value: Seq<char>)
    ensures
        ({
            let word = text::lowered(text::trimmed(value, Class::Space));
            &&& number::not_zero(word) is Some ==> switch(value) == number::not_zero(word)
            &&& switch(value) is None <==> {
                &&& number::not_zero(word) is None
                &&& word != "1"@ && word != "on"@ && word != "true"@ && word != "yes"@
                &&& word != "0"@ && word != "off"@ && word != "false"@ && word != "no"@
            }
        }),
{
    let word = text::lowered(text::trimmed(value, Class::Space));
    reveal_strlit("1");
    reveal_strlit("on");
    reveal_strlit("true");
    reveal_strlit("yes");
    reveal_strlit("0");
    reveal_strlit("off");
    reveal_strlit("false");
    reveal_strlit("no");
    reveal_strlit("inf");
    reveal_strlit("infinity");
    reveal_strlit("nan");
    if word == "1"@ || word == "0"@ {
        text::lemma_leading_is(word, Class::Digit, 1);
        lemma_digits_not_zero(word);
        assert(word.drop_last() =~= seq![]);
        assert(number::decimal(word.drop_last()) == 0);
    } else if word == "on"@ || word == "true"@ || word == "yes"@ || word == "off"@ || word
        == "false"@ || word == "no"@ {
        assert("inf"@.len() == 3 && "inf"@[0] == 'i' && "infinity"@[0] == 'i' && "nan"@.len() == 3
            && "nan"@[0] == 'n');
        text::lemma_leading_is(word, Class::Digit, 0);
        assert(word.skip(0) =~= word);
        assert(number::not_zero(word) is None);
    }
}

/// Digits are a number, and it is zero only when it is nought.
proof fn lemma_digits_not_zero(digits: Seq<char>)
    requires
        number::all_digits(digits),
    ensures
        number::not_zero(digits) == Some(number::decimal(digits) != 0),
{
    text::lemma_leading(digits, Class::Digit);
    assert(Class::Digit.has(digits[0]));
    reveal_strlit("inf");
    reveal_strlit("infinity");
    reveal_strlit("nan");
    assert("inf"@[0] == 'i' && "infinity"@[0] == 'i' && "nan"@[0] == 'n');
    let after = digits.skip(digits.len() as int);
    assert(after.skip(0) =~= seq![]);
    assert(digits.take(digits.len() as int) + after.take(0) =~= digits);
}

/// A whole number is a switch: on unless it is zero.
pub proof fn law_whole_number_is_a_switch(value: Seq<char>)
    requires
        number::all_digits(value),
    ensures
        switch(value) == Some(number::decimal(value) != 0),
{
    text::lemma_leading(value, Class::Digit);
    assert(forall|i: int| 0 <= i < value.len() ==> Class::Digit.has(#[trigger] value[i]));
    text::lemma_nothing_to_trim(value, Class::Space);
    assert(text::lowered(value) =~= value);
    lemma_digits_not_zero(value);
    law_number_is_a_switch(value);
}

/// No character of an index, with or without space around it, could be taken
/// for a dot.
proof fn lemma_index_has_no_dot(digits: Seq<char>)
    requires
        number::index(text::trimmed(digits, Class::Space)) is Some,
    ensures
        !digits.contains('.'),
{
    let plain = text::trimmed(digits, Class::Space);
    let unsigned = if plain[0] == '+' {
        plain.skip(1)
    } else {
        plain
    };
    text::lemma_leading(unsigned, Class::Digit);
    assert forall|i: int| 0 <= i < plain.len() implies plain[i] != '.' by {
        if plain[0] != '+' {
            assert(Class::Digit.has(unsigned[i]));
        } else if i > 0 {
            assert(Class::Digit.has(unsigned[i - 1]));
        }
    }
    assert forall|i: int| 0 <= i < digits.len() implies digits[i] != '.' by {
        text::lemma_trimmed_off(digits, Class::Space, i);
    }
}

/// A kind and an index in brackets are read as that kind and that index,
/// with or without space around either.
proof fn lemma_indexed_address(kind: Seq<char>, digits: Seq<char>)
    requires
        !kind.contains('['),
        number::index(text::trimmed(digits, Class::Space)) is Some,
    ensures
        address(text::trimmed(kind + seq!['['] + digits + seq![']'], Class::Space)) == Some(
            (
                text::trimmed(kind, Class::Space),
                number::index(text::trimmed(digits, Class::Space)),
            ),
        ),
{
    let whole = kind + seq!['['] + digits + seq![']'];
    let from = text::leading(kind, Class::Space) as int;
    let start = text::trimmed_start(kind, Class::Space);
    text::lemma_leading(kind, Class::Space);
    assert forall|i: int| 0 <= i < from implies Class::Space.has(#[trigger] whole[i]) by {
        assert(whole[i] == kind[i]);
    }
    text::lemma_leading_is(whole, Class::Space, from as nat);
    let head = start + seq!['['] + (digits + seq![']']);
    assert(whole.skip(from) =~= head);
    assert(head.last() == ']');
    assert(head.take(head.len() as int) =~= head);
    assert(text::trimmed(whole, Class::Space) == head);
    assert forall|i: int| 0 <= i < start.len() implies start[i] != '[' by {
        assert(kind.contains(kind[from + i]));
    }
    text::lemma_place_is(start, '[', digits + seq![']']);
    assert(head.skip(start.len() as int + 1) =~= digits + seq![']']);
    assert((digits + seq![']']).drop_last() =~= digits);
    assert(head.take(start.len() as int) =~= start);
    assert(start.skip(0) =~= start);
}

/// `Strip[0].Gain` addresses field `gain` of strip 0: a kind, an index in
/// brackets, a dot and a field address that field of the thing of that kind
/// and index, and without a field they address nothing. Space around any of
/// them does not matter.
pub proof fn law_indexed_name(kind: Seq<char>, digits: Seq<char>, field: Seq<char>)
    requires
        !kind.contains('.'),
        !kind.contains('['),
        number::index(text::trimmed(digits, Class::Space)) is Some,
    ensures
        named(kind + seq!['['] + digits + seq![']'] + seq!['.'] + field) == if text::trimmed(
            field,
            Class::Space,
        ).len() == 0 {
            None
        } else {
            Some(
                (
                    target_of(
                        text::lowered(text::trimmed(kind, Class::Space)),
                        number::index(text::trimmed(digits, Class::Space)),
                    ),
                    text::lowered(text::trimmed(field, Class::Space)),
                ),
            )
        },
{
    let head = kind + seq!['['] + digits + seq![']'];
    let name = kind + seq!['['] + digits + seq![']'] + seq!['.'] + field;
    lemma_index_has_no_dot(digits);
    assert forall|i: int| 0 <= i < head.len() implies head[i] != '.' by {
        if i < kind.len() {
            assert(kind.contains(kind[i]));
        } else if kind.len() < i < head.len() - 1 {
            assert(digits.contains(digits[i - kind.len() - 1]));
        }
    }
    text::lemma_place_is(head, '.', field);
    assert(name.take(head.len() as int) =~= head);
    assert(name.skip(head.len() as int + 1) =~= field);
    lemma_indexed_address(kind, digits);
}

/// `Command.Restart` addresses field `restart` of the verbs: a kind without
/// an index, a dot and a field address that field of the thing of that kind,
/// and without a field they address nothing.
pub proof fn law_plain_name(kind: Seq<char>, field: Seq<char>)
    requires
        !kind.contains('.'),
        !kind.contains('['),
    ensures
        named(kind + seq!['.'] + field) == if text::trimmed(field, Class::Space).len() == 0 {
            None
        } else {
            Some(
                (
                    target_of(text::lowered(text::trimmed(kind, Class::Space)), None),
                    text::lowered(text::trimmed(field, Class::Space)),
                ),
            )
        },
{
    let name = kind + seq!['.'] + field;
    text::lemma_place_is(kind, '.', field);
    assert(name.take(kind.len() as int) =~= kind);
    assert(name.skip(kind.len() as int + 1) =~= field);
    let head = text::trimmed(kind, Class::Space);
    text::lemma_leading(kind, Class::Space);
    text::lemma_trailing(text::trimmed_start(kind, Class::Space), Class::Space);
    assert forall|i: int| 0 <= i < head.len() implies head[i] != '[' by {
        assert(head[i] == kind[text::leading(kind, Class::Space) + i]);
        assert(kind.contains(head[i]));
    }
    text::lemma_no_place(head, '[');
}

/// The quotes around a label are all that trimming takes off it.
proof fn lemma_quotes_come_off(label: Seq<char>)
    requires
        label.len() > 0 ==> label[0] != '"' && label.last() != '"',
    ensures
        text::trimmed(seq!['"'] + label + seq!['"'], Class::Quote) == label,
{
    let value = seq!['"'] + label + seq!['"'];
    if label.len() == 0 {
        text::lemma_leading_is(value, Class::Quote, 2);
        assert(text::trimmed(value, Class::Quote) =~= label);
    } else {
        text::lemma_leading_is(value, Class::Quote, 1);
        let rest = text::trimmed_start(value, Class::Quote);
        assert(rest =~= label + seq!['"']);
        assert(rest.drop_last() =~= label);
        assert(text::trailing(label, Class::Quote) == 0);
        assert(text::trailing(rest, Class::Quote) == 1);
        assert(text::trimmed(value, Class::Quote) =~= label);
    }
}

/// A label keeps its spaces and loses its quotes.
pub proof fn law_quotes_come_off(name: Seq<char>, label: Seq<char>)
    requires
        !name.contains('='),
        named(text::trimmed(name, Class::Space)) is Some,
        label.len() > 0 ==> label[0] != '"' && label.last() != '"',
    ensures
        assignment(name + seq!['='] + (seq!['"'] + label + seq!['"'])) matches Some(parameter)
            && parameter.value == label,
{
    let value = seq!['"'] + label + seq!['"'];
    let line = name + seq!['='] + value;
    text::lemma_place_is(name, '=', value);
    assert(line.take(name.len() as int) =~= name);
    assert(line.skip(name.len() as int + 1) =~= value);
    text::lemma_nothing_to_trim(value, Class::Space);
    lemma_quotes_come_off(label);
}

/// A parameter's view leaves nothing out, and neither does that of a list.
pub proof fn law_parameter_view_is_whole(parameters: Seq<Parameter>, i: int)
    requires
        0 <= i < parameters.len(),
    ensures
        views(parameters).len() == parameters.len(),
        views(parameters)[i].target == parameters[i].target,
        views(parameters)[i].field == parameters[i].field@,
        views(parameters)[i].value == parameters[i].value@,
        views(parameters)[i].raw == parameters[i].raw@,
{
}

/// What each kind addresses, with an index and without one. Any other kind is
/// unknown.
pub proof fn law_kinds_have_their_targets(kind: Seq<char>, i: usize)
    ensures
        target_of(seq!['s', 't', 'r', 'i', 'p'], Some(i)) == Target::Strip(i),
        target_of(seq!['b', 'u', 's'], Some(i)) == Target::Bus(i),
        target_of(seq!['b', 'u', 't', 't', 'o', 'n'], Some(i)) == Target::Button(i),
        target_of(seq!['c', 'o', 'm', 'm', 'a', 'n', 'd'], Some(i)) == Target::Command,
        target_of(seq!['c', 'o', 'm', 'm', 'a', 'n', 'd'], None) == Target::Command,
        target_of(seq!['r', 'e', 'c', 'o', 'r', 'd', 'e', 'r'], None) == Target::Recorder,
        target_of(seq!['p', 'i', 'p', 'e', 'm', 'e', 'e', 't', 'e', 'r'], None) == Target::App,
        target_of(kind, Some(i)) == Target::Unknown <==> {
            &&& kind != seq!['s', 't', 'r', 'i', 'p']
            &&& kind != seq!['b', 'u', 's']
            &&& kind != seq!['b', 'u', 't', 't', 'o', 'n']
            &&& kind != seq!['c', 'o', 'm', 'm', 'a', 'n', 'd']
        },
        target_of(kind, None) == Target::Unknown <==> {
            &&& kind != seq!['c', 'o', 'm', 'm', 'a', 'n', 'd']
            &&& kind != seq!['r', 'e', 'c', 'o', 'r', 'd', 'e', 'r']
            &&& kind != seq!['p', 'i', 'p', 'e', 'm', 'e', 'e', 't', 'e', 'r']
        },
{
    reveal_strlit("strip");
    reveal_strlit("bus");
    reveal_strlit("button");
    reveal_strlit("command");
    reveal_strlit("recorder");
    reveal_strlit("pipemeeter");
    assert("strip"@ =~= seq!['s', 't', 'r', 'i', 'p']);
    assert("bus"@ =~= seq!['b', 'u', 's']);
    assert("button"@ =~= seq!['b', 'u', 't', 't', 'o', 'n']);
    assert("command"@ =~= seq!['c', 'o', 'm', 'm', 'a', 'n', 'd']);
    assert("recorder"@ =~= seq!['r', 'e', 'c', 'o', 'r', 'd', 'e', 'r']);
    assert("pipemeeter"@ =~= seq!['p', 'i', 'p', 'e', 'm', 'e', 'e', 't', 'e', 'r']);
    assert("strip"@.len() == 5 && "bus"@.len() == 3 && "button"@.len() == 6 && "command"@.len()
        == 7 && "recorder"@.len() == 8 && "pipemeeter"@.len() == 10);
}

/// A line without an equals sign says nothing, and neither does one whose
/// name cannot be placed.
pub proof fn law_what_cannot_be_placed_is_dropped(name: Seq<char>, value: Seq<char>)
    requires
        !name.contains('='),
    ensures
        assignment(name) is None,
        named(text::trimmed(name, Class::Space)) is None ==> assignment(
            name + seq!['='] + value,
        ) is None,
{
    let line = name + seq!['='] + value;
    text::lemma_no_place(name, '=');
    text::lemma_place_is(name, '=', value);
    assert(line.take(name.len() as int) =~= name);
}

/// The value as it arrived: a name that can be placed, an equals sign and a
/// value are kept, with the line they came in, and what is kept of the value
/// is every character of it but the space around it and the quotes inside
/// that space.
pub proof fn law_value_arrives_within_its_quotes(
    name: Seq<char>,
    before: Seq<char>,
    open: Seq<char>,
    core: Seq<char>,
    close: Seq<char>,
    after: Seq<char>,
)
    requires
        !name.contains('='),
        named(text::trimmed(name, Class::Space)) is Some,
        forall|i: int| 0 <= i < before.len() ==> text::white_space(#[trigger] before[i]),
        forall|i: int| 0 <= i < after.len() ==> text::white_space(#[trigger] after[i]),
        forall|i: int| 0 <= i < open.len() ==> #[trigger] open[i] == '"',
        forall|i: int| 0 <= i < close.len() ==> #[trigger] close[i] == '"',
        core.len() > 0 ==> core[0] != '"' && core.last() != '"',
        (open + core + close).len() > 0 ==> !text::white_space((open + core + close)[0])
            && !text::white_space((open + core + close).last()),
    ensures
        ({
            let line = name + seq!['='] + (before + (open + core + close) + after);
            &&& assignment(line) matches Some(parameter)
            &&& parameter.value == core
            &&& parameter.raw == line
            &&& Some((parameter.target, parameter.field)) == named(
                text::trimmed(name, Class::Space),
            )
        }),
{
    let given = open + core + close;
    let value = before + given + after;
    let line = name + seq!['='] + value;
    text::lemma_place_is(name, '=', value);
    assert(line.take(name.len() as int) =~= name);
    assert(line.skip(name.len() as int + 1) =~= value);
    assert forall|i: int| 0 <= i < before.len() implies Class::Space.has(#[trigger] before[i]) by {
        assert(text::white_space(before[i]));
    }
    assert forall|i: int| 0 <= i < after.len() implies Class::Space.has(#[trigger] after[i]) by {
        assert(text::white_space(after[i]));
    }
    text::law_trimming_takes_the_ends_off(before, given, after, Class::Space);
    text::law_trimming_takes_the_ends_off(open, core, close, Class::Quote);
}

/// The value as it arrived: where it neither starts nor ends with white space
/// or a quote, it is kept character for character.
pub proof fn law_value_is_kept_as_it_arrived(name: Seq<char>, value: Seq<char>)
    requires
        !name.contains('='),
        named(text::trimmed(name, Class::Space)) is Some,
        value.len() > 0 ==> !text::white_space(value[0]) && !text::white_space(value.last())
            && value[0] != '"' && value.last() != '"',
    ensures
        assignment(name + seq!['='] + value) matches Some(parameter) && parameter.value == value
            && parameter.raw == name + seq!['='] + value,
{
    let none: Seq<char> = seq![];
    law_value_arrives_within_its_quotes(name, none, none, value, none, none);
    assert(none + (none + value + none) + none =~= value);
    assert(none + value + none =~= value);
}

/// Space around a line changes nothing that it says.
pub proof fn law_space_does_not_matter(line: Seq<char>, before: Seq<char>, after: Seq<char>)
    requires
        !line.contains(';') && !line.contains('\n') && !line.contains('\r'),
        !before.contains('\n') && !before.contains('\r'),
        !after.contains('\n') && !after.contains('\r'),
        forall|i: int| 0 <= i < before.len() ==> text::white_space(#[trigger] before[i]),
        forall|i: int| 0 <= i < after.len() ==> text::white_space(#[trigger] after[i]),
    ensures
        request(before + line + after) == request(line),
{
    let whole = before + line + after;
    assert forall|i: int| 0 <= i < whole.len() implies Class::Line.has(#[trigger] whole[i]) by {
        if i < before.len() {
            assert(whole[i] == before[i] && text::white_space(before[i]));
            assert(before.contains(before[i]));
        } else if i < before.len() + line.len() {
            assert(whole[i] == line[i - before.len()]);
            assert(line.contains(line[i - before.len()]));
        } else {
            assert(whole[i] == after[i - before.len() - line.len()]);
            assert(text::white_space(after[i - before.len() - line.len()]));
            assert(after.contains(after[i - before.len() - line.len()]));
        }
    }
    law_one_line(whole);
    law_one_line(line);
    lemma_trimmed_inside(before, line, after);
}

/// Space around a text that is trimmed anyway is trimmed with it.
proof fn lemma_trimmed_inside(before: Seq<char>, core: Seq<char>, after: Seq<char>)
    requires
        forall|i: int| 0 <= i < before.len() ==> text::white_space(#[trigger] before[i]),
        forall|i: int| 0 <= i < after.len() ==> text::white_space(#[trigger] after[i]),
    ensures
        text::trimmed(before + core + after, Class::Space) == text::trimmed(core, Class::Space),
{
    let kept = text::trimmed(core, Class::Space);
    let ends = text::lemma_parts_of_trimmed(core, Class::Space);
    let start = before + ends.0;
    let end = ends.1 + after;
    assert forall|i: int| 0 <= i < start.len() implies Class::Space.has(#[trigger] start[i]) by {
        if i < before.len() {
            assert(text::white_space(before[i]));
        } else {
            assert(Class::Space.has(ends.0[i - before.len()]));
        }
    }
    assert forall|i: int| 0 <= i < end.len() implies Class::Space.has(#[trigger] end[i]) by {
        if i < ends.1.len() {
            assert(Class::Space.has(ends.1[i]));
        } else {
            assert(text::white_space(after[i - ends.1.len()]));
        }
    }
    text::lemma_trimmed(core, Class::Space);
    text::law_trimming_takes_the_ends_off(start, kept, end, Class::Space);
    assert(before + core + after =~= start + kept + end);
}

/// A name without a dot addresses nothing.
pub proof fn law_name_wants_a_dot(name: Seq<char>)
    requires
        !name.contains('.'),
    ensures
        named(name) is None,
{
    text::lemma_no_place(name, '.');
}

/// A bracket wants an index: what stands before the dot addresses a thing by
/// its index when an index and the closing bracket follow the opening one,
/// and nothing at all when something else does. `gap` is the space before the
/// dot.
pub proof fn law_bracket_wants_an_index(
    kind: Seq<char>,
    digits: Seq<char>,
    gap: Seq<char>,
    field: Seq<char>,
)
    requires
        !kind.contains('.') && !kind.contains('['),
        !digits.contains('.'),
        forall|i: int| 0 <= i < gap.len() ==> text::white_space(#[trigger] gap[i]),
    ensures
        named(kind + seq!['['] + (digits + seq![']']) + gap + seq!['.'] + field) == if text::trimmed(
            field,
            Class::Space,
        ).len() == 0 {
            None
        } else {
            match number::index(text::trimmed(digits, Class::Space)) {
                Some(i) => Some(
                    (
                        target_of(text::lowered(text::trimmed(kind, Class::Space)), Some(i)),
                        text::lowered(text::trimmed(field, Class::Space)),
                    ),
                ),
                None => None,
            }
        },
{
    let rest = digits + seq![']'];
    lemma_bracketed_head(kind, rest, gap, field);
    let start = text::trimmed_start(kind, Class::Space);
    let head = start + seq!['['] + rest;
    assert(rest.drop_last() =~= digits);
    assert(head.skip(start.len() as int + 1) =~= rest);
    assert(head.take(start.len() as int) =~= start);
    lemma_trimmed_start_then_all(kind);
}

/// A bracket that nothing closes addresses nothing.
pub proof fn law_bracket_wants_closing(
    kind: Seq<char>,
    rest: Seq<char>,
    gap: Seq<char>,
    field: Seq<char>,
)
    requires
        !kind.contains('.') && !kind.contains('['),
        !rest.contains('.'),
        rest.len() > 0 ==> !text::white_space(rest.last()) && rest.last() != ']',
        forall|i: int| 0 <= i < gap.len() ==> text::white_space(#[trigger] gap[i]),
    ensures
        named(kind + seq!['['] + rest + gap + seq!['.'] + field) is None,
{
    lemma_bracketed_head(kind, rest, gap, field);
    let start = text::trimmed_start(kind, Class::Space);
    let head = start + seq!['['] + rest;
    assert(head.skip(start.len() as int + 1) =~= rest);
}

/// Trimming the start first changes nothing.
proof fn lemma_trimmed_start_then_all(s: Seq<char>)
    ensures
        text::trimmed(text::trimmed_start(s, Class::Space), Class::Space) == text::trimmed(
            s,
            Class::Space,
        ),
{
    let start = text::trimmed_start(s, Class::Space);
    text::lemma_leading(s, Class::Space);
    if start.len() > 0 {
        assert(start[0] == s[text::leading(s, Class::Space) as int]);
    }
    assert(start.skip(0) =~= start);
}

/// How a name with a bracket in it falls apart: what stands before its dot,
/// trimmed, and where the bracket is in that.
proof fn lemma_bracketed_head(kind: Seq<char>, rest: Seq<char>, gap: Seq<char>, field: Seq<char>)
    requires
        !kind.contains('.') && !kind.contains('['),
        !rest.contains('.'),
        rest.len() > 0 ==> !text::white_space(rest.last()),
        forall|i: int| 0 <= i < gap.len() ==> text::white_space(#[trigger] gap[i]),
    ensures
        ({
            let name = kind + seq!['['] + rest + gap + seq!['.'] + field;
            let dot = text::place(name, '.');
            let start = text::trimmed_start(kind, Class::Space);
            let head = start + seq!['['] + rest;
            &&& 0 <= dot < name.len()
            &&& name.skip(dot + 1) == field
            &&& text::trimmed(name.take(dot), Class::Space) == head
            &&& text::place(head, '[') == start.len()
        }),
{
    let before = kind + seq!['['] + rest + gap;
    let name = before + seq!['.'] + field;
    assert forall|i: int| 0 <= i < before.len() implies before[i] != '.' by {
        let past = kind.len() + 1;
        if i < kind.len() {
            assert(kind.contains(kind[i]));
        } else if past <= i < past + rest.len() {
            assert(rest.contains(rest[i - past]));
        } else if i >= past + rest.len() {
            assert(text::white_space(gap[i - past - rest.len()]));
        }
    }
    text::lemma_place_is(before, '.', field);
    assert(name.skip(before.len() as int + 1) =~= field);
    assert(name.take(before.len() as int) =~= before);
    let from = text::leading(kind, Class::Space) as int;
    let start = text::trimmed_start(kind, Class::Space);
    let head = start + seq!['['] + rest;
    text::lemma_leading(kind, Class::Space);
    let space = kind.take(from);
    assert forall|i: int| 0 <= i < space.len() implies Class::Space.has(#[trigger] space[i]) by {
        assert(space[i] == kind[i]);
    }
    assert forall|i: int| 0 <= i < gap.len() implies Class::Space.has(#[trigger] gap[i]) by {
        assert(text::white_space(gap[i]));
    }
    if start.len() > 0 {
        assert(head[0] == kind[from]);
    }
    if rest.len() > 0 {
        assert(head.last() == rest.last());
    }
    text::law_trimming_takes_the_ends_off(space, head, gap, Class::Space);
    assert(before =~= space + head + gap);
    assert forall|i: int| 0 <= i < start.len() implies start[i] != '[' by {
        assert(kind.contains(kind[from + i]));
    }
    text::lemma_place_is(start, '[', rest);
}

/// The words for a switch, and the numbers that have no digits: in any case,
/// and with or without space around them.
pub proof fn law_words_are_switches(value: Seq<char>)
    ensures
        ({
            let word = text::lowered(text::trimmed(value, Class::Space));
            &&& word == seq!['1'] || word == seq!['o', 'n'] || word == seq!['t', 'r', 'u', 'e']
                || word == seq!['y', 'e', 's'] ==> switch(value) == Some(true)
            &&& word == seq!['0'] || word == seq!['o', 'f', 'f'] || word == seq![
                'f',
                'a',
                'l',
                's',
                'e',
            ] || word == seq!['n', 'o'] ==> switch(value) == Some(false)
        }),
{
    reveal_strlit("1");
    reveal_strlit("on");
    reveal_strlit("true");
    reveal_strlit("yes");
    reveal_strlit("0");
    reveal_strlit("off");
    reveal_strlit("false");
    reveal_strlit("no");
    assert("1"@ =~= seq!['1'] && "on"@ =~= seq!['o', 'n'] && "true"@ =~= seq!['t', 'r', 'u', 'e']
        && "yes"@ =~= seq!['y', 'e', 's']);
    assert("0"@ =~= seq!['0'] && "off"@ =~= seq!['o', 'f', 'f'] && "false"@ =~= seq![
        'f',
        'a',
        'l',
        's',
        'e',
    ] && "no"@ =~= seq!['n', 'o']);
    assert("1"@.len() == 1 && "on"@.len() == 2 && "true"@.len() == 4 && "yes"@.len() == 3);
    assert("yes"@[0] == 'y' && "on"@[1] == 'n' && "1"@[0] == '1');
}

/// Infinity and what is not a number at all are on, whatever their sign.
pub proof fn law_endless_numbers_are_on(value: Seq<char>, sign: Seq<char>)
    requires
        sign.len() == 0 || sign == seq!['+'] || sign == seq!['-'],
    ensures
        ({
            let word = text::lowered(text::trimmed(value, Class::Space));
            word == sign + seq!['i', 'n', 'f'] || word == sign + seq![
                'i',
                'n',
                'f',
                'i',
                'n',
                'i',
                't',
                'y',
            ] || word == sign + seq!['n', 'a', 'n'] ==> switch(value) == Some(true)
        }),
{
    let word = text::lowered(text::trimmed(value, Class::Space));
    reveal_strlit("inf");
    reveal_strlit("infinity");
    reveal_strlit("nan");
    let inf = seq!['i', 'n', 'f'];
    let infinity = seq!['i', 'n', 'f', 'i', 'n', 'i', 't', 'y'];
    let nan = seq!['n', 'a', 'n'];
    assert("inf"@ =~= inf && "infinity"@ =~= infinity && "nan"@ =~= nan);
    assert forall|rest: Seq<char>| rest == inf || rest == infinity || rest == nan implies
        #[trigger] number::unsigned(sign + rest) == rest by {
        if sign.len() == 0 {
            assert(sign + rest =~= rest);
        } else {
            assert((sign + rest).skip(1) =~= rest);
        }
    }
    law_number_is_a_switch(value);
}

/// Space around a value does not change the switch that it is.
pub proof fn law_switch_ignores_space(before: Seq<char>, value: Seq<char>, after: Seq<char>)
    requires
        forall|i: int| 0 <= i < before.len() ==> text::white_space(#[trigger] before[i]),
        forall|i: int| 0 <= i < after.len() ==> text::white_space(#[trigger] after[i]),
    ensures
        switch(before + value + after) == switch(value),
{
    lemma_trimmed_inside(before, value, after);
}

/// A written number is a switch: a sign or none, digits, perhaps a point
/// among them, and perhaps an exponent. It is on when it is more than two to
/// the minus 150, which is what is left of zero in single precision. `point`
/// and `mark` are empty where there is no point or no exponent.
#[verifier::spinoff_prover]
#[verifier::rlimit(40)]
pub proof fn law_written_number_is_a_switch(
    sign: Seq<char>,
    w: Seq<char>,
    point: Seq<char>,
    p: Seq<char>,
    mark: Seq<char>,
    xsign: Seq<char>,
    x: Seq<char>,
)
    requires
        sign.len() == 0 || sign == seq!['+'] || sign == seq!['-'],
        forall|i: int| 0 <= i < w.len() ==> '0' <= #[trigger] w[i] <= '9',
        forall|i: int| 0 <= i < p.len() ==> '0' <= #[trigger] p[i] <= '9',
        forall|i: int| 0 <= i < x.len() ==> '0' <= #[trigger] x[i] <= '9',
        w.len() + p.len() > 0,
        point == seq!['.'] || (point.len() == 0 && p.len() == 0),
        (mark == seq!['e'] && x.len() > 0 && (xsign.len() == 0 || xsign == seq!['+'] || xsign
            == seq!['-'])) || (mark.len() == 0 && xsign.len() == 0 && x.len() == 0),
    ensures
        ({
            let digits = number::decimal(w + p) as int;
            let tens = (if xsign == seq!['-'] {
                -(number::decimal(x) as int)
            } else {
                number::decimal(x) as int
            }) - p.len();
            switch(sign + (w + point + p + (mark + xsign + x))) == Some(
                if tens >= 0 {
                    digits > 0
                } else {
                    digits * pow(2, 150) > pow(10, (-tens) as nat)
                },
            )
        }),
{
    let body = w + point + p + (mark + xsign + x);
    let s = sign + body;
    number::lemma_parts_of_number(w, point, p, mark, xsign, x);
    lemma_number_is_plain(sign, w, point, p, mark, xsign, x);
    lemma_signed_number(sign, body);
    law_number_is_a_switch(s);
}

/// A sign is no part of the digits behind it, and digits are no endless
/// number.
proof fn lemma_signed_number(sign: Seq<char>, body: Seq<char>)
    requires
        sign.len() == 0 || sign == seq!['+'] || sign == seq!['-'],
        body.len() > 0 && ('0' <= body[0] <= '9' || body[0] == '.'),
        number::spelled(body) is Some,
    ensures
        number::not_zero(sign + body) == Some(number::above_zero(number::spelled(body).unwrap())),
{
    reveal_strlit("inf");
    reveal_strlit("infinity");
    reveal_strlit("nan");
    assert("inf"@[0] == 'i' && "infinity"@[0] == 'i' && "nan"@[0] == 'n');
    if sign.len() == 0 {
        assert(sign + body =~= body);
    } else {
        assert((sign + body).skip(1) =~= body);
    }
    assert(number::unsigned(sign + body) == body);
}

/// A written number has no space around it and no capitals in it, and starts
/// with a digit or a point behind its sign.
#[verifier::spinoff_prover]
#[verifier::rlimit(40)]
proof fn lemma_number_is_plain(
    sign: Seq<char>,
    w: Seq<char>,
    point: Seq<char>,
    p: Seq<char>,
    mark: Seq<char>,
    xsign: Seq<char>,
    x: Seq<char>,
)
    requires
        sign.len() == 0 || sign == seq!['+'] || sign == seq!['-'],
        forall|i: int| 0 <= i < w.len() ==> '0' <= #[trigger] w[i] <= '9',
        forall|i: int| 0 <= i < p.len() ==> '0' <= #[trigger] p[i] <= '9',
        forall|i: int| 0 <= i < x.len() ==> '0' <= #[trigger] x[i] <= '9',
        w.len() + p.len() > 0,
        point == seq!['.'] || (point.len() == 0 && p.len() == 0),
        (mark == seq!['e'] && x.len() > 0 && (xsign.len() == 0 || xsign == seq!['+'] || xsign
            == seq!['-'])) || (mark.len() == 0 && xsign.len() == 0 && x.len() == 0),
    ensures
        ({
            let body = w + point + p + (mark + xsign + x);
            let s = sign + body;
            &&& text::lowered(text::trimmed(s, Class::Space)) == s
            &&& body.len() > 0 && ('0' <= body[0] <= '9' || body[0] == '.')
        }),
{
    let front = w + point + p;
    let behind = mark + xsign + x;
    let body = front + behind;
    let s = sign + body;
    assert forall|i: int| 0 <= i < front.len() implies plain(#[trigger] front[i]) by {
        if i < w.len() {
            assert('0' <= w[i] <= '9');
        } else if i >= w.len() + point.len() {
            assert('0' <= p[i - w.len() - point.len()] <= '9');
        }
    }
    assert forall|i: int| 0 <= i < behind.len() implies plain(#[trigger] behind[i]) by {
        if i >= mark.len() + xsign.len() {
            assert('0' <= x[i - mark.len() - xsign.len()] <= '9');
        }
    }
    assert(body[0] == front[0]);
    if w.len() > 0 {
        assert(front[0] == w[0] && '0' <= w[0] <= '9');
    }
    assert forall|i: int| 0 <= i < s.len() implies plain(#[trigger] s[i]) by {
        if sign.len() <= i < sign.len() + front.len() {
            assert(s[i] == front[i - sign.len()]);
        } else if i >= sign.len() + front.len() {
            assert(s[i] == behind[i - sign.len() - front.len()]);
        }
    }
    lemma_plain(s);
}

/// A character that a written number is made of.
spec fn plain(c: char) -> bool {
    '0' <= c <= '9' || c == '.' || c == 'e' || c == '+' || c == '-'
}

/// What a written number is made of is neither white space nor a capital.
proof fn lemma_plain(s: Seq<char>)
    requires
        forall|i: int| 0 <= i < s.len() ==> plain(#[trigger] s[i]),
    ensures
        text::lowered(text::trimmed(s, Class::Space)) == s,
{
    if s.len() > 0 {
        assert(plain(s[0]) && plain(s[s.len() - 1]));
    }
    text::lemma_nothing_to_trim(s, Class::Space);
    assert forall|i: int| 0 <= i < s.len() implies text::lowered(s)[i] == s[i] by {
        assert(plain(s[i]));
    }
    assert(text::lowered(s) =~= s);
}

/// A number with a point is a switch, with a sign or without one; and with no
/// more than 40 digits behind the point it is on exactly when one of its
/// digits is not nought.
#[verifier::spinoff_prover]
#[verifier::rlimit(40)]
pub proof fn law_number_with_a_point_is_a_switch(sign: Seq<char>, w: Seq<char>, p: Seq<char>)
    requires
        sign.len() == 0 || sign == seq!['+'] || sign == seq!['-'],
        forall|i: int| 0 <= i < w.len() ==> '0' <= #[trigger] w[i] <= '9',
        forall|i: int| 0 <= i < p.len() ==> '0' <= #[trigger] p[i] <= '9',
        w.len() + p.len() > 0,
    ensures
        switch(sign + w + seq!['.'] + p) is Some,
        p.len() <= 40 ==> switch(sign + w + seq!['.'] + p) == Some(
            !((forall|i: int| 0 <= i < w.len() ==> #[trigger] w[i] == '0') && (forall|i: int|
                0 <= i < p.len() ==> #[trigger] p[i] == '0')),
        ),
{
    let none: Seq<char> = seq![];
    let digits = w + p;
    law_written_number_is_a_switch(sign, w, seq!['.'], p, none, none, none);
    assert(sign + (w + seq!['.'] + p + (none + none + none)) =~= sign + w + seq!['.'] + p);
    assert(number::decimal(none) == 0);
    assert forall|i: int| 0 <= i < digits.len() implies '0' <= #[trigger] digits[i] <= '9' by {
        if i < w.len() {
            assert('0' <= w[i] <= '9');
        } else {
            assert('0' <= p[i - w.len()] <= '9');
        }
    }
    number::law_only_noughts_are_nought(digits);
    if p.len() <= 40 {
        number::lemma_few_places(number::decimal(digits), p.len());
    }
    if number::decimal(digits) == 0 {
        assert forall|i: int| 0 <= i < w.len() implies #[trigger] w[i] == '0' by {
            assert(digits[i] == w[i]);
        }
        assert forall|i: int| 0 <= i < p.len() implies #[trigger] p[i] == '0' by {
            assert(digits[w.len() + i] == p[i]);
        }
    } else {
        let i = choose|i: int| 0 <= i < digits.len() && #[trigger] digits[i] != '0';
        if i < w.len() {
            assert(w[i] != '0');
        } else {
            assert(p[i - w.len()] != '0');
        }
    }
}

/// Nothing else is a switch: a value that is neither a word nor an endless
/// number is a written number, and these are its parts, in their order.
#[verifier::spinoff_prover]
#[verifier::rlimit(40)]
pub proof fn law_nothing_else_is_a_switch(value: Seq<char>) -> (parts: (
    Seq<char>,
    Seq<char>,
    Seq<char>,
    Seq<char>,
    Seq<char>,
    Seq<char>,
    Seq<char>,
))
    requires
        switch(value) is Some,
        ({
            let word = text::lowered(text::trimmed(value, Class::Space));
            &&& word != "on"@ && word != "true"@ && word != "yes"@
            &&& word != "off"@ && word != "false"@ && word != "no"@
            &&& word != "inf"@ && word != seq!['+'] + "inf"@ && word != seq!['-'] + "inf"@
            &&& word != "infinity"@ && word != seq!['+'] + "infinity"@ && word != seq!['-']
                + "infinity"@
            &&& word != "nan"@ && word != seq!['+'] + "nan"@ && word != seq!['-'] + "nan"@
        }),
    ensures
        text::lowered(text::trimmed(value, Class::Space)) == parts.0 + (parts.1 + parts.2 + parts.3
            + (parts.4 + parts.5 + parts.6)),
        parts.0.len() == 0 || parts.0 == seq!['+'] || parts.0 == seq!['-'],
        forall|i: int| 0 <= i < parts.1.len() ==> '0' <= #[trigger] parts.1[i] <= '9',
        forall|i: int| 0 <= i < parts.3.len() ==> '0' <= #[trigger] parts.3[i] <= '9',
        forall|i: int| 0 <= i < parts.6.len() ==> '0' <= #[trigger] parts.6[i] <= '9',
        parts.1.len() + parts.3.len() > 0,
        parts.2 == seq!['.'] || (parts.2.len() == 0 && parts.3.len() == 0),
        (parts.4 == seq!['e'] && parts.6.len() > 0 && (parts.5.len() == 0 || parts.5 == seq!['+']
            || parts.5 == seq!['-'])) || (parts.4.len() == 0 && parts.5.len() == 0 && parts.6.len()
            == 0),
{
    let word = text::lowered(text::trimmed(value, Class::Space));
    let body = number::unsigned(word);
    let sign = word.take(word.len() - body.len());
    assert(word =~= sign + body);
    if sign.len() > 0 {
        assert(sign =~= seq![word[0]]);
    }
    if word == "1"@ || word == "0"@ {
        reveal_strlit("1");
        reveal_strlit("0");
        text::lemma_leading_is(word, Class::Digit, 1);
        lemma_digits_not_zero(word);
    }
    assert(number::not_zero(word) is Some);
    reveal_strlit("inf");
    reveal_strlit("infinity");
    reveal_strlit("nan");
    if sign.len() == 0 {
        assert(body =~= word);
    }
    assert(number::spelled(body) is Some);
    let parts = number::lemma_number_has_parts(body);
    (sign, parts.0, parts.1, parts.2, parts.3, parts.4, parts.5)
}

/// A whole request of one assignment: `Strip[0].Gain=-6.0` says field `gain`
/// of strip 0, and the value as it stands there.
pub proof fn law_request_says_what_is_written(
    kind: Seq<char>,
    digits: Seq<char>,
    field: Seq<char>,
    value: Seq<char>,
    i: usize,
)
    requires
        !kind.contains('.') && !kind.contains('['),
        number::index(digits) == Some(i),
        kind.len() > 0 && !text::white_space(kind[0]) && !text::white_space(kind.last()),
        digits.len() > 0 && !text::white_space(digits[0]) && !text::white_space(digits.last()),
        field.len() > 0 && !text::white_space(field[0]) && !text::white_space(field.last()),
        value.len() > 0 && !text::white_space(value[0]) && !text::white_space(value.last())
            && value[0] != '"' && value.last() != '"',
        !(kind + seq!['['] + digits + seq![']'] + seq!['.'] + field).contains('='),
        ({
            let line = kind + seq!['['] + digits + seq![']'] + seq!['.'] + field + seq!['='] + value;
            !line.contains(';') && !line.contains('\n') && !line.contains('\r')
        }),
    ensures
        ({
            let line = kind + seq!['['] + digits + seq![']'] + seq!['.'] + field + seq!['='] + value;
            let said = request(line);
            &&& said.len() == 1
            &&& said[0].target == target_of(text::lowered(kind), Some(i))
            &&& said[0].field == text::lowered(field)
            &&& said[0].value == value
            &&& said[0].raw == line
        }),
{
    let name = kind + seq!['['] + digits + seq![']'] + seq!['.'] + field;
    let line = name + seq!['='] + value;
    text::lemma_nothing_to_trim(kind, Class::Space);
    text::lemma_nothing_to_trim(digits, Class::Space);
    text::lemma_nothing_to_trim(field, Class::Space);
    assert(name[0] == kind[0] && name.last() == field.last());
    text::lemma_nothing_to_trim(name, Class::Space);
    assert(line[0] == kind[0] && line.last() == value.last());
    text::lemma_nothing_to_trim(line, Class::Space);
    law_indexed_name(kind, digits, field);
    law_one_line(line);
    text::lemma_place_is(name, '=', value);
    assert(line.take(name.len() as int) =~= name);
    law_value_is_kept_as_it_arrived(name, value);
}

} // verus!
