use vstd::prelude::*;

use crate::dao::{lemma_dedup_of_wf_data, ScoreboardDao, VotingMachineDao};
use crate::domain::{dedup_entries, dedup_names, keys_of, MachineData, VotingMachine};
use crate::errors::UnavailableError;
use vstd::string::StrSliceExecFns;
use vstd::string::StringExecFns;

verus! {

// ---------------------------------------------------------------------------
// The stored record format, spec side.
//
// A snapshot is stored as one record of named fields,
//   {"voters":[..],"scoreboard":{"scores":{..},"blank_scores":N,"invalid_score":N}}
// with names written as quoted strings (quote and backslash escaped by a
// backslash) and counts written in decimal.
// ---------------------------------------------------------------------------
pub open spec fn lit_voters() -> Seq<char> {
    "{\"voters\":["@
}

pub open spec fn lit_scoreboard() -> Seq<char> {
    ",\"scoreboard\":"@
}

pub open spec fn lit_scores() -> Seq<char> {
    "{\"scores\":{"@
}

pub open spec fn lit_blank() -> Seq<char> {
    ",\"blank_scores\":"@
}

pub open spec fn lit_invalid() -> Seq<char> {
    ",\"invalid_score\":"@
}

/// How one character of a name is written: quote and backslash get a
/// backslash in front, every other character stands as itself.
pub open spec fn esc_char(c: char) -> Seq<char> {
    if c == '"' || c == '\\' {
        seq!['\\', c]
    } else {
        seq![c]
    }
}

/// A name's characters, escaped one by one.
pub open spec fn spec_escape(s: Seq<char>) -> Seq<char>
    decreases s.len(),
{
    if s.len() == 0 {
        Seq::empty()
    } else {
        esc_char(s[0]) + spec_escape(s.drop_first())
    }
}

/// A name as stored: escaped, between quotes.
pub open spec fn spec_encode_string(s: Seq<char>) -> Seq<char> {
    seq!['"'] + spec_escape(s) + seq!['"']
}

pub open spec fn char_of_digit(d: nat) -> char {
    if d == 0 {
        '0'
    } else if d == 1 {
        '1'
    } else if d == 2 {
        '2'
    } else if d == 3 {
        '3'
    } else if d == 4 {
        '4'
    } else if d == 5 {
        '5'
    } else if d == 6 {
        '6'
    } else if d == 7 {
        '7'
    } else if d == 8 {
        '8'
    } else {
        '9'
    }
}

pub open spec fn is_digit(c: char) -> bool {
    c == '0' || c == '1' || c == '2' || c == '3' || c == '4' || c == '5' || c == '6' || c == '7'
        || c == '8' || c == '9'
}

pub open spec fn digit_of_char(c: char) -> nat {
    if c == '0' {
        0
    } else if c == '1' {
        1
    } else if c == '2' {
        2
    } else if c == '3' {
        3
    } else if c == '4' {
        4
    } else if c == '5' {
        5
    } else if c == '6' {
        6
    } else if c == '7' {
        7
    } else if c == '8' {
        8
    } else {
        9
    }
}

/// A count in decimal, most significant digit first, no leading zero.
pub open spec fn spec_encode_uint(n: nat) -> Seq<char>
    decreases n,
{
    if n < 10 {
        seq![char_of_digit(n)]
    } else {
        spec_encode_uint(n / 10) + seq![char_of_digit(n % 10)]
    }
}

/// The voter names, comma-separated.
pub open spec fn spec_encode_name_list(names: Seq<Seq<char>>) -> Seq<char>
    decreases names.len(),
{
    if names.len() == 0 {
        Seq::empty()
    } else if names.len() == 1 {
        spec_encode_string(names[0])
    } else {
        spec_encode_name_list(names.drop_last()) + seq![','] + spec_encode_string(names.last())
    }
}

/// One tally entry: the candidate name, a colon, the count.
pub open spec fn spec_encode_entry(entry: (Seq<char>, nat)) -> Seq<char> {
    spec_encode_string(entry.0) + seq![':'] + spec_encode_uint(entry.1)
}

/// The tally entries, comma-separated.
pub open spec fn spec_encode_entry_list(entries: Seq<(Seq<char>, nat)>) -> Seq<char>
    decreases entries.len(),
{
    if entries.len() == 0 {
        Seq::empty()
    } else if entries.len() == 1 {
        spec_encode_entry(entries[0])
    } else {
        spec_encode_entry_list(entries.drop_last()) + seq![','] + spec_encode_entry(entries.last())
    }
}

/// The whole stored record for one snapshot.
pub open spec fn spec_encode_machine(d: MachineData) -> Seq<char> {
    lit_voters() + spec_encode_name_list(d.voters) + seq![']'] + lit_scoreboard() + lit_scores()
        + spec_encode_entry_list(d.scores) + seq!['}'] + lit_blank() + spec_encode_uint(d.blank)
        + lit_invalid() + spec_encode_uint(d.invalid) + seq!['}'] + seq!['}']
}

// ---------------------------------------------------------------------------
// The parser, spec side: a deterministic reading of the record format. Each
// function consumes a prefix of the input and returns what it read together
// with the remaining input, or nothing when the input does not follow the
// format.
//
// The reader is tolerant where the writer is canonical: whitespace may stand
// between tokens, the fields of the two objects may come in any order, and a
// field with an unrecognized name is skipped whole, whatever value it
// carries, for forward compatibility. A missing required field, a duplicate
// known field, or a value of the wrong shape is a decode failure.
// ---------------------------------------------------------------------------
pub open spec fn key_voters() -> Seq<char> {
    "voters"@
}

pub open spec fn key_scoreboard() -> Seq<char> {
    "scoreboard"@
}

pub open spec fn key_scores() -> Seq<char> {
    "scores"@
}

pub open spec fn key_blank() -> Seq<char> {
    "blank_scores"@
}

pub open spec fn key_invalid() -> Seq<char> {
    "invalid_score"@
}

pub open spec fn is_ws(c: char) -> bool {
    c == ' ' || c == '\t' || c == '\n' || c == '\r'
}

/// Drop leading whitespace.
pub open spec fn sp_ws(s: Seq<char>) -> Seq<char>
    decreases s.len(),
{
    if s.len() > 0 && is_ws(s[0]) {
        sp_ws(s.drop_first())
    } else {
        s
    }
}

/// Dropping whitespace never grows the input.
pub proof fn lemma_ws_consumes(s: Seq<char>)
    ensures
        sp_ws(s).len() <= s.len(),
    decreases s.len(),
{
    if s.len() > 0 && is_ws(s[0]) {
        lemma_ws_consumes(s.drop_first());
    }
}

/// Strip an expected literal off the front of the input.
pub open spec fn sp_tag(s: Seq<char>, tag: Seq<char>) -> Option<Seq<char>> {
    if tag.len() <= s.len() && s.take(tag.len() as int) == tag {
        Some(s.skip(tag.len() as int))
    } else {
        None
    }
}

/// Read a name's characters up to and including its closing quote.
pub open spec fn sp_string_body(s: Seq<char>) -> Option<(Seq<char>, Seq<char>)>
    decreases s.len(),
{
    if s.len() == 0 {
        None
    } else if s[0] == '"' {
        Some((Seq::empty(), s.drop_first()))
    } else if s[0] == '\\' {
        if s.len() >= 2 && (s[1] == '"' || s[1] == '\\') {
            match sp_string_body(s.skip(2)) {
                Some(p) => Some((seq![s[1]] + p.0, p.1)),
                None => None,
            }
        } else {
            None
        }
    } else {
        match sp_string_body(s.drop_first()) {
            Some(p) => Some((seq![s[0]] + p.0, p.1)),
            None => None,
        }
    }
}

/// Read a quoted name.
pub open spec fn sp_string(s: Seq<char>) -> Option<(Seq<char>, Seq<char>)> {
    if s.len() > 0 && s[0] == '"' {
        sp_string_body(s.drop_first())
    } else {
        None
    }
}

/// Read decimal digits greedily, folding them onto an accumulator.
pub open spec fn sp_uint_loop(s: Seq<char>, acc: nat) -> (nat, Seq<char>)
    decreases s.len(),
{
    if s.len() > 0 && is_digit(s[0]) {
        sp_uint_loop(s.drop_first(), acc * 10 + digit_of_char(s[0]))
    } else {
        (acc, s)
    }
}

/// Read a count: at least one digit, and a value the machine can count to.
pub open spec fn sp_uint(s: Seq<char>) -> Option<(nat, Seq<char>)> {
    if s.len() > 0 && is_digit(s[0]) {
        let p = sp_uint_loop(s, 0);
        if p.0 <= usize::MAX {
            Some(p)
        } else {
            None
        }
    } else {
        None
    }
}

/// Reading a name consumes at least its closing quote.
pub proof fn lemma_string_body_consumes(s: Seq<char>)
    ensures
        sp_string_body(s) matches Some(p) ==> p.1.len() < s.len(),
    decreases s.len(),
{
    if s.len() > 0 && s[0] != '"' {
        if s[0] == '\\' {
            if s.len() >= 2 && (s[1] == '"' || s[1] == '\\') {
                lemma_string_body_consumes(s.skip(2));
            }
        } else {
            lemma_string_body_consumes(s.drop_first());
        }
    }
}

/// Reading digits never grows the input.
pub proof fn lemma_uint_loop_consumes(s: Seq<char>, acc: nat)
    ensures
        sp_uint_loop(s, acc).1.len() <= s.len(),
    decreases s.len(),
{
    if s.len() > 0 && is_digit(s[0]) {
        lemma_uint_loop_consumes(s.drop_first(), acc * 10 + digit_of_char(s[0]));
    }
}

/// The folded value never falls below the accumulator it started from.
pub proof fn lemma_uint_loop_grows(s: Seq<char>, acc: nat)
    ensures
        sp_uint_loop(s, acc).0 >= acc,
    decreases s.len(),
{
    if s.len() > 0 && is_digit(s[0]) {
        lemma_uint_loop_grows(s.drop_first(), acc * 10 + digit_of_char(s[0]));
    }
}

/// Read the voter names after the opening bracket: one name after another,
/// comma-separated, up to and including the closing bracket.
pub open spec fn sp_name_items(s: Seq<char>) -> Option<(Seq<Seq<char>>, Seq<char>)>
    decreases s.len(),
    via sp_name_items_decreases
{
    match sp_string(sp_ws(s)) {
        Some(p) => {
            let r = sp_ws(p.1);
            if r.len() > 0 && r[0] == ']' {
                Some((seq![p.0], r.drop_first()))
            } else if r.len() > 0 && r[0] == ',' {
                match sp_name_items(r.drop_first()) {
                    Some(q) => Some((seq![p.0] + q.0, q.1)),
                    None => None,
                }
            } else {
                None
            }
        },
        None => None,
    }
}

#[via_fn]
proof fn sp_name_items_decreases(s: Seq<char>) {
    lemma_ws_consumes(s);
    let t = sp_ws(s);
    if t.len() > 0 && t[0] == '"' {
        lemma_string_body_consumes(t.drop_first());
        match sp_string_body(t.drop_first()) {
            Some(p) => {
                lemma_ws_consumes(p.1);
            },
            None => {},
        }
    }
}

/// Read the voter list after the opening bracket; it may be empty.
pub open spec fn sp_name_array(s: Seq<char>) -> Option<(Seq<Seq<char>>, Seq<char>)> {
    let t = sp_ws(s);
    if t.len() > 0 && t[0] == ']' {
        Some((Seq::empty(), t.drop_first()))
    } else {
        sp_name_items(s)
    }
}

/// Read a voter-list value: an opening bracket, then the list.
pub open spec fn sp_names_value(s: Seq<char>) -> Option<(Seq<Seq<char>>, Seq<char>)> {
    let t = sp_ws(s);
    if t.len() > 0 && t[0] == '[' {
        sp_name_array(t.drop_first())
    } else {
        None
    }
}

/// Read the tally entries after the opening brace: name, colon, count, one
/// entry after another, comma-separated, up to and including the closing
/// brace.
pub open spec fn sp_entry_items(s: Seq<char>) -> Option<(Seq<(Seq<char>, nat)>, Seq<char>)>
    decreases s.len(),
    via sp_entry_items_decreases
{
    match sp_string(sp_ws(s)) {
        Some(p) => {
            let r = sp_ws(p.1);
            if r.len() > 0 && r[0] == ':' {
                match sp_uint(sp_ws(r.drop_first())) {
                    Some(q) => {
                        let u = sp_ws(q.1);
                        if u.len() > 0 && u[0] == '}' {
                            Some((seq![(p.0, q.0)], u.drop_first()))
                        } else if u.len() > 0 && u[0] == ',' {
                            match sp_entry_items(u.drop_first()) {
                                Some(t) => Some((seq![(p.0, q.0)] + t.0, t.1)),
                                None => None,
                            }
                        } else {
                            None
                        }
                    },
                    None => None,
                }
            } else {
                None
            }
        },
        None => None,
    }
}

#[via_fn]
proof fn sp_entry_items_decreases(s: Seq<char>) {
    lemma_ws_consumes(s);
    let t = sp_ws(s);
    if t.len() > 0 && t[0] == '"' {
        lemma_string_body_consumes(t.drop_first());
        match sp_string_body(t.drop_first()) {
            Some(p) => {
                lemma_ws_consumes(p.1);
                let r = sp_ws(p.1);
                if r.len() > 0 && r[0] == ':' {
                    lemma_ws_consumes(r.drop_first());
                    lemma_uint_loop_consumes(sp_ws(r.drop_first()), 0);
                    match sp_uint(sp_ws(r.drop_first())) {
                        Some(q) => {
                            lemma_ws_consumes(q.1);
                        },
                        None => {},
                    }
                }
            },
            None => {},
        }
    }
}

/// Read the tally entry object after the opening brace; it may be empty.
pub open spec fn sp_entry_object(s: Seq<char>) -> Option<(Seq<(Seq<char>, nat)>, Seq<char>)> {
    let t = sp_ws(s);
    if t.len() > 0 && t[0] == '}' {
        Some((Seq::empty(), t.drop_first()))
    } else {
        sp_entry_items(s)
    }
}

/// Read a tally-entry value: an opening brace, then the entry object.
pub open spec fn sp_scores_value(s: Seq<char>) -> Option<(Seq<(Seq<char>, nat)>, Seq<char>)> {
    let t = sp_ws(s);
    if t.len() > 0 && t[0] == '{' {
        sp_entry_object(t.drop_first())
    } else {
        None
    }
}

/// A character a number may be written with.
pub open spec fn is_number_char(c: char) -> bool {
    is_digit(c) || c == '-' || c == '+' || c == '.' || c == 'e' || c == 'E'
}

/// Drop a number's characters.
pub open spec fn sp_number_rest(s: Seq<char>) -> Seq<char>
    decreases s.len(),
{
    if s.len() > 0 && is_number_char(s[0]) {
        sp_number_rest(s.drop_first())
    } else {
        s
    }
}

/// Dropping a number's characters never grows the input.
pub proof fn lemma_number_rest_consumes(s: Seq<char>)
    ensures
        sp_number_rest(s).len() <= s.len(),
    decreases s.len(),
{
    if s.len() > 0 && is_number_char(s[0]) {
        lemma_number_rest_consumes(s.drop_first());
    }
}

// An unrecognized field's value is skipped whole, whatever its shape: a
// quoted text, a number, true, false, null, an object or an array. The fuel
// bounds the skipper's recursion, the way real readers bound their nesting
// depth; callers grant one unit per character of the remaining text and one
// more, which no complete value runs out of.
/// Skip one value of any shape.
pub open spec fn sp_skip_value(s: Seq<char>, fuel: nat) -> Option<Seq<char>>
    decreases fuel,
{
    if fuel == 0 {
        None
    } else {
        let t = sp_ws(s);
        if t.len() == 0 {
            None
        } else if t[0] == '"' {
            match sp_string(t) {
                Some(p) => Some(p.1),
                None => None,
            }
        } else if t[0] == '{' {
            let u = sp_ws(t.drop_first());
            if u.len() > 0 && u[0] == '}' {
                Some(u.drop_first())
            } else {
                sp_skip_fields(u, (fuel - 1) as nat)
            }
        } else if t[0] == '[' {
            let u = sp_ws(t.drop_first());
            if u.len() > 0 && u[0] == ']' {
                Some(u.drop_first())
            } else {
                sp_skip_elems(u, (fuel - 1) as nat)
            }
        } else if is_digit(t[0]) || t[0] == '-' {
            Some(sp_number_rest(t.drop_first()))
        } else {
            match sp_tag(t, "true"@) {
                Some(r) => Some(r),
                None => match sp_tag(t, "false"@) {
                    Some(r) => Some(r),
                    None => match sp_tag(t, "null"@) {
                        Some(r) => Some(r),
                        None => None,
                    },
                },
            }
        }
    }
}

/// Skip the fields of an object being skipped, up to and including its
/// closing brace.
pub open spec fn sp_skip_fields(s: Seq<char>, fuel: nat) -> Option<Seq<char>>
    decreases fuel,
{
    if fuel == 0 {
        None
    } else {
        match sp_string(sp_ws(s)) {
            Some(p) => {
                let r = sp_ws(p.1);
                if r.len() > 0 && r[0] == ':' {
                    match sp_skip_value(r.drop_first(), (fuel - 1) as nat) {
                        Some(rest) => {
                            let u = sp_ws(rest);
                            if u.len() > 0 && u[0] == '}' {
                                Some(u.drop_first())
                            } else if u.len() > 0 && u[0] == ',' {
                                sp_skip_fields(u.drop_first(), (fuel - 1) as nat)
                            } else {
                                None
                            }
                        },
                        None => None,
                    }
                } else {
                    None
                }
            },
            None => None,
        }
    }
}

/// Skip the elements of an array being skipped, up to and including its
/// closing bracket.
pub open spec fn sp_skip_elems(s: Seq<char>, fuel: nat) -> Option<Seq<char>>
    decreases fuel,
{
    if fuel == 0 {
        None
    } else {
        match sp_skip_value(s, (fuel - 1) as nat) {
            Some(rest) => {
                let u = sp_ws(rest);
                if u.len() > 0 && u[0] == ']' {
                    Some(u.drop_first())
                } else if u.len() > 0 && u[0] == ',' {
                    sp_skip_elems(u.drop_first(), (fuel - 1) as nat)
                } else {
                    None
                }
            },
            None => None,
        }
    }
}

/// Skipping a value consumes at least one character.
pub proof fn lemma_skip_value_consumes(s: Seq<char>, fuel: nat)
    ensures
        sp_skip_value(s, fuel) matches Some(r) ==> r.len() < s.len(),
    decreases fuel,
{
    if fuel > 0 {
        lemma_ws_consumes(s);
        let t = sp_ws(s);
        if t.len() > 0 {
            if t[0] == '"' {
                lemma_string_body_consumes(t.drop_first());
            } else if t[0] == '{' {
                lemma_ws_consumes(t.drop_first());
                lemma_skip_fields_consumes(sp_ws(t.drop_first()), (fuel - 1) as nat);
            } else if t[0] == '[' {
                lemma_ws_consumes(t.drop_first());
                lemma_skip_elems_consumes(sp_ws(t.drop_first()), (fuel - 1) as nat);
            } else if is_digit(t[0]) || t[0] == '-' {
                lemma_number_rest_consumes(t.drop_first());
            } else {
                reveal_strlit("true");
                reveal_strlit("false");
                reveal_strlit("null");
            }
        }
    }
}

/// Skipping an object's fields consumes at least one character.
pub proof fn lemma_skip_fields_consumes(s: Seq<char>, fuel: nat)
    ensures
        sp_skip_fields(s, fuel) matches Some(r) ==> r.len() < s.len(),
    decreases fuel,
{
    if fuel > 0 {
        lemma_ws_consumes(s);
        let t = sp_ws(s);
        if t.len() > 0 && t[0] == '"' {
            lemma_string_body_consumes(t.drop_first());
            match sp_string_body(t.drop_first()) {
                Some(p) => {
                    lemma_ws_consumes(p.1);
                    let r = sp_ws(p.1);
                    if r.len() > 0 && r[0] == ':' {
                        lemma_skip_value_consumes(r.drop_first(), (fuel - 1) as nat);
                        match sp_skip_value(r.drop_first(), (fuel - 1) as nat) {
                            Some(rest) => {
                                lemma_ws_consumes(rest);
                                lemma_skip_fields_consumes(
                                    sp_ws(rest).drop_first(),
                                    (fuel - 1) as nat,
                                );
                            },
                            None => {},
                        }
                    }
                },
                None => {},
            }
        }
    }
}

/// Skipping an array's elements consumes at least one character.
pub proof fn lemma_skip_elems_consumes(s: Seq<char>, fuel: nat)
    ensures
        sp_skip_elems(s, fuel) matches Some(r) ==> r.len() < s.len(),
    decreases fuel,
{
    if fuel > 0 {
        lemma_skip_value_consumes(s, (fuel - 1) as nat);
        match sp_skip_value(s, (fuel - 1) as nat) {
            Some(rest) => {
                lemma_ws_consumes(rest);
                lemma_skip_elems_consumes(sp_ws(rest).drop_first(), (fuel - 1) as nat);
            },
            None => {},
        }
    }
}

/// Read the fields of the stored record, in whatever order they come: the
/// two required fields each at most once, any unrecognized field skipped.
/// Done when the record's closing brace arrives with both required fields
/// seen.
pub open spec fn sp_record_fields(
    s: Seq<char>,
    voters: Option<Seq<Seq<char>>>,
    tally: Option<(Seq<(Seq<char>, nat)>, nat, nat)>,
) -> Option<(MachineData, Seq<char>)>
    decreases s.len(),
    via sp_record_fields_decreases
{
    match sp_string(sp_ws(s)) {
        Some(p) => {
            let r = sp_ws(p.1);
            if r.len() > 0 && r[0] == ':' {
                let v = r.drop_first();
                let step: Option<
                    ((Option<Seq<Seq<char>>>, Option<(Seq<(Seq<char>, nat)>, nat, nat)>), Seq<char>),
                > = if p.0 == key_voters() {
                    if voters is Some {
                        None
                    } else {
                        match sp_names_value(v) {
                            Some(q) => Some(((Some(q.0), tally), q.1)),
                            None => None,
                        }
                    }
                } else if p.0 == key_scoreboard() {
                    if tally is Some {
                        None
                    } else {
                        match sp_tally_value(v) {
                            Some(q) => Some(((voters, Some(q.0)), q.1)),
                            None => None,
                        }
                    }
                } else {
                    match sp_skip_value(v, v.len() + 1) {
                        Some(rest) => Some(((voters, tally), rest)),
                        None => None,
                    }
                };
                match step {
                    Some(st) => {
                        let u = sp_ws(st.1);
                        if u.len() > 0 && u[0] == '}' {
                            match (st.0.0, st.0.1) {
                                (Some(vs), Some(t)) => Some(
                                    (
                                        MachineData {
                                            voters: vs,
                                            scores: t.0,
                                            blank: t.1,
                                            invalid: t.2,
                                        },
                                        u.drop_first(),
                                    ),
                                ),
                                _ => None,
                            }
                        } else if u.len() > 0 && u[0] == ',' {
                            sp_record_fields(u.drop_first(), st.0.0, st.0.1)
                        } else {
                            None
                        }
                    },
                    None => None,
                }
            } else {
                None
            }
        },
        None => None,
    }
}

#[via_fn]
proof fn sp_record_fields_decreases(
    s: Seq<char>,
    voters: Option<Seq<Seq<char>>>,
    tally: Option<(Seq<(Seq<char>, nat)>, nat, nat)>,
) {
    lemma_ws_consumes(s);
    let t = sp_ws(s);
    if t.len() > 0 && t[0] == '"' {
        lemma_string_body_consumes(t.drop_first());
        match sp_string_body(t.drop_first()) {
            Some(p) => {
                lemma_ws_consumes(p.1);
                let r = sp_ws(p.1);
                if r.len() > 0 && r[0] == ':' {
                    let v = r.drop_first();
                    lemma_names_value_consumes(v);
                    lemma_tally_value_consumes(v);
                    lemma_skip_value_consumes(v, v.len() + 1);
                    match sp_names_value(v) {
                        Some(q) => {
                            lemma_ws_consumes(q.1);
                        },
                        None => {},
                    }
                    match sp_tally_value(v) {
                        Some(q) => {
                            lemma_ws_consumes(q.1);
                        },
                        None => {},
                    }
                    match sp_skip_value(v, v.len() + 1) {
                        Some(rest) => {
                            lemma_ws_consumes(rest);
                        },
                        None => {},
                    }
                }
            },
            None => {},
        }
    }
}

/// Read the fields of the tally object, in whatever order they come: the
/// three required fields each at most once, any unrecognized field skipped.
/// Done when the tally's closing brace arrives with all three seen.
pub open spec fn sp_tally_fields(
    s: Seq<char>,
    scores: Option<Seq<(Seq<char>, nat)>>,
    blank: Option<nat>,
    invalid: Option<nat>,
) -> Option<((Seq<(Seq<char>, nat)>, nat, nat), Seq<char>)>
    decreases s.len(),
    via sp_tally_fields_decreases
{
    match sp_string(sp_ws(s)) {
        Some(p) => {
            let r = sp_ws(p.1);
            if r.len() > 0 && r[0] == ':' {
                let v = r.drop_first();
                let step: Option<
                    (
                        (Option<Seq<(Seq<char>, nat)>>, Option<nat>, Option<nat>),
                        Seq<char>,
                    ),
                > = if p.0 == key_scores() {
                    if scores is Some {
                        None
                    } else {
                        match sp_scores_value(v) {
                            Some(q) => Some(((Some(q.0), blank, invalid), q.1)),
                            None => None,
                        }
                    }
                } else if p.0 == key_blank() {
                    if blank is Some {
                        None
                    } else {
                        match sp_uint(sp_ws(v)) {
                            Some(q) => Some(((scores, Some(q.0), invalid), q.1)),
                            None => None,
                        }
                    }
                } else if p.0 == key_invalid() {
                    if invalid is Some {
                        None
                    } else {
                        match sp_uint(sp_ws(v)) {
                            Some(q) => Some(((scores, blank, Some(q.0)), q.1)),
                            None => None,
                        }
                    }
                } else {
                    match sp_skip_value(v, v.len() + 1) {
                        Some(rest) => Some(((scores, blank, invalid), rest)),
                        None => None,
                    }
                };
                match step {
                    Some(st) => {
                        let u = sp_ws(st.1);
                        if u.len() > 0 && u[0] == '}' {
                            match (st.0.0, st.0.1, st.0.2) {
                                (Some(sc), Some(b), Some(iv)) => Some(
                                    ((sc, b, iv), u.drop_first()),
                                ),
                                _ => None,
                            }
                        } else if u.len() > 0 && u[0] == ',' {
                            sp_tally_fields(u.drop_first(), st.0.0, st.0.1, st.0.2)
                        } else {
                            None
                        }
                    },
                    None => None,
                }
            } else {
                None
            }
        },
        None => None,
    }
}

#[via_fn]
proof fn sp_tally_fields_decreases(
    s: Seq<char>,
    scores: Option<Seq<(Seq<char>, nat)>>,
    blank: Option<nat>,
    invalid: Option<nat>,
) {
    lemma_ws_consumes(s);
    let t = sp_ws(s);
    if t.len() > 0 && t[0] == '"' {
        lemma_string_body_consumes(t.drop_first());
        match sp_string_body(t.drop_first()) {
            Some(p) => {
                lemma_ws_consumes(p.1);
                let r = sp_ws(p.1);
                if r.len() > 0 && r[0] == ':' {
                    let v = r.drop_first();
                    lemma_scores_value_consumes(v);
                    lemma_uint_value_consumes(v);
                    lemma_skip_value_consumes(v, v.len() + 1);
                    match sp_scores_value(v) {
                        Some(q) => {
                            lemma_ws_consumes(q.1);
                        },
                        None => {},
                    }
                    match sp_uint(sp_ws(v)) {
                        Some(q) => {
                            lemma_ws_consumes(q.1);
                        },
                        None => {},
                    }
                    match sp_skip_value(v, v.len() + 1) {
                        Some(rest) => {
                            lemma_ws_consumes(rest);
                        },
                        None => {},
                    }
                }
            },
            None => {},
        }
    }
}

/// Read a tally value: an opening brace, then the tally's fields.
pub open spec fn sp_tally_value(s: Seq<char>) -> Option<((Seq<(Seq<char>, nat)>, nat, nat), Seq<char>)> {
    let t = sp_ws(s);
    if t.len() > 0 && t[0] == '{' {
        sp_tally_fields(t.drop_first(), None, None, None)
    } else {
        None
    }
}

/// Reading a voter-list value consumes at least one character.
pub proof fn lemma_names_value_consumes(s: Seq<char>)
    ensures
        sp_names_value(s) matches Some(p) ==> p.1.len() < s.len(),
{
    lemma_ws_consumes(s);
    let t = sp_ws(s);
    if t.len() > 0 && t[0] == '[' {
        lemma_ws_consumes(t.drop_first());
        lemma_name_items_consumes(t.drop_first());
    }
}

/// Reading voter-list items consumes at least one character.
pub proof fn lemma_name_items_consumes(s: Seq<char>)
    ensures
        sp_name_items(s) matches Some(p) ==> p.1.len() < s.len(),
        sp_name_array(s) matches Some(p) ==> p.1.len() <= s.len(),
    decreases s.len(),
{
    lemma_ws_consumes(s);
    let t = sp_ws(s);
    if t.len() > 0 && t[0] == '"' {
        lemma_string_body_consumes(t.drop_first());
        match sp_string_body(t.drop_first()) {
            Some(p) => {
                lemma_ws_consumes(p.1);
                let r = sp_ws(p.1);
                if r.len() > 0 && r[0] == ',' {
                    lemma_name_items_consumes(r.drop_first());
                }
            },
            None => {},
        }
    }
}

/// Reading tally entries consumes at least one character.
pub proof fn lemma_entry_items_consumes(s: Seq<char>)
    ensures
        sp_entry_items(s) matches Some(p) ==> p.1.len() < s.len(),
        sp_entry_object(s) matches Some(p) ==> p.1.len() <= s.len(),
    decreases s.len(),
{
    lemma_ws_consumes(s);
    let t = sp_ws(s);
    if t.len() > 0 && t[0] == '"' {
        lemma_string_body_consumes(t.drop_first());
        match sp_string_body(t.drop_first()) {
            Some(p) => {
                lemma_ws_consumes(p.1);
                let r = sp_ws(p.1);
                if r.len() > 0 && r[0] == ':' {
                    lemma_uint_value_consumes(r.drop_first());
                    match sp_uint(sp_ws(r.drop_first())) {
                        Some(q) => {
                            lemma_ws_consumes(q.1);
                            let u = sp_ws(q.1);
                            if u.len() > 0 && u[0] == ',' {
                                lemma_entry_items_consumes(u.drop_first());
                            }
                        },
                        None => {},
                    }
                }
            },
            None => {},
        }
    }
}

/// Reading a tally-entry value consumes at least one character.
pub proof fn lemma_scores_value_consumes(s: Seq<char>)
    ensures
        sp_scores_value(s) matches Some(p) ==> p.1.len() < s.len(),
{
    lemma_ws_consumes(s);
    let t = sp_ws(s);
    if t.len() > 0 && t[0] == '{' {
        lemma_entry_items_consumes(t.drop_first());
        lemma_ws_consumes(t.drop_first());
    }
}

/// Reading a count after whitespace consumes at least one character.
pub proof fn lemma_uint_value_consumes(s: Seq<char>)
    ensures
        sp_uint(sp_ws(s)) matches Some(p) ==> p.1.len() < s.len(),
{
    lemma_ws_consumes(s);
    let t = sp_ws(s);
    if t.len() > 0 && is_digit(t[0]) {
        lemma_uint_loop_consumes(t.drop_first(), digit_of_char(t[0]));
    }
}

/// Reading a whole tally value consumes at least one character.
pub proof fn lemma_tally_value_consumes(s: Seq<char>)
    ensures
        sp_tally_value(s) matches Some(p) ==> p.1.len() < s.len(),
{
    lemma_ws_consumes(s);
    let t = sp_ws(s);
    if t.len() > 0 && t[0] == '{' {
        lemma_tally_fields_consumes(t.drop_first());
    }
}

/// Reading the tally's fields consumes at least one character.
pub proof fn lemma_tally_fields_consumes(s: Seq<char>)
    ensures
        sp_tally_fields(s, None, None, None) matches Some(p) ==> p.1.len() < s.len(),
{
    lemma_tally_fields_consumes_general(s, None, None, None);
}

/// Reading tally fields, from any accumulator, consumes at least one
/// character.
proof fn lemma_tally_fields_consumes_general(
    s: Seq<char>,
    sc: Option<Seq<(Seq<char>, nat)>>,
    b: Option<nat>,
    iv: Option<nat>,
)
    ensures
        sp_tally_fields(s, sc, b, iv) matches Some(p) ==> p.1.len() < s.len(),
    decreases s.len(),
{
    lemma_ws_consumes(s);
    let t = sp_ws(s);
    if t.len() > 0 && t[0] == '"' {
        lemma_string_body_consumes(t.drop_first());
        match sp_string_body(t.drop_first()) {
            Some(p) => {
                lemma_ws_consumes(p.1);
                let r = sp_ws(p.1);
                if r.len() > 0 && r[0] == ':' {
                    let v = r.drop_first();
                    lemma_scores_value_consumes(v);
                    lemma_uint_value_consumes(v);
                    lemma_skip_value_consumes(v, v.len() + 1);
                    match sp_scores_value(v) {
                        Some(q) => {
                            lemma_ws_consumes(q.1);
                            let u = sp_ws(q.1);
                            if u.len() > 0 && u[0] == ',' {
                                lemma_tally_fields_consumes_general(
                                    u.drop_first(),
                                    Some(q.0),
                                    b,
                                    iv,
                                );
                            }
                        },
                        None => {},
                    }
                    match sp_uint(sp_ws(v)) {
                        Some(q) => {
                            lemma_ws_consumes(q.1);
                            let u = sp_ws(q.1);
                            if u.len() > 0 && u[0] == ',' {
                                lemma_tally_fields_consumes_general(
                                    u.drop_first(),
                                    sc,
                                    Some(q.0),
                                    iv,
                                );
                                lemma_tally_fields_consumes_general(
                                    u.drop_first(),
                                    sc,
                                    b,
                                    Some(q.0),
                                );
                            }
                        },
                        None => {},
                    }
                    match sp_skip_value(v, v.len() + 1) {
                        Some(rest) => {
                            lemma_ws_consumes(rest);
                            let u = sp_ws(rest);
                            if u.len() > 0 && u[0] == ',' {
                                lemma_tally_fields_consumes_general(u.drop_first(), sc, b, iv);
                            }
                        },
                        None => {},
                    }
                }
            },
            None => {},
        }
    }
}

/// Read one whole stored record, up to and including its closing brace.
pub open spec fn sp_machine(s: Seq<char>) -> Option<(MachineData, Seq<char>)> {
    let t = sp_ws(s);
    if t.len() > 0 && t[0] == '{' {
        sp_record_fields(t.drop_first(), None, None)
    } else {
        None
    }
}

/// What decoding a text means: it is exactly one stored record, with at most
/// whitespace after it.
pub open spec fn spec_decode(s: Seq<char>) -> Option<MachineData> {
    match sp_machine(s) {
        Some(p) => if sp_ws(p.1).len() == 0 {
            Some(p.0)
        } else {
            None
        },
        None => None,
    }
}

/// Every count of the snapshot is one the machine can hold.
pub open spec fn fits(d: MachineData) -> bool {
    &&& forall|i: int| 0 <= i < d.scores.len() ==> d.scores[i].1 <= usize::MAX
    &&& d.blank <= usize::MAX
    &&& d.invalid <= usize::MAX
}

// ---------------------------------------------------------------------------
// The encoder, exec side.
// ---------------------------------------------------------------------------
/// Relies on String::push: appends exactly the one character.
#[verifier::external_body]
fn push_char(s: &mut String, c: char)
    ensures
        final(s)@ == old(s)@.push(c),
{
    s.push(c);
}

/// Escaping one more character extends the escaped text on the right.
proof fn lemma_escape_push(s: Seq<char>, c: char)
    ensures
        spec_escape(s.push(c)) == spec_escape(s) + esc_char(c),
    decreases s.len(),
{
    if s.len() == 0 {
        reveal_with_fuel(spec_escape, 2);
        assert(s.push(c)[0] == c);
        assert(s.push(c).drop_first() =~= Seq::<char>::empty());
        assert(spec_escape(s.push(c)) =~= esc_char(c));
        assert(spec_escape(s) + esc_char(c) =~= esc_char(c));
    } else {
        assert(s.push(c).drop_first() =~= s.drop_first().push(c));
        lemma_escape_push(s.drop_first(), c);
        assert(spec_escape(s.push(c)) =~= spec_escape(s) + esc_char(c));
    }
}

/// Write a name, escaped and quoted, onto the output.
fn encode_string_into(out: &mut String, name: &str)
    ensures
        final(out)@ == old(out)@ + spec_encode_string(name@),
{
    let ghost start = out@;
    push_char(out, '"');
    let n = name.unicode_len();
    let mut k: usize = 0;
    while k < n
        invariant
            k <= n,
            n == name@.len(),
            out@ == start.push('"') + spec_escape(name@.take(k as int)),
        decreases n - k,
    {
        let c = name.get_char(k);
        proof {
            lemma_escape_push(name@.take(k as int), c);
            assert(name@.take(k + 1) =~= name@.take(k as int).push(c));
        }
        if c == '"' || c == '\\' {
            push_char(out, '\\');
            push_char(out, c);
            assert(out@ =~= start.push('"') + spec_escape(name@.take(k + 1)));
        } else {
            push_char(out, c);
            assert(out@ =~= start.push('"') + spec_escape(name@.take(k + 1)));
        }
        k += 1;
    }
    assert(name@.take(n as int) =~= name@);
    push_char(out, '"');
    assert(out@ =~= start + spec_encode_string(name@));
}

/// The digit character of a value below ten.
fn digit_char(d: usize) -> (r: char)
    requires
        d < 10,
    ensures
        r == char_of_digit(d as nat),
{
    if d == 0 {
        '0'
    } else if d == 1 {
        '1'
    } else if d == 2 {
        '2'
    } else if d == 3 {
        '3'
    } else if d == 4 {
        '4'
    } else if d == 5 {
        '5'
    } else if d == 6 {
        '6'
    } else if d == 7 {
        '7'
    } else if d == 8 {
        '8'
    } else {
        '9'
    }
}

/// Write a count in decimal onto the output.
fn encode_uint_into(out: &mut String, n: usize)
    ensures
        final(out)@ == old(out)@ + spec_encode_uint(n as nat),
    decreases n,
{
    if n < 10 {
        push_char(out, digit_char(n));
        assert(final(out)@ =~= old(out)@ + spec_encode_uint(n as nat));
    } else {
        encode_uint_into(out, n / 10);
        push_char(out, digit_char(n % 10));
        assert(final(out)@ =~= old(out)@ + spec_encode_uint(n as nat));
    }
}

// ---------------------------------------------------------------------------
// The parser, exec side. Each function reads from position `i` of the text
// and returns what it read with the position after it, exactly as the spec
// parser reads the corresponding suffix.
// ---------------------------------------------------------------------------
fn is_digit_char(c: char) -> (r: bool)
    ensures
        r == is_digit(c),
{
    c == '0' || c == '1' || c == '2' || c == '3' || c == '4' || c == '5' || c == '6' || c == '7'
        || c == '8' || c == '9'
}

fn digit_value(c: char) -> (r: usize)
    requires
        is_digit(c),
    ensures
        r as nat == digit_of_char(c),
        r < 10,
{
    if c == '0' {
        0
    } else if c == '1' {
        1
    } else if c == '2' {
        2
    } else if c == '3' {
        3
    } else if c == '4' {
        4
    } else if c == '5' {
        5
    } else if c == '6' {
        6
    } else if c == '7' {
        7
    } else if c == '8' {
        8
    } else {
        9
    }
}

/// Is the character at `i` the expected one? False past the end.
fn char_at_is(s: &str, i: usize, c: char) -> (r: bool)
    ensures
        r == (i < s@.len() && s@[i as int] == c),
{
    if i < s.unicode_len() {
        s.get_char(i) == c
    } else {
        false
    }
}

/// Move past whitespace at position `i`.
fn skip_ws_at(s: &str, i: usize) -> (r: usize)
    requires
        i <= s@.len(),
    ensures
        i <= r <= s@.len(),
        sp_ws(s@.skip(i as int)) == s@.skip(r as int),
{
    let n = s.unicode_len();
    let mut k: usize = i;
    loop
        invariant
            i <= k <= n,
            n == s@.len(),
            sp_ws(s@.skip(i as int)) == sp_ws(s@.skip(k as int)),
        decreases n - k,
    {
        if k >= n {
            assert(s@.skip(k as int).len() == 0);
            return k;
        }
        let c = s.get_char(k);
        assert(s@.skip(k as int)[0] == c);
        if c == ' ' || c == '\t' || c == '\n' || c == '\r' {
            assert(s@.skip(k as int).drop_first() =~= s@.skip(k + 1));
            k += 1;
        } else {
            return k;
        }
    }
}

/// Character-for-character text equality.
fn str_eq(a: &str, b: &str) -> (r: bool)
    ensures
        r == (a@ == b@),
{
    let n = a.unicode_len();
    let m = b.unicode_len();
    if n != m {
        return false;
    }
    let mut k: usize = 0;
    while k < n
        invariant
            k <= n,
            n == a@.len(),
            n == b@.len(),
            forall|t: int| 0 <= t < k ==> a@[t] == b@[t],
        decreases n - k,
    {
        if a.get_char(k) != b.get_char(k) {
            return false;
        }
        k += 1;
    }
    assert(a@ =~= b@);
    true
}

/// Match an expected literal at position `i`.
fn tag_at(s: &str, i: usize, tag: &str) -> (r: Option<usize>)
    requires
        i <= s@.len(),
    ensures
        match r {
            Some(j) => i <= j <= s@.len() && sp_tag(s@.skip(i as int), tag@) == Some(
                s@.skip(j as int),
            ),
            None => sp_tag(s@.skip(i as int), tag@) is None,
        },
{
    let n = s.unicode_len();
    let m = tag.unicode_len();
    if m > n - i {
        return None;
    }
    let mut k: usize = 0;
    while k < m
        invariant
            k <= m,
            m == tag@.len(),
            n == s@.len(),
            i + m <= n,
            forall|t: int| 0 <= t < k ==> s@[i + t] == tag@[t],
        decreases m - k,
    {
        if s.get_char(i + k) != tag.get_char(k) {
            assert(s@.skip(i as int)[k as int] != tag@[k as int]);
            assert(s@.skip(i as int).take(m as int) != tag@);
            return None;
        }
        k += 1;
    }
    assert(s@.skip(i as int).take(m as int) =~= tag@);
    assert(s@.skip(i as int).skip(m as int) =~= s@.skip(i + m));
    Some(i + m)
}

/// Prefix the name a reading returned.
pub open spec fn prepend_chars(prefix: Seq<char>, r: Option<(Seq<char>, Seq<char>)>) -> Option<
    (Seq<char>, Seq<char>),
> {
    match r {
        Some(p) => Some((prefix + p.0, p.1)),
        None => None,
    }
}

/// Read a quoted name at position `i`.
fn parse_string_at(s: &str, i: usize) -> (r: Option<(String, usize)>)
    requires
        i <= s@.len(),
    ensures
        match r {
            Some(p) => i < p.1 <= s@.len() && sp_string(s@.skip(i as int)) == Some(
                (p.0@, s@.skip(p.1 as int)),
            ),
            None => sp_string(s@.skip(i as int)) is None,
        },
{
    let n = s.unicode_len();
    if i >= n || s.get_char(i) != '"' {
        return None;
    }
    assert(s@.skip(i as int)[0] == s@[i as int]);
    assert(s@.skip(i as int).drop_first() =~= s@.skip(i + 1));
    let mut out = String::new();
    let mut k: usize = i + 1;
    proof {
        match sp_string_body(s@.skip(i + 1)) {
            Some(p) => {
                assert(Seq::<char>::empty() + p.0 =~= p.0);
            },
            None => {},
        }
    }
    loop
        invariant
            i + 1 <= k <= n,
            i < n,
            n == s@.len(),
            s@[i as int] == '"',
            sp_string(s@.skip(i as int)) == sp_string_body(s@.skip(i + 1)),
            sp_string_body(s@.skip(i + 1)) == prepend_chars(out@, sp_string_body(s@.skip(k as int))),
        decreases n - k,
    {
        if k >= n {
            assert(s@.skip(k as int).len() == 0);
            return None;
        }
        let c = s.get_char(k);
        assert(s@.skip(k as int)[0] == c);
        assert(s@.skip(k as int).drop_first() =~= s@.skip(k + 1));
        if c == '"' {
            assert(sp_string_body(s@.skip(k as int)) == Some(
                (Seq::<char>::empty(), s@.skip(k + 1)),
            ));
            assert(out@ + Seq::<char>::empty() =~= out@);
            return Some((out, k + 1));
        } else if c == '\\' {
            if k + 1 < n {
                let c2 = s.get_char(k + 1);
                assert(s@.skip(k as int)[1] == c2);
                if c2 == '"' || c2 == '\\' {
                    assert(s@.skip(k as int).skip(2) =~= s@.skip(k + 2));
                    let ghost pre = out@;
                    push_char(&mut out, c2);
                    proof {
                        match sp_string_body(s@.skip(k + 2)) {
                            Some(p) => {
                                assert(pre + (seq![c2] + p.0) =~= out@ + p.0);
                            },
                            None => {},
                        }
                    }
                    k += 2;
                } else {
                    return None;
                }
            } else {
                assert(s@.skip(k as int).len() == 1);
                return None;
            }
        } else {
            let ghost pre = out@;
            push_char(&mut out, c);
            proof {
                match sp_string_body(s@.skip(k + 1)) {
                    Some(p) => {
                        assert(pre + (seq![c] + p.0) =~= out@ + p.0);
                    },
                    None => {},
                }
            }
            k += 1;
        }
    }
}

/// Read a count at position `i`. Fails on a count the machine cannot hold.
fn parse_uint_at(s: &str, i: usize) -> (r: Option<(usize, usize)>)
    requires
        i <= s@.len(),
    ensures
        match r {
            Some(p) => i < p.1 <= s@.len() && sp_uint(s@.skip(i as int)) == Some(
                (p.0 as nat, s@.skip(p.1 as int)),
            ),
            None => sp_uint(s@.skip(i as int)) is None,
        },
{
    let n = s.unicode_len();
    if i >= n {
        return None;
    }
    let c0 = s.get_char(i);
    assert(s@.skip(i as int)[0] == c0);
    if !is_digit_char(c0) {
        return None;
    }
    let mut acc: usize = 0;
    let mut k: usize = i;
    loop
        invariant
            i <= k <= n,
            i < n,
            n == s@.len(),
            is_digit(s@[i as int]),
            s@.skip(i as int)[0] == s@[i as int],
            sp_uint_loop(s@.skip(i as int), 0) == sp_uint_loop(s@.skip(k as int), acc as nat),
        decreases n - k,
    {
        if k >= n {
            assert(s@.skip(k as int).len() == 0);
            assert(sp_uint_loop(s@.skip(k as int), acc as nat) == (acc as nat, s@.skip(k as int)));
            assert(k > i) by {
                if k == i {
                    assert(s@.skip(i as int).len() == 0);
                }
            }
            return Some((acc, k));
        }
        let c = s.get_char(k);
        assert(s@.skip(k as int)[0] == c);
        if !is_digit_char(c) {
            assert(sp_uint_loop(s@.skip(k as int), acc as nat) == (acc as nat, s@.skip(k as int)));
            assert(k > i) by {
                if k == i {
                    assert(s@.skip(i as int)[0] == s@[i as int]);
                }
            }
            return Some((acc, k));
        }
        let d = digit_value(c);
        assert(s@.skip(k as int).drop_first() =~= s@.skip(k + 1));
        if acc > usize::MAX / 10 || (acc == usize::MAX / 10 && d > usize::MAX % 10) {
            let ghost big = (acc as nat) * 10 + digit_of_char(c);
            assert(big > usize::MAX);
            proof {
                lemma_uint_loop_grows(s@.skip(k + 1), big);
            }
            assert(sp_uint_loop(s@.skip(i as int), 0).0 > usize::MAX);
            return None;
        }
        assert(acc * 10 + d <= usize::MAX);
        acc = acc * 10 + d;
        k += 1;
    }
}

fn is_number_char_exec(c: char) -> (r: bool)
    ensures
        r == is_number_char(c),
{
    is_digit_char(c) || c == '-' || c == '+' || c == '.' || c == 'e' || c == 'E'
}

/// Skip one value of any shape at position `i`.
fn skip_value_at(s: &str, i: usize, fuel: usize) -> (r: Option<usize>)
    requires
        i <= s@.len(),
    ensures
        match r {
            Some(j) => i <= j <= s@.len() && sp_skip_value(s@.skip(i as int), fuel as nat)
                == Some(s@.skip(j as int)),
            None => sp_skip_value(s@.skip(i as int), fuel as nat) is None,
        },
    decreases fuel,
{
    if fuel == 0 {
        return None;
    }
    let n = s.unicode_len();
    let t0 = skip_ws_at(s, i);
    if t0 >= n {
        assert(s@.skip(t0 as int).len() == 0);
        return None;
    }
    let c = s.get_char(t0);
    assert(s@.skip(t0 as int)[0] == c);
    if c == '"' {
        match parse_string_at(s, t0) {
            Some(p) => Some(p.1),
            None => None,
        }
    } else if c == '{' {
        assert(s@.skip(t0 as int).drop_first() =~= s@.skip(t0 + 1));
        let u0 = skip_ws_at(s, t0 + 1);
        if u0 < n && s.get_char(u0) == '}' {
            assert(s@.skip(u0 as int)[0] == '}');
            assert(s@.skip(u0 as int).drop_first() =~= s@.skip(u0 + 1));
            Some(u0 + 1)
        } else {
            proof {
                if u0 < s@.len() {
                    assert(s@.skip(u0 as int)[0] == s@[u0 as int]);
                } else {
                    assert(s@.skip(u0 as int).len() == 0);
                }
            }
            skip_fields_at(s, u0, fuel - 1)
        }
    } else if c == '[' {
        assert(s@.skip(t0 as int).drop_first() =~= s@.skip(t0 + 1));
        let u0 = skip_ws_at(s, t0 + 1);
        if u0 < n && s.get_char(u0) == ']' {
            assert(s@.skip(u0 as int)[0] == ']');
            assert(s@.skip(u0 as int).drop_first() =~= s@.skip(u0 + 1));
            Some(u0 + 1)
        } else {
            proof {
                if u0 < s@.len() {
                    assert(s@.skip(u0 as int)[0] == s@[u0 as int]);
                } else {
                    assert(s@.skip(u0 as int).len() == 0);
                }
            }
            skip_elems_at(s, u0, fuel - 1)
        }
    } else if is_digit_char(c) || c == '-' {
        assert(s@.skip(t0 as int).drop_first() =~= s@.skip(t0 + 1));
        let mut k: usize = t0 + 1;
        loop
            invariant
                i <= t0 < n,
                t0 + 1 <= k <= n,
                n == s@.len(),
                fuel >= 1,
                sp_ws(s@.skip(i as int)) == s@.skip(t0 as int),
                s@.skip(t0 as int)[0] == s@[t0 as int],
                is_digit(s@[t0 as int]) || s@[t0 as int] == '-',
                s@.skip(t0 as int).drop_first() == s@.skip(t0 as int + 1),
                sp_number_rest(s@.skip(t0 as int + 1)) == sp_number_rest(s@.skip(k as int)),
            decreases n - k,
        {
            if k >= n {
                assert(s@.skip(k as int).len() == 0);
                return Some(k);
            }
            let c2 = s.get_char(k);
            assert(s@.skip(k as int)[0] == c2);
            if is_number_char_exec(c2) {
                assert(s@.skip(k as int).drop_first() =~= s@.skip(k + 1));
                k += 1;
            } else {
                return Some(k);
            }
        }
    } else {
        match tag_at(s, t0, "true") {
            Some(j) => Some(j),
            None => match tag_at(s, t0, "false") {
                Some(j) => Some(j),
                None => match tag_at(s, t0, "null") {
                    Some(j) => Some(j),
                    None => None,
                },
            },
        }
    }
}

/// Skip the fields of an object being skipped, from position `i`, up to and
/// including its closing brace.
fn skip_fields_at(s: &str, i: usize, fuel: usize) -> (r: Option<usize>)
    requires
        i <= s@.len(),
    ensures
        match r {
            Some(j) => i <= j <= s@.len() && sp_skip_fields(s@.skip(i as int), fuel as nat)
                == Some(s@.skip(j as int)),
            None => sp_skip_fields(s@.skip(i as int), fuel as nat) is None,
        },
    decreases fuel,
{
    if fuel == 0 {
        return None;
    }
    let n = s.unicode_len();
    let t0 = skip_ws_at(s, i);
    let (_key, j) = match parse_string_at(s, t0) {
        Some(p) => p,
        None => {
            return None;
        },
    };
    let r0 = skip_ws_at(s, j);
    if !char_at_is(s, r0, ':') {
        proof {
            if r0 < s@.len() {
                assert(s@.skip(r0 as int)[0] == s@[r0 as int]);
            } else {
                assert(s@.skip(r0 as int).len() == 0);
            }
        }
        return None;
    }
    assert(s@.skip(r0 as int)[0] == ':');
    assert(s@.skip(r0 as int).drop_first() =~= s@.skip(r0 + 1));
    let jv = match skip_value_at(s, r0 + 1, fuel - 1) {
        Some(j2) => j2,
        None => {
            return None;
        },
    };
    let u0 = skip_ws_at(s, jv);
    if u0 < n && s.get_char(u0) == '}' {
        assert(s@.skip(u0 as int)[0] == '}');
        assert(s@.skip(u0 as int).drop_first() =~= s@.skip(u0 + 1));
        Some(u0 + 1)
    } else if u0 < n && s.get_char(u0) == ',' {
        assert(s@.skip(u0 as int)[0] == ',');
        assert(s@.skip(u0 as int).drop_first() =~= s@.skip(u0 + 1));
        skip_fields_at(s, u0 + 1, fuel - 1)
    } else {
        proof {
            if u0 < s@.len() {
                assert(s@.skip(u0 as int)[0] == s@[u0 as int]);
            } else {
                assert(s@.skip(u0 as int).len() == 0);
            }
        }
        None
    }
}

/// Skip the elements of an array being skipped, from position `i`, up to and
/// including its closing bracket.
fn skip_elems_at(s: &str, i: usize, fuel: usize) -> (r: Option<usize>)
    requires
        i <= s@.len(),
    ensures
        match r {
            Some(j) => i <= j <= s@.len() && sp_skip_elems(s@.skip(i as int), fuel as nat)
                == Some(s@.skip(j as int)),
            None => sp_skip_elems(s@.skip(i as int), fuel as nat) is None,
        },
    decreases fuel,
{
    if fuel == 0 {
        return None;
    }
    let n = s.unicode_len();
    let jv = match skip_value_at(s, i, fuel - 1) {
        Some(j2) => j2,
        None => {
            return None;
        },
    };
    let u0 = skip_ws_at(s, jv);
    if u0 < n && s.get_char(u0) == ']' {
        assert(s@.skip(u0 as int)[0] == ']');
        assert(s@.skip(u0 as int).drop_first() =~= s@.skip(u0 + 1));
        Some(u0 + 1)
    } else if u0 < n && s.get_char(u0) == ',' {
        assert(s@.skip(u0 as int)[0] == ',');
        assert(s@.skip(u0 as int).drop_first() =~= s@.skip(u0 + 1));
        skip_elems_at(s, u0 + 1, fuel - 1)
    } else {
        proof {
            if u0 < s@.len() {
                assert(s@.skip(u0 as int)[0] == s@[u0 as int]);
            } else {
                assert(s@.skip(u0 as int).len() == 0);
            }
        }
        None
    }
}

/// The names a string sequence holds.
pub open spec fn strings_view(v: Seq<String>) -> Seq<Seq<char>> {
    v.map_values(|x: String| x@)
}

/// The (name, count) pairs an entry sequence holds.
pub open spec fn pairs_view(v: Seq<(String, usize)>) -> Seq<(Seq<char>, nat)> {
    v.map_values(|p: (String, usize)| (p.0@, p.1 as nat))
}

/// Prefix the names a reading returned.
pub open spec fn prepend_names(prefix: Seq<Seq<char>>, r: Option<(Seq<Seq<char>>, Seq<char>)>) -> Option<
    (Seq<Seq<char>>, Seq<char>),
> {
    match r {
        Some(p) => Some((prefix + p.0, p.1)),
        None => None,
    }
}

/// Prefix the entries a reading returned.
pub open spec fn prepend_entries(
    prefix: Seq<(Seq<char>, nat)>,
    r: Option<(Seq<(Seq<char>, nat)>, Seq<char>)>,
) -> Option<(Seq<(Seq<char>, nat)>, Seq<char>)> {
    match r {
        Some(p) => Some((prefix + p.0, p.1)),
        None => None,
    }
}

/// Read the voter list at position `i` (just after the opening bracket), up
/// to and including the closing bracket.
fn parse_voters_at(s: &str, i: usize) -> (r: Option<(Vec<String>, usize)>)
    requires
        i <= s@.len(),
    ensures
        match r {
            Some(p) => i < p.1 <= s@.len() && sp_name_array(s@.skip(i as int)) == Some(
                (strings_view(p.0@), s@.skip(p.1 as int)),
            ),
            None => sp_name_array(s@.skip(i as int)) is None,
        },
{
    let n = s.unicode_len();
    let a0 = skip_ws_at(s, i);
    if a0 < n && s.get_char(a0) == ']' {
        let empty: Vec<String> = Vec::new();
        assert(s@.skip(a0 as int)[0] == ']');
        assert(s@.skip(a0 as int).drop_first() =~= s@.skip(a0 + 1));
        assert(strings_view(empty@) =~= Seq::<Seq<char>>::empty());
        return Some((empty, a0 + 1));
    }
    proof {
        if a0 < s@.len() {
            assert(s@.skip(a0 as int)[0] == s@[a0 as int]);
        } else {
            assert(s@.skip(a0 as int).len() == 0);
        }
    }
    assert(sp_name_array(s@.skip(i as int)) == sp_name_items(s@.skip(i as int)));
    let mut out: Vec<String> = Vec::new();
    let mut k: usize = i;
    proof {
        assert(strings_view(out@) =~= Seq::<Seq<char>>::empty());
        match sp_name_items(s@.skip(i as int)) {
            Some(p) => {
                assert(Seq::<Seq<char>>::empty() + p.0 =~= p.0);
            },
            None => {},
        }
    }
    loop
        invariant
            i <= k <= n,
            n == s@.len(),
            sp_name_array(s@.skip(i as int)) == sp_name_items(s@.skip(i as int)),
            sp_name_items(s@.skip(i as int)) == prepend_names(
                strings_view(out@),
                sp_name_items(s@.skip(k as int)),
            ),
        decreases n - k,
    {
        let k1 = skip_ws_at(s, k);
        let parsed = parse_string_at(s, k1);
        match parsed {
            None => {
                return None;
            },
            Some(p) => {
                let name = p.0;
                let j = p.1;
                let j1 = skip_ws_at(s, j);
                if j1 >= n {
                    assert(s@.skip(j1 as int).len() == 0);
                    return None;
                }
                let c = s.get_char(j1);
                assert(s@.skip(j1 as int)[0] == c);
                assert(s@.skip(j1 as int).drop_first() =~= s@.skip(j1 + 1));
                let ghost pre = out@;
                if c == ']' {
                    out.push(name);
                    proof {
                        assert(sp_name_items(s@.skip(k as int)) == Some(
                            (seq![name@], s@.skip(j1 + 1)),
                        ));
                        assert(strings_view(out@) =~= strings_view(pre) + seq![name@]);
                    }
                    return Some((out, j1 + 1));
                } else if c == ',' {
                    out.push(name);
                    proof {
                        assert(strings_view(out@) =~= strings_view(pre) + seq![name@]);
                        match sp_name_items(s@.skip(j1 + 1)) {
                            Some(q) => {
                                assert(strings_view(pre) + (seq![name@] + q.0) =~= strings_view(
                                    out@,
                                ) + q.0);
                            },
                            None => {},
                        }
                    }
                    k = j1 + 1;
                } else {
                    return None;
                }
            },
        }
    }
}

/// Read the tally entry list at position `i` (just after the opening brace),
/// up to and including the closing brace.
fn parse_entries_at(s: &str, i: usize) -> (r: Option<(Vec<(String, usize)>, usize)>)
    requires
        i <= s@.len(),
    ensures
        match r {
            Some(p) => i < p.1 <= s@.len() && sp_entry_object(s@.skip(i as int)) == Some(
                (pairs_view(p.0@), s@.skip(p.1 as int)),
            ),
            None => sp_entry_object(s@.skip(i as int)) is None,
        },
{
    let n = s.unicode_len();
    let a0 = skip_ws_at(s, i);
    if a0 < n && s.get_char(a0) == '}' {
        let empty: Vec<(String, usize)> = Vec::new();
        assert(s@.skip(a0 as int)[0] == '}');
        assert(s@.skip(a0 as int).drop_first() =~= s@.skip(a0 + 1));
        assert(pairs_view(empty@) =~= Seq::<(Seq<char>, nat)>::empty());
        return Some((empty, a0 + 1));
    }
    proof {
        if a0 < s@.len() {
            assert(s@.skip(a0 as int)[0] == s@[a0 as int]);
        } else {
            assert(s@.skip(a0 as int).len() == 0);
        }
    }
    assert(sp_entry_object(s@.skip(i as int)) == sp_entry_items(s@.skip(i as int)));
    let mut out: Vec<(String, usize)> = Vec::new();
    let mut k: usize = i;
    proof {
        assert(pairs_view(out@) =~= Seq::<(Seq<char>, nat)>::empty());
        match sp_entry_items(s@.skip(i as int)) {
            Some(p) => {
                assert(Seq::<(Seq<char>, nat)>::empty() + p.0 =~= p.0);
            },
            None => {},
        }
    }
    loop
        invariant
            i <= k <= n,
            n == s@.len(),
            sp_entry_object(s@.skip(i as int)) == sp_entry_items(s@.skip(i as int)),
            sp_entry_items(s@.skip(i as int)) == prepend_entries(
                pairs_view(out@),
                sp_entry_items(s@.skip(k as int)),
            ),
        decreases n - k,
    {
        let k1 = skip_ws_at(s, k);
        let parsed = parse_string_at(s, k1);
        match parsed {
            None => {
                return None;
            },
            Some(p) => {
                let key = p.0;
                let j = p.1;
                let j1 = skip_ws_at(s, j);
                if !char_at_is(s, j1, ':') {
                    assert(sp_entry_items(s@.skip(k as int)) is None) by {
                        if j1 < n {
                            assert(s@.skip(j1 as int)[0] == s@[j1 as int]);
                        } else {
                            assert(s@.skip(j1 as int).len() == 0);
                        }
                    }
                    return None;
                }
                assert(s@.skip(j1 as int)[0] == ':');
                assert(s@.skip(j1 as int).drop_first() =~= s@.skip(j1 + 1));
                let q0 = skip_ws_at(s, j1 + 1);
                let num = parse_uint_at(s, q0);
                match num {
                    None => {
                        return None;
                    },
                    Some(q) => {
                        let value = q.0;
                        let j2 = skip_ws_at(s, q.1);
                        if j2 >= n {
                            assert(s@.skip(j2 as int).len() == 0);
                            return None;
                        }
                        let c = s.get_char(j2);
                        assert(s@.skip(j2 as int)[0] == c);
                        assert(s@.skip(j2 as int).drop_first() =~= s@.skip(j2 + 1));
                        let ghost pre = out@;
                        let ghost entry = (key@, value as nat);
                        if c == '}' {
                            out.push((key, value));
                            proof {
                                assert(sp_entry_items(s@.skip(k as int)) == Some(
                                    (seq![entry], s@.skip(j2 + 1)),
                                ));
                                assert(pairs_view(out@) =~= pairs_view(pre) + seq![entry]);
                            }
                            return Some((out, j2 + 1));
                        } else if c == ',' {
                            out.push((key, value));
                            proof {
                                assert(pairs_view(out@) =~= pairs_view(pre) + seq![entry]);
                                match sp_entry_items(s@.skip(j2 + 1)) {
                                    Some(t) => {
                                        assert(pairs_view(pre) + (seq![entry] + t.0) =~= pairs_view(
                                            out@,
                                        ) + t.0);
                                    },
                                    None => {},
                                }
                            }
                            k = j2 + 1;
                        } else {
                            return None;
                        }
                    },
                }
            },
        }
    }
}

/// Read a tally value at position `i`: an opening brace, then the tally's
/// fields in whatever order, unrecognized ones skipped.
fn parse_tally_value_at(s: &str, i: usize) -> (r: Option<(ScoreboardDao, usize)>)
    requires
        i <= s@.len(),
    ensures
        match r {
            Some(p) => i <= p.1 <= s@.len() && sp_tally_value(s@.skip(i as int)) == Some(
                ((p.0@.scores, p.0@.blank, p.0@.invalid), s@.skip(p.1 as int)),
            ),
            None => sp_tally_value(s@.skip(i as int)) is None,
        },
{
    let n = s.unicode_len();
    let t0 = skip_ws_at(s, i);
    if !char_at_is(s, t0, '{') {
        proof {
            if t0 < s@.len() {
                assert(s@.skip(t0 as int)[0] == s@[t0 as int]);
            } else {
                assert(s@.skip(t0 as int).len() == 0);
            }
        }
        return None;
    }
    assert(s@.skip(t0 as int)[0] == '{');
    assert(s@.skip(t0 as int).drop_first() =~= s@.skip(t0 + 1));
    let ghost start = s@.skip(t0 + 1);
    let mut scores_slot: Option<Vec<(String, usize)>> = None;
    let mut blank_slot: Option<usize> = None;
    let mut invalid_slot: Option<usize> = None;
    let mut k: usize = t0 + 1;
    loop
        invariant
            i <= t0 < n,
            t0 + 1 <= k <= n,
            n == s@.len(),
            start == s@.skip(t0 as int + 1),
            sp_tally_value(s@.skip(i as int)) == sp_tally_fields(start, None, None, None),
            sp_tally_fields(start, None, None, None) == sp_tally_fields(
                s@.skip(k as int),
                pairs_slot_view(scores_slot),
                count_slot_view(blank_slot),
                count_slot_view(invalid_slot),
            ),
        decreases n - k,
    {
        let ghost vs = pairs_slot_view(scores_slot);
        let ghost vb = count_slot_view(blank_slot);
        let ghost vi = count_slot_view(invalid_slot);
        let k1 = skip_ws_at(s, k);
        let (key, j) = match parse_string_at(s, k1) {
            Some(p) => p,
            None => {
                return None;
            },
        };
        let j1 = skip_ws_at(s, j);
        if !char_at_is(s, j1, ':') {
            proof {
                if j1 < s@.len() {
                    assert(s@.skip(j1 as int)[0] == s@[j1 as int]);
                } else {
                    assert(s@.skip(j1 as int).len() == 0);
                }
            }
            return None;
        }
        assert(s@.skip(j1 as int)[0] == ':');
        assert(s@.skip(j1 as int).drop_first() =~= s@.skip(j1 + 1));
        let v = j1 + 1;
        let jr: usize;
        if str_eq(key.as_str(), "scores") {
            if scores_slot.is_some() {
                return None;
            }
            let v0 = skip_ws_at(s, v);
            if !char_at_is(s, v0, '{') {
                proof {
                    if v0 < s@.len() {
                        assert(s@.skip(v0 as int)[0] == s@[v0 as int]);
                    } else {
                        assert(s@.skip(v0 as int).len() == 0);
                    }
                }
                return None;
            }
            assert(s@.skip(v0 as int)[0] == '{');
            assert(s@.skip(v0 as int).drop_first() =~= s@.skip(v0 + 1));
            match parse_entries_at(s, v0 + 1) {
                Some(p) => {
                    proof {
                        assert(sp_scores_value(s@.skip(v as int)) == Some(
                            (pairs_view(p.0@), s@.skip(p.1 as int)),
                        ));
                    }
                    scores_slot = Some(p.0);
                    jr = p.1;
                },
                None => {
                    return None;
                },
            }
        } else if str_eq(key.as_str(), "blank_scores") {
            if blank_slot.is_some() {
                return None;
            }
            let v0 = skip_ws_at(s, v);
            match parse_uint_at(s, v0) {
                Some(p) => {
                    proof {
                        assert(sp_uint(sp_ws(s@.skip(v as int))) == Some(
                            (p.0 as nat, s@.skip(p.1 as int)),
                        ));
                    }
                    blank_slot = Some(p.0);
                    jr = p.1;
                },
                None => {
                    return None;
                },
            }
        } else if str_eq(key.as_str(), "invalid_score") {
            if invalid_slot.is_some() {
                return None;
            }
            let v0 = skip_ws_at(s, v);
            match parse_uint_at(s, v0) {
                Some(p) => {
                    proof {
                        assert(sp_uint(sp_ws(s@.skip(v as int))) == Some(
                            (p.0 as nat, s@.skip(p.1 as int)),
                        ));
                    }
                    invalid_slot = Some(p.0);
                    jr = p.1;
                },
                None => {
                    return None;
                },
            }
        } else {
            match skip_value_at(s, v, (n - v) + 1) {
                Some(j2) => {
                    jr = j2;
                },
                None => {
                    return None;
                },
            }
            assert(s@.skip(v as int).len() + 1 == (n - v) + 1);
            assert(sp_skip_value(s@.skip(v as int), s@.skip(v as int).len() + 1) == Some(
                s@.skip(jr as int),
            ));
        }
        let u0 = skip_ws_at(s, jr);
        if u0 < n && s.get_char(u0) == '}' {
            assert(s@.skip(u0 as int)[0] == '}');
            assert(s@.skip(u0 as int).drop_first() =~= s@.skip(u0 + 1));
            match (scores_slot, blank_slot, invalid_slot) {
                (Some(sc), Some(b), Some(iv)) => {
                    let ghost scv = pairs_view(sc@);
                    let dao = ScoreboardDao { scores: sc, blank_scores: b, invalid_score: iv };
                    assert(dao@.scores =~= scv);
                    assert(sp_tally_fields(s@.skip(k as int), vs, vb, vi) == Some(
                        ((dao@.scores, dao@.blank, dao@.invalid), s@.skip(u0 as int + 1)),
                    ));
                    return Some((dao, u0 + 1));
                },
                _ => {
                    return None;
                },
            }
        } else if u0 < n && s.get_char(u0) == ',' {
            assert(s@.skip(u0 as int)[0] == ',');
            assert(s@.skip(u0 as int).drop_first() =~= s@.skip(u0 + 1));
            k = u0 + 1;
        } else {
            proof {
                if u0 < s@.len() {
                    assert(s@.skip(u0 as int)[0] == s@[u0 as int]);
                } else {
                    assert(s@.skip(u0 as int).len() == 0);
                }
            }
            return None;
        }
    }
}

/// The voter names a filled slot holds.
pub open spec fn names_slot_view(o: Option<Vec<String>>) -> Option<Seq<Seq<char>>> {
    match o {
        Some(v) => Some(strings_view(v@)),
        None => None,
    }
}

/// The entries a filled slot holds.
pub open spec fn pairs_slot_view(o: Option<Vec<(String, usize)>>) -> Option<
    Seq<(Seq<char>, nat)>,
> {
    match o {
        Some(v) => Some(pairs_view(v@)),
        None => None,
    }
}

/// The count a filled slot holds.
pub open spec fn count_slot_view(o: Option<usize>) -> Option<nat> {
    match o {
        Some(v) => Some(v as nat),
        None => None,
    }
}

/// The tally a filled slot holds.
pub open spec fn tally_slot_view(o: Option<ScoreboardDao>) -> Option<
    (Seq<(Seq<char>, nat)>, nat, nat),
> {
    match o {
        Some(d) => Some((d@.scores, d@.blank, d@.invalid)),
        None => None,
    }
}

/// Decode one stored record. The record's fields may come in any order with
/// whitespace between tokens, and fields with unrecognized names are ignored.
/// Anything else — other text around the record, a missing or repeated
/// required field, a name or count that does not follow the format, a count
/// the machine cannot hold — is a decode failure.
#[verifier::rlimit(100)]
pub fn decode_voting_machine(s: &str) -> (r: Option<VotingMachineDao>)
    ensures
        match r {
            Some(dao) => spec_decode(s@) == Some(dao@),
            None => spec_decode(s@) is None,
        },
{
    let n = s.unicode_len();
    assert(s@.skip(0) =~= s@);
    let t0 = skip_ws_at(s, 0);
    if !char_at_is(s, t0, '{') {
        proof {
            if t0 < s@.len() {
                assert(s@.skip(t0 as int)[0] == s@[t0 as int]);
            } else {
                assert(s@.skip(t0 as int).len() == 0);
            }
        }
        return None;
    }
    assert(s@.skip(t0 as int)[0] == '{');
    assert(s@.skip(t0 as int).drop_first() =~= s@.skip(t0 + 1));
    let ghost start = s@.skip(t0 + 1);
    let mut voters_slot: Option<Vec<String>> = None;
    let mut tally_slot: Option<ScoreboardDao> = None;
    let mut k: usize = t0 + 1;
    loop
        invariant
            t0 + 1 <= k <= n,
            n == s@.len(),
            start == s@.skip(t0 as int + 1),
            sp_machine(s@) == sp_record_fields(start, None, None),
            sp_record_fields(start, None, None) == sp_record_fields(
                s@.skip(k as int),
                names_slot_view(voters_slot),
                tally_slot_view(tally_slot),
            ),
        decreases n - k,
    {
        let ghost vv = names_slot_view(voters_slot);
        let ghost vt = tally_slot_view(tally_slot);
        let k1 = skip_ws_at(s, k);
        let (key, j) = match parse_string_at(s, k1) {
            Some(p) => p,
            None => {
                return None;
            },
        };
        let j1 = skip_ws_at(s, j);
        if !char_at_is(s, j1, ':') {
            proof {
                if j1 < s@.len() {
                    assert(s@.skip(j1 as int)[0] == s@[j1 as int]);
                } else {
                    assert(s@.skip(j1 as int).len() == 0);
                }
            }
            return None;
        }
        assert(s@.skip(j1 as int)[0] == ':');
        assert(s@.skip(j1 as int).drop_first() =~= s@.skip(j1 + 1));
        let v = j1 + 1;
        let jr: usize;
        if str_eq(key.as_str(), "voters") {
            if voters_slot.is_some() {
                return None;
            }
            let v0 = skip_ws_at(s, v);
            if !char_at_is(s, v0, '[') {
                proof {
                    if v0 < s@.len() {
                        assert(s@.skip(v0 as int)[0] == s@[v0 as int]);
                    } else {
                        assert(s@.skip(v0 as int).len() == 0);
                    }
                }
                return None;
            }
            assert(s@.skip(v0 as int)[0] == '[');
            assert(s@.skip(v0 as int).drop_first() =~= s@.skip(v0 + 1));
            match parse_voters_at(s, v0 + 1) {
                Some(p) => {
                    voters_slot = Some(p.0);
                    jr = p.1;
                },
                None => {
                    return None;
                },
            }
        } else if str_eq(key.as_str(), "scoreboard") {
            if tally_slot.is_some() {
                return None;
            }
            match parse_tally_value_at(s, v) {
                Some(p) => {
                    tally_slot = Some(p.0);
                    jr = p.1;
                },
                None => {
                    return None;
                },
            }
        } else {
            match skip_value_at(s, v, (n - v) + 1) {
                Some(j2) => {
                    jr = j2;
                },
                None => {
                    return None;
                },
            }
            assert(s@.skip(v as int).len() + 1 == (n - v) + 1);
        }
        let u0 = skip_ws_at(s, jr);
        if u0 < n && s.get_char(u0) == '}' {
            assert(s@.skip(u0 as int)[0] == '}');
            assert(s@.skip(u0 as int).drop_first() =~= s@.skip(u0 + 1));
            match (voters_slot, tally_slot) {
                (Some(voters), Some(tally)) => {
                    let jt = skip_ws_at(s, u0 + 1);
                    if jt != n {
                        assert(s@.skip(jt as int).len() != 0);
                        return None;
                    }
                    assert(s@.skip(jt as int).len() == 0);
                    let dao = VotingMachineDao { voters, scoreboard: tally };
                    assert(dao@.voters =~= strings_view(dao.voters@));
                    assert(spec_decode(s@) == Some(dao@));
                    return Some(dao);
                },
                _ => {
                    return None;
                },
            }
        } else if u0 < n && s.get_char(u0) == ',' {
            assert(s@.skip(u0 as int)[0] == ',');
            assert(s@.skip(u0 as int).drop_first() =~= s@.skip(u0 + 1));
            k = u0 + 1;
        } else {
            proof {
                if u0 < s@.len() {
                    assert(s@.skip(u0 as int)[0] == s@[u0 as int]);
                } else {
                    assert(s@.skip(u0 as int).len() == 0);
                }
            }
            return None;
        }
    }
}

/// Serialize a whole stored record to text.
pub fn encode_voting_machine(dao: &VotingMachineDao) -> (r: String)
    ensures
        r@ == spec_encode_machine(dao@),
{
    let ghost d = dao@;
    let mut out = String::new();
    out.append("{\"voters\":[");
    assert(out@ =~= lit_voters());
    let mut i: usize = 0;
    while i < dao.voters.len()
        invariant
            i <= dao.voters.len(),
            d == dao@,
            dao.voters@.len() == d.voters.len(),
            out@ == lit_voters() + spec_encode_name_list(d.voters.take(i as int)),
        decreases dao.voters.len() - i,
    {
        if i > 0 {
            push_char(&mut out, ',');
        }
        encode_string_into(&mut out, dao.voters[i].as_str());
        proof {
            assert(dao.voters@[i as int]@ == d.voters[i as int]);
            assert(d.voters.take(i + 1).drop_last() =~= d.voters.take(i as int));
            assert(d.voters.take(i + 1).last() == d.voters[i as int]);
            if i == 0 {
                assert(d.voters.take(1)[0] == d.voters[0]);
                assert(out@ =~= lit_voters() + spec_encode_name_list(d.voters.take(1)));
            } else {
                assert(out@ =~= lit_voters() + spec_encode_name_list(d.voters.take(i + 1)));
            }
        }
        i += 1;
    }
    assert(d.voters.take(d.voters.len() as int) =~= d.voters);
    push_char(&mut out, ']');
    out.append(",\"scoreboard\":");
    out.append("{\"scores\":{");
    let ghost after_scores_lit = lit_voters() + spec_encode_name_list(d.voters) + seq![']']
        + lit_scoreboard() + lit_scores();
    assert(out@ =~= after_scores_lit);
    let mut j: usize = 0;
    while j < dao.scoreboard.scores.len()
        invariant
            j <= dao.scoreboard.scores.len(),
            d == dao@,
            dao.scoreboard.scores@.len() == d.scores.len(),
            after_scores_lit == lit_voters() + spec_encode_name_list(d.voters) + seq![']']
                + lit_scoreboard() + lit_scores(),
            out@ == after_scores_lit + spec_encode_entry_list(d.scores.take(j as int)),
        decreases dao.scoreboard.scores.len() - j,
    {
        if j > 0 {
            push_char(&mut out, ',');
        }
        encode_string_into(&mut out, dao.scoreboard.scores[j].0.as_str());
        push_char(&mut out, ':');
        encode_uint_into(&mut out, dao.scoreboard.scores[j].1);
        proof {
            assert(dao.scoreboard.scores@[j as int].0@ == d.scores[j as int].0);
            assert(dao.scoreboard.scores@[j as int].1 as nat == d.scores[j as int].1);
            assert(d.scores.take(j + 1).drop_last() =~= d.scores.take(j as int));
            assert(d.scores.take(j + 1).last() == d.scores[j as int]);
            if j == 0 {
                assert(d.scores.take(1)[0] == d.scores[0]);
                assert(out@ =~= after_scores_lit + spec_encode_entry_list(d.scores.take(1)));
            } else {
                assert(out@ =~= after_scores_lit + spec_encode_entry_list(d.scores.take(j + 1)));
            }
        }
        j += 1;
    }
    assert(d.scores.take(d.scores.len() as int) =~= d.scores);
    push_char(&mut out, '}');
    out.append(",\"blank_scores\":");
    encode_uint_into(&mut out, dao.scoreboard.blank_scores);
    out.append(",\"invalid_score\":");
    encode_uint_into(&mut out, dao.scoreboard.invalid_score);
    push_char(&mut out, '}');
    push_char(&mut out, '}');
    assert(out@ =~= spec_encode_machine(d));
    out
}

// ---------------------------------------------------------------------------
// Round trip: the parser reads back exactly what the encoder wrote.
// ---------------------------------------------------------------------------
/// An escaped name followed by its closing quote is read back unchanged.
proof fn lemma_string_body_inverts(s: Seq<char>, rest: Seq<char>)
    ensures
        sp_string_body(spec_escape(s) + seq!['"'] + rest) == Some((s, rest)),
    decreases s.len(),
{
    let input = spec_escape(s) + seq!['"'] + rest;
    if s.len() == 0 {
        assert(input[0] == '"');
        assert(input.drop_first() =~= rest);
        assert(sp_string_body(input) == Some((Seq::<char>::empty(), rest)));
        assert(Seq::<char>::empty() =~= s);
    } else {
        let tail = spec_escape(s.drop_first()) + seq!['"'] + rest;
        lemma_string_body_inverts(s.drop_first(), rest);
        if s[0] == '"' || s[0] == '\\' {
            assert(input[0] == '\\');
            assert(input[1] == s[0]);
            assert(input.len() >= 2);
            assert(input.skip(2) =~= tail);
            assert(sp_string_body(input) == Some((seq![s[0]] + s.drop_first(), rest)));
            assert(seq![s[0]] + s.drop_first() =~= s);
        } else {
            assert(input[0] == s[0]);
            assert(input.drop_first() =~= tail);
            assert(sp_string_body(input) == Some((seq![s[0]] + s.drop_first(), rest)));
            assert(seq![s[0]] + s.drop_first() =~= s);
        }
    }
}

/// A quoted name is read back unchanged.
proof fn lemma_string_inverts(s: Seq<char>, rest: Seq<char>)
    ensures
        sp_string(spec_encode_string(s) + rest) == Some((s, rest)),
{
    let input = spec_encode_string(s) + rest;
    assert(input[0] == '"');
    assert(input.drop_first() =~= spec_escape(s) + seq!['"'] + rest);
    lemma_string_body_inverts(s, rest);
}

/// Ten to the number of digits a count is written with.
pub open spec fn pow10_of(n: nat) -> nat
    decreases n,
{
    if n < 10 {
        10
    } else {
        10 * pow10_of(n / 10)
    }
}

/// A written count is made of digits and starts with one.
proof fn lemma_encode_uint_digits(n: nat)
    ensures
        spec_encode_uint(n).len() >= 1,
        is_digit(spec_encode_uint(n)[0]),
    decreases n,
{
    if n >= 10 {
        lemma_encode_uint_digits(n / 10);
        assert(spec_encode_uint(n)[0] == spec_encode_uint(n / 10)[0]);
    }
}

/// Folding the digits of a written count onto an accumulator shifts the
/// accumulator past them and adds the count.
proof fn lemma_uint_loop_inverts(n: nat, acc: nat, rest: Seq<char>)
    ensures
        sp_uint_loop(spec_encode_uint(n) + rest, acc) == sp_uint_loop(
            rest,
            acc * pow10_of(n) + n,
        ),
    decreases n,
{
    let input = spec_encode_uint(n) + rest;
    if n < 10 {
        assert(input[0] == char_of_digit(n));
        assert(is_digit(char_of_digit(n)));
        assert(digit_of_char(char_of_digit(n)) == n);
        assert(input.drop_first() =~= rest);
        assert(sp_uint_loop(input, acc) == sp_uint_loop(rest, acc * 10 + n));
    } else {
        let d = n % 10;
        let mid = seq![char_of_digit(d)] + rest;
        assert(input =~= spec_encode_uint(n / 10) + mid);
        lemma_uint_loop_inverts(n / 10, acc, mid);
        assert(mid[0] == char_of_digit(d));
        assert(is_digit(char_of_digit(d)));
        assert(digit_of_char(char_of_digit(d)) == d);
        assert(mid.drop_first() =~= rest);
        let shifted = acc * pow10_of(n / 10) + n / 10;
        assert(sp_uint_loop(mid, shifted) == sp_uint_loop(rest, shifted * 10 + d));
        assert(shifted * 10 + d == acc * pow10_of(n) + n) by (nonlinear_arith)
            requires
                shifted == acc * pow10_of(n / 10) + n / 10,
                pow10_of(n) == 10 * pow10_of(n / 10),
                d == n % 10,
                n >= 10,
        {
            assert(n / 10 * 10 + n % 10 == n);
        }
    }
}

/// A written count is read back unchanged when what follows it is no digit.
proof fn lemma_uint_inverts(n: nat, rest: Seq<char>)
    requires
        n <= usize::MAX,
        rest.len() == 0 || !is_digit(rest[0]),
    ensures
        sp_uint(spec_encode_uint(n) + rest) == Some((n, rest)),
{
    let input = spec_encode_uint(n) + rest;
    lemma_encode_uint_digits(n);
    assert(input[0] == spec_encode_uint(n)[0]);
    lemma_uint_loop_inverts(n, 0, rest);
    assert(sp_uint_loop(rest, 0 * pow10_of(n) + n) == (n, rest));
}

/// A written name list, seen from its first name.
proof fn lemma_name_list_front(names: Seq<Seq<char>>)
    requires
        names.len() >= 1,
    ensures
        spec_encode_name_list(names) == spec_encode_string(names[0]) + (if names.len() == 1 {
            Seq::<char>::empty()
        } else {
            seq![','] + spec_encode_name_list(names.drop_first())
        }),
    decreases names.len(),
{
    if names.len() == 1 {
        assert(spec_encode_name_list(names) =~= spec_encode_string(names[0])
            + Seq::<char>::empty());
    } else if names.len() == 2 {
        reveal_with_fuel(spec_encode_name_list, 3);
        assert(names.drop_last()[0] == names[0]);
        assert(names.drop_last().len() == 1);
        assert(names.drop_first().len() == 1);
        assert(names.drop_first()[0] == names.last());
        assert(spec_encode_name_list(names) =~= spec_encode_string(names[0]) + (seq![',']
            + spec_encode_name_list(names.drop_first())));
    } else {
        lemma_name_list_front(names.drop_last());
        assert(names.drop_last()[0] == names[0]);
        assert(names.drop_first().drop_last() =~= names.drop_last().drop_first());
        assert(names.drop_first().last() == names.last());
        assert(spec_encode_name_list(names.drop_first()) == spec_encode_name_list(
            names.drop_first().drop_last(),
        ) + seq![','] + spec_encode_string(names.drop_first().last()));
        assert(spec_encode_name_list(names) =~= spec_encode_string(names[0]) + (seq![',']
            + spec_encode_name_list(names.drop_first())));
    }
}

/// A written name list followed by its closing bracket is read back
/// unchanged.
proof fn lemma_name_items_inverts(names: Seq<Seq<char>>, rest: Seq<char>)
    requires
        names.len() >= 1,
    ensures
        sp_name_items(spec_encode_name_list(names) + seq![']'] + rest) == Some((names, rest)),
    decreases names.len(),
{
    let input = spec_encode_name_list(names) + seq![']'] + rest;
    lemma_name_list_front(names);
    if names.len() == 1 {
        let after = seq![']'] + rest;
        assert(input =~= spec_encode_string(names[0]) + after);
        assert(input[0] == '"');
        assert(sp_ws(input) == input);
        lemma_string_inverts(names[0], after);
        assert(after[0] == ']');
        assert(sp_ws(after) == after);
        assert(after.drop_first() =~= rest);
        assert(seq![names[0]] =~= names);
    } else {
        let after = seq![','] + (spec_encode_name_list(names.drop_first()) + seq![']'] + rest);
        assert(input =~= spec_encode_string(names[0]) + after);
        assert(input[0] == '"');
        assert(sp_ws(input) == input);
        lemma_string_inverts(names[0], after);
        assert(after[0] == ',');
        assert(sp_ws(after) == after);
        assert(after.drop_first() =~= spec_encode_name_list(names.drop_first()) + seq![']']
            + rest);
        lemma_name_items_inverts(names.drop_first(), rest);
        assert(seq![names[0]] + names.drop_first() =~= names);
    }
}

/// A written entry list, seen from its first entry.
proof fn lemma_entry_list_front(entries: Seq<(Seq<char>, nat)>)
    requires
        entries.len() >= 1,
    ensures
        spec_encode_entry_list(entries) == spec_encode_entry(entries[0]) + (if entries.len()
            == 1 {
            Seq::<char>::empty()
        } else {
            seq![','] + spec_encode_entry_list(entries.drop_first())
        }),
    decreases entries.len(),
{
    if entries.len() == 1 {
        assert(spec_encode_entry_list(entries) =~= spec_encode_entry(entries[0])
            + Seq::<char>::empty());
    } else if entries.len() == 2 {
        reveal_with_fuel(spec_encode_entry_list, 3);
        assert(entries.drop_last()[0] == entries[0]);
        assert(entries.drop_last().len() == 1);
        assert(entries.drop_first().len() == 1);
        assert(entries.drop_first()[0] == entries.last());
        assert(spec_encode_entry_list(entries) =~= spec_encode_entry(entries[0]) + (seq![',']
            + spec_encode_entry_list(entries.drop_first())));
    } else {
        lemma_entry_list_front(entries.drop_last());
        assert(entries.drop_last()[0] == entries[0]);
        assert(entries.drop_first().drop_last() =~= entries.drop_last().drop_first());
        assert(entries.drop_first().last() == entries.last());
        assert(spec_encode_entry_list(entries.drop_first()) == spec_encode_entry_list(
            entries.drop_first().drop_last(),
        ) + seq![','] + spec_encode_entry(entries.drop_first().last()));
        assert(spec_encode_entry_list(entries) =~= spec_encode_entry(entries[0]) + (seq![',']
            + spec_encode_entry_list(entries.drop_first())));
    }
}

/// A written entry list followed by its closing brace is read back
/// unchanged.
proof fn lemma_entry_items_inverts(entries: Seq<(Seq<char>, nat)>, rest: Seq<char>)
    requires
        entries.len() >= 1,
        forall|i: int| 0 <= i < entries.len() ==> entries[i].1 <= usize::MAX,
    ensures
        sp_entry_items(spec_encode_entry_list(entries) + seq!['}'] + rest) == Some(
            (entries, rest),
        ),
    decreases entries.len(),
{
    let input = spec_encode_entry_list(entries) + seq!['}'] + rest;
    lemma_entry_list_front(entries);
    let key = entries[0].0;
    let value = entries[0].1;
    lemma_encode_uint_digits(value);
    if entries.len() == 1 {
        let after_key = seq![':'] + (spec_encode_uint(value) + (seq!['}'] + rest));
        assert(input =~= spec_encode_string(key) + after_key);
        assert(input[0] == '"');
        assert(sp_ws(input) == input);
        lemma_string_inverts(key, after_key);
        assert(after_key[0] == ':');
        assert(sp_ws(after_key) == after_key);
        assert(after_key.drop_first() =~= spec_encode_uint(value) + (seq!['}'] + rest));
        assert((spec_encode_uint(value) + (seq!['}'] + rest))[0] == spec_encode_uint(value)[0]);
        assert(sp_ws(spec_encode_uint(value) + (seq!['}'] + rest)) == spec_encode_uint(value) + (
        seq!['}'] + rest));
        assert((seq!['}'] + rest)[0] == '}');
        lemma_uint_inverts(value, seq!['}'] + rest);
        assert(sp_ws(seq!['}'] + rest) == seq!['}'] + rest);
        assert((seq!['}'] + rest).drop_first() =~= rest);
        assert(seq![(key, value)] =~= entries);
    } else {
        let tail = spec_encode_entry_list(entries.drop_first()) + seq!['}'] + rest;
        let after_key = seq![':'] + (spec_encode_uint(value) + (seq![','] + tail));
        assert(input =~= spec_encode_string(key) + after_key);
        assert(input[0] == '"');
        assert(sp_ws(input) == input);
        lemma_string_inverts(key, after_key);
        assert(after_key[0] == ':');
        assert(sp_ws(after_key) == after_key);
        assert(after_key.drop_first() =~= spec_encode_uint(value) + (seq![','] + tail));
        assert((spec_encode_uint(value) + (seq![','] + tail))[0] == spec_encode_uint(value)[0]);
        assert(sp_ws(spec_encode_uint(value) + (seq![','] + tail)) == spec_encode_uint(value) + (
        seq![','] + tail));
        assert((seq![','] + tail)[0] == ',');
        lemma_uint_inverts(value, seq![','] + tail);
        assert(sp_ws(seq![','] + tail) == seq![','] + tail);
        assert((seq![','] + tail).drop_first() =~= tail);
        assert forall|i: int|
            0 <= i < entries.drop_first().len() implies entries.drop_first()[i].1
            <= usize::MAX by {
            assert(entries.drop_first()[i] == entries[i + 1]);
        }
        lemma_entry_items_inverts(entries.drop_first(), rest);
        assert(seq![(key, value)] + entries.drop_first() =~= entries);
    }
}

/// Escaping changes nothing in a name free of quotes and backslashes.
proof fn lemma_escape_plain(s: Seq<char>)
    requires
        forall|i: int| 0 <= i < s.len() ==> s[i] != '"' && s[i] != '\\',
    ensures
        spec_escape(s) == s,
    decreases s.len(),
{
    if s.len() == 0 {
        assert(spec_escape(s) =~= s);
    } else {
        lemma_escape_plain(s.drop_first());
        assert(spec_escape(s) =~= s);
    }
}

/// Each literal the encoder writes is an opening or separating character, a
/// plainly quoted field name, and a colon.
proof fn lemma_lit_shapes()
    ensures
        lit_voters() == seq!['{'] + spec_encode_string(key_voters()) + seq![':'] + seq!['['],
        lit_scoreboard() == seq![','] + spec_encode_string(key_scoreboard()) + seq![':'],
        lit_scores() == seq!['{'] + spec_encode_string(key_scores()) + seq![':'] + seq!['{'],
        lit_blank() == seq![','] + spec_encode_string(key_blank()) + seq![':'],
        lit_invalid() == seq![','] + spec_encode_string(key_invalid()) + seq![':'],
{
    reveal_strlit("{\"voters\":[");
    reveal_strlit(",\"scoreboard\":");
    reveal_strlit("{\"scores\":{");
    reveal_strlit(",\"blank_scores\":");
    reveal_strlit(",\"invalid_score\":");
    reveal_strlit("voters");
    reveal_strlit("scoreboard");
    reveal_strlit("scores");
    reveal_strlit("blank_scores");
    reveal_strlit("invalid_score");
    assert forall|i: int| 0 <= i < key_voters().len() implies key_voters()[i] != '"'
        && key_voters()[i] != '\\' by {}
    lemma_escape_plain(key_voters());
    assert forall|i: int| 0 <= i < key_scoreboard().len() implies key_scoreboard()[i] != '"'
        && key_scoreboard()[i] != '\\' by {}
    lemma_escape_plain(key_scoreboard());
    assert forall|i: int| 0 <= i < key_scores().len() implies key_scores()[i] != '"'
        && key_scores()[i] != '\\' by {}
    lemma_escape_plain(key_scores());
    assert forall|i: int| 0 <= i < key_blank().len() implies key_blank()[i] != '"'
        && key_blank()[i] != '\\' by {}
    lemma_escape_plain(key_blank());
    assert forall|i: int| 0 <= i < key_invalid().len() implies key_invalid()[i] != '"'
        && key_invalid()[i] != '\\' by {}
    lemma_escape_plain(key_invalid());
    assert(lit_voters() =~= seq!['{'] + spec_encode_string(key_voters()) + seq![':'] + seq!['[']);
    assert(lit_scoreboard() =~= seq![','] + spec_encode_string(key_scoreboard()) + seq![':']);
    assert(lit_scores() =~= seq!['{'] + spec_encode_string(key_scores()) + seq![':'] + seq!['{']);
    assert(lit_blank() =~= seq![','] + spec_encode_string(key_blank()) + seq![':']);
    assert(lit_invalid() =~= seq![','] + spec_encode_string(key_invalid()) + seq![':']);
}

/// The five field names differ pairwise where the reader tells them apart.
proof fn lemma_keys_distinct()
    ensures
        key_scoreboard() != key_voters(),
        key_blank() != key_scores(),
        key_invalid() != key_scores(),
        key_invalid() != key_blank(),
{
    reveal_strlit("voters");
    reveal_strlit("scoreboard");
    reveal_strlit("scores");
    reveal_strlit("blank_scores");
    reveal_strlit("invalid_score");
    assert(key_voters().len() == 6);
    assert(key_scoreboard().len() == 10);
    assert(key_scores().len() == 6);
    assert(key_blank().len() == 12);
    assert(key_invalid().len() == 13);
}

/// A written tally value is read back unchanged.
#[verifier::rlimit(100)]
proof fn lemma_tally_value_inverts(d: MachineData, rest: Seq<char>)
    requires
        fits(d),
    ensures
        sp_tally_value(
            lit_scores() + spec_encode_entry_list(d.scores) + seq!['}'] + lit_blank()
                + spec_encode_uint(d.blank) + lit_invalid() + spec_encode_uint(d.invalid)
                + seq!['}'] + rest,
        ) == Some(((d.scores, d.blank, d.invalid), rest)),
{
    lemma_lit_shapes();
    lemma_keys_distinct();
    lemma_encode_uint_digits(d.blank);
    lemma_encode_uint_digits(d.invalid);
    let input = lit_scores() + spec_encode_entry_list(d.scores) + seq!['}'] + lit_blank()
        + spec_encode_uint(d.blank) + lit_invalid() + spec_encode_uint(d.invalid) + seq!['}']
        + rest;
    let c3 = seq!['}'] + rest;
    let c2 = spec_encode_string(key_invalid()) + (seq![':'] + (spec_encode_uint(d.invalid) + c3));
    let c1 = spec_encode_string(key_blank()) + (seq![':'] + (spec_encode_uint(d.blank) + (
    seq![','] + c2)));
    let b1 = spec_encode_entry_list(d.scores) + seq!['}'] + (seq![','] + c1);
    let a1 = seq![':'] + (seq!['{'] + b1);
    let s1 = spec_encode_string(key_scores()) + a1;
    assert(input =~= seq!['{'] + s1);
    // The tally value opens with its brace.
    assert(input[0] == '{');
    assert(sp_ws(input) == input);
    assert(input.drop_first() =~= s1);
    // First field: "scores", holding the entry object.
    assert(s1[0] == '"');
    assert(sp_ws(s1) == s1);
    lemma_string_inverts(key_scores(), a1);
    assert(a1[0] == ':');
    assert(sp_ws(a1) == a1);
    let v1 = seq!['{'] + b1;
    assert(a1.drop_first() =~= v1);
    assert(v1[0] == '{');
    assert(sp_ws(v1) == v1);
    assert(v1.drop_first() =~= b1);
    if d.scores.len() == 0 {
        assert(b1 =~= seq!['}'] + (seq![','] + c1));
        assert(b1[0] == '}');
        assert(sp_ws(b1) == b1);
        assert(b1.drop_first() =~= seq![','] + c1);
        assert(Seq::<(Seq<char>, nat)>::empty() =~= d.scores);
        assert(sp_entry_object(b1) == Some((d.scores, seq![','] + c1)));
    } else {
        lemma_entry_list_front(d.scores);
        assert(b1[0] == spec_encode_string(d.scores[0].0)[0]);
        assert(b1[0] == '"');
        assert(sp_ws(b1) == b1);
        assert(b1 =~= spec_encode_entry_list(d.scores) + seq!['}'] + (seq![','] + c1));
        lemma_entry_items_inverts(d.scores, seq![','] + c1);
        assert(sp_entry_object(b1) == Some((d.scores, seq![','] + c1)));
    }
    assert(sp_scores_value(v1) == Some((d.scores, seq![','] + c1)));
    assert((seq![','] + c1)[0] == ',');
    assert(sp_ws(seq![','] + c1) == seq![','] + c1);
    assert((seq![','] + c1).drop_first() =~= c1);
    // Second field: "blank_scores", holding its count.
    assert(c1[0] == '"');
    assert(sp_ws(c1) == c1);
    let a2 = seq![':'] + (spec_encode_uint(d.blank) + (seq![','] + c2));
    lemma_string_inverts(key_blank(), a2);
    assert(a2[0] == ':');
    assert(sp_ws(a2) == a2);
    let v2 = spec_encode_uint(d.blank) + (seq![','] + c2);
    assert(a2.drop_first() =~= v2);
    assert(v2[0] == spec_encode_uint(d.blank)[0]);
    assert(sp_ws(v2) == v2);
    assert((seq![','] + c2)[0] == ',');
    lemma_uint_inverts(d.blank, seq![','] + c2);
    assert(sp_uint(sp_ws(v2)) == Some((d.blank, seq![','] + c2)));
    assert(sp_ws(seq![','] + c2) == seq![','] + c2);
    assert((seq![','] + c2).drop_first() =~= c2);
    // Third field: "invalid_score", holding its count.
    assert(c2[0] == '"');
    assert(sp_ws(c2) == c2);
    let a3 = seq![':'] + (spec_encode_uint(d.invalid) + c3);
    lemma_string_inverts(key_invalid(), a3);
    assert(a3[0] == ':');
    assert(sp_ws(a3) == a3);
    let v3 = spec_encode_uint(d.invalid) + c3;
    assert(a3.drop_first() =~= v3);
    assert(v3[0] == spec_encode_uint(d.invalid)[0]);
    assert(sp_ws(v3) == v3);
    assert(c3[0] == '}');
    lemma_uint_inverts(d.invalid, c3);
    assert(sp_uint(sp_ws(v3)) == Some((d.invalid, c3)));
    assert(sp_ws(c3) == c3);
    assert(c3.drop_first() =~= rest);
    // The three required fields are in, the closing brace ends the tally.
    assert(sp_tally_fields(c2, Some(d.scores), Some(d.blank), None) == Some(
        ((d.scores, d.blank, d.invalid), rest),
    ));
    assert(sp_tally_fields(c1, Some(d.scores), None, None) == Some(
        ((d.scores, d.blank, d.invalid), rest),
    ));
    assert(sp_tally_fields(s1, None, None, None) == Some(((d.scores, d.blank, d.invalid), rest)));
}

/// A written record is read back unchanged.
#[verifier::rlimit(100)]
proof fn lemma_machine_inverts(d: MachineData, rest: Seq<char>)
    requires
        fits(d),
    ensures
        sp_machine(spec_encode_machine(d) + rest) == Some((d, rest)),
{
    lemma_lit_shapes();
    lemma_keys_distinct();
    let input = spec_encode_machine(d) + rest;
    let tally_region = lit_scores() + spec_encode_entry_list(d.scores) + seq!['}'] + lit_blank()
        + spec_encode_uint(d.blank) + lit_invalid() + spec_encode_uint(d.invalid) + seq!['}'];
    let w2 = seq!['}'] + rest;
    let w1 = spec_encode_string(key_scoreboard()) + (seq![':'] + (tally_region + w2));
    let m1 = spec_encode_name_list(d.voters) + seq![']'] + (seq![','] + w1);
    let a0 = seq![':'] + (seq!['['] + m1);
    let s0 = spec_encode_string(key_voters()) + a0;
    assert(input =~= seq!['{'] + s0);
    // The record opens with its brace.
    assert(input[0] == '{');
    assert(sp_ws(input) == input);
    assert(input.drop_first() =~= s0);
    // First field: "voters", holding the name list.
    assert(s0[0] == '"');
    assert(sp_ws(s0) == s0);
    lemma_string_inverts(key_voters(), a0);
    assert(a0[0] == ':');
    assert(sp_ws(a0) == a0);
    let v0 = seq!['['] + m1;
    assert(a0.drop_first() =~= v0);
    assert(v0[0] == '[');
    assert(sp_ws(v0) == v0);
    assert(v0.drop_first() =~= m1);
    if d.voters.len() == 0 {
        assert(m1 =~= seq![']'] + (seq![','] + w1));
        assert(m1[0] == ']');
        assert(sp_ws(m1) == m1);
        assert(m1.drop_first() =~= seq![','] + w1);
        assert(Seq::<Seq<char>>::empty() =~= d.voters);
        assert(sp_name_array(m1) == Some((d.voters, seq![','] + w1)));
    } else {
        lemma_name_list_front(d.voters);
        assert(m1[0] == spec_encode_string(d.voters[0])[0]);
        assert(m1[0] == '"');
        assert(sp_ws(m1) == m1);
        assert(m1 =~= spec_encode_name_list(d.voters) + seq![']'] + (seq![','] + w1));
        lemma_name_items_inverts(d.voters, seq![','] + w1);
        assert(sp_name_array(m1) == Some((d.voters, seq![','] + w1)));
    }
    assert(sp_names_value(v0) == Some((d.voters, seq![','] + w1)));
    assert((seq![','] + w1)[0] == ',');
    assert(sp_ws(seq![','] + w1) == seq![','] + w1);
    assert((seq![','] + w1).drop_first() =~= w1);
    // Second field: "scoreboard", holding the tally value.
    assert(w1[0] == '"');
    assert(sp_ws(w1) == w1);
    let a1 = seq![':'] + (tally_region + w2);
    lemma_string_inverts(key_scoreboard(), a1);
    assert(a1[0] == ':');
    assert(sp_ws(a1) == a1);
    let v1 = tally_region + w2;
    assert(a1.drop_first() =~= v1);
    lemma_tally_value_inverts(d, w2);
    assert(v1 =~= lit_scores() + spec_encode_entry_list(d.scores) + seq!['}'] + lit_blank()
        + spec_encode_uint(d.blank) + lit_invalid() + spec_encode_uint(d.invalid) + seq!['}']
        + w2);
    assert(sp_tally_value(v1) == Some(((d.scores, d.blank, d.invalid), w2)));
    assert(w2[0] == '}');
    assert(sp_ws(w2) == w2);
    assert(w2.drop_first() =~= rest);
    // Both required fields are in, the closing brace ends the record.
    assert(sp_record_fields(w1, Some(d.voters), None) == Some((d, rest)));
    assert(sp_record_fields(s0, None, None) == Some((d, rest)));
}

/// Decoding inverts encoding: any snapshot whose counts the machine can hold
/// comes back from its own stored record exactly.
pub proof fn lemma_decode_of_encode(d: MachineData)
    requires
        fits(d),
    ensures
        spec_decode(spec_encode_machine(d)) == Some(d),
{
    lemma_machine_inverts(d, Seq::<char>::empty());
    assert(spec_encode_machine(d) + Seq::<char>::empty() =~= spec_encode_machine(d));
}

/// Whatever a machine holds, its counts fit the machine.
pub proof fn lemma_machine_data_fits(m: VotingMachine)
    ensures
        fits(m@),
{
    assert forall|i: int| 0 <= i < m@.scores.len() implies m@.scores[i].1 <= usize::MAX by {
        assert(m@.scores[i].1 == m.scoreboard.scores@[i].1.0 as nat);
    }
}

/// Storing a snapshot and fetching it back returns an equal snapshot: the
/// record decodes to exactly the stored content, and on a well-formed
/// snapshot rebuilding from it changes nothing.
pub proof fn lemma_snapshot_round_trip(m: VotingMachine)
    requires
        m.wf(),
    ensures
        spec_decode(spec_encode_machine(m@)) == Some(m@),
        dedup_names(m@.voters) == m@.voters,
        dedup_entries(m@.scores) == m@.scores,
{
    lemma_machine_data_fits(m);
    lemma_decode_of_encode(m@);
    assert(m@.wf()) by {
        assert(m@.voters == m.voters.names());
        assert(m@.scores == m.scoreboard.entries());
        assert(keys_of(m@.scores) == m.scoreboard.keys());
    }
    lemma_dedup_of_wf_data(m@);
}

/// Serialize a snapshot for the durable record.
pub fn snapshot_to_text(machine: VotingMachine) -> (r: String)
    ensures
        r@ == spec_encode_machine(machine@),
{
    let dao = VotingMachineDao::from(machine);
    encode_voting_machine(&dao)
}

/// Rebuild a snapshot from a durable record's text. The record's fields may
/// come in any order with whitespace between tokens, and unrecognized fields
/// are ignored; any other text is a decode failure, surfaced as the storage
/// error.
pub fn text_to_snapshot(s: &str) -> (r: Result<VotingMachine, UnavailableError>)
    ensures
        r is Ok <==> spec_decode(s@) is Some,
        r matches Ok(m) ==> spec_decode(s@) matches Some(d) && m@.voters == dedup_names(d.voters)
            && m@.scores == dedup_entries(d.scores) && m@.blank == d.blank && m@.invalid
            == d.invalid && m.wf(),
{
    match decode_voting_machine(s) {
        Some(dao) => Ok(VotingMachine::from(dao)),
        None => Err(UnavailableError),
    }
}

} // verus!
