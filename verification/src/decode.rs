//! A decoder for the JSON shape that the encoder emits, and the proof
//! that decoding inverts encoding: the JSON string of a result list
//! determines the list exactly.
//!
//! The decoder is specification-only; nothing executes it. It accepts
//! precisely the escapes the encoder writes (quote, backslash, and
//! lower-case `\u00XX` for control characters).

use vstd::prelude::*;

use crate::json::hex_digit;
use crate::json::json_escape_char;
use crate::json::json_escaped;
use crate::json::json_items;
use crate::json::json_of_result;
use crate::json::json_of_results;
use crate::search::FileResultView;
use crate::search::WalkEntryView;
use crate::search::entry_matches;
use crate::search::lemma_result_membership;
use crate::search::result_of_entry;
use crate::search::spec_search_results;

verus! {

/// The value of a lower-case hexadecimal digit; -1 for any other
/// character.
pub open spec fn hex_val(c: char) -> int {
    if c == '0' {
        0
    } else if c == '1' {
        1
    } else if c == '2' {
        2
    } else if c == '3' {
        3
    } else if c == '4' {
        4
    } else if c == '5' {
        5
    } else if c == '6' {
        6
    } else if c == '7' {
        7
    } else if c == '8' {
        8
    } else if c == '9' {
        9
    } else if c == 'a' {
        10
    } else if c == 'b' {
        11
    } else if c == 'c' {
        12
    } else if c == 'd' {
        13
    } else if c == 'e' {
        14
    } else if c == 'f' {
        15
    } else {
        -1
    }
}

/// Every character of the sequence is a unicode scalar value, as every
/// character drawn from a real string is.
pub open spec fn valid_chars(s: Seq<char>) -> bool {
    forall|i: int| 0 <= i < s.len() ==> (#[trigger] s[i]) as char == s[i]
}

/// Scan the body of a JSON string literal: decode escapes up to the
/// first unescaped quote, and return the decoded content together with
/// the remainder after that quote. `None` when no well-formed literal
/// body starts here.
pub open spec fn scan_string(s: Seq<char>) -> Option<(Seq<char>, Seq<char>)>
    decreases s.len(),
{
    if s.len() == 0 {
        None
    } else if s[0] == '"' {
        Some((Seq::<char>::empty(), s.skip(1)))
    } else if s[0] == '\\' {
        if s.len() >= 2 && (s[1] == '"' || s[1] == '\\') {
            match scan_string(s.skip(2)) {
                Some(p) => Some((seq![s[1]] + p.0, p.1)),
                None => None,
            }
        } else if s.len() >= 6 && s[1] == 'u' && s[2] == '0' && s[3] == '0' && hex_val(s[4]) >= 0
            && hex_val(s[5]) >= 0 {
            match scan_string(s.skip(6)) {
                Some(p) => Some(
                    (seq![(((16 * hex_val(s[4]) + hex_val(s[5])) as u8) as char)] + p.0, p.1),
                ),
                None => None,
            }
        } else {
            None
        }
    } else {
        match scan_string(s.skip(1)) {
            Some(p) => Some((seq![s[0]] + p.0, p.1)),
            None => None,
        }
    }
}

/// An escaped sequence decomposes at the front as well as at the back.
proof fn lemma_escaped_front(a: Seq<char>)
    requires
        a.len() > 0,
    ensures
        json_escaped(a) == json_escape_char(a[0]) + json_escaped(a.skip(1)),
    decreases a.len(),
{
    if a.len() == 1 {
        assert(a.drop_last() =~= Seq::<char>::empty());
        assert(a.skip(1) =~= Seq::<char>::empty());
        assert(json_escaped(a) =~= json_escape_char(a[0]) + json_escaped(a.skip(1)));
    } else {
        lemma_escaped_front(a.drop_last());
        assert(a.skip(1).drop_last() =~= a.drop_last().skip(1));
        assert(a.skip(1).last() == a.last());
        assert(json_escaped(a) =~= json_escape_char(a[0]) + json_escaped(a.skip(1))) by {
            assert(json_escaped(a) == json_escaped(a.drop_last()) + json_escape_char(a.last()));
            assert(json_escaped(a.skip(1)) == json_escaped(a.skip(1).drop_last())
                + json_escape_char(a.skip(1).last()));
            assert(a.drop_last()[0] == a[0]);
        };
    }
}

/// Hexadecimal digits decode to the value they encode.
proof fn lemma_hex_round_trip(n: int)
    requires
        0 <= n < 16,
    ensures
        hex_val(hex_digit(n)) == n,
{
}

/// Scanning an escaped sequence followed by a closing quote gives back
/// the original sequence and the remainder.
proof fn lemma_scan_escaped(a: Seq<char>, rest: Seq<char>)
    requires
        valid_chars(a),
    ensures
        scan_string(json_escaped(a) + seq!['"'] + rest) == Some((a, rest)),
    decreases a.len(),
{
    let s = json_escaped(a) + seq!['"'] + rest;
    if a.len() == 0 {
        assert(s =~= seq!['"'] + rest);
        assert(s[0] == '"');
        assert(s.skip(1) =~= rest);
        assert(scan_string(s) == Some((Seq::<char>::empty(), rest)));
        assert(a =~= Seq::<char>::empty());
    } else {
        lemma_escaped_front(a);
        assert(valid_chars(a.skip(1))) by {
            assert(forall|i: int|
                0 <= i < a.skip(1).len() ==> #[trigger] a.skip(1)[i] == a[i + 1]);
        };
        lemma_scan_escaped(a.skip(1), rest);
        let c = a[0];
        let tail = json_escaped(a.skip(1)) + seq!['"'] + rest;
        if c == '"' {
            assert(s =~= seq!['\\', '"'] + tail);
            assert(s[0] == '\\' && s[1] == '"' && s.len() >= 2);
            assert(s.skip(2) =~= tail);
            assert(seq![s[1]] + a.skip(1) =~= a);
        } else if c == '\\' {
            assert(s =~= seq!['\\', '\\'] + tail);
            assert(s[0] == '\\' && s[1] == '\\' && s.len() >= 2);
            assert(s.skip(2) =~= tail);
            assert(seq![s[1]] + a.skip(1) =~= a);
        } else if (c as u32) < 32 {
            let v = (c as u32) as int;
            lemma_hex_round_trip(v / 16);
            lemma_hex_round_trip(v % 16);
            assert(s =~= seq!['\\', 'u', '0', '0', hex_digit(v / 16), hex_digit(v % 16)] + tail);
            assert(s[0] == '\\' && s[1] == 'u' && s[2] == '0' && s[3] == '0' && s.len() >= 6);
            assert(s[1] != '"' && s[1] != '\\');
            assert(hex_val(s[4]) == v / 16 && hex_val(s[5]) == v % 16);
            assert(16 * (v / 16) + v % 16 == v);
            assert(16 * hex_val(s[4]) + hex_val(s[5]) == v);
            assert(c as char == c);
            let n: u32 = c as u32;
            assert(((n as u8) as char) as u32 == n);
            assert((n as u8) as char == c);
            assert((16 * hex_val(s[4]) + hex_val(s[5])) as u8 == n as u8);
            assert((((16 * hex_val(s[4]) + hex_val(s[5])) as u8) as char) == c);
            assert(s.skip(6) =~= tail);
            assert(seq![c] + a.skip(1) =~= a);
        } else {
            assert(s =~= seq![c] + tail);
            assert(s[0] == c && c != '"' && c != '\\');
            assert(s.skip(1) =~= tail);
            assert(seq![s[0]] + a.skip(1) =~= a);
        }
    }
}

/// A successful scan consumes at least the closing quote.
proof fn lemma_scan_shrinks(s: Seq<char>)
    ensures
        scan_string(s) matches Some(p) ==> p.1.len() < s.len(),
    decreases s.len(),
{
    if s.len() == 0 {
    } else if s[0] == '"' {
    } else if s[0] == '\\' {
        if s.len() >= 2 && (s[1] == '"' || s[1] == '\\') {
            lemma_scan_shrinks(s.skip(2));
        } else if s.len() >= 6 && s[1] == 'u' && s[2] == '0' && s[3] == '0' && hex_val(s[4]) >= 0
            && hex_val(s[5]) >= 0 {
            lemma_scan_shrinks(s.skip(6));
        }
    } else {
        lemma_scan_shrinks(s.skip(1));
    }
}

/// Decode one result object, returning the record and the remainder
/// after the closing brace. `None` when no object of the emitted shape
/// starts here.
pub open spec fn parse_object(s: Seq<char>) -> Option<(FileResultView, Seq<char>)> {
    let k1 = "{\"full_file_name\":\""@;
    let k2 = ",\"path\":\""@;
    if s.len() >= k1.len() && s.take(k1.len() as int) == k1 {
        match scan_string(s.skip(k1.len() as int)) {
            Some(p1) => {
                let r1 = p1.1;
                if r1.len() >= k2.len() && r1.take(k2.len() as int) == k2 {
                    match scan_string(r1.skip(k2.len() as int)) {
                        Some(p2) => {
                            if p2.1.len() >= 1 && p2.1[0] == '}' {
                                Some(
                                    (
                                        FileResultView { full_file_name: p1.0, path: p2.0 },
                                        p2.1.skip(1),
                                    ),
                                )
                            } else {
                                None
                            }
                        },
                        None => None,
                    }
                } else {
                    None
                }
            },
            None => None,
        }
    } else {
        None
    }
}

/// A successful object parse consumes at least the closing brace.
proof fn lemma_parse_object_shrinks(s: Seq<char>)
    ensures
        parse_object(s) matches Some(p) ==> p.1.len() < s.len(),
{
    let k1 = "{\"full_file_name\":\""@;
    let k2 = ",\"path\":\""@;
    if s.len() >= k1.len() && s.take(k1.len() as int) == k1 {
        lemma_scan_shrinks(s.skip(k1.len() as int));
        match scan_string(s.skip(k1.len() as int)) {
            Some(p1) => {
                let r1 = p1.1;
                if r1.len() >= k2.len() && r1.take(k2.len() as int) == k2 {
                    lemma_scan_shrinks(r1.skip(k2.len() as int));
                }
            },
            None => {},
        }
    }
}

/// Every character of both fields is a unicode scalar value.
pub open spec fn valid_result(r: FileResultView) -> bool {
    valid_chars(r.full_file_name) && valid_chars(r.path)
}

/// Parsing inverts the encoding of one object, whatever follows it.
proof fn lemma_parse_object_inverts(r: FileResultView, rest: Seq<char>)
    requires
        valid_result(r),
    ensures
        parse_object(json_of_result(r) + rest) == Some((r, rest)),
{
    reveal_strlit("{\"full_file_name\":\"");
    reveal_strlit("\",\"path\":\"");
    reveal_strlit(",\"path\":\"");
    reveal_strlit("\"}");
    let k1 = "{\"full_file_name\":\""@;
    let k2 = ",\"path\":\""@;
    let s = json_of_result(r) + rest;
    let rest2 = seq!['}'] + rest;
    let rest1 = k2 + (json_escaped(r.path) + seq!['"'] + rest2);
    assert(s =~= k1 + (json_escaped(r.full_file_name) + seq!['"'] + rest1));
    assert(s.take(k1.len() as int) =~= k1);
    assert(s.skip(k1.len() as int) =~= json_escaped(r.full_file_name) + seq!['"'] + rest1);
    lemma_scan_escaped(r.full_file_name, rest1);
    assert(rest1.take(k2.len() as int) =~= k2);
    assert(rest1.skip(k2.len() as int) =~= json_escaped(r.path) + seq!['"'] + rest2);
    lemma_scan_escaped(r.path, rest2);
    assert(rest2[0] == '}');
    assert(rest2.skip(1) =~= rest);
    assert(FileResultView { full_file_name: r.full_file_name, path: r.path } == r);
}

/// Decode the comma-separated object list, returning the records and
/// the remainder after the last object.
pub open spec fn parse_items(s: Seq<char>) -> Option<(Seq<FileResultView>, Seq<char>)>
    decreases s.len(),
    via parse_items_decreases
{
    match parse_object(s) {
        Some(p) => {
            if p.1.len() >= 1 && p.1[0] == ',' {
                match parse_items(p.1.skip(1)) {
                    Some(q) => Some((seq![p.0] + q.0, q.1)),
                    None => None,
                }
            } else {
                Some((seq![p.0], p.1))
            }
        },
        None => None,
    }
}

#[via_fn]
proof fn parse_items_decreases(s: Seq<char>) {
    lemma_parse_object_shrinks(s);
}

/// Decode a whole results array: `[]`, or bracketed comma-separated
/// objects with nothing after the closing bracket.
pub open spec fn parse_results(s: Seq<char>) -> Option<Seq<FileResultView>> {
    if s.len() >= 2 && s[0] == '[' {
        if s.len() == 2 && s[1] == ']' {
            Some(Seq::<FileResultView>::empty())
        } else {
            match parse_items(s.skip(1)) {
                Some(p) => {
                    if p.1 == seq![']'] {
                        Some(p.0)
                    } else {
                        None
                    }
                },
                None => None,
            }
        }
    } else {
        None
    }
}

/// A non-empty record list decomposes at the front as well as at the
/// back.
proof fn lemma_json_items_front(rs: Seq<FileResultView>)
    requires
        rs.len() >= 2,
    ensures
        json_items(rs) == json_of_result(rs[0]) + seq![','] + json_items(rs.skip(1)),
    decreases rs.len(),
{
    reveal_strlit(",");
    reveal_with_fuel(json_items, 3);
    assert(","@ =~= seq![',']);
    if rs.len() == 2 {
        assert(rs.drop_last() =~= seq![rs[0]]);
        assert(rs.skip(1) =~= seq![rs[1]]);
        assert(json_items(rs) =~= json_of_result(rs[0]) + seq![','] + json_items(rs.skip(1)));
    } else {
        lemma_json_items_front(rs.drop_last());
        assert(rs.skip(1).drop_last() =~= rs.drop_last().skip(1));
        assert(rs.skip(1).last() == rs.last());
        assert(rs.drop_last()[0] == rs[0]);
        assert(json_items(rs.skip(1)) == json_items(rs.skip(1).drop_last()) + ","@
            + json_of_result(rs.skip(1).last()));
        assert(json_items(rs) =~= json_of_result(rs[0]) + seq![','] + json_items(rs.skip(1)));
    }
}

/// Every record of the list has valid characters.
pub open spec fn valid_results(rs: Seq<FileResultView>) -> bool {
    forall|i: int| 0 <= i < rs.len() ==> valid_result(#[trigger] rs[i])
}

/// Parsing inverts the encoding of a non-empty object list closed by a
/// bracket.
proof fn lemma_parse_items_inverts(rs: Seq<FileResultView>)
    requires
        rs.len() >= 1,
        valid_results(rs),
    ensures
        parse_items(json_items(rs) + seq![']']) == Some((rs, seq![']'])),
    decreases rs.len(),
{
    if rs.len() == 1 {
        assert(json_items(rs) == json_of_result(rs[0]));
        lemma_parse_object_inverts(rs[0], seq![']']);
        assert(seq![rs[0]] =~= rs);
    } else {
        lemma_json_items_front(rs);
        let rest = seq![','] + (json_items(rs.skip(1)) + seq![']']);
        assert(json_items(rs) + seq![']'] =~= json_of_result(rs[0]) + rest);
        lemma_parse_object_inverts(rs[0], rest);
        assert(rest[0] == ',');
        assert(rest.skip(1) =~= json_items(rs.skip(1)) + seq![']']);
        assert(valid_results(rs.skip(1))) by {
            assert(forall|i: int|
                0 <= i < rs.skip(1).len() ==> #[trigger] rs.skip(1)[i] == rs[i + 1]);
        };
        lemma_parse_items_inverts(rs.skip(1));
        assert(seq![rs[0]] + rs.skip(1) =~= rs);
    }
}

/// Law: decoding inverts encoding. The JSON string emitted for a result
/// list parses back to exactly that list, so the string determines the
/// results completely.
pub proof fn lemma_json_round_trip(rs: Seq<FileResultView>)
    requires
        valid_results(rs),
    ensures
        parse_results(json_of_results(rs)) == Some(rs),
{
    reveal_strlit("[");
    reveal_strlit("]");
    let s = json_of_results(rs);
    assert(s[0] == '[');
    if rs.len() == 0 {
        assert(json_items(rs) =~= Seq::<char>::empty());
        assert(s =~= seq!['[', ']']);
        assert(rs =~= Seq::<FileResultView>::empty());
    } else {
        reveal_strlit("{\"full_file_name\":\"");
        let k1 = "{\"full_file_name\":\""@;
        assert(json_items(rs).len() >= k1.len()) by {
            if rs.len() == 1 {
                assert(json_items(rs) == json_of_result(rs[0]));
            } else {
                lemma_json_items_front(rs);
            }
        };
        assert(s.len() > 2);
        assert(s.skip(1) =~= json_items(rs) + seq![']']);
        lemma_parse_items_inverts(rs);
    }
}

/// Law: the JSON string emitted for a search over the given entries
/// parses back to exactly the records that the structured search
/// reports.
pub proof fn lemma_search_json_parses_back(term: Seq<char>, entries: Seq<WalkEntryView>)
    requires
        forall|i: int|
            0 <= i < entries.len() ==> valid_chars(#[trigger] entries[i].file_name)
                && valid_chars(entries[i].parent),
    ensures
        parse_results(json_of_results(spec_search_results(term, entries))) == Some(
            spec_search_results(term, entries),
        ),
{
    let rs = spec_search_results(term, entries);
    assert forall|i: int| 0 <= i < rs.len() implies valid_result(#[trigger] rs[i]) by {
        assert(rs.contains(rs[i]));
        lemma_result_membership(term, entries, rs[i]);
        let x = choose|x: WalkEntryView|
            entries.contains(x) && #[trigger] entry_matches(term, x) && rs[i]
                == result_of_entry(x);
        let k = choose|k: int| 0 <= k < entries.len() && entries[k] == x;
        assert(valid_chars(entries[k].file_name) && valid_chars(entries[k].parent));
    };
    lemma_json_round_trip(rs);
}

/// Law: the encoding is injective — equal JSON strings can only come
/// from equal result lists.
pub proof fn lemma_json_injective(rs1: Seq<FileResultView>, rs2: Seq<FileResultView>)
    requires
        valid_results(rs1),
        valid_results(rs2),
    ensures
        json_of_results(rs1) == json_of_results(rs2) ==> rs1 == rs2,
{
    if json_of_results(rs1) == json_of_results(rs2) {
        lemma_json_round_trip(rs1);
        lemma_json_round_trip(rs2);
    }
}

} // verus!
