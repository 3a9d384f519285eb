//! Serialization of search results to a JSON array.
//!
//! Each result becomes an object with exactly two string fields,
//! `full_file_name` and `path`, in that key order; the array keeps the
//! order of the result list. The encoder is verified down to the
//! character: its output is pinned by the spec functions below.

use vstd::prelude::*;

use crate::search::FileResult;
use crate::search::FileResultView;
use crate::search::views_of_results;

verus! {

/// The lower-case hexadecimal digit for a value below sixteen.
pub open spec fn hex_digit(n: int) -> char {
    if n == 0 {
        '0'
    } else if n == 1 {
        '1'
    } else if n == 2 {
        '2'
    } else if n == 3 {
        '3'
    } else if n == 4 {
        '4'
    } else if n == 5 {
        '5'
    } else if n == 6 {
        '6'
    } else if n == 7 {
        '7'
    } else if n == 8 {
        '8'
    } else if n == 9 {
        '9'
    } else if n == 10 {
        'a'
    } else if n == 11 {
        'b'
    } else if n == 12 {
        'c'
    } else if n == 13 {
        'd'
    } else if n == 14 {
        'e'
    } else {
        'f'
    }
}

fn hex_digit_char(n: u32) -> (c: char)
    requires
        n < 16,
    ensures
        c == hex_digit(n as int),
{
    if n == 0 {
        '0'
    } else if n == 1 {
        '1'
    } else if n == 2 {
        '2'
    } else if n == 3 {
        '3'
    } else if n == 4 {
        '4'
    } else if n == 5 {
        '5'
    } else if n == 6 {
        '6'
    } else if n == 7 {
        '7'
    } else if n == 8 {
        '8'
    } else if n == 9 {
        '9'
    } else if n == 10 {
        'a'
    } else if n == 11 {
        'b'
    } else if n == 12 {
        'c'
    } else if n == 13 {
        'd'
    } else if n == 14 {
        'e'
    } else {
        'f'
    }
}

/// The JSON escape of one character inside a string literal: quote and
/// backslash get a leading backslash, control characters become
/// `\u00XX`, and every other character stands as itself.
pub open spec fn json_escape_char(c: char) -> Seq<char> {
    if c == '"' {
        seq!['\\', '"']
    } else if c == '\\' {
        seq!['\\', '\\']
    } else if (c as u32) < 32 {
        seq![
            '\\',
            'u',
            '0',
            '0',
            hex_digit((c as u32) as int / 16),
            hex_digit((c as u32) as int % 16),
        ]
    } else {
        seq![c]
    }
}

/// A character sequence escaped for use inside a JSON string literal.
pub open spec fn json_escaped(s: Seq<char>) -> Seq<char>
    decreases s.len(),
{
    if s.len() == 0 {
        Seq::<char>::empty()
    } else {
        json_escaped(s.drop_last()) + json_escape_char(s.last())
    }
}

/// Relies on `String::push`: appends the character to the end of the
/// string.
#[verifier::external_body]
fn push_char(s: &mut String, c: char)
    ensures
        final(s)@ == old(s)@.push(c),
{
    s.push(c);
}

/// Append the JSON escape of every character of `s` to `out`.
fn append_escaped(out: &mut String, s: &str)
    ensures
        final(out)@ == old(out)@ + json_escaped(s@),
{
    let len: usize = s.unicode_len();
    let mut i: usize = 0;
    proof {
        assert(json_escaped(s@.take(0)) =~= Seq::<char>::empty());
        assert(out@ =~= out@ + json_escaped(s@.take(0)));
    }
    while i < len
        invariant
            i <= len,
            len == s@.len(),
            out@ == old(out)@ + json_escaped(s@.take(i as int)),
        decreases len - i,
    {
        let c: char = s.get_char(i);
        let ghost prev = out@;
        if c == '"' {
            push_char(out, '\\');
            push_char(out, '"');
        } else if c == '\\' {
            push_char(out, '\\');
            push_char(out, '\\');
        } else {
            let v: u32 = c as u32;
            if v < 32 {
                push_char(out, '\\');
                push_char(out, 'u');
                push_char(out, '0');
                push_char(out, '0');
                push_char(out, hex_digit_char(v / 16));
                push_char(out, hex_digit_char(v % 16));
            } else {
                push_char(out, c);
            }
        }
        proof {
            assert(out@ =~= prev + json_escape_char(c));
            assert(s@.take(i + 1).drop_last() =~= s@.take(i as int));
            assert(s@.take(i + 1).last() == s@[i as int]);
            assert(out@ =~= old(out)@ + json_escaped(s@.take(i + 1)));
        }
        i = i + 1;
    }
    proof {
        assert(s@.take(len as int) =~= s@);
    }
}

/// The JSON object for one result: the two string fields
/// `full_file_name` and `path`, in that key order.
pub open spec fn json_of_result(r: FileResultView) -> Seq<char> {
    "{\"full_file_name\":\""@ + json_escaped(r.full_file_name) + "\",\"path\":\""@
        + json_escaped(r.path) + "\"}"@
}

/// The comma-separated object list of a JSON array, without brackets.
pub open spec fn json_items(rs: Seq<FileResultView>) -> Seq<char>
    decreases rs.len(),
{
    if rs.len() == 0 {
        Seq::<char>::empty()
    } else if rs.len() == 1 {
        json_of_result(rs[0])
    } else {
        json_items(rs.drop_last()) + ","@ + json_of_result(rs.last())
    }
}

/// The JSON array for a result list: `[]` when empty, else the objects
/// in list order, separated by commas.
pub open spec fn json_of_results(rs: Seq<FileResultView>) -> Seq<char> {
    "["@ + json_items(rs) + "]"@
}

/// Append the JSON object of one result to `out`.
fn append_result(out: &mut String, r: &FileResult)
    ensures
        final(out)@ == old(out)@ + json_of_result(r@),
{
    out.append("{\"full_file_name\":\"");
    append_escaped(out, r.full_file_name.as_str());
    out.append("\",\"path\":\"");
    append_escaped(out, r.path.as_str());
    out.append("\"}");
    proof {
        assert(out@ =~= old(out)@ + json_of_result(r@));
    }
}

/// Serialize a result list to its JSON array. Total: every result list
/// has a JSON form.
pub fn results_to_json(results: &Vec<FileResult>) -> (s: String)
    ensures
        s@ == json_of_results(views_of_results(results@)),
{
    let ghost rvs = views_of_results(results@);
    let mut out: String = String::new();
    out.append("[");
    let n: usize = results.len();
    let mut i: usize = 0;
    proof {
        assert(rvs.take(0) =~= Seq::<FileResultView>::empty());
        assert(out@ =~= "["@ + json_items(rvs.take(0)));
    }
    while i < n
        invariant
            i <= n,
            n == results@.len(),
            rvs == views_of_results(results@),
            out@ == "["@ + json_items(rvs.take(i as int)),
        decreases n - i,
    {
        if i > 0 {
            out.append(",");
        }
        append_result(&mut out, &results[i]);
        proof {
            assert(rvs.take(i + 1).drop_last() =~= rvs.take(i as int));
            assert(rvs.take(i + 1).last() == rvs[i as int]);
            assert(rvs[i as int] == results@[i as int]@);
            if i == 0 {
                assert(json_items(rvs.take(1)) == json_of_result(rvs.take(1)[0]));
                assert(rvs.take(1)[0] == rvs[0]);
                assert(out@ =~= "["@ + json_items(rvs.take(i + 1)));
            } else {
                assert(out@ =~= "["@ + json_items(rvs.take(i + 1)));
            }
        }
        i = i + 1;
    }
    out.append("]");
    proof {
        assert(rvs.take(n as int) =~= rvs);
        assert(out@ =~= json_of_results(rvs));
    }
    out
}

} // verus!
