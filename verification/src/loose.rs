//! Getting JSON out of the reply of a language model, which may wrap it in prose
//! or break off before its end.

use crate::error::LlmError;
use crate::json;
use crate::json::{Json, JsonView};
use crate::scan;
use crate::text;
use vstd::prelude::*;
use vstd::string::*;
use vstd::utf8::*;

verus! {

/// How many bytes at each end of a reply the report quotes.
pub const QUOTED_BYTES: usize = 300;

/// The array of a reply that starts with an object: the name that it stands
/// under, and the place behind its opening bracket. The name is what the first
/// pair of quotes before the bracket encloses.
pub open spec fn array_head(t: Seq<char>) -> Option<(Seq<char>, int)> {
    match t.index_of_first('{') {
        None => None,
        Some(start) => match t.subrange(start, t.len() as int).index_of_first('[') {
            None => None,
            Some(length) => {
                let head = t.subrange(start, start + length);
                match head.index_of_first('"') {
                    None => None,
                    Some(open) => match head.subrange(
                        open + 1,
                        head.len() as int,
                    ).index_of_first('"') {
                        None => None,
                        Some(count) => Some(
                            (head.subrange(open + 1, open + 1 + count), start + length + 1),
                        ),
                    },
                }
            },
        },
    }
}

/// The complete objects and strings from `i` on in an array of which `depth`
/// inner arrays are open at `i`, up to the end of the array or to the first
/// object or string that is incomplete or not valid. What inner arrays hold is
/// passed over.
pub open spec fn elements_from(t: Seq<char>, i: int, depth: nat) -> Seq<JsonView>
    decreases t.len() - i,
{
    if i < 0 || i >= t.len() {
        Seq::empty()
    } else if t[i] == '{' {
        match scan::object_at(t, i) {
            Some((end, v)) => {
                proof {
                    scan::lemma_braces_end(t, i, 0);
                }
                if depth == 0 {
                    seq![v] + elements_from(t, end, depth)
                } else {
                    elements_from(t, end, depth)
                }
            },
            None => Seq::empty(),
        }
    } else if t[i] == '"' {
        match scan::string_at(t, i) {
            Some((end, s)) => {
                proof {
                    scan::lemma_string_end(t, i + 1);
                }
                if depth == 0 {
                    seq![JsonView::Text(s)] + elements_from(t, end, depth)
                } else {
                    elements_from(t, end, depth)
                }
            },
            None => Seq::empty(),
        }
    } else if t[i] == '[' {
        elements_from(t, i + 1, depth + 1)
    } else if t[i] == ']' {
        if depth == 0 {
            Seq::empty()
        } else {
            elements_from(t, i + 1, (depth - 1) as nat)
        }
    } else {
        elements_from(t, i + 1, depth)
    }
}

/// Where an array ends of which `depth` inner arrays are open at `i`: behind its
/// closing bracket. Brackets within strings and objects do not count.
pub open spec fn array_end(t: Seq<char>, i: int, depth: nat) -> Option<int>
    decreases t.len() - i,
{
    if i < 0 || i >= t.len() {
        None
    } else if t[i] == '{' {
        match scan::object_at(t, i) {
            Some((end, v)) => {
                proof {
                    scan::lemma_braces_end(t, i, 0);
                }
                array_end(t, end, depth)
            },
            None => None,
        }
    } else if t[i] == '"' {
        match scan::string_at(t, i) {
            Some((end, s)) => {
                proof {
                    scan::lemma_string_end(t, i + 1);
                }
                array_end(t, end, depth)
            },
            None => None,
        }
    } else if t[i] == '[' {
        array_end(t, i + 1, depth + 1)
    } else if t[i] == ']' {
        if depth == 0 {
            Some(i + 1)
        } else {
            array_end(t, i + 1, (depth - 1) as nat)
        }
    } else {
        array_end(t, i + 1, depth)
    }
}

/// An object with one member, an array.
pub open spec fn object_of_array(name: Seq<char>, items: Seq<JsonView>) -> JsonView {
    JsonView::Object(Map::empty().insert(name, JsonView::Array(items)))
}

/// What can be kept of a reply that breaks off within its array: an object that
/// holds, under the array's name, the elements that are complete.
pub open spec fn salvaged(t: Seq<char>) -> Option<JsonView> {
    match array_head(t) {
        Some((name, from)) => if name.len() > 0 && elements_from(t, from, 0).len() > 0 {
            Some(object_of_array(name, elements_from(t, from, 0)))
        } else {
            None
        },
        None => None,
    }
}

/// The JSON between the first opening and the last closing brace of a text.
pub open spec fn braced(t: Seq<char>) -> Option<JsonView> {
    match (t.index_of_first('{'), t.index_of_last('}')) {
        (Some(a), Some(b)) => if a < b {
            match json::json_of_text(t.subrange(a, b + 1)) {
                Ok(v) => Some(v),
                Err(_) => None,
            }
        } else {
            None
        },
        _ => None,
    }
}

/// The JSON of a reply: the whole reply if that is JSON, else what its outer
/// braces enclose, else what can be salvaged of it.
pub open spec fn recovered(reply: Seq<char>) -> Option<JsonView> {
    let t = text::trimmed(reply);
    match json::json_of_text(t) {
        Ok(v) => Some(v),
        Err(_) => match braced(t) {
            Some(v) => Some(v),
            None => salvaged(t),
        },
    }
}

/// Whether both ends of a reply can be quoted without breaking a character.
pub open spec fn quotable(reply: Seq<char>) -> bool {
    &&& text::has_head(text::trimmed(reply), QUOTED_BYTES as nat)
    &&& text::has_tail(text::trimmed(reply), QUOTED_BYTES as nat)
}

/// The report on a reply that holds no JSON.
pub open spec fn no_json_report(reply: Seq<char>) -> Seq<char> {
    let t = text::trimmed(reply);
    "响应不是 JSON: 头["@ + text::head_text(t, QUOTED_BYTES as nat) + "] 尾["@ + text::tail_text(
        t,
        QUOTED_BYTES as nat,
    ) + "]"@
}

/// Finds the array of a reply that starts with an object.
pub fn find_array(chars: &Vec<char>) -> (r: Option<(String, usize)>)
    ensures
        match array_head(chars@) {
            Some((name, from)) => r is Some && r->Some_0.0@ == name && r->Some_0.1 == from,
            None => r is None,
        },
{
    let n: usize = chars.len();
    proof {
        assert(chars@.subrange(0, n as int) =~= chars@);
    }
    let start: usize = match text::find_char(chars, 0, n, '{') {
        Some(k) => k,
        None => {
            return None;
        },
    };
    let bracket: usize = match text::find_char(chars, start, n, '[') {
        Some(k) => k,
        None => {
            return None;
        },
    };
    let open: usize = match text::find_char(chars, start, bracket, '"') {
        Some(k) => k,
        None => {
            return None;
        },
    };
    proof {
        let head = chars@.subrange(start as int, bracket as int);
        assert(head.subrange(open - start + 1, head.len() as int) =~= chars@.subrange(
            open + 1,
            bracket as int,
        ));
    }
    let close: usize = match text::find_char(chars, open + 1, bracket, '"') {
        Some(k) => k,
        None => {
            return None;
        },
    };
    proof {
        let head = chars@.subrange(start as int, bracket as int);
        assert(head.subrange(open - start + 1, close - start) =~= chars@.subrange(
            open + 1,
            close as int,
        ));
    }
    Some((text::string_of(chars, open + 1, close), bracket + 1))
}

/// An object that holds an array under a name, unless one of the two is empty.
pub fn object_with_array(name: String, items: Vec<Json>) -> (r: Option<Json>)
    ensures
        r is Some <==> name@.len() > 0 && items@.len() > 0,
        r is Some ==> r->Some_0@ == object_of_array(name@, json::item_views(items@)),
{
    if name.as_str().is_empty() || items.len() == 0 {
        return None;
    }
    let mut members: Vec<(String, Json)> = Vec::new();
    let member = (name, Json::Array(items));
    proof {
        json::lemma_push_member(members@, member);
    }
    members.push(member);
    Some(Json::Object(members))
}

/// Keeps the complete elements of an array within which a reply breaks off.
pub fn salvage_truncated_array(t: &str) -> (r: Option<Json>)
    ensures
        match salvaged(t@) {
            Some(v) => r is Some && r->Some_0@ == v,
            None => r is None,
        },
{
    let chars = text::chars_of(t);
    match find_array(&chars) {
        Some((name, from)) => {
            let elements = complete_elements(&chars, from);
            proof {
                json::lemma_item_views(elements@);
            }
            object_with_array(name, elements)
        },
        None => None,
    }
}

/// The complete objects and strings of an array whose opening bracket lies before
/// `from`.
pub fn complete_elements(t: &Vec<char>, from: usize) -> (r: Vec<Json>)
    ensures
        json::item_views(r@) == elements_from(t@, from as int, 0),
{
    let n: usize = t.len();
    let mut elements: Vec<Json> = Vec::new();
    let mut depth: usize = 0;
    let mut i: usize = from;
    let ghost mut found: Seq<JsonView> = Seq::empty();
    while i < n
        invariant
            n == t.len(),
            from <= i,
            depth <= i - from,
            json::item_views(elements@) == found,
            elements_from(t@, from as int, 0) == found + elements_from(
                t@,
                i as int,
                depth as nat,
            ),
        decreases n - i,
    {
        let c = t[i];
        if c == '{' || c == '"' {
            match scan_element(t, i) {
                Some((end, v)) => {
                    if depth == 0 {
                        proof {
                            json::lemma_push_item(elements@, v);
                            found = found.push(v@);
                        }
                        elements.push(v);
                    }
                    i = end;
                },
                None => {
                    proof {
                        assert(found + Seq::<JsonView>::empty() =~= found);
                    }
                    return elements;
                },
            }
        } else if c == '[' {
            depth = depth + 1;
            i = i + 1;
        } else if c == ']' {
            if depth == 0 {
                proof {
                    assert(found + Seq::<JsonView>::empty() =~= found);
                }
                return elements;
            }
            depth = depth - 1;
            i = i + 1;
        } else {
            i = i + 1;
        }
    }
    proof {
        assert(found + Seq::<JsonView>::empty() =~= found);
    }
    elements
}

/// Reads the object or string that starts at `i`, giving the place behind it and
/// what it is.
fn scan_element(t: &Vec<char>, i: usize) -> (r: Option<(usize, Json)>)
    requires
        i < t.len(),
        t@[i as int] == '{' || t@[i as int] == '"',
    ensures
        t@[i as int] == '{' ==> match scan::object_at(t@, i as int) {
            Some((end, v)) => r is Some && r->Some_0.0 == end && r->Some_0.1@ == v,
            None => r is None,
        },
        t@[i as int] == '"' ==> match scan::string_at(t@, i as int) {
            Some((end, s)) => r is Some && r->Some_0.0 == end && r->Some_0.1@
                == JsonView::Text(s),
            None => r is None,
        },
        r is Some ==> i < r->Some_0.0 <= t.len(),
{
    if t[i] == '{' {
        scan::scan_json_object(t, i)
    } else {
        match scan::scan_json_string(t, i) {
            Some((end, s)) => Some((end, Json::Text(s))),
            None => None,
        }
    }
}

/// The JSON between the first opening and the last closing brace of a text.
fn parse_braced(t: &str) -> (r: Option<Json>)
    ensures
        match braced(t@) {
            Some(v) => r is Some && r->Some_0@ == v,
            None => r is None,
        },
{
    let chars = text::chars_of(t);
    proof {
        assert(chars@.subrange(0, chars@.len() as int) =~= chars@);
    }
    match (text::find_char(&chars, 0, chars.len(), '{'), text::rfind_char(&chars, '}')) {
        (Some(a), Some(b)) => {
            if a < b {
                match json::parse_json(text::string_of(&chars, a, b + 1).as_str()) {
                    Ok(v) => Some(v),
                    Err(_e) => None,
                }
            } else {
                None
            }
        },
        _ => None,
    }
}

/// The JSON of a reply, if there is any to be had.
pub fn recover_json(reply: &str) -> (r: Option<Json>)
    ensures
        match recovered(reply@) {
            Some(v) => r is Some && r->Some_0@ == v,
            None => r is None,
        },
{
    let t = text::trim(reply);
    match json::parse_json(t) {
        Ok(v) => Some(v),
        Err(_e) => match parse_braced(t) {
            Some(v) => Some(v),
            None => salvage_truncated_array(t),
        },
    }
}

/// The error for a reply that holds no JSON: it quotes both ends of the reply.
pub fn no_json_error(reply: &str) -> (r: LlmError)
    requires
        quotable(reply@),
    ensures
        r.0@ == no_json_report(reply@),
{
    let t = text::trim(reply);
    let mut report = "响应不是 JSON: 头[".to_owned();
    report.append(text::head(t, QUOTED_BYTES));
    report.append("] 尾[");
    report.append(text::tail(t, QUOTED_BYTES));
    report.append("]");
    LlmError(report)
}

/// The JSON of a reply, or a report that quotes both ends of it.
pub fn parse_json_loose(reply: &str) -> (r: Result<Json, LlmError>)
    requires
        recovered(reply@) is Some || quotable(reply@),
    ensures
        match recovered(reply@) {
            Some(v) => r is Ok && r->Ok_0@ == v,
            None => r is Err && r->Err_0.0@ == no_json_report(reply@),
        },
{
    match recover_json(reply) {
        Some(v) => Ok(v),
        None => Err(no_json_error(reply)),
    }
}

/// The outcome of [`parse_json_loose`], or nothing if the reply holds no JSON
/// and its ends cannot be quoted.
pub fn parse_json_loose_checked(reply: &str) -> (r: Option<Result<Json, LlmError>>)
    ensures
        match recovered(reply@) {
            Some(v) => r is Some && r->Some_0 is Ok && r->Some_0->Ok_0@ == v,
            None => if quotable(reply@) {
                r is Some && r->Some_0 is Err && r->Some_0->Err_0.0@ == no_json_report(reply@)
            } else {
                r is None
            },
        },
{
    let t = text::trim(reply);
    if text::can_take_head(t, QUOTED_BYTES) && text::can_take_tail(t, QUOTED_BYTES) {
        Some(parse_json_loose(reply))
    } else {
        match recover_json(reply) {
            Some(v) => Some(Ok(v)),
            None => None,
        }
    }
}

/// A reply that is JSON, apart from white space around it, is taken as it is.
pub proof fn law_json_is_taken_as_it_is(reply: Seq<char>)
    ensures
        json::json_of_text(text::trimmed(reply)) matches Ok(v) ==> recovered(reply) == Some(v),
{
}

/// Whether the text from `i` up to `j` holds nothing that an element could start
/// with and no bracket.
pub open spec fn is_gap(t: Seq<char>, i: int, j: int) -> bool {
    &&& 0 <= i <= j <= t.len()
    &&& forall|k: int|
        i <= k < j ==> #[trigger] t[k] != '{' && t[k] != '"' && t[k] != '[' && t[k] != ']'
}

/// What lies between elements is passed over.
proof fn lemma_gap(t: Seq<char>, i: int, j: int)
    requires
        is_gap(t, i, j),
    ensures
        elements_from(t, i, 0) == elements_from(t, j, 0),
    decreases j - i,
{
    if i < j {
        assert(t[i] != '{' && t[i] != '"' && t[i] != '[' && t[i] != ']');
        lemma_gap(t, i + 1, j);
    }
}

/// Inner arrays are passed over up to their ends; behind one that has no end
/// nothing is kept.
proof fn lemma_inner_array(t: Seq<char>, i: int, depth: nat)
    requires
        0 <= i,
    ensures
        elements_from(t, i, depth + 1) == match array_end(t, i, depth) {
            Some(end) => elements_from(t, end, 0),
            None => Seq::empty(),
        },
    decreases t.len() - i,
{
    if i < t.len() {
        if t[i] == '{' {
            if let Some((end, v)) = scan::object_at(t, i) {
                scan::lemma_braces_end(t, i, 0);
                lemma_inner_array(t, end, depth);
            }
        } else if t[i] == '"' {
            if let Some((end, s)) = scan::string_at(t, i) {
                scan::lemma_string_end(t, i + 1);
                lemma_inner_array(t, end, depth);
            }
        } else if t[i] == '[' {
            lemma_inner_array(t, i + 1, depth + 1);
        } else if t[i] == ']' {
            if depth > 0 {
                lemma_inner_array(t, i + 1, (depth - 1) as nat);
            }
        } else {
            lemma_inner_array(t, i + 1, depth);
        }
    }
}

/// The next object or string of an array, behind whatever separates it from the
/// one before, is kept if it is complete; if it is not, neither it nor anything
/// behind it is. An inner array is passed over as a whole, and the end of the
/// array is the end of its elements.
pub proof fn law_elements_are_kept_up_to_the_first_incomplete_one(t: Seq<char>, i: int, j: int)
    requires
        is_gap(t, i, j),
    ensures
        j == t.len() ==> elements_from(t, i, 0).len() == 0,
        j < t.len() && t[j] == ']' ==> elements_from(t, i, 0).len() == 0,
        j < t.len() && t[j] == '{' ==> elements_from(t, i, 0) == match scan::object_at(t, j) {
            Some((end, v)) => seq![v] + elements_from(t, end, 0),
            None => Seq::empty(),
        },
        j < t.len() && t[j] == '"' ==> elements_from(t, i, 0) == match scan::string_at(t, j) {
            Some((end, s)) => seq![JsonView::Text(s)] + elements_from(t, end, 0),
            None => Seq::empty(),
        },
        j < t.len() && t[j] == '[' ==> elements_from(t, i, 0) == match array_end(t, j + 1, 0) {
            Some(end) => elements_from(t, end, 0),
            None => Seq::empty(),
        },
{
    lemma_gap(t, i, j);
    lemma_inner_array(t, j + 1, 0);
}

/// The end of an array lies behind its start, within the text and right behind a
/// closing bracket.
proof fn lemma_array_end(t: Seq<char>, i: int, depth: nat)
    ensures
        array_end(t, i, depth) matches Some(end) ==> i < end <= t.len() && t[end - 1] == ']',
    decreases t.len() - i,
{
    if 0 <= i < t.len() {
        if t[i] == '{' {
            if let Some((end, v)) = scan::object_at(t, i) {
                scan::lemma_braces_end(t, i, 0);
                lemma_array_end(t, end, depth);
            }
        } else if t[i] == '"' {
            if let Some((end, s)) = scan::string_at(t, i) {
                scan::lemma_string_end(t, i + 1);
                lemma_array_end(t, end, depth);
            }
        } else if t[i] == '[' {
            lemma_array_end(t, i + 1, depth + 1);
        } else if t[i] == ']' {
            if depth > 0 {
                lemma_array_end(t, i + 1, (depth - 1) as nat);
            }
        } else {
            lemma_array_end(t, i + 1, depth);
        }
    }
}

/// Where an array ends, and what it holds, does not depend on what follows it.
proof fn lemma_array_stays(t: Seq<char>, more: Seq<char>, i: int, depth: nat)
    requires
        array_end(t, i, depth) is Some,
    ensures
        array_end(t + more, i, depth) == array_end(t, i, depth),
        elements_from(t + more, i, depth) == elements_from(t, i, depth),
    decreases t.len() - i,
{
    assert((t + more)[i] == t[i]);
    if t[i] == '{' {
        scan::lemma_braces_end(t, i, 0);
        scan::lemma_object_stays(t, more, i);
        lemma_array_stays(t, more, (scan::object_at(t, i)->0).0, depth);
    } else if t[i] == '"' {
        scan::lemma_string_end(t, i + 1);
        scan::lemma_string_stays(t, more, i);
        lemma_array_stays(t, more, (scan::string_at(t, i)->0).0, depth);
    } else if t[i] == '[' {
        lemma_array_stays(t, more, i + 1, depth + 1);
    } else if t[i] == ']' {
        if depth > 0 {
            lemma_array_stays(t, more, i + 1, (depth - 1) as nat);
        }
    } else {
        lemma_array_stays(t, more, i + 1, depth);
    }
}

/// Where an array ends, and what it holds, can be told from the text up to its
/// end.
proof fn lemma_array_within(t: Seq<char>, n: int, i: int, depth: nat)
    requires
        array_end(t, i, depth) is Some,
        array_end(t, i, depth)->0 <= n <= t.len(),
    ensures
        array_end(t.take(n), i, depth) == array_end(t, i, depth),
        elements_from(t.take(n), i, depth) == elements_from(t, i, depth),
    decreases t.len() - i,
{
    lemma_array_end(t, i, depth);
    assert(t.take(n)[i] == t[i]);
    if t[i] == '{' {
        let end = (scan::object_at(t, i)->0).0;
        scan::lemma_braces_end(t, i, 0);
        lemma_array_end(t, end, depth);
        scan::lemma_object_within(t, n, i);
        lemma_array_within(t, n, end, depth);
    } else if t[i] == '"' {
        let end = (scan::string_at(t, i)->0).0;
        scan::lemma_string_end(t, i + 1);
        lemma_array_end(t, end, depth);
        scan::lemma_string_within(t, n, i);
        lemma_array_within(t, n, end, depth);
    } else if t[i] == '[' {
        lemma_array_within(t, n, i + 1, depth + 1);
    } else if t[i] == ']' {
        if depth > 0 {
            lemma_array_within(t, n, i + 1, (depth - 1) as nat);
        }
    } else {
        lemma_array_within(t, n, i + 1, depth);
    }
}

/// Where something first stands does not depend on what follows it.
proof fn lemma_first_stays(t: Seq<char>, more: Seq<char>, c: char)
    requires
        t.contains(c),
    ensures
        (t + more).index_of_first(c) == t.index_of_first(c),
        t.index_of_first(c) is Some,
{
    t.index_of_first_ensures(c);
    (t + more).index_of_first_ensures(c);
    let k = t.index_of_first(c)->0;
    assert((t + more)[k] == c);
    assert((t + more).contains(c));
    let m = (t + more).index_of_first(c)->0;
    if m < k {
        assert((t + more)[m] == t[m]);
    }
}

/// The name and the start of an array do not depend on what follows its opening
/// bracket.
proof fn lemma_array_head_stays(t: Seq<char>, more: Seq<char>)
    requires
        array_head(t) is Some,
    ensures
        array_head(t + more) == array_head(t),
{
    t.index_of_first_ensures('{');
    lemma_first_stays(t, more, '{');
    let start = t.index_of_first('{')->0;
    let rest = t.subrange(start, t.len() as int);
    rest.index_of_first_ensures('[');
    lemma_first_stays(rest, more, '[');
    assert((t + more).subrange(start, (t + more).len() as int) =~= rest + more);
    let length = rest.index_of_first('[')->0;
    assert((t + more).subrange(start, start + length) =~= t.subrange(start, start + length));
}

/// The name and the start of an array can be told from the text up to its opening
/// bracket.
proof fn lemma_array_head_from_start(t: Seq<char>, n: int)
    requires
        array_head(t) is Some,
        (array_head(t)->0).1 <= n <= t.len(),
    ensures
        array_head(t.take(n)) == array_head(t),
{
    let (short, more) = (t.take(n), t.skip(n));
    lemma_array_head_within(t);
    assert(short + more =~= t);
    t.index_of_first_ensures('{');
    let start = t.index_of_first('{')->0;
    let rest = t.subrange(start, t.len() as int);
    rest.index_of_first_ensures('[');
    let length = rest.index_of_first('[')->0;
    assert(short[start] == '{');
    lemma_first_stays(short, more, '{');
    let short_rest = short.subrange(start, n);
    assert(short_rest[length] == rest[length]);
    assert(short_rest + more =~= rest);
    lemma_first_stays(short_rest, more, '[');
    assert(short.subrange(start, start + length) =~= t.subrange(start, start + length));
}

/// The complete elements of a text are the first of those that a longer text
/// has.
proof fn lemma_elements_stay(t: Seq<char>, more: Seq<char>, i: int, depth: nat)
    requires
        0 <= i,
    ensures
        elements_from(t, i, depth).is_prefix_of(elements_from(t + more, i, depth)),
    decreases t.len() - i,
{
    let long = elements_from(t + more, i, depth);
    assert(long.subrange(0, 0) =~= Seq::empty());
    if i < t.len() {
        assert((t + more)[i] == t[i]);
        if t[i] == '{' {
            if let Some((end, v)) = scan::object_at(t, i) {
                scan::lemma_braces_end(t, i, 0);
                scan::lemma_object_stays(t, more, i);
                lemma_elements_stay(t, more, end, depth);
                lemma_prefix_after(
                    v,
                    elements_from(t, end, depth),
                    elements_from(t + more, end, depth),
                );
            }
        } else if t[i] == '"' {
            if let Some((end, s)) = scan::string_at(t, i) {
                scan::lemma_string_end(t, i + 1);
                scan::lemma_string_stays(t, more, i);
                lemma_elements_stay(t, more, end, depth);
                lemma_prefix_after(
                    JsonView::Text(s),
                    elements_from(t, end, depth),
                    elements_from(t + more, end, depth),
                );
            }
        } else if t[i] == '[' {
            lemma_elements_stay(t, more, i + 1, depth + 1);
        } else if t[i] == ']' {
            if depth > 0 {
                lemma_elements_stay(t, more, i + 1, (depth - 1) as nat);
            }
        } else {
            lemma_elements_stay(t, more, i + 1, depth);
        }
    }
}

/// One list starts with another also if both come after the same value.
proof fn lemma_prefix_after(v: JsonView, few: Seq<JsonView>, many: Seq<JsonView>)
    requires
        few.is_prefix_of(many),
    ensures
        (seq![v] + few).is_prefix_of(seq![v] + many),
{
    assert((seq![v] + many).subrange(0, 1 + few.len() as int) =~= seq![v] + many.subrange(
        0,
        few.len() as int,
    ));
}

/// What is salvaged of a reply that breaks off is what the longer reply would
/// have begun with: the same name, and elements that are the first of those of
/// the longer reply.
pub proof fn law_salvaging_only_leaves_out_the_end(t: Seq<char>, more: Seq<char>)
    requires
        salvaged(t) is Some,
    ensures
        array_head(t) is Some,
        array_head(t + more) == array_head(t),
        ({
            let (name, from) = array_head(t)->0;
            let kept = elements_from(t, from, 0);
            let all = elements_from(t + more, from, 0);
            &&& kept.is_prefix_of(all)
            &&& salvaged(t) == Some(object_of_array(name, kept))
            &&& salvaged(t + more) == Some(object_of_array(name, all))
        }),
{
    lemma_array_head_stays(t, more);
    lemma_array_head_within(t);
    let (name, from) = array_head(t)->0;
    lemma_elements_stay(t, more, from, 0);
}

/// The start of an array lies within the text.
proof fn lemma_array_head_within(t: Seq<char>)
    ensures
        array_head(t) matches Some((name, from)) ==> 0 < from <= t.len(),
{
    if array_head(t) is Some {
        t.index_of_first_ensures('{');
        let start = t.index_of_first('{')->0;
        let rest = t.subrange(start, t.len() as int);
        rest.index_of_first_ensures('[');
    }
}

/// Once the array of a reply is closed, nothing behind its closing bracket changes
/// what is salvaged: neither what stands there nor anything in its place.
pub proof fn law_nothing_behind_the_array_counts(t: Seq<char>, other: Seq<char>)
    requires
        array_head(t) is Some,
        array_end(t, (array_head(t)->0).1, 0) is Some,
    ensures
        ({
            let from = (array_head(t)->0).1;
            let end = array_end(t, from, 0)->0;
            &&& from < end <= t.len()
            &&& t[end - 1] == ']'
            &&& array_head(t.take(end) + other) == array_head(t)
            &&& elements_from(t.take(end) + other, from, 0) == elements_from(t, from, 0)
            &&& salvaged(t.take(end) + other) == salvaged(t)
        }),
{
    let (name, from) = array_head(t)->0;
    let end = array_end(t, from, 0)->0;
    let closed = t.take(end);
    lemma_array_end(t, from, 0);
    lemma_array_head_from_start(t, end);
    lemma_array_head_stays(closed, other);
    lemma_array_within(t, end, from, 0);
    lemma_array_stays(closed, other, from, 0);
}

/// Where the elements of an array stop: at its closing bracket, or at the end of
/// the text if that breaks off within the array.
pub open spec fn elements_end(t: Seq<char>, i: int, depth: nat) -> int {
    match array_end(t, i, depth) {
        Some(end) => end - 1,
        None => t.len() as int,
    }
}

/// Each of the complete elements is a string or an object that stands in the
/// text from `i` on and within the array.
proof fn lemma_elements_stand_in_the_array(t: Seq<char>, i: int, depth: nat, k: int)
    requires
        0 <= i,
        0 <= k < elements_from(t, i, depth).len(),
    ensures
        exists|a: int, b: int|
            i <= a < b <= elements_end(t, i, depth) && #[trigger] is_element(
                t,
                a,
                b,
                elements_from(t, i, depth)[k],
            ),
    decreases t.len() - i,
{
    if t[i] == '{' || t[i] == '"' {
        scan::lemma_braces_end(t, i, 0);
        scan::lemma_string_end(t, i + 1);
        let end = if t[i] == '{' {
            (scan::object_at(t, i)->0).0
        } else {
            (scan::string_at(t, i)->0).0
        };
        lemma_array_end(t, end, depth);
        if depth > 0 {
            lemma_elements_stand_in_the_array(t, end, depth, k);
        } else if k == 0 {
            assert(is_element(t, i, end, elements_from(t, i, depth)[k]));
        } else {
            lemma_elements_stand_in_the_array(t, end, depth, k - 1);
            assert(elements_from(t, i, depth)[k] == elements_from(t, end, depth)[k - 1]);
        }
    } else if t[i] == '[' {
        lemma_elements_stand_in_the_array(t, i + 1, depth + 1, k);
    } else if t[i] == ']' {
        lemma_elements_stand_in_the_array(t, i + 1, (depth - 1) as nat, k);
    } else {
        lemma_elements_stand_in_the_array(t, i + 1, depth, k);
    }
}

/// Whether the text from `a` up to `b` starts as an object or a string does and
/// is the JSON of a value.
pub open spec fn is_element(t: Seq<char>, a: int, b: int, v: JsonView) -> bool {
    &&& t[a] == '{' || t[a] == '"'
    &&& json::json_of_text(t.subrange(a, b)) == Ok::<JsonView, Seq<char>>(v)
}

/// Nothing is made up: the salvaged object has one member, under a name that is
/// not empty, and it holds at least one element, each of which stands in the
/// reply within the array.
pub proof fn law_salvaged_elements_stand_in_the_array(t: Seq<char>, k: int)
    requires
        salvaged(t) is Some,
    ensures
        ({
            let (name, from) = array_head(t)->0;
            let kept = elements_from(t, from, 0);
            &&& salvaged(t) == Some(object_of_array(name, kept))
            &&& name.len() > 0
            &&& kept.len() > 0
            &&& 0 <= k < kept.len() ==> exists|a: int, b: int|
                from <= a < b <= elements_end(t, from, 0) && #[trigger] is_element(
                    t,
                    a,
                    b,
                    kept[k],
                )
        }),
{
    let (name, from) = array_head(t)->0;
    lemma_array_head_within(t);
    if 0 <= k < elements_from(t, from, 0).len() {
        lemma_elements_stand_in_the_array(t, from, 0, k);
    }
}

/// Taking white space off the start leaves the rest of the text.
proof fn lemma_trimmed_start_keeps(before: Seq<char>, rest: Seq<char>) -> (left: Seq<char>)
    requires
        rest.len() > 0,
        !text::white_space(rest[0]),
    ensures
        text::trimmed_start(before + rest) == left + rest,
        forall|c: char| left.contains(c) ==> before.contains(c),
    decreases before.len(),
{
    if before.len() > 0 && text::white_space(before[0]) {
        assert((before + rest)[0] == before[0]);
        assert((before + rest).drop_first() =~= before.drop_first() + rest);
        let left = lemma_trimmed_start_keeps(before.drop_first(), rest);
        assert forall|c: char| left.contains(c) implies before.contains(c) by {
            let k = before.drop_first().index_of(c);
            assert(before.drop_first()[k] == c);
            assert(before[k + 1] == c);
        }
        left
    } else {
        if before.len() > 0 {
            assert((before + rest)[0] == before[0]);
        } else {
            assert((before + rest)[0] == rest[0]);
        }
        before
    }
}

/// Taking white space off the end leaves the start of the text.
proof fn lemma_trimmed_end_keeps(rest: Seq<char>, after: Seq<char>) -> (left: Seq<char>)
    requires
        rest.len() > 0,
        !text::white_space(rest.last()),
    ensures
        text::trimmed_end(rest + after) == rest + left,
        forall|c: char| left.contains(c) ==> after.contains(c),
    decreases after.len(),
{
    if after.len() > 0 && text::white_space(after.last()) {
        assert((rest + after).last() == after.last());
        assert((rest + after).drop_last() =~= rest + after.drop_last());
        let left = lemma_trimmed_end_keeps(rest, after.drop_last());
        assert forall|c: char| left.contains(c) implies after.contains(c) by {
            let k = after.drop_last().index_of(c);
            assert(after.drop_last()[k] == c);
            assert(after[k] == c);
        }
        left
    } else {
        if after.len() > 0 {
            assert((rest + after).last() == after.last());
        } else {
            assert((rest + after).last() == rest.last());
        }
        after
    }
}

/// Text around an object that has no opening brace before and no closing brace
/// after it, such as the fence of a code block, does not hide the object.
pub proof fn law_an_object_is_found_within_other_text(
    before: Seq<char>,
    object: Seq<char>,
    after: Seq<char>,
)
    requires
        object.len() > 1,
        object[0] == '{',
        object.last() == '}',
        json::json_of_text(object) is Ok,
        !before.contains('{'),
        !after.contains('}'),
        json::json_of_text(text::trimmed(before + object + after)) is Err,
    ensures
        recovered(before + object + after) == Some(json::json_of_text(object)->Ok_0),
{
    let head = lemma_trimmed_start_keeps(before, object + after);
    assert(before + object + after =~= before + (object + after));
    assert((object + after)[0] == '{');
    assert((head + object).last() == '}');
    let tail = lemma_trimmed_end_keeps(head + object, after);
    assert(head + (object + after) =~= head + object + after);
    let t = head + object + tail;
    assert(text::trimmed(before + object + after) == t);
    let a = head.len() as int;
    let b = head.len() + object.len() - 1;
    assert(t[a] == '{' && t[b] == '}');
    t.index_of_first_ensures('{');
    t.index_of_last_ensures('}');
    let first = t.index_of_first('{')->0;
    let last = t.index_of_last('}')->0;
    if first < a {
        assert(head[first] == '{');
        assert(head.contains('{'));
    }
    if last > b {
        assert(tail[last - b - 1] == '}');
        assert(tail.contains('}'));
    }
    assert(t.subrange(a, b + 1) =~= object);
}

/// A reply without an opening brace that is no JSON has nothing to be recovered.
pub proof fn law_prose_is_not_taken_for_json(reply: Seq<char>)
    requires
        !text::trimmed(reply).contains('{'),
        json::json_of_text(text::trimmed(reply)) is Err,
    ensures
        recovered(reply) is None,
{
    text::trimmed(reply).index_of_first_ensures('{');
}

/// Whether a text holds no quote, opening brace or bracket.
pub open spec fn plain(s: Seq<char>) -> bool {
    !s.contains('"') && !s.contains('{') && !s.contains('[') && !s.contains(']')
}

/// An element of an array as it is written: what separates it from the one before,
/// its own text, and its value.
pub struct Element {
    pub gap: Seq<char>,
    pub text: Seq<char>,
    pub value: JsonView,
}

/// Whether an element is a complete object or string behind a plain gap.
pub open spec fn complete(e: Element) -> bool {
    &&& plain(e.gap)
    &&& scan::whole_object(e.text, e.value) || (e.value is Text && scan::whole_string(
        e.text,
        e.value->Text_0,
    ))
}

/// The text of some elements, one behind the other.
pub open spec fn written(elements: Seq<Element>) -> Seq<char>
    decreases elements.len(),
{
    if elements.len() == 0 {
        Seq::empty()
    } else {
        elements[0].gap + elements[0].text + written(elements.drop_first())
    }
}

/// The values of some elements.
pub open spec fn values_of(elements: Seq<Element>) -> Seq<JsonView> {
    elements.map_values(|e: Element| e.value)
}

/// A plain text between two others is a gap.
proof fn lemma_plain_is_gap(start: Seq<char>, gap: Seq<char>, rest: Seq<char>)
    requires
        plain(gap),
    ensures
        is_gap(start + gap + rest, start.len() as int, (start.len() + gap.len()) as int),
{
    let t = start + gap + rest;
    assert forall|k: int| start.len() <= k < start.len() + gap.len() implies #[trigger] t[k] != '{'
        && t[k] != '"' && t[k] != '[' && t[k] != ']' by {
        assert(t[k] == gap[k - start.len()]);
        assert(gap.contains(t[k]));
    }
}

/// A gap does not decide where an array ends.
proof fn lemma_array_gap(t: Seq<char>, i: int, j: int, depth: nat)
    requires
        is_gap(t, i, j),
    ensures
        array_end(t, i, depth) == array_end(t, j, depth),
    decreases j - i,
{
    if i < j {
        assert(t[i] != '{' && t[i] != '"' && t[i] != '[' && t[i] != ']');
        lemma_array_gap(t, i + 1, j, depth);
    }
}

/// Complete elements, however they are written and separated, are all kept, in
/// their order, and do not decide where the array ends.
pub proof fn law_each_complete_element_is_kept(
    start: Seq<char>,
    elements: Seq<Element>,
    rest: Seq<char>,
)
    requires
        forall|k: int| 0 <= k < elements.len() ==> complete(#[trigger] elements[k]),
    ensures
        ({
            let t = start + written(elements) + rest;
            let from = start.len() as int;
            let to = (start.len() + written(elements).len()) as int;
            &&& elements_from(t, from, 0) == values_of(elements) + elements_from(t, to, 0)
            &&& array_end(t, from, 0) == array_end(t, to, 0)
        }),
    decreases elements.len(),
{
    let t = start + written(elements) + rest;
    let from = start.len() as int;
    if elements.len() == 0 {
        assert(values_of(elements) =~= Seq::empty());
        assert(Seq::<JsonView>::empty() + elements_from(t, from, 0) =~= elements_from(t, from, 0));
    } else {
        let e = elements[0];
        let others = elements.drop_first();
        let tail = written(others) + rest;
        let begun = start + e.gap;
        assert(complete(e));
        assert(t =~= start + e.gap + (e.text + tail));
        lemma_plain_is_gap(start, e.gap, e.text + tail);
        lemma_gap(t, from, begun.len() as int);
        lemma_array_gap(t, from, begun.len() as int, 0);
        assert(t =~= begun + e.text + tail);
        assert(t[begun.len() as int] == e.text[0]);
        if scan::whole_object(e.text, e.value) {
            scan::law_every_object_is_found(begun, e.text, tail, e.value);
        } else {
            scan::law_every_string_is_found(begun, e.text, tail, e.value->Text_0);
        }
        let longer = begun + e.text;
        assert(t =~= longer + written(others) + rest);
        assert forall|k: int| 0 <= k < others.len() implies complete(#[trigger] others[k]) by {
            assert(others[k] == elements[k + 1]);
        }
        law_each_complete_element_is_kept(longer, others, rest);
        let to = (start.len() + written(elements).len()) as int;
        assert(longer.len() + written(others).len() == to);
        assert(seq![e.value] + (values_of(others) + elements_from(t, to, 0)) =~= values_of(elements)
            + elements_from(t, to, 0));
    }
}

/// Whether a text breaks off within an element, or closes the array, or ends: it
/// is empty, starts with a closing bracket, or starts a string or an object that
/// it does not close.
pub open spec fn broken_off(s: Seq<char>) -> bool {
    ||| s.len() == 0
    ||| s[0] == ']'
    ||| s[0] == '"' && forall|k: int|
        1 <= k < s.len() ==> !#[trigger] scan::closing_quote(s, 1, k)
    ||| s[0] == '{' && forall|e: int| !#[trigger] scan::balanced(s, 0, e)
}

/// Where a text breaks off there is nothing more to keep.
proof fn lemma_nothing_after_the_break(start: Seq<char>, gap: Seq<char>, cut: Seq<char>)
    requires
        plain(gap),
        broken_off(cut),
    ensures
        elements_from(start + gap + cut, start.len() as int, 0).len() == 0,
{
    let t = start + gap + cut;
    let j = (start.len() + gap.len()) as int;
    lemma_plain_is_gap(start, gap, cut);
    lemma_gap(t, start.len() as int, j);
    assert(t.skip(j) =~= cut);
    if cut.len() > 0 {
        assert(t[j] == cut[0]);
        if cut[0] == '"' {
            scan::law_a_string_ends_with_its_first_closing_quote(cut, 1, 1);
            scan::lemma_string_shifts(t, j, 0);
        } else if cut[0] == '{' {
            if let Some(e) = scan::braces_end(cut, 0, 0) {
                scan::law_braces_end_where_they_are_balanced(cut, 0, e);
            }
            scan::lemma_braces_end_shifts(t, j, 0, 0);
        }
    }
}

/// A text that opens an object and, under a name, an array in it.
pub open spec fn opening(
    before: Seq<char>,
    lead: Seq<char>,
    name: Seq<char>,
    colon: Seq<char>,
) -> Seq<char> {
    before + seq!['{'] + lead + seq!['"'] + name + seq!['"'] + colon + seq!['[']
}

/// Whether the parts of an opening hold nothing that would be taken for another
/// part.
pub open spec fn clear_opening(
    before: Seq<char>,
    lead: Seq<char>,
    name: Seq<char>,
    colon: Seq<char>,
) -> bool {
    &&& !before.contains('{')
    &&& !lead.contains('[') && !lead.contains('"')
    &&& !name.contains('[') && !name.contains('"')
    &&& !colon.contains('[')
}

/// What stands behind a text without a character is where the character first
/// stands.
proof fn lemma_first_after(before: Seq<char>, c: char, after: Seq<char>)
    requires
        !before.contains(c),
    ensures
        (before + seq![c] + after).index_of_first(c) == Some(before.len() as int),
{
    let t = before + seq![c] + after;
    t.index_of_first_ensures(c);
    assert(t[before.len() as int] == c);
    assert(t.contains(c));
    let k = t.index_of_first(c)->0;
    if k < before.len() {
        assert(before[k] == c);
        assert(before.contains(c));
    }
}

/// The array of a reply is the one that the first bracket behind the first brace
/// opens, and its name is the first quoted text between the two; and a reply in
/// which there are no such brace, bracket and quotes has no array.
pub proof fn law_the_array_is_the_first_behind_the_first_brace(
    before: Seq<char>,
    lead: Seq<char>,
    name: Seq<char>,
    colon: Seq<char>,
    rest: Seq<char>,
)
    requires
        clear_opening(before, lead, name, colon),
    ensures
        array_head(opening(before, lead, name, colon) + rest) == Some(
            (name, opening(before, lead, name, colon).len() as int),
        ),
{
    let t = opening(before, lead, name, colon) + rest;
    let inner = lead + seq!['"'] + name + seq!['"'] + colon;
    let start = before.len() as int;
    assert(t =~= before + seq!['{'] + (inner + seq!['['] + rest));
    lemma_first_after(before, '{', inner + seq!['['] + rest);
    let head = seq!['{'] + inner;
    assert forall|k: int| 0 <= k < head.len() implies head[k] != '[' by {
        if head[k] == '[' {
            if k == 0 {
            } else if k <= lead.len() {
                assert(lead[k - 1] == '[');
            } else if k == lead.len() + 1 {
            } else if k < lead.len() + 2 + name.len() {
                assert(name[k - lead.len() - 2] == '[');
            } else if k == lead.len() + name.len() + 2 {
            } else {
                assert(colon[k - lead.len() - name.len() - 3] == '[');
            }
        }
    }
    assert(!head.contains('['));
    assert(t.subrange(start, t.len() as int) =~= head + seq!['['] + rest);
    lemma_first_after(head, '[', rest);
    assert(t.subrange(start, start + head.len()) =~= head);
    let first = seq!['{'] + lead;
    let quoted = first.len() as int + 1;
    assert forall|k: int| 0 <= k < first.len() implies first[k] != '"' by {
        if k > 0 && first[k] == '"' {
            assert(lead[k - 1] == '"');
        }
    }
    assert(head =~= first + seq!['"'] + (name + seq!['"'] + colon));
    lemma_first_after(first, '"', name + seq!['"'] + colon);
    assert(head.subrange(quoted, head.len() as int) =~= name + seq!['"'] + colon);
    lemma_first_after(name, '"', colon);
    assert(head.subrange(quoted, quoted + name.len()) =~= name);
}

/// A reply that has an array has an opening, which the array's name and start
/// come from.
pub proof fn law_an_array_has_an_opening(t: Seq<char>)
    requires
        array_head(t) is Some,
    ensures
        exists|before: Seq<char>, lead: Seq<char>, name: Seq<char>, colon: Seq<char>|
            #[trigger] clear_opening(before, lead, name, colon) && opening(
                before,
                lead,
                name,
                colon,
            ).is_prefix_of(t) && array_head(t) == Some(
                (name, opening(before, lead, name, colon).len() as int),
            ),
{
    t.index_of_first_ensures('{');
    let start = t.index_of_first('{')->0;
    let rest = t.subrange(start, t.len() as int);
    rest.index_of_first_ensures('[');
    let length = rest.index_of_first('[')->0;
    let head = t.subrange(start, start + length);
    assert(forall|k: int| 0 <= k < length ==> head[k] == rest[k]);
    head.index_of_first_ensures('"');
    let open = head.index_of_first('"')->0;
    let quoted = head.subrange(open + 1, head.len() as int);
    quoted.index_of_first_ensures('"');
    let count = quoted.index_of_first('"')->0;
    assert(head[0] == '{');
    let before = t.take(start);
    let lead = head.subrange(1, open);
    let name = head.subrange(open + 1, open + 1 + count);
    let colon = head.subrange(open + 2 + count, head.len() as int);
    assert(forall|k: int| 0 <= k < name.len() ==> name[k] == quoted[k]);
    assert(quoted[count] == head[open + 1 + count]);
    let whole = opening(before, lead, name, colon);
    assert(whole =~= t.subrange(0, start + length + 1)) by {
        assert(t[start + length] == rest[length]);
    }
    assert(clear_opening(before, lead, name, colon));
    assert(whole.len() == start + length + 1);
}

/// What is salvaged of a reply that breaks off within its array, or behind it, is
/// an object that holds, under the array's name and nothing else, the values of
/// all the elements that are complete.
pub proof fn law_a_cut_off_array_keeps_its_complete_elements(
    before: Seq<char>,
    lead: Seq<char>,
    name: Seq<char>,
    colon: Seq<char>,
    elements: Seq<Element>,
    gap: Seq<char>,
    cut: Seq<char>,
)
    requires
        clear_opening(before, lead, name, colon),
        forall|k: int| 0 <= k < elements.len() ==> complete(#[trigger] elements[k]),
        plain(gap),
        broken_off(cut),
    ensures
        salvaged(opening(before, lead, name, colon) + written(elements) + gap + cut) == if name.len()
            > 0 && elements.len() > 0 {
            Some(
                JsonView::Object(
                    Map::empty().insert(name, JsonView::Array(values_of(elements))),
                ),
            )
        } else {
            None
        },
{
    let start = opening(before, lead, name, colon);
    let rest = gap + cut;
    let t = start + written(elements) + gap + cut;
    assert(t =~= start + (written(elements) + rest));
    law_the_array_is_the_first_behind_the_first_brace(
        before,
        lead,
        name,
        colon,
        written(elements) + rest,
    );
    assert(t =~= start + written(elements) + rest);
    law_each_complete_element_is_kept(start, elements, rest);
    lemma_nothing_after_the_break(start + written(elements), gap, cut);
    let to = (start.len() + written(elements).len()) as int;
    assert(elements_from(t, to, 0) =~= Seq::empty());
    assert(values_of(elements) + Seq::<JsonView>::empty() =~= values_of(elements));
}

/// A reply that is no JSON, and of which what its outer braces enclose is none
/// either, gives what can be salvaged of it: for one that breaks off within its
/// array, an object with the values of all the elements that are complete.
pub proof fn law_a_cut_off_reply_keeps_its_complete_elements(
    reply: Seq<char>,
    before: Seq<char>,
    lead: Seq<char>,
    name: Seq<char>,
    colon: Seq<char>,
    elements: Seq<Element>,
    gap: Seq<char>,
    cut: Seq<char>,
)
    requires
        text::trimmed(reply) == opening(before, lead, name, colon) + written(elements) + gap + cut,
        clear_opening(before, lead, name, colon),
        name.len() > 0,
        elements.len() > 0,
        forall|k: int| 0 <= k < elements.len() ==> complete(#[trigger] elements[k]),
        plain(gap),
        broken_off(cut),
        json::json_of_text(text::trimmed(reply)) is Err,
        forall|b: int|
            #![trigger text::trimmed(reply)[b]]
            before.len() < b < text::trimmed(reply).len() && text::trimmed(reply)[b] == '}'
                && !text::trimmed(reply).skip(b + 1).contains('}') ==> json::json_of_text(
                text::trimmed(reply).subrange(before.len() as int, b + 1),
            ) is Err,
    ensures
        recovered(reply) == Some(
            JsonView::Object(Map::empty().insert(name, JsonView::Array(values_of(elements)))),
        ),
{
    let t = text::trimmed(reply);
    law_a_cut_off_array_keeps_its_complete_elements(
        before,
        lead,
        name,
        colon,
        elements,
        gap,
        cut,
    );
    let after = lead + seq!['"'] + name + seq!['"'] + colon + seq!['['] + written(elements) + gap
        + cut;
    assert(t =~= before + seq!['{'] + after);
    lemma_first_after(before, '{', after);
    t.index_of_last_ensures('}');
    if let Some(b) = t.index_of_last('}') {
        let rest = t.skip(b + 1);
        if rest.contains('}') {
            let k = rest.index_of('}');
            assert(t[b + 1 + k] == '}');
        }
        assert(t[b] == '}');
    }
}

/// A reply is salvaged only where neither it nor what its outer braces enclose is
/// JSON, and then it always is.
pub proof fn law_salvaging_is_the_last_resort(before: Seq<char>, middle: Seq<char>, after: Seq<char>)
    requires
        !before.contains('{'),
        !after.contains('}'),
        text::trimmed(before + middle + after) == before + middle + after,
        json::json_of_text(before + middle + after) is Err,
        middle.len() > 1,
        middle[0] == '{',
        middle.last() == '}',
    ensures
        recovered(before + middle + after) == match json::json_of_text(middle) {
            Ok(v) => Some(v),
            Err(_) => salvaged(before + middle + after),
        },
{
    let t = before + middle + after;
    assert(t =~= before + seq!['{'] + (middle.drop_first() + after));
    lemma_first_after(before, '{', middle.drop_first() + after);
    t.index_of_last_ensures('}');
    let b = before.len() + middle.len() - 1;
    assert(t[b] == '}');
    let last = t.index_of_last('}')->0;
    if last > b {
        assert(after[last - b - 1] == '}');
    }
    assert(t.subrange(before.len() as int, b + 1) =~= middle);
}

/// A reply without a closing brace behind an opening one is salvaged if it is no
/// JSON.
pub proof fn law_an_open_reply_is_salvaged(reply: Seq<char>)
    requires
        json::json_of_text(text::trimmed(reply)) is Err,
        forall|a: int, b: int|
            0 <= a < b < text::trimmed(reply).len() && #[trigger] text::trimmed(reply)[a] == '{'
                ==> #[trigger] text::trimmed(reply)[b] != '}',
    ensures
        recovered(reply) == salvaged(text::trimmed(reply)),
{
    let t = text::trimmed(reply);
    t.index_of_first_ensures('{');
    t.index_of_last_ensures('}');
}

/// The report on a reply without JSON quotes the start and the end of the reply,
/// without the white space around it: all of it if it has at most 300 bytes, else
/// 300 bytes of each.
pub proof fn law_the_report_quotes_both_ends(reply: Seq<char>)
    requires
        quotable(reply),
    ensures
        exists|head: Seq<char>, tail: Seq<char>|
            {
                let size = encode_utf8(text::trimmed(reply)).len();
                &&& #[trigger] head.is_prefix_of(text::trimmed(reply))
                &&& #[trigger] tail.is_suffix_of(text::trimmed(reply))
                &&& encode_utf8(head).len() == if size <= 300 {
                    size
                } else {
                    300
                }
                &&& encode_utf8(tail).len() == encode_utf8(head).len()
                &&& no_json_report(reply) == "响应不是 JSON: 头["@ + head + "] 尾["@ + tail + "]"@
            },
{
    let t = text::trimmed(reply);
    text::law_a_head_is_a_short_start(t, QUOTED_BYTES as nat);
    text::law_a_tail_is_a_short_end(t, QUOTED_BYTES as nat);
    assert(text::head_text(t, QUOTED_BYTES as nat).is_prefix_of(t));
    assert(text::tail_text(t, QUOTED_BYTES as nat).is_suffix_of(t));
}

/// A short reply and one of ASCII characters alone can always be reported on.
pub proof fn law_short_and_plain_replies_can_be_quoted(reply: Seq<char>)
    ensures
        encode_utf8(text::trimmed(reply)).len() <= 300 ==> quotable(reply),
        is_ascii_chars(text::trimmed(reply)) ==> quotable(reply),
{
    text::law_short_and_plain_texts_can_be_cut(text::trimmed(reply), QUOTED_BYTES as nat);
}

/// With one more inner array open, an array ends where it does behind the end of
/// the inner one.
proof fn lemma_inner_array_end(t: Seq<char>, i: int, depth: nat)
    requires
        0 <= i,
    ensures
        array_end(t, i, depth + 1) == match array_end(t, i, depth) {
            Some(end) => array_end(t, end, 0),
            None => None,
        },
    decreases t.len() - i,
{
    if i < t.len() {
        if t[i] == '{' {
            if let Some((end, v)) = scan::object_at(t, i) {
                scan::lemma_braces_end(t, i, 0);
                lemma_inner_array_end(t, end, depth);
            }
        } else if t[i] == '"' {
            if let Some((end, s)) = scan::string_at(t, i) {
                scan::lemma_string_end(t, i + 1);
                lemma_inner_array_end(t, end, depth);
            }
        } else if t[i] == '[' {
            lemma_inner_array_end(t, i + 1, depth + 1);
        } else if t[i] == ']' {
            if depth > 0 {
                lemma_inner_array_end(t, i + 1, (depth - 1) as nat);
            }
        } else {
            lemma_inner_array_end(t, i + 1, depth);
        }
    }
}

/// An array of complete elements ends with the bracket behind them.
pub proof fn law_an_array_ends_with_its_bracket(
    start: Seq<char>,
    elements: Seq<Element>,
    gap: Seq<char>,
    rest: Seq<char>,
)
    requires
        forall|k: int| 0 <= k < elements.len() ==> complete(#[trigger] elements[k]),
        plain(gap),
    ensures
        ({
            let t = start + written(elements) + gap + seq![']'] + rest;
            let end = (start.len() + written(elements).len() + gap.len() + 1) as int;
            &&& array_end(t, start.len() as int, 0) == Some(end)
            &&& elements_from(t, start.len() as int, 0) == values_of(elements)
        }),
{
    let t = start + written(elements) + gap + seq![']'] + rest;
    let after = gap + seq![']'] + rest;
    assert(t =~= start + written(elements) + after);
    law_each_complete_element_is_kept(start, elements, after);
    let begun = start + written(elements);
    let j = (begun.len() + gap.len()) as int;
    assert(t =~= begun + gap + (seq![']'] + rest));
    lemma_plain_is_gap(begun, gap, seq![']'] + rest);
    lemma_gap(t, begun.len() as int, j);
    lemma_array_gap(t, begun.len() as int, j, 0);
    assert(t[j] == ']');
    assert(elements_from(t, j, 0) =~= Seq::empty());
    assert(values_of(elements) + Seq::<JsonView>::empty() =~= values_of(elements));
}

/// An inner array that ends is passed over as a whole, whatever it holds: neither
/// the elements that are kept nor the end of the outer array depend on it.
pub proof fn law_an_inner_array_is_passed_over(t: Seq<char>, i: int)
    requires
        0 <= i < t.len(),
        t[i] == '[',
        array_end(t, i + 1, 0) is Some,
    ensures
        elements_from(t, i, 0) == elements_from(t, array_end(t, i + 1, 0)->0, 0),
        array_end(t, i, 0) == array_end(t, array_end(t, i + 1, 0)->0, 0),
{
    lemma_inner_array(t, i + 1, 0);
    lemma_inner_array_end(t, i + 1, 0);
}

/// A reply of more than 300 bytes of which a start and an end have 300 bytes each
/// can be quoted, and these are what is quoted.
pub proof fn law_what_can_be_quoted_is_quoted(reply: Seq<char>, head: Seq<char>, tail: Seq<char>)
    requires
        encode_utf8(text::trimmed(reply)).len() > 300,
        head.is_prefix_of(text::trimmed(reply)),
        encode_utf8(head).len() == 300,
        tail.is_suffix_of(text::trimmed(reply)),
        encode_utf8(tail).len() == 300,
    ensures
        quotable(reply),
        no_json_report(reply) == "响应不是 JSON: 头["@ + head + "] 尾["@ + tail + "]"@,
{
    text::law_a_text_is_cut_where_characters_meet(text::trimmed(reply), 300, head);
    text::law_a_text_is_cut_where_characters_meet(text::trimmed(reply), 300, tail);
}

} // verus!
