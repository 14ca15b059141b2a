//! Where a JSON string or object that starts at a given place ends.
//!
//! The texts are replies of a language model, which may break off anywhere.

use crate::json;
use crate::json::{Json, JsonView};
use crate::text;
use vstd::prelude::*;

verus! {

/// Where a string ends of which `j` lies behind the opening quote: behind the
/// next quote that no backslash escapes.
pub open spec fn string_end(t: Seq<char>, j: int) -> Option<int>
    decreases t.len() + 1 - j,
{
    if j < 0 || j >= t.len() {
        None
    } else if t[j] == '\\' {
        string_end(t, j + 2)
    } else if t[j] == '"' {
        Some(j + 1)
    } else {
        string_end(t, j + 1)
    }
}

/// The string that starts at `i`: where it ends and what it says. There is none
/// if the text breaks off within it or if it is not a valid JSON string.
pub open spec fn string_at(t: Seq<char>, i: int) -> Option<(int, Seq<char>)> {
    match string_end(t, i + 1) {
        Some(end) => match json::json_of_text(t.subrange(i, end)) {
            Ok(JsonView::Text(s)) => Some((end, s)),
            _ => None,
        },
        None => None,
    }
}

/// Where the braces are closed of which `depth` are open at `j`. Braces within
/// strings do not count.
pub open spec fn braces_end(t: Seq<char>, j: int, depth: nat) -> Option<int>
    decreases t.len() - j,
{
    if j < 0 || j >= t.len() {
        None
    } else if t[j] == '"' {
        match string_at(t, j) {
            Some((end, s)) => {
                proof {
                    lemma_string_end(t, j + 1);
                }
                braces_end(t, end, depth)
            },
            None => None,
        }
    } else if t[j] == '{' {
        braces_end(t, j + 1, depth + 1)
    } else if t[j] == '}' {
        if depth <= 1 {
            Some(j + 1)
        } else {
            braces_end(t, j + 1, (depth - 1) as nat)
        }
    } else {
        braces_end(t, j + 1, depth)
    }
}

/// The object that starts at `i`: where it ends and what it is. There is none if
/// the text breaks off within it or if it is not valid JSON.
pub open spec fn object_at(t: Seq<char>, i: int) -> Option<(int, JsonView)> {
    match braces_end(t, i, 0) {
        Some(end) => match json::json_of_text(t.subrange(i, end)) {
            Ok(v) => Some((end, v)),
            Err(_) => None,
        },
        None => None,
    }
}

/// The end of a string lies behind its start and within the text.
pub proof fn lemma_string_end(t: Seq<char>, j: int)
    ensures
        string_end(t, j) matches Some(end) ==> j < end <= t.len(),
    decreases t.len() + 1 - j,
{
    if 0 <= j < t.len() {
        if t[j] == '\\' {
            lemma_string_end(t, j + 2);
        } else if t[j] != '"' {
            lemma_string_end(t, j + 1);
        }
    }
}

/// The end of braces lies behind their start, within the text and right behind a
/// closing brace.
pub proof fn lemma_braces_end(t: Seq<char>, j: int, depth: nat)
    ensures
        braces_end(t, j, depth) matches Some(end) ==> j < end <= t.len() && t[end - 1] == '}',
    decreases t.len() - j,
{
    if 0 <= j < t.len() {
        if t[j] == '"' {
            match string_at(t, j) {
                Some((end, s)) => {
                    lemma_string_end(t, j + 1);
                    lemma_braces_end(t, end, depth);
                },
                None => {},
            }
        } else if t[j] == '{' {
            lemma_braces_end(t, j + 1, depth + 1);
        } else if t[j] == '}' {
            if depth > 1 {
                lemma_braces_end(t, j + 1, (depth - 1) as nat);
            }
        } else {
            lemma_braces_end(t, j + 1, depth);
        }
    }
}

/// Where a string ends of which `from` lies behind the opening quote.
pub fn find_string_end(t: &Vec<char>, from: usize) -> (r: Option<usize>)
    ensures
        match string_end(t@, from as int) {
            Some(end) => r is Some && r->Some_0 == end && from < end <= t.len(),
            None => r is None,
        },
{
    proof {
        lemma_string_end(t@, from as int);
    }
    let n: usize = t.len();
    let mut j: usize = from;
    while j < n
        invariant
            n == t.len(),
            string_end(t@, from as int) == string_end(t@, j as int),
            string_end(t@, from as int) matches Some(end) ==> from < end <= n,
        decreases n - j,
    {
        if t[j] == '\\' {
            if n - j <= 2 {
                proof {
                    assert(string_end(t@, j + 2) is None);
                }
                return None;
            }
            j = j + 2;
        } else if t[j] == '"' {
            return Some(j + 1);
        } else {
            j = j + 1;
        }
    }
    None
}

/// Reads the string that starts at `i`, giving the place behind it and what it
/// says.
pub fn scan_json_string(t: &Vec<char>, i: usize) -> (r: Option<(usize, String)>)
    requires
        i < t.len(),
    ensures
        match string_at(t@, i as int) {
            Some((end, s)) => r is Some && r->Some_0.0 == end && r->Some_0.1@ == s && i < end
                <= t.len(),
            None => r is None,
        },
{
    match find_string_end(t, i + 1) {
        Some(end) => match json::parse_json(text::string_of(t, i, end).as_str()) {
            Ok(Json::Text(s)) => Some((end, s)),
            _ => None,
        },
        None => None,
    }
}

/// Reads the object that starts at `i`, giving the place behind it and what it
/// is.
pub fn scan_json_object(t: &Vec<char>, i: usize) -> (r: Option<(usize, Json)>)
    requires
        i < t.len(),
        t@[i as int] == '{',
    ensures
        match object_at(t@, i as int) {
            Some((end, v)) => r is Some && r->Some_0.0 == end && r->Some_0.1@ == v && i < end
                <= t.len(),
            None => r is None,
        },
        r is Some ==> r->Some_0.1@ is Object,
{
    let n: usize = t.len();
    let mut depth: usize = 0;
    let mut j: usize = i;
    while j < n
        invariant
            i <= j <= n,
            i < n == t.len(),
            t@[i as int] == '{',
            depth <= j - i,
            j > i ==> depth >= 1,
            braces_end(t@, i as int, 0) == braces_end(t@, j as int, depth as nat),
        decreases n - j,
    {
        let c = t[j];
        if c == '"' {
            match scan_json_string(t, j) {
                Some((end, _s)) => {
                    j = end;
                },
                None => {
                    return None;
                },
            }
        } else if c == '{' {
            depth = depth + 1;
            j = j + 1;
        } else if c == '}' {
            if depth == 1 {
                return match json::parse_json(text::string_of(t, i, j + 1).as_str()) {
                    Ok(v) => Some((j + 1, v)),
                    Err(_e) => None,
                };
            }
            depth = depth - 1;
            j = j + 1;
        } else {
            j = j + 1;
        }
    }
    None
}

/// Where a string ends does not depend on what follows it.
pub proof fn lemma_string_end_stays(t: Seq<char>, more: Seq<char>, j: int)
    requires
        string_end(t, j) is Some,
    ensures
        string_end(t + more, j) == string_end(t, j),
    decreases t.len() + 1 - j,
{
    assert((t + more)[j] == t[j]);
    if t[j] == '\\' {
        lemma_string_end_stays(t, more, j + 2);
    } else if t[j] != '"' {
        lemma_string_end_stays(t, more, j + 1);
    }
}

/// What a string says does not depend on what follows it.
pub proof fn lemma_string_stays(t: Seq<char>, more: Seq<char>, i: int)
    requires
        0 <= i,
        string_at(t, i) is Some,
    ensures
        string_at(t + more, i) == string_at(t, i),
{
    let end = (string_at(t, i)->0).0;
    lemma_string_end(t, i + 1);
    lemma_string_end_stays(t, more, i + 1);
    assert((t + more).subrange(i, end) =~= t.subrange(i, end));
}

/// Where braces are closed does not depend on what follows.
pub proof fn lemma_braces_end_stays(t: Seq<char>, more: Seq<char>, j: int, depth: nat)
    requires
        braces_end(t, j, depth) is Some,
    ensures
        braces_end(t + more, j, depth) == braces_end(t, j, depth),
    decreases t.len() - j,
{
    assert((t + more)[j] == t[j]);
    if t[j] == '"' {
        lemma_string_end(t, j + 1);
        lemma_string_stays(t, more, j);
        lemma_braces_end_stays(t, more, (string_at(t, j)->0).0, depth);
    } else if t[j] == '{' {
        lemma_braces_end_stays(t, more, j + 1, depth + 1);
    } else if t[j] == '}' {
        if depth > 1 {
            lemma_braces_end_stays(t, more, j + 1, (depth - 1) as nat);
        }
    } else {
        lemma_braces_end_stays(t, more, j + 1, depth);
    }
}

/// What an object is does not depend on what follows it.
pub proof fn lemma_object_stays(t: Seq<char>, more: Seq<char>, i: int)
    requires
        0 <= i,
        object_at(t, i) is Some,
    ensures
        object_at(t + more, i) == object_at(t, i),
{
    let end = (object_at(t, i)->0).0;
    lemma_braces_end(t, i, 0);
    lemma_braces_end_stays(t, more, i, 0);
    assert((t + more).subrange(i, end) =~= t.subrange(i, end));
}

/// Where a string ends can be told from the text up to there.
pub proof fn lemma_string_end_within(t: Seq<char>, n: int, j: int)
    requires
        string_end(t, j) is Some,
        string_end(t, j)->0 <= n <= t.len(),
    ensures
        string_end(t.take(n), j) == string_end(t, j),
    decreases t.len() + 1 - j,
{
    lemma_string_end(t, j);
    assert(t.take(n)[j] == t[j]);
    if t[j] == '\\' {
        lemma_string_end_within(t, n, j + 2);
    } else if t[j] != '"' {
        lemma_string_end_within(t, n, j + 1);
    }
}

/// What a string says can be told from the text up to its end.
pub proof fn lemma_string_within(t: Seq<char>, n: int, i: int)
    requires
        0 <= i,
        string_at(t, i) is Some,
        (string_at(t, i)->0).0 <= n <= t.len(),
    ensures
        string_at(t.take(n), i) == string_at(t, i),
{
    let end = (string_at(t, i)->0).0;
    lemma_string_end(t, i + 1);
    lemma_string_end_within(t, n, i + 1);
    assert(t.take(n).subrange(i, end) =~= t.subrange(i, end));
}

/// Where braces are closed can be told from the text up to there.
pub proof fn lemma_braces_end_within(t: Seq<char>, n: int, j: int, depth: nat)
    requires
        braces_end(t, j, depth) is Some,
        braces_end(t, j, depth)->0 <= n <= t.len(),
    ensures
        braces_end(t.take(n), j, depth) == braces_end(t, j, depth),
    decreases t.len() - j,
{
    lemma_braces_end(t, j, depth);
    assert(t.take(n)[j] == t[j]);
    if t[j] == '"' {
        let end = (string_at(t, j)->0).0;
        lemma_string_end(t, j + 1);
        lemma_braces_end(t, end, depth);
        lemma_string_within(t, n, j);
        lemma_braces_end_within(t, n, end, depth);
    } else if t[j] == '{' {
        lemma_braces_end_within(t, n, j + 1, depth + 1);
    } else if t[j] == '}' {
        if depth > 1 {
            lemma_braces_end_within(t, n, j + 1, (depth - 1) as nat);
        }
    } else {
        lemma_braces_end_within(t, n, j + 1, depth);
    }
}

/// What an object is can be told from the text up to its end.
pub proof fn lemma_object_within(t: Seq<char>, n: int, i: int)
    requires
        0 <= i,
        object_at(t, i) is Some,
        (object_at(t, i)->0).0 <= n <= t.len(),
    ensures
        object_at(t.take(n), i) == object_at(t, i),
{
    let end = (object_at(t, i)->0).0;
    lemma_braces_end(t, i, 0);
    lemma_braces_end_within(t, n, i, 0);
    assert(t.take(n).subrange(i, end) =~= t.subrange(i, end));
}

/// Where a string ends does not depend on what stands before it.
proof fn lemma_string_end_shifts(t: Seq<char>, i: int, k: int)
    requires
        0 <= i <= t.len(),
        0 <= k,
    ensures
        string_end(t.skip(i), k) == match string_end(t, i + k) {
            Some(end) => Some(end - i),
            None => None,
        },
    decreases t.len() + 1 - i - k,
{
    if i + k < t.len() {
        assert(t.skip(i)[k] == t[i + k]);
        if t[i + k] == '\\' {
            lemma_string_end_shifts(t, i, k + 2);
        } else if t[i + k] != '"' {
            lemma_string_end_shifts(t, i, k + 1);
        }
    }
}

/// What a string says does not depend on what stands before it.
pub proof fn lemma_string_shifts(t: Seq<char>, i: int, k: int)
    requires
        0 <= i <= t.len(),
        0 <= k,
    ensures
        string_at(t.skip(i), k) == match string_at(t, i + k) {
            Some((end, s)) => Some((end - i, s)),
            None => None,
        },
{
    lemma_string_end_shifts(t, i, k + 1);
    lemma_string_end(t, i + k + 1);
    if let Some(end) = string_end(t, i + k + 1) {
        assert(t.skip(i).subrange(k, end - i) =~= t.subrange(i + k, end));
    }
}

/// Where braces are closed does not depend on what stands before them.
pub proof fn lemma_braces_end_shifts(t: Seq<char>, i: int, k: int, depth: nat)
    requires
        0 <= i <= t.len(),
        0 <= k,
    ensures
        braces_end(t.skip(i), k, depth) == match braces_end(t, i + k, depth) {
            Some(end) => Some(end - i),
            None => None,
        },
    decreases t.len() - i - k,
{
    if i + k < t.len() {
        assert(t.skip(i)[k] == t[i + k]);
        if t[i + k] == '"' {
            lemma_string_shifts(t, i, k);
            lemma_string_end(t, i + k + 1);
            if let Some((end, s)) = string_at(t, i + k) {
                lemma_braces_end_shifts(t, i, end - i, depth);
            }
        } else if t[i + k] == '{' {
            lemma_braces_end_shifts(t, i, k + 1, depth + 1);
        } else if t[i + k] == '}' {
            if depth > 1 {
                lemma_braces_end_shifts(t, i, k + 1, (depth - 1) as nat);
            }
        } else {
            lemma_braces_end_shifts(t, i, k + 1, depth);
        }
    }
}

/// The object that starts at a brace ends with the brace that closes it: it is
/// the JSON of the text from one to the other, and that text is an object by
/// itself. In no shorter text from there on are the braces closed, and whatever
/// follows changes nothing.
pub proof fn law_an_object_ends_with_the_brace_that_closes_it(
    t: Seq<char>,
    i: int,
    j: int,
    more: Seq<char>,
)
    requires
        0 <= i < t.len(),
        t[i] == '{',
        object_at(t, i) is Some,
    ensures
        ({
            let (end, v) = object_at(t, i)->0;
            &&& i < end <= t.len()
            &&& t[end - 1] == '}'
            &&& json::json_of_text(t.subrange(i, end)) == Ok::<JsonView, Seq<char>>(v)
            &&& object_at(t.subrange(i, end), 0) == Some((end - i, v))
            &&& i <= j < end ==> braces_end(t.subrange(i, j), 0, 0) is None && object_at(
                t.subrange(i, j),
                0,
            ) is None
            &&& object_at(t + more, i) == object_at(t, i)
        }),
{
    let (end, v) = object_at(t, i)->0;
    lemma_braces_end(t, i, 0);
    lemma_object_stays(t, more, i);
    lemma_braces_end_within(t, end, i, 0);
    lemma_braces_end_shifts(t.take(end), i, 0, 0);
    assert(t.take(end).skip(i) =~= t.subrange(i, end));
    assert(t.subrange(i, end).subrange(0, end - i) =~= t.subrange(i, end));
    if i <= j < end {
        let short = t.take(j);
        lemma_braces_end_shifts(short, i, 0, 0);
        assert(short.skip(i) =~= t.subrange(i, j));
        lemma_braces_end(short, i, 0);
        if braces_end(short, i, 0) is Some {
            lemma_braces_end_stays(short, t.skip(j), i, 0);
            assert(short + t.skip(j) =~= t);
        }
    }
}

/// How many backslashes stand right before `j`, back to `from` at most.
pub open spec fn backslashes_before(t: Seq<char>, from: int, j: int) -> nat
    decreases j - from,
{
    if from < j && t[j - 1] == '\\' {
        1 + backslashes_before(t, from, j - 1)
    } else {
        0
    }
}

/// Whether a quote stands at `j` that no backslash escapes, in a string whose
/// content starts at `from`: an even number of backslashes stands before it.
pub open spec fn closing_quote(t: Seq<char>, from: int, j: int) -> bool {
    t[j] == '"' && backslashes_before(t, from, j) % 2 == 0
}

/// From a place that is not escaped on, a string ends at the first quote that is
/// not escaped.
proof fn lemma_first_closing_quote(t: Seq<char>, from: int, j: int)
    requires
        0 <= from <= j,
        backslashes_before(t, from, j) % 2 == 0,
    ensures
        match string_end(t, j) {
            Some(end) => j < end <= t.len() && closing_quote(t, from, end - 1) && forall|k: int|
                j <= k < end - 1 ==> !#[trigger] closing_quote(t, from, k),
            None => forall|k: int| j <= k < t.len() ==> !#[trigger] closing_quote(t, from, k),
        },
    decreases t.len() + 1 - j,
{
    if j < t.len() {
        if t[j] == '\\' {
            assert(backslashes_before(t, from, j + 1) == 1 + backslashes_before(t, from, j));
            assert(!closing_quote(t, from, j));
            assert(!closing_quote(t, from, j + 1));
            if j + 1 < t.len() && t[j + 1] == '\\' {
                assert(backslashes_before(t, from, j + 2) == 2 + backslashes_before(t, from, j));
            }
            if j + 1 < t.len() {
                lemma_first_closing_quote(t, from, j + 2);
            } else {
                assert(string_end(t, j + 2) is None);
            }
        } else if t[j] == '"' {
            assert(closing_quote(t, from, j));
        } else {
            assert(!closing_quote(t, from, j));
            lemma_first_closing_quote(t, from, j + 1);
        }
    }
}

/// A string whose content starts at `from` ends behind the first quote that is
/// not escaped, and has no end if there is no such quote.
pub proof fn law_a_string_ends_with_its_first_closing_quote(t: Seq<char>, from: int, end: int)
    requires
        0 <= from,
    ensures
        string_end(t, from) == Some(end) <==> from < end <= t.len() && closing_quote(
            t,
            from,
            end - 1,
        ) && forall|k: int| from <= k < end - 1 ==> !#[trigger] closing_quote(t, from, k),
        string_end(t, from) is None <==> forall|k: int|
            from <= k < t.len() ==> !#[trigger] closing_quote(t, from, k),
{
    lemma_first_closing_quote(t, from, from);
    if let Some(found) = string_end(t, from) {
        assert(closing_quote(t, from, found - 1));
    }
}

/// Whether a text is a string in quotes and the JSON of some characters.
pub open spec fn whole_string(o: Seq<char>, s: Seq<char>) -> bool {
    &&& o.len() >= 2
    &&& o[0] == '"'
    &&& closing_quote(o, 1, o.len() - 1)
    &&& forall|k: int| 1 <= k < o.len() - 1 ==> !#[trigger] closing_quote(o, 1, k)
    &&& json::json_of_text(o) == Ok::<JsonView, Seq<char>>(JsonView::Text(s))
}

/// Every string in quotes is found, whatever stands before and behind it.
pub proof fn law_every_string_is_found(
    before: Seq<char>,
    o: Seq<char>,
    after: Seq<char>,
    s: Seq<char>,
)
    requires
        whole_string(o, s),
    ensures
        string_at(before + o + after, before.len() as int) == Some(
            ((before.len() + o.len()) as int, s),
        ),
{
    let t = before + o + after;
    let i = before.len() as int;
    law_a_string_ends_with_its_first_closing_quote(o, 1, o.len() as int);
    assert(o.subrange(0, o.len() as int) =~= o);
    assert(string_at(o, 0) == Some((o.len() as int, s)));
    lemma_string_stays(o, after, 0);
    lemma_string_shifts(t, i, 0);
    assert(t.skip(i) =~= o + after);
}

/// Where a place in a JSON text lies: outside of strings, within one, or within
/// one right behind a backslash that escapes what follows.
pub enum Place {
    Outside,
    Inside,
    Escaped,
}

/// Where `j` lies in a text that is read from `i` on.
pub open spec fn place(t: Seq<char>, i: int, j: int) -> Place
    decreases j - i,
{
    if j <= i {
        Place::Outside
    } else {
        match place(t, i, j - 1) {
            Place::Outside => if t[j - 1] == '"' {
                Place::Inside
            } else {
                Place::Outside
            },
            Place::Inside => if t[j - 1] == '\\' {
                Place::Escaped
            } else if t[j - 1] == '"' {
                Place::Outside
            } else {
                Place::Inside
            },
            Place::Escaped => Place::Inside,
        }
    }
}

/// How many more braces are opened than closed from `i` up to `j`, outside of
/// strings.
pub open spec fn depth_at(t: Seq<char>, i: int, j: int) -> int
    decreases j - i,
{
    if j <= i {
        0
    } else if place(t, i, j - 1) !is Outside {
        depth_at(t, i, j - 1)
    } else if t[j - 1] == '{' {
        depth_at(t, i, j - 1) + 1
    } else if t[j - 1] == '}' {
        depth_at(t, i, j - 1) - 1
    } else {
        depth_at(t, i, j - 1)
    }
}

/// Whether the brace at `i` is closed right before `end` and not earlier.
pub open spec fn balanced(t: Seq<char>, i: int, end: int) -> bool {
    &&& 0 <= i < end <= t.len()
    &&& depth_at(t, i, end) == 0
    &&& forall|j: int| i < j < end ==> #[trigger] depth_at(t, i, j) > 0
}

/// Whether a string stands from `a` up to `b` in a text that is read from `i` on.
pub open spec fn string_span(t: Seq<char>, i: int, a: int, b: int) -> bool {
    &&& i <= a < b <= t.len()
    &&& t[a] == '"'
    &&& place(t, i, a) is Outside
    &&& place(t, i, b) is Outside
    &&& forall|k: int| a < k < b ==> #[trigger] place(t, i, k) !is Outside
}

/// Whether every string that starts from `from` on and before `end` is valid
/// JSON.
pub open spec fn strings_readable(t: Seq<char>, i: int, from: int, end: int) -> bool {
    forall|a: int, b: int|
        from <= a < end && #[trigger] string_span(t, i, a, b) ==> json::json_of_text(
            t.subrange(a, b),
        ) matches Ok(JsonView::Text(s))
}

/// Within a string the place is outside again where the string ends, and the
/// braces passed do not count.
proof fn lemma_inside(t: Seq<char>, i: int, k: int)
    requires
        0 <= i < k <= t.len(),
        place(t, i, k) is Inside,
    ensures
        match string_end(t, k) {
            Some(end) => k < end <= t.len() && place(t, i, end) is Outside && (forall|m: int|
                k <= m < end ==> #[trigger] place(t, i, m) !is Outside) && (forall|m: int|
                k <= m <= end ==> #[trigger] depth_at(t, i, m) == depth_at(t, i, k)),
            None => forall|m: int| k <= m <= t.len() ==> #[trigger] place(t, i, m) !is Outside,
        },
    decreases t.len() + 1 - k,
{
    if k < t.len() {
        if t[k] == '\\' {
            assert(place(t, i, k + 1) is Escaped);
            assert(depth_at(t, i, k + 1) == depth_at(t, i, k));
            if k + 1 < t.len() {
                assert(place(t, i, k + 2) is Inside);
                assert(depth_at(t, i, k + 2) == depth_at(t, i, k + 1));
                lemma_inside(t, i, k + 2);
            } else {
                assert(string_end(t, k + 2) is None);
            }
        } else if t[k] == '"' {
            assert(place(t, i, k + 1) is Outside);
            assert(depth_at(t, i, k + 1) == depth_at(t, i, k));
        } else {
            assert(place(t, i, k + 1) is Inside);
            assert(depth_at(t, i, k + 1) == depth_at(t, i, k));
            lemma_inside(t, i, k + 1);
        }
    }
}

/// Balanced braces with readable strings are followed to their end.
proof fn lemma_balanced_is_followed(t: Seq<char>, i: int, end: int, j: int)
    requires
        balanced(t, i, end),
        t[i] == '{',
        i <= j < end,
        place(t, i, j) is Outside,
        strings_readable(t, i, i, end),
    ensures
        depth_at(t, i, j) >= 0,
        braces_end(t, j, depth_at(t, i, j) as nat) == Some(end),
    decreases end - j,
{
    let d = depth_at(t, i, j);
    if j > i {
        assert(depth_at(t, i, j) > 0);
    }
    if end - 1 > i {
        assert(depth_at(t, i, end - 1) > 0);
    }
    assert(place(t, i, end) is Outside);
    if t[j] == '"' {
        assert(place(t, i, j + 1) is Inside);
        assert(depth_at(t, i, j + 1) == d);
        lemma_inside(t, i, j + 1);
        assert(string_end(t, j + 1) is Some);
        let b = string_end(t, j + 1)->0;
        if b > end {
            assert(place(t, i, end) !is Outside);
        }
        assert forall|k: int| j < k < b implies #[trigger] place(t, i, k) !is Outside by {}
        assert(string_span(t, i, j, b));
        assert(depth_at(t, i, b) == d);
        lemma_balanced_is_followed(t, i, end, b);
    } else {
        assert(place(t, i, j + 1) is Outside);
        if t[j] == '{' {
            assert(depth_at(t, i, j + 1) == d + 1);
            lemma_balanced_is_followed(t, i, end, j + 1);
        } else if t[j] == '}' {
            assert(depth_at(t, i, j + 1) == d - 1);
            if d == 1 {
                if j + 1 < end {
                    assert(depth_at(t, i, j + 1) > 0);
                }
            } else {
                lemma_balanced_is_followed(t, i, end, j + 1);
            }
        } else {
            assert(depth_at(t, i, j + 1) == d);
            lemma_balanced_is_followed(t, i, end, j + 1);
        }
    }
}

/// Where braces are found to be closed, they are balanced for the first time, and
/// the strings on the way are readable.
proof fn lemma_followed_is_balanced(t: Seq<char>, i: int, j: int)
    requires
        0 <= i <= j,
        i < t.len(),
        t[i] == '{',
        place(t, i, j) is Outside,
        j > i ==> depth_at(t, i, j) > 0,
        braces_end(t, j, depth_at(t, i, j) as nat) is Some,
    ensures
        ({
            let end = braces_end(t, j, depth_at(t, i, j) as nat)->0;
            &&& j < end <= t.len()
            &&& depth_at(t, i, end) == 0
            &&& forall|m: int| j < m < end ==> #[trigger] depth_at(t, i, m) > 0
            &&& strings_readable(t, i, j, end)
        }),
    decreases t.len() - j,
{
    let d = depth_at(t, i, j);
    let end = braces_end(t, j, d as nat)->0;
    lemma_braces_end(t, j, d as nat);
    if t[j] == '"' {
        let b = (string_at(t, j)->0).0;
        assert(place(t, i, j + 1) is Inside);
        assert(depth_at(t, i, j + 1) == d);
        lemma_string_end(t, j + 1);
        lemma_inside(t, i, j + 1);
        assert(depth_at(t, i, b) == d);
        lemma_followed_is_balanced(t, i, b);
        assert forall|a: int, e: int|
            j <= a < end && #[trigger] string_span(t, i, a, e) implies json::json_of_text(
            t.subrange(a, e),
        ) matches Ok(JsonView::Text(s)) by {
            if a == j {
                if e < b {
                    assert(place(t, i, e) !is Outside);
                }
                if b < e {
                    assert(place(t, i, b) !is Outside);
                }
            } else if a < b {
                assert(place(t, i, a) !is Outside);
            }
        }
        assert forall|m: int| j < m < end implies #[trigger] depth_at(t, i, m) > 0 by {
            if m <= b {
                assert(depth_at(t, i, m) == depth_at(t, i, j + 1));
            }
        }
    } else {
        assert(place(t, i, j + 1) is Outside);
        if t[j] == '{' {
            assert(depth_at(t, i, j + 1) == d + 1);
            lemma_followed_is_balanced(t, i, j + 1);
        } else if t[j] == '}' {
            assert(depth_at(t, i, j + 1) == d - 1);
            if d > 1 {
                lemma_followed_is_balanced(t, i, j + 1);
            }
        } else {
            assert(depth_at(t, i, j + 1) == d);
            lemma_followed_is_balanced(t, i, j + 1);
        }
    }
}

/// The braces that open at `i` end exactly where as many were closed as opened,
/// outside of strings, for the first time, provided that the strings on the way
/// are valid JSON.
pub proof fn law_braces_end_where_they_are_balanced(t: Seq<char>, i: int, end: int)
    requires
        0 <= i < t.len(),
        t[i] == '{',
    ensures
        braces_end(t, i, 0) == Some(end) <==> balanced(t, i, end) && strings_readable(
            t,
            i,
            i,
            end,
        ),
{
    if balanced(t, i, end) && strings_readable(t, i, i, end) {
        lemma_balanced_is_followed(t, i, end, i);
    }
    if braces_end(t, i, 0) == Some(end) {
        lemma_followed_is_balanced(t, i, i);
    }
}

/// A character other than a quote or a brace never decides where braces end.
pub proof fn law_other_characters_do_not_count(t: Seq<char>, j: int, depth: nat)
    requires
        0 <= j < t.len(),
        t[j] != '"',
        t[j] != '{',
        t[j] != '}',
    ensures
        braces_end(t, j, depth) == braces_end(t, j + 1, depth),
{
}

/// Whether a text is an object in braces and the JSON of a value.
pub open spec fn whole_object(o: Seq<char>, v: JsonView) -> bool {
    &&& o.len() > 0
    &&& o[0] == '{'
    &&& balanced(o, 0, o.len() as int)
    &&& strings_readable(o, 0, 0, o.len() as int)
    &&& json::json_of_text(o) == Ok::<JsonView, Seq<char>>(v)
}

/// Every object in braces is found, whatever it holds and whatever stands before
/// and behind it.
pub proof fn law_every_object_is_found(
    before: Seq<char>,
    o: Seq<char>,
    after: Seq<char>,
    v: JsonView,
)
    requires
        whole_object(o, v),
    ensures
        object_at(before + o + after, before.len() as int) == Some(
            ((before.len() + o.len()) as int, v),
        ),
{
    let t = before + o + after;
    let i = before.len() as int;
    law_braces_end_where_they_are_balanced(o, 0, o.len() as int);
    assert(o.subrange(0, o.len() as int) =~= o);
    assert(object_at(o, 0) == Some((o.len() as int, v)));
    lemma_object_stays(o, after, 0);
    lemma_braces_end_shifts(t, i, 0, 0);
    assert(t.skip(i) =~= o + after);
    assert(t.subrange(i, i + o.len()) =~= o);
    assert((o + after).subrange(0, o.len() as int) =~= o);
}

/// The string that is found at a quote is the JSON of the text up to its first
/// quote that is not escaped.
pub proof fn law_a_found_string_is_what_stands_there(t: Seq<char>, i: int)
    requires
        0 <= i < t.len(),
        t[i] == '"',
        string_at(t, i) is Some,
    ensures
        ({
            let (end, s) = string_at(t, i)->0;
            &&& i + 1 < end <= t.len()
            &&& closing_quote(t, i + 1, end - 1)
            &&& forall|k: int| i + 1 <= k < end - 1 ==> !#[trigger] closing_quote(t, i + 1, k)
            &&& json::json_of_text(t.subrange(i, end)) == Ok::<JsonView, Seq<char>>(
                JsonView::Text(s),
            )
        }),
{
    let (end, s) = string_at(t, i)->0;
    law_a_string_ends_with_its_first_closing_quote(t, i + 1, end);
}

} // verus!
