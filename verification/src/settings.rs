//! What the environment variables of the engine mean.

use crate::chat::{HttpChatModel, ModelView};
use crate::keys;
use crate::keys::ApiKeys;
use crate::text;
use vstd::prelude::*;
use vstd::string::*;

verus! {

/// The key table that the environment asks for.
pub enum KeySource {
    /// One in a file at a path.
    File(String),
    /// One that the environment holds.
    Table(ApiKeys),
    /// None: every request is let through.
    Open,
}

impl ApiKeys {
    /// The key table that `NYLON_API_KEYS_FILE` and `NYLON_API_KEYS` ask for. A file
    /// goes before a table that is given as text.
    pub fn from_env(file: Option<String>, inline: Option<&str>) -> (r: Result<KeySource, String>)
        ensures
            match (text::string_view(file), text::str_view(inline)) {
                (Some(path), _) => r is Ok && r->Ok_0 is File && (r->Ok_0->File_0)@ == path,
                (None, Some(raw)) => match keys::grants_of_text(raw) {
                    Ok(table) => r is Ok && r->Ok_0 is Table && (r->Ok_0->Table_0)@ == table
                        && !(r->Ok_0->Table_0).is_watched() && (r->Ok_0->Table_0).mtime() is None,
                    Err(e) => r is Err && r->Err_0@ == "解析 NYLON_API_KEYS 失败: "@ + e,
                },
                (None, None) => r is Ok && r->Ok_0 is Open,
            },
    {
        match file {
            Some(path) => Ok(KeySource::File(path)),
            None => match inline {
                Some(raw) => match ApiKeys::parse(raw) {
                    Ok(table) => Ok(KeySource::Table(table)),
                    Err(e) => {
                        let mut message = "解析 NYLON_API_KEYS 失败: ".to_owned();
                        message.append(e.as_str());
                        Err(message)
                    },
                },
                None => Ok(KeySource::Open),
            },
        }
    }
}

/// Whether a text is made of decimal digits.
pub open spec fn all_digits(s: Seq<char>) -> bool {
    forall|i: int| 0 <= i < s.len() ==> '0' <= #[trigger] s[i] <= '9'
}

/// The number that decimal digits stand for.
pub open spec fn digits_value(s: Seq<char>) -> nat
    decreases s.len(),
{
    if s.len() == 0 {
        0
    } else {
        digits_value(s.drop_last()) * 10 + (s.last() as nat - '0' as nat) as nat
    }
}

/// A text without one `+` at its start.
pub open spec fn without_plus(s: Seq<char>) -> Seq<char> {
    if s.len() > 0 && s[0] == '+' {
        s.drop_first()
    } else {
        s
    }
}

/// The 32-bit number that a text is: digits, with or without a `+` before them.
pub open spec fn number_in(s: Seq<char>) -> Option<u32> {
    let digits = without_plus(s);
    if digits.len() > 0 && all_digits(digits) && digits_value(digits) <= u32::MAX {
        Some(digits_value(digits) as u32)
    } else {
        None
    }
}

/// More digits make no smaller number.
proof fn lemma_digits_grow(s: Seq<char>, count: int)
    requires
        0 <= count <= s.len(),
        all_digits(s),
    ensures
        digits_value(s.take(count)) <= digits_value(s),
    decreases s.len() - count,
{
    if count < s.len() {
        assert(s.take(count + 1).drop_last() =~= s.take(count));
        lemma_digits_grow(s, count + 1);
        assert('0' <= s[count]);
    } else {
        assert(s.take(count) =~= s);
    }
}

/// The 32-bit number that a text is.
pub fn parse_number(s: &str) -> (r: Option<u32>)
    ensures
        r == number_in(s@),
{
    let chars = text::chars_of(s);
    let ghost digits = without_plus(s@);
    let start: usize = if chars.len() > 0 && chars[0] == '+' {
        1
    } else {
        0
    };
    proof {
        assert(digits =~= chars@.skip(start as int));
    }
    if start == chars.len() {
        return None;
    }
    let mut value: u32 = 0;
    let mut i: usize = start;
    while i < chars.len()
        invariant
            start <= i <= chars.len(),
            start < chars.len(),
            digits == chars@.skip(start as int),
            digits == without_plus(s@),
            forall|k: int| start <= k < i ==> '0' <= #[trigger] chars@[k] <= '9',
            value == digits_value(digits.take(i - start)),
        decreases chars.len() - i,
    {
        let c = chars[i];
        proof {
            assert(digits[i - start] == c);
            assert(digits.take(i + 1 - start).drop_last() =~= digits.take(i - start));
        }
        if c < '0' || c > '9' {
            return None;
        }
        let d: u32 = c as u32 - '0' as u32;
        let wide: u64 = value as u64 * 10 + d as u64;
        if wide > u32::MAX as u64 {
            proof {
                if all_digits(digits) {
                    lemma_digits_grow(digits, i + 1 - start);
                }
            }
            return None;
        }
        value = wide as u32;
        i = i + 1;
    }
    proof {
        assert(digits.take(i - start) =~= digits);
        assert forall|k: int| 0 <= k < digits.len() implies '0' <= #[trigger] digits[k] <= '9' by {
            assert(digits[k] == chars@[k + start]);
        }
    }
    Some(value)
}

/// The variables that say how the language model is reached.
#[derive(Debug)]
pub struct LlmVariables {
    /// `NYLON_LLM_URL`
    pub url: Option<String>,
    /// `NYLON_LLM_MODEL`
    pub model: Option<String>,
    /// `NYLON_LLM_API_KEY`
    pub api_key: Option<String>,
    /// `NYLON_LLM_MAX_TOKENS`
    pub max_tokens: Option<String>,
    /// Whether `NYLON_LLM_THINKING_OFF` is set.
    pub thinking_off: bool,
}

/// A language model, and what is to be said about its variables.
#[derive(Debug)]
pub struct LlmChannel {
    pub model: HttpChatModel,
    pub warning: Option<String>,
}

/// How many tokens an answer may have: what the variable says, if that is a
/// number other than 0, else 4096.
pub open spec fn token_budget(max_tokens: Option<Seq<char>>) -> u32 {
    match max_tokens {
        Some(s) => match number_in(s) {
            Some(n) => if n > 0 {
                n
            } else {
                4096
            },
            None => 4096,
        },
        None => 4096,
    }
}

/// What is said of a number of tokens that is none.
pub open spec fn budget_warning(max_tokens: Option<Seq<char>>) -> Option<Seq<char>> {
    match max_tokens {
        Some(s) => if number_in(s) is Some && number_in(s)->0 > 0 {
            None
        } else {
            Some("[llm] NYLON_LLM_MAX_TOKENS="@ + s + " 不是正整数，忽略"@)
        },
        None => None,
    }
}

/// The language model that the variables describe. Without an address there is
/// none.
pub fn llm_from_env(vars: LlmVariables) -> (r: Option<LlmChannel>)
    ensures
        r is Some <==> vars.url is Some,
        r is Some ==> r->0.model@ == (ModelView {
            url: vars.url->0@,
            model: match vars.model {
                Some(model) => model@,
                None => "deepseek-v4-flash"@,
            },
            api_key: text::string_view(vars.api_key),
            thinking_off: vars.thinking_off,
            max_tokens: token_budget(text::string_view(vars.max_tokens)),
            temperature: Some(0),
            timeout_secs: 15,
        }),
        r is Some ==> text::string_view(r->0.warning) == budget_warning(
            text::string_view(vars.max_tokens),
        ),
{
    let url = match vars.url {
        Some(url) => url,
        None => {
            return None;
        },
    };
    let name = match vars.model {
        Some(name) => name,
        None => "deepseek-v4-flash".to_owned(),
    };
    let model = HttpChatModel::new(url, name, vars.api_key, vars.thinking_off);
    match vars.max_tokens {
        None => Some(LlmChannel { model, warning: None }),
        Some(s) => {
            match parse_number(s.as_str()) {
                Some(n) => {
                    if n > 0 {
                        return Some(
                            LlmChannel { model: model.with_max_tokens(n), warning: None },
                        );
                    }
                },
                None => {},
            }
            let mut warning = "[llm] NYLON_LLM_MAX_TOKENS=".to_owned();
            warning.append(s.as_str());
            warning.append(" 不是正整数，忽略");
            Some(LlmChannel { model, warning: Some(warning) })
        },
    }
}

/// As many zeros as asked for.
pub open spec fn zeros(count: nat) -> Seq<char> {
    Seq::new(count, |i: int| '0')
}

/// The decimal digits of a number stand for it, also behind zeros.
proof fn lemma_written_number(n: nat, count: nat)
    ensures
        all_digits(zeros(count) + text::decimal(n)),
        digits_value(zeros(count) + text::decimal(n)) == n,
    decreases n,
{
    text::law_decimal_digits(n);
    let s = zeros(count) + text::decimal(n);
    assert forall|i: int| 0 <= i < s.len() implies '0' <= #[trigger] s[i] <= '9' by {
        if i >= count {
            assert(s[i] == text::decimal(n)[i - count]);
        }
    }
    assert(s.last() == text::decimal(n).last());
    if n < 10 {
        assert(s.drop_last() =~= zeros(count));
        lemma_zeros(count);
    } else {
        assert(s.drop_last() =~= zeros(count) + text::decimal(n / 10));
        lemma_written_number(n / 10, count);
    }
}

/// Zeros stand for nothing.
proof fn lemma_zeros(count: nat)
    ensures
        digits_value(zeros(count)) == 0,
    decreases count,
{
    if count > 0 {
        assert(zeros(count).drop_last() =~= zeros((count - 1) as nat));
        lemma_zeros((count - 1) as nat);
    }
}

/// Digits are the decimal digits of the number that they stand for, behind zeros.
proof fn lemma_digits_are_written(s: Seq<char>) -> (count: nat)
    requires
        s.len() > 0,
        all_digits(s),
    ensures
        s == zeros(count) + text::decimal(digits_value(s)),
    decreases s.len(),
{
    let front = s.drop_last();
    let d = (s.last() as nat - '0' as nat) as nat;
    assert('0' <= s[s.len() - 1] <= '9');
    assert(text::digit_char(d as int) == s.last());
    if front.len() == 0 {
        assert(digits_value(front) == 0);
        assert(s =~= zeros(0) + text::decimal(d));
        0
    } else {
        assert forall|i: int| 0 <= i < front.len() implies '0' <= #[trigger] front[i] <= '9' by {
            assert(front[i] == s[i]);
        }
        let count = lemma_digits_are_written(front);
        let n = digits_value(front);
        let value = digits_value(s);
        assert(value == n * 10 + d);
        if n == 0 {
            assert(text::decimal(0) =~= seq!['0']);
            assert(front =~= zeros(count + 1));
            assert(text::decimal(d) =~= seq![s.last()]);
            assert(s =~= front.push(s.last()));
            assert(s =~= zeros(count + 1) + text::decimal(d));
            count + 1
        } else {
            assert(value / 10 == n && value % 10 == d);
            assert(text::decimal(value) =~= text::decimal(n).push(s.last()));
            assert(s =~= front.push(s.last()));
            assert(s =~= zeros(count) + text::decimal(value));
            count
        }
    }
}

/// A text is read as a number exactly if it is the decimal digits of the number,
/// with or without zeros before them and a `+` before these.
pub proof fn law_a_number_is_read_from_its_digits(n: u32, count: nat, s: Seq<char>)
    ensures
        number_in(zeros(count) + text::decimal(n as nat)) == Some(n),
        number_in(seq!['+'] + zeros(count) + text::decimal(n as nat)) == Some(n),
        number_in(s) == Some(n) ==> exists|k: nat|
            s == #[trigger] zeros(k) + text::decimal(n as nat) || s == seq!['+'] + zeros(k)
                + text::decimal(n as nat),
{
    let digits = zeros(count) + text::decimal(n as nat);
    let signed = seq!['+'] + zeros(count) + text::decimal(n as nat);
    text::law_decimal_digits(n as nat);
    lemma_written_number(n as nat, count);
    assert('0' <= digits[0] <= '9');
    assert(without_plus(digits) == digits);
    assert(signed[0] == '+');
    assert(signed.drop_first() =~= digits);
    if number_in(s) == Some(n) {
        let k = lemma_digits_are_written(without_plus(s));
        if s[0] == '+' {
            assert(s =~= seq!['+'] + s.drop_first());
            assert(s =~= seq!['+'] + zeros(k) + text::decimal(n as nat));
        }
        assert(s == zeros(k) + text::decimal(n as nat) || s == seq!['+'] + zeros(k)
            + text::decimal(n as nat));
    }
}

/// The number of tokens is what the variable says if that is a positive number,
/// and 4096 otherwise; and exactly if it says something else it is warned of, with
/// what it says.
pub proof fn law_the_budget_is_what_the_variable_says(n: u32, s: Seq<char>)
    ensures
        token_budget(None) == 4096,
        budget_warning(None) is None,
        n > 0 ==> token_budget(Some(text::decimal(n as nat))) == n && budget_warning(
            Some(text::decimal(n as nat)),
        ) is None,
        number_in(s) == Some(n) && n > 0 ==> token_budget(Some(s)) == n && budget_warning(
            Some(s),
        ) is None,
        number_in(s) is None || number_in(s) == Some(0u32) ==> token_budget(Some(s)) == 4096
            && budget_warning(Some(s)) == Some(
            "[llm] NYLON_LLM_MAX_TOKENS="@ + s + " 不是正整数，忽略"@,
        ),
{
    law_a_number_is_read_from_its_digits(n, 0, s);
    assert(zeros(0) + text::decimal(n as nat) =~= text::decimal(n as nat));
}

} // verus!
