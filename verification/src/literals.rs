//! The three literal scanners. Each is a pure function from the current
//! unconsumed input to (remaining input, token) on a match, or a
//! recoverable no-match that leaves the caller free to try an
//! alternative scanner on the same input.

use vstd::prelude::*;
use crate::tokens::Token;
use crate::tokens::TokenType;

verus! {

/// Failure outcome of a scanner. `NoMatch` means "this scanner does not
/// apply here" and carries the original input unchanged, so the caller
/// can retry an alternative scanner from the same position. `Fatal` is
/// reserved for systemic faults; no literal scanner produces it.
#[derive(Debug)]
pub enum LexError {
    NoMatch(String),
    Fatal(String),
}

impl LexError {
    /// Whether the caller may go on to try another scanner at the same
    /// input position.
    pub fn is_recoverable(&self) -> (r: bool)
        ensures
            r == (self is NoMatch),
    {
        match self {
            LexError::NoMatch(_) => true,
            LexError::Fatal(_) => false,
        }
    }
}

impl PartialEq for LexError {
    fn eq(&self, other: &LexError) -> (r: bool) {
        match (self, other) {
            (LexError::NoMatch(a), LexError::NoMatch(b)) => *a == *b,
            (LexError::Fatal(a), LexError::Fatal(b)) => *a == *b,
            _ => false,
        }
    }
}

impl vstd::std_specs::cmp::PartialEqSpecImpl for LexError {
    open spec fn obeys_eq_spec() -> bool {
        true
    }

    open spec fn eq_spec(&self, other: &LexError) -> bool {
        match (self, other) {
            (LexError::NoMatch(a), LexError::NoMatch(b)) => a@ == b@,
            (LexError::Fatal(a), LexError::Fatal(b)) => a@ == b@,
            _ => false,
        }
    }
}

/// Whitespace discarded by the leading trim: space, tab, carriage
/// return, newline.
pub open spec fn is_ws_char(c: char) -> bool {
    c == ' ' || c == '\t' || c == '\r' || c == '\n'
}

/// An ASCII decimal digit.
pub open spec fn is_digit_char(c: char) -> bool {
    '0' <= c && c <= '9'
}

/// Length of the maximal leading run of whitespace characters.
pub open spec fn ws_run_len(s: Seq<char>) -> int
    decreases s.len(),
{
    if s.len() == 0 {
        0
    } else if is_ws_char(s[0]) {
        1 + ws_run_len(s.drop_first())
    } else {
        0
    }
}

/// Length of the maximal leading run of ASCII digits.
pub open spec fn digit_run_len(s: Seq<char>) -> int
    decreases s.len(),
{
    if s.len() == 0 {
        0
    } else if is_digit_char(s[0]) {
        1 + digit_run_len(s.drop_first())
    } else {
        0
    }
}

pub proof fn lemma_ws_run_len(s: Seq<char>)
    ensures
        0 <= ws_run_len(s) <= s.len(),
        forall|i: int| 0 <= i < ws_run_len(s) ==> is_ws_char(s[i]),
        ws_run_len(s) < s.len() ==> !is_ws_char(s[ws_run_len(s)]),
    decreases s.len(),
{
    if s.len() > 0 && is_ws_char(s[0]) {
        lemma_ws_run_len(s.drop_first());
        assert forall|i: int| 0 <= i < ws_run_len(s) implies is_ws_char(s[i]) by {
            if i > 0 {
                assert(s.drop_first()[i - 1] == s[i]);
            }
        }
        if ws_run_len(s) < s.len() {
            assert(s.drop_first()[ws_run_len(s) - 1] == s[ws_run_len(s)]);
        }
    }
}

pub proof fn lemma_digit_run_len(s: Seq<char>)
    ensures
        0 <= digit_run_len(s) <= s.len(),
        forall|i: int| 0 <= i < digit_run_len(s) ==> is_digit_char(s[i]),
        digit_run_len(s) < s.len() ==> !is_digit_char(s[digit_run_len(s)]),
    decreases s.len(),
{
    if s.len() > 0 && is_digit_char(s[0]) {
        lemma_digit_run_len(s.drop_first());
        assert forall|i: int| 0 <= i < digit_run_len(s) implies is_digit_char(s[i]) by {
            if i > 0 {
                assert(s.drop_first()[i - 1] == s[i]);
            }
        }
        if digit_run_len(s) < s.len() {
            assert(s.drop_first()[digit_run_len(s) - 1] == s[digit_run_len(s)]);
        }
    }
}

fn ws_char(c: char) -> (r: bool)
    ensures
        r == is_ws_char(c),
{
    c == ' ' || c == '\t' || c == '\r' || c == '\n'
}

fn digit_char(c: char) -> (r: bool)
    ensures
        r == is_digit_char(c),
{
    '0' <= c && c <= '9'
}

/// Discards the maximal leading run of whitespace, returning the rest
/// of the input. The discarded whitespace is not part of any lexeme.
pub fn trim_leading_ws<'a>(input: &'a str) -> (r: &'a str)
    ensures
        r@ == input@.skip(ws_run_len(input@)),
{
    let n = input.unicode_len();
    let mut i: usize = 0;
    while i < n
        invariant
            n == input@.len(),
            0 <= i <= n,
            forall|j: int| 0 <= j < i ==> is_ws_char(input@[j]),
        ensures
            0 <= i <= n,
            forall|j: int| 0 <= j < i ==> is_ws_char(input@[j]),
            i < n ==> !is_ws_char(input@[i as int]),
        decreases n - i,
    {
        let c = input.get_char(i);
        if !ws_char(c) {
            break;
        }
        i += 1;
    }
    proof {
        lemma_ws_run_len(input@);
        assert(i == ws_run_len(input@));
        assert(input@.subrange(i as int, n as int) =~= input@.skip(ws_run_len(input@)));
    }
    input.substring_char(i, n)
}

/// Numeric value of one ASCII digit.
pub open spec fn digit_val(c: char) -> int {
    c as int - '0' as int
}

/// Base-10 value of a digit sequence (most significant digit first).
pub open spec fn digits_value(s: Seq<char>) -> int
    decreases s.len(),
{
    if s.len() == 0 {
        0
    } else {
        10 * digits_value(s.drop_last()) + digit_val(s.last())
    }
}

pub proof fn lemma_digits_value_nonneg(s: Seq<char>)
    requires
        forall|i: int| 0 <= i < s.len() ==> is_digit_char(s[i]),
    ensures
        digits_value(s) >= 0,
    decreases s.len(),
{
    if s.len() > 0 {
        lemma_digits_value_nonneg(s.drop_last());
    }
}

/// The value of a digit sequence is at least the value of any of its
/// prefixes: once a prefix overflows, the whole run overflows.
pub proof fn lemma_digits_value_prefix_le(s: Seq<char>, k: int)
    requires
        0 <= k <= s.len(),
        forall|i: int| 0 <= i < s.len() ==> is_digit_char(s[i]),
    ensures
        digits_value(s.subrange(0, k)) <= digits_value(s),
    decreases s.len(),
{
    if k == s.len() {
        assert(s.subrange(0, k) =~= s);
    } else {
        let t = s.drop_last();
        assert(s.subrange(0, k) =~= t.subrange(0, k));
        lemma_digits_value_prefix_le(t, k);
        lemma_digits_value_nonneg(t);
    }
}

/// Where the integer scanner's digit run starts: just after the leading
/// whitespace.
pub open spec fn i32_start(s: Seq<char>) -> int {
    ws_run_len(s)
}

/// Where the integer scanner's digit run ends.
pub open spec fn i32_end(s: Seq<char>) -> int {
    i32_start(s) + digit_run_len(s.skip(i32_start(s)))
}

/// The maximal digit run after the leading whitespace: the lexeme of a
/// successful integer scan.
pub open spec fn i32_lexeme(s: Seq<char>) -> Seq<char> {
    s.subrange(i32_start(s), i32_end(s))
}

/// The integer scanner matches exactly when the digit run is non-empty
/// and its value fits a signed 32-bit integer. (With no sign accepted,
/// the value can never be negative.)
pub open spec fn i32_matches(s: Seq<char>) -> bool {
    i32_end(s) > i32_start(s) && digits_value(i32_lexeme(s)) <= i32::MAX
}

/// Scans an integer literal: discards leading whitespace, then greedily
/// consumes the longest run of ASCII digits. Matches exactly when that
/// run is non-empty and its value fits in an `i32`; an empty run and an
/// overflowing run are both recoverable no-matches carrying the
/// original input.
pub fn parse_i32<'a>(input: &'a str) -> (r: Result<(&'a str, Token), LexError>)
    ensures
        r is Ok <==> i32_matches(input@),
        r matches Ok((remaining, tok)) ==> {
            &&& remaining@ == input@.skip(i32_end(input@))
            &&& tok.lexeme@ == i32_lexeme(input@)
            &&& tok.token_type == TokenType::IntegerLiteral(
                digits_value(i32_lexeme(input@)) as i32,
            )
        },
        r matches Err(e) ==> e matches LexError::NoMatch(orig) && orig@ == input@,
{
    let trimmed = trim_leading_ws(input);
    let n = trimmed.unicode_len();
    let ghost t = trimmed@;
    let mut j: usize = 0;
    while j < n
        invariant
            n == t.len(),
            t == trimmed@,
            0 <= j <= n,
            forall|k: int| 0 <= k < j ==> is_digit_char(t[k]),
        ensures
            0 <= j <= n,
            forall|k: int| 0 <= k < j ==> is_digit_char(t[k]),
            j < n ==> !is_digit_char(t[j as int]),
        decreases n - j,
    {
        let c = trimmed.get_char(j);
        if !digit_char(c) {
            break;
        }
        j += 1;
    }
    proof {
        lemma_ws_run_len(input@);
        lemma_digit_run_len(t);
        assert(j == digit_run_len(t));
        assert(i32_end(input@) == i32_start(input@) + j);
        assert(i32_lexeme(input@) =~= t.subrange(0, j as int));
    }
    if j == 0 {
        return Err(LexError::NoMatch(input.to_owned()));
    }
    let mut acc: u64 = 0;
    let mut k: usize = 0;
    while k < n
        invariant
            n == t.len(),
            t == trimmed@,
            0 < j <= n,
            j == digit_run_len(t),
            t == input@.skip(i32_start(input@)),
            i32_end(input@) == i32_start(input@) + j,
            i32_lexeme(input@) == t.subrange(0, j as int),
            forall|m: int| 0 <= m < j ==> is_digit_char(t[m]),
            0 <= k <= j,
            acc <= i32::MAX as u64,
            acc == digits_value(t.subrange(0, k as int)),
        ensures
            k == j,
            acc <= i32::MAX as u64,
            acc == digits_value(t.subrange(0, j as int)),
        decreases j - k,
    {
        if k == j {
            break;
        }
        let c = trimmed.get_char(k);
        let d: u64 = ((c as u32) - ('0' as u32)) as u64;
        proof {
            assert(t.subrange(0, k as int + 1).drop_last() =~= t.subrange(0, k as int));
            assert(t.subrange(0, k as int + 1).last() == t[k as int]);
        }
        let next: u64 = acc * 10 + d;
        if next > i32::MAX as u64 {
            proof {
                lemma_digits_value_prefix_le(t.subrange(0, j as int), k as int + 1);
                assert(t.subrange(0, j as int).subrange(0, k as int + 1) =~= t.subrange(
                    0,
                    k as int + 1,
                ));
                assert(next == digits_value(t.subrange(0, k as int + 1)));
                assert(digits_value(i32_lexeme(input@)) > i32::MAX);
            }
            return Err(LexError::NoMatch(input.to_owned()));
        }
        acc = next;
        k += 1;
    }
    let lexeme = trimmed.substring_char(0, j);
    let remaining = trimmed.substring_char(j, n);
    proof {
        assert(remaining@ =~= input@.skip(i32_end(input@)));
    }
    Ok((remaining, Token::new(lexeme, TokenType::from_int(acc as i32))))
}

/// Length of the maximal leading run of characters other than `"`.
pub open spec fn plain_run_len(s: Seq<char>) -> int
    decreases s.len(),
{
    if s.len() == 0 {
        0
    } else if s[0] != '"' {
        1 + plain_run_len(s.drop_first())
    } else {
        0
    }
}

pub proof fn lemma_plain_run_len(s: Seq<char>)
    ensures
        0 <= plain_run_len(s) <= s.len(),
        forall|i: int| 0 <= i < plain_run_len(s) ==> s[i] != '"',
        plain_run_len(s) < s.len() ==> s[plain_run_len(s)] == '"',
    decreases s.len(),
{
    if s.len() > 0 && s[0] != '"' {
        lemma_plain_run_len(s.drop_first());
        assert forall|i: int| 0 <= i < plain_run_len(s) implies s[i] != '"' by {
            if i > 0 {
                assert(s.drop_first()[i - 1] == s[i]);
            }
        }
        if plain_run_len(s) < s.len() {
            assert(s.drop_first()[plain_run_len(s) - 1] == s[plain_run_len(s)]);
        }
    }
}

/// The string scanner matches exactly when the input opens with `"` and
/// a closing `"` follows somewhere after it.
pub open spec fn string_matches(s: Seq<char>) -> bool {
    s.len() >= 1 && s[0] == '"' && plain_run_len(s.skip(1)) < s.len() - 1
}

/// The content strictly between the two quote delimiters: both the
/// lexeme and the payload of a successful string scan.
pub open spec fn string_body(s: Seq<char>) -> Seq<char> {
    s.subrange(1, 1 + plain_run_len(s.skip(1)))
}

/// What is left after the closing quote.
pub open spec fn string_rest(s: Seq<char>) -> Seq<char> {
    s.skip(2 + plain_run_len(s.skip(1)))
}

/// Scans a string literal: an opening `"`, the shortest run of
/// characters up to the next `"`, and that closing `"`. The quotes are
/// part of neither the lexeme nor the payload. No leading whitespace is
/// trimmed, and `\"` is not special-cased: a backslash does not escape
/// the closing quote. A missing opening quote and an unterminated
/// string are both recoverable no-matches carrying the original input.
pub fn parse_string<'a>(input: &'a str) -> (r: Result<(&'a str, Token), LexError>)
    ensures
        r is Ok <==> string_matches(input@),
        r matches Ok((remaining, tok)) ==> {
            &&& remaining@ == string_rest(input@)
            &&& tok.lexeme@ == string_body(input@)
            &&& tok.token_type matches TokenType::StringLiteral(v) && v@ == string_body(input@)
        },
        r matches Err(e) ==> e matches LexError::NoMatch(orig) && orig@ == input@,
{
    let n = input.unicode_len();
    if n == 0 || input.get_char(0) != '"' {
        return Err(LexError::NoMatch(input.to_owned()));
    }
    let mut i: usize = 1;
    while i < n
        invariant
            n == input@.len(),
            1 <= i <= n,
            forall|j: int| 1 <= j < i ==> input@[j] != '"',
        ensures
            1 <= i <= n,
            forall|j: int| 1 <= j < i ==> input@[j] != '"',
            i < n ==> input@[i as int] == '"',
        decreases n - i,
    {
        if input.get_char(i) == '"' {
            break;
        }
        i += 1;
    }
    proof {
        let u = input@.skip(1);
        let p = plain_run_len(u);
        lemma_plain_run_len(u);
        assert(u.len() == n - 1);
        assert forall|j: int| 0 <= j < i - 1 implies u[j] != '"' by {
            assert(u[j] == input@[j + 1]);
        }
        if i < n {
            assert(u[i - 1] == input@[i as int]);
        }
        if p < i - 1 {
            assert(u[p] == '"');
            assert(false);
        }
        if p > i - 1 {
            assert(u[i - 1] != '"');
            assert(false);
        }
        assert(p == i - 1);
    }
    if i == n {
        return Err(LexError::NoMatch(input.to_owned()));
    }
    let body = input.substring_char(1, i);
    let remaining = input.substring_char(i + 1, n);
    proof {
        assert(body@ =~= string_body(input@));
        assert(remaining@ =~= string_rest(input@));
    }
    Ok((remaining, Token::new(body, TokenType::from_text(body))))
}

/// `a` equals `b` up to ASCII case, where only an upper-case letter in
/// the input is folded down (the reference word is written in lower
/// case).
pub open spec fn ascii_eq_nocase(a: char, b: char) -> bool {
    a == b || ('A' <= a && a <= 'Z' && a as int + 32 == b as int)
}

/// The input begins with `word`, compared character by character up to
/// ASCII case.
pub open spec fn matches_nocase(s: Seq<char>, word: Seq<char>) -> bool {
    s.len() >= word.len() && forall|i: int|
        0 <= i < word.len() ==> ascii_eq_nocase(s[i], word[i])
}

pub open spec fn true_word() -> Seq<char> {
    seq!['t', 'r', 'u', 'e']
}

pub open spec fn false_word() -> Seq<char> {
    seq!['f', 'a', 'l', 's', 'e']
}

/// The boolean scanner matches exactly when the input begins with
/// `true` or `false`, case-insensitively.
pub open spec fn bool_matches(s: Seq<char>) -> bool {
    matches_nocase(s, true_word()) || matches_nocase(s, false_word())
}

/// The matched literal's value.
pub open spec fn bool_value(s: Seq<char>) -> bool {
    matches_nocase(s, true_word())
}

/// How many characters the boolean scanner consumes on a match.
pub open spec fn bool_match_len(s: Seq<char>) -> int {
    if matches_nocase(s, true_word()) {
        4
    } else {
        5
    }
}

fn eq_nocase(a: char, b: char) -> (r: bool)
    ensures
        r == ascii_eq_nocase(a, b),
{
    a == b || ('A' <= a && a <= 'Z' && (a as u32) + 32 == (b as u32))
}

/// Whether `s` begins with `word`, compared up to ASCII case.
fn starts_with_nocase(s: &str, word: &str) -> (r: bool)
    ensures
        r == matches_nocase(s@, word@),
{
    let m = word.unicode_len();
    let n = s.unicode_len();
    if n < m {
        return false;
    }
    let mut i: usize = 0;
    while i < m
        invariant
            m == word@.len(),
            n == s@.len(),
            n >= m,
            0 <= i <= m,
            forall|j: int| 0 <= j < i ==> ascii_eq_nocase(s@[j], word@[j]),
        decreases m - i,
    {
        if !eq_nocase(s.get_char(i), word.get_char(i)) {
            return false;
        }
        i += 1;
    }
    true
}

/// Scans a boolean literal: a case-insensitive match of `true`, then of
/// `false`, at the very start of the input — no leading whitespace is
/// trimmed here; callers trim beforehand if they need to. The lexeme
/// keeps the original casing of the matched text. Anything else is a
/// recoverable no-match carrying the original input.
pub fn parse_bool<'a>(input: &'a str) -> (r: Result<(&'a str, Token), LexError>)
    ensures
        r is Ok <==> bool_matches(input@),
        r matches Ok((remaining, tok)) ==> {
            &&& remaining@ == input@.skip(bool_match_len(input@))
            &&& tok.lexeme@ == input@.subrange(0, bool_match_len(input@))
            &&& tok.token_type == TokenType::BooleanLiteral(bool_value(input@))
        },
        r matches Err(e) ==> e matches LexError::NoMatch(orig) && orig@ == input@,
{
    proof {
        reveal_strlit("true");
        reveal_strlit("false");
        assert("true"@ =~= true_word());
        assert("false"@ =~= false_word());
    }
    let n = input.unicode_len();
    if starts_with_nocase(input, "true") {
        let lexeme = input.substring_char(0, 4);
        let remaining = input.substring_char(4, n);
        Ok((remaining, Token::new(lexeme, TokenType::from_bool(true))))
    } else if starts_with_nocase(input, "false") {
        let lexeme = input.substring_char(0, 5);
        let remaining = input.substring_char(5, n);
        Ok((remaining, Token::new(lexeme, TokenType::from_bool(false))))
    } else {
        Err(LexError::NoMatch(input.to_owned()))
    }
}

/// A digit-only prefix with no leading sign or whitespace is scanned
/// whole: the integer scanner's lexeme is the maximal digit prefix, and
/// the scan succeeds exactly when that prefix's value fits a signed
/// 32-bit integer — in which case the token's value is the prefix read
/// as that integer, by `parse_i32`'s contract.
pub proof fn lemma_digit_prefix_scan(s: Seq<char>)
    requires
        s.len() > 0,
        is_digit_char(s[0]),
    ensures
        i32_start(s) == 0,
        i32_end(s) == digit_run_len(s),
        i32_lexeme(s) == s.subrange(0, digit_run_len(s)),
        1 <= digit_run_len(s) <= s.len(),
        forall|i: int| 0 <= i < digit_run_len(s) ==> is_digit_char(s[i]),
        digit_run_len(s) < s.len() ==> !is_digit_char(s[digit_run_len(s)]),
        i32_matches(s) <==> digits_value(i32_lexeme(s)) <= i32::MAX,
{
    lemma_digit_run_len(s);
    assert(!is_ws_char(s[0]));
    assert(ws_run_len(s) == 0);
    assert(s.skip(0) =~= s);
    assert(i32_lexeme(s) =~= s.subrange(0, digit_run_len(s)));
}

/// Round trip for the integer scanner: a matched input is its trimmed
/// whitespace, then exactly the lexeme, then the remaining input — so
/// the lexeme reproduces the consumed span.
pub proof fn lemma_i32_round_trip(s: Seq<char>)
    requires
        i32_matches(s),
    ensures
        s == s.subrange(0, i32_start(s)) + i32_lexeme(s) + s.skip(i32_end(s)),
        forall|i: int| 0 <= i < i32_start(s) ==> is_ws_char(s[i]),
{
    lemma_ws_run_len(s);
    lemma_digit_run_len(s.skip(i32_start(s)));
    assert(s =~= s.subrange(0, i32_start(s)) + i32_lexeme(s) + s.skip(i32_end(s)));
}

/// Round trip for the string scanner: a matched input is the opening
/// quote, exactly the lexeme, the closing quote, then the remaining
/// input — the lexeme reproduces the consumed span up to the two
/// stripped quotes.
pub proof fn lemma_string_round_trip(s: Seq<char>)
    requires
        string_matches(s),
    ensures
        s == seq!['"'] + string_body(s) + seq!['"'] + string_rest(s),
{
    let p = plain_run_len(s.skip(1));
    lemma_plain_run_len(s.skip(1));
    assert(s.skip(1)[p] == s[1 + p]);
    assert(s =~= seq!['"'] + string_body(s) + seq!['"'] + string_rest(s));
}

/// Round trip for the boolean scanner: a matched input is exactly the
/// lexeme then the remaining input, and the lexeme — whose original
/// casing is preserved — still case-insensitively spells the matched
/// word.
pub proof fn lemma_bool_round_trip(s: Seq<char>)
    requires
        bool_matches(s),
    ensures
        s == s.subrange(0, bool_match_len(s)) + s.skip(bool_match_len(s)),
        matches_nocase(
            s.subrange(0, bool_match_len(s)),
            if bool_value(s) {
                true_word()
            } else {
                false_word()
            },
        ),
{
    let t = s.subrange(0, bool_match_len(s));
    let w = if bool_value(s) {
        true_word()
    } else {
        false_word()
    };
    assert(s =~= s.subrange(0, bool_match_len(s)) + s.skip(bool_match_len(s)));
    assert forall|i: int| 0 <= i < w.len() implies ascii_eq_nocase(t[i], w[i]) by {
        assert(t[i] == s[i]);
    }
}

} // verus!
