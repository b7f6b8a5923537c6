//! The JSON wire format of the todo domain: the exact character sequences
//! the library emits for an entity or its write-projection, and a parser for
//! the shapes the server sends back.
//!
//! The grammar accepted by the parser is the one the todo API exchanges:
//! an object `{"id":<int>,"title":<string>,"isCompleted":<bool>}` with the
//! members in that order, an array of such objects, whitespace permitted
//! around structural tokens, string escapes `\"` and `\\`, and integers
//! within the 32-bit signed range. The completion flag travels as
//! `isCompleted` on the wire; an emitted write-projection carries no id.

use vstd::prelude::*;
use vstd::string::*;

verus! {

/// Relies on `String`'s `FromIterator<char>` impl: collecting characters
/// builds the string of exactly those characters in order.
#[verifier::external_body]
pub fn string_of_chars(v: &Vec<char>) -> (r: String)
    ensures
        r@ == v@,
{
    v.iter().collect()
}

// ---------------------------------------------------------------------------
// Character classes and digits
// ---------------------------------------------------------------------------

/// JSON insignificant whitespace.
pub open spec fn is_ws(c: char) -> bool {
    c == ' ' || c == '\t' || c == '\n' || c == '\r'
}

pub open spec fn is_digit(c: char) -> bool {
    48 <= c as u32 <= 57
}

pub open spec fn digit_val(c: char) -> int {
    c as u32 - 48
}

/// The character of one decimal digit.
pub open spec fn digit_char(d: int) -> char {
    if d == 0 {
        '0'
    } else if d == 1 {
        '1'
    } else if d == 2 {
        '2'
    } else if d == 3 {
        '3'
    } else if d == 4 {
        '4'
    } else if d == 5 {
        '5'
    } else if d == 6 {
        '6'
    } else if d == 7 {
        '7'
    } else if d == 8 {
        '8'
    } else {
        '9'
    }
}

fn digit_char_exec(d: u32) -> (r: char)
    requires
        d < 10,
    ensures
        r == digit_char(d as int),
{
    if d == 0 {
        '0'
    } else if d == 1 {
        '1'
    } else if d == 2 {
        '2'
    } else if d == 3 {
        '3'
    } else if d == 4 {
        '4'
    } else if d == 5 {
        '5'
    } else if d == 6 {
        '6'
    } else if d == 7 {
        '7'
    } else if d == 8 {
        '8'
    } else {
        '9'
    }
}

// ---------------------------------------------------------------------------
// The emitted form: decimal numbers, escaped strings, objects
// ---------------------------------------------------------------------------

/// The decimal digits of a non-negative number, most significant first.
pub open spec fn dec_rep(n: nat) -> Seq<char>
    decreases n,
{
    if n < 10 {
        seq![digit_char(n as int)]
    } else {
        dec_rep(n / 10).push(digit_char((n % 10) as int))
    }
}

/// The decimal form of a signed number: a minus sign where negative.
pub open spec fn int_rep(n: int) -> Seq<char> {
    if n < 0 {
        seq!['-'] + dec_rep((-n) as nat)
    } else {
        dec_rep(n as nat)
    }
}

/// How one character appears inside an emitted JSON string: a quote or a
/// backslash is preceded by a backslash, everything else stands as itself.
pub open spec fn esc_char(c: char) -> Seq<char> {
    if c == '"' || c == '\\' {
        seq!['\\', c]
    } else {
        seq![c]
    }
}

/// The escaped body of an emitted JSON string.
pub open spec fn escape_str(s: Seq<char>) -> Seq<char>
    decreases s.len(),
{
    if s.len() == 0 {
        Seq::empty()
    } else {
        escape_str(s.drop_last()) + esc_char(s.last())
    }
}

/// A complete emitted JSON string: the escaped body between quotes.
pub open spec fn json_string(s: Seq<char>) -> Seq<char> {
    seq!['"'] + escape_str(s) + seq!['"']
}

pub open spec fn bool_rep(b: bool) -> Seq<char> {
    if b {
        seq!['t', 'r', 'u', 'e']
    } else {
        seq!['f', 'a', 'l', 's', 'e']
    }
}

/// The member names of the wire format, quotes included.
pub open spec fn key_id() -> Seq<char> {
    seq!['"', 'i', 'd', '"']
}

pub open spec fn key_title() -> Seq<char> {
    seq!['"', 't', 'i', 't', 'l', 'e', '"']
}

pub open spec fn key_completed() -> Seq<char> {
    seq!['"', 'i', 's', 'C', 'o', 'm', 'p', 'l', 'e', 't', 'e', 'd', '"']
}

/// The exact document emitted for a write-projection: title and completion
/// flag only — no id member.
pub open spec fn todo_dto_json(d: crate::todo::TodoDtoView) -> Seq<char> {
    seq!['{'] + key_title() + seq![':'] + json_string(d.title) + seq![','] + key_completed()
        + seq![':'] + bool_rep(d.is_completed) + seq!['}']
}

/// The exact document emitted for a full entity.
pub open spec fn todo_json(t: crate::todo::TodoView) -> Seq<char> {
    seq!['{'] + key_id() + seq![':'] + int_rep(t.id) + seq![','] + key_title() + seq![':']
        + json_string(t.title) + seq![','] + key_completed() + seq![':'] + bool_rep(t.is_completed)
        + seq!['}']
}

// ---------------------------------------------------------------------------
// Emitting
// ---------------------------------------------------------------------------

/// Appends the characters of `s` unchanged.
#[verifier::loop_isolation(false)]
pub fn push_lit(out: &mut Vec<char>, s: &str)
    ensures
        final(out)@ == old(out)@ + s@,
{
    let n = s.unicode_len();
    let mut i: usize = 0;
    while i < n
        invariant
            n == s@.len(),
            i <= n,
            out@ == old(out)@ + s@.take(i as int),
        decreases n - i,
    {
        let c = s.get_char(i);
        out.push(c);
        proof {
            assert(s@.take(i + 1) =~= s@.take(i as int).push(s@[i as int]));
            assert(out@ =~= old(out)@ + s@.take(i + 1));
        }
        i += 1;
    }
    proof {
        assert(s@.take(n as int) =~= s@);
    }
}

/// Appends the escaped body of `s`: its characters with `"` and `\` each
/// preceded by a backslash.
#[verifier::loop_isolation(false)]
pub fn push_escaped(out: &mut Vec<char>, s: &str)
    ensures
        final(out)@ == old(out)@ + escape_str(s@),
{
    let n = s.unicode_len();
    let mut i: usize = 0;
    while i < n
        invariant
            n == s@.len(),
            i <= n,
            out@ == old(out)@ + escape_str(s@.take(i as int)),
        decreases n - i,
    {
        let c = s.get_char(i);
        if c == '"' || c == '\\' {
            out.push('\\');
        }
        out.push(c);
        proof {
            let t1 = s@.take(i + 1);
            assert(t1.drop_last() =~= s@.take(i as int));
            assert(t1.last() == s@[i as int]);
            assert(out@ =~= old(out)@ + escape_str(t1));
        }
        i += 1;
    }
    proof {
        assert(s@.take(n as int) =~= s@);
    }
}

/// Appends the decimal digits of `n`, most significant first.
pub fn push_dec(out: &mut Vec<char>, n: u32)
    ensures
        final(out)@ == old(out)@ + dec_rep(n as nat),
    decreases n,
{
    if n < 10 {
        out.push(digit_char_exec(n));
        proof {
            assert(out@ =~= old(out)@ + dec_rep(n as nat));
        }
    } else {
        push_dec(out, n / 10);
        out.push(digit_char_exec(n % 10));
        proof {
            assert(out@ =~= old(out)@ + dec_rep(n as nat));
        }
    }
}

/// Appends the decimal form of a signed number.
pub fn push_i32(out: &mut Vec<char>, n: i32)
    ensures
        final(out)@ == old(out)@ + int_rep(n as int),
{
    if n < 0 {
        out.push('-');
        let m: u32 = (-(n as i64)) as u32;
        proof {
            assert(m as nat == (-(n as int)) as nat);
        }
        push_dec(out, m);
        proof {
            assert(out@ =~= old(out)@ + int_rep(n as int));
        }
    } else {
        push_dec(out, n as u32);
    }
}

/// Appends a complete JSON string: the escaped body of `s` between quotes.
pub fn push_json_string(out: &mut Vec<char>, s: &str)
    ensures
        final(out)@ == old(out)@ + json_string(s@),
{
    out.push('"');
    push_escaped(out, s);
    out.push('"');
    proof {
        assert(out@ =~= old(out)@ + json_string(s@));
    }
}


// ---------------------------------------------------------------------------
// Parsing: the specification-level parser
// ---------------------------------------------------------------------------

/// The index of the first character at or after `i` that is not whitespace.
pub open spec fn sp_ws(s: Seq<char>, i: int) -> int
    decreases s.len() - i,
{
    if 0 <= i < s.len() && is_ws(s[i]) {
        sp_ws(s, i + 1)
    } else {
        i
    }
}

pub proof fn lemma_sp_ws_bounds(s: Seq<char>, i: int)
    requires
        0 <= i <= s.len(),
    ensures
        i <= sp_ws(s, i) <= s.len(),
    decreases s.len() - i,
{
    if 0 <= i < s.len() && is_ws(s[i]) {
        lemma_sp_ws_bounds(s, i + 1);
    }
}

/// The position after a fixed token standing at `i` verbatim.
pub open spec fn sp_lit(s: Seq<char>, i: int, lit: Seq<char>) -> Option<int> {
    if 0 <= i && i + lit.len() <= s.len() && s.subrange(i, i + lit.len()) == lit {
        Option::Some(i + lit.len())
    } else {
        Option::None
    }
}

/// The position after one structural character, whitespace before it allowed.
pub open spec fn sp_token(s: Seq<char>, i: int, c: char) -> Option<int> {
    let i1 = sp_ws(s, i);
    if 0 <= i1 < s.len() && s[i1] == c {
        Option::Some(i1 + 1)
    } else {
        Option::None
    }
}

pub proof fn lemma_sp_token_bounds(s: Seq<char>, i: int, c: char)
    requires
        0 <= i <= s.len(),
    ensures
        sp_token(s, i, c) matches Option::Some(j) ==> i < j <= s.len(),
{
    lemma_sp_ws_bounds(s, i);
}

/// The body of a JSON string after its opening quote, up to and including
/// the closing quote: `\"` and `\\` each denote one character, and every
/// other character stands for itself.
pub open spec fn sp_string_body(s: Seq<char>, i: int) -> Option<(Seq<char>, int)>
    decreases s.len() - i,
{
    if i < 0 || i >= s.len() {
        Option::None
    } else if s[i] == '"' {
        Option::Some((Seq::empty(), i + 1))
    } else if s[i] == '\\' {
        if i + 1 < s.len() && (s[i + 1] == '"' || s[i + 1] == '\\') {
            match sp_string_body(s, i + 2) {
                Option::Some((t, j)) => Option::Some((seq![s[i + 1]] + t, j)),
                Option::None => Option::None,
            }
        } else {
            Option::None
        }
    } else {
        match sp_string_body(s, i + 1) {
            Option::Some((t, j)) => Option::Some((seq![s[i]] + t, j)),
            Option::None => Option::None,
        }
    }
}

pub proof fn lemma_sp_string_body_bounds(s: Seq<char>, i: int)
    requires
        0 <= i,
    ensures
        sp_string_body(s, i) matches Option::Some(p) ==> i < p.1 <= s.len(),
    decreases s.len() - i,
{
    if i < s.len() {
        if s[i] == '\\' {
            if i + 1 < s.len() && (s[i + 1] == '"' || s[i + 1] == '\\') {
                lemma_sp_string_body_bounds(s, i + 2);
            }
        } else if s[i] != '"' {
            lemma_sp_string_body_bounds(s, i + 1);
        }
    }
}

/// A complete JSON string standing at `i`: opening quote, body, closing quote.
pub open spec fn sp_parse_string(s: Seq<char>, i: int) -> Option<(Seq<char>, int)> {
    if 0 <= i < s.len() && s[i] == '"' {
        sp_string_body(s, i + 1)
    } else {
        Option::None
    }
}

pub proof fn lemma_sp_parse_string_bounds(s: Seq<char>, i: int)
    requires
        0 <= i <= s.len(),
    ensures
        sp_parse_string(s, i) matches Option::Some(p) ==> i < p.1 <= s.len(),
{
    if 0 <= i < s.len() && s[i] == '"' {
        lemma_sp_string_body_bounds(s, i + 1);
    }
}

/// A run of decimal digits folded onto `acc`; the run ends at the first
/// non-digit. A value that would leave the 32-bit unsigned range is refused.
pub open spec fn sp_digits(s: Seq<char>, i: int, acc: int) -> Option<(int, int)>
    decreases s.len() - i,
{
    if 0 <= i < s.len() && is_digit(s[i]) {
        let acc2 = acc * 10 + digit_val(s[i]);
        if acc2 > 4294967295 {
            Option::None
        } else {
            sp_digits(s, i + 1, acc2)
        }
    } else {
        Option::Some((acc, i))
    }
}

pub proof fn lemma_sp_digits_bounds(s: Seq<char>, i: int, acc: int)
    requires
        0 <= i <= s.len(),
        0 <= acc <= 4294967295,
    ensures
        sp_digits(s, i, acc) matches Option::Some(p) ==> i <= p.1 <= s.len() && 0 <= p.0
            <= 4294967295,
    decreases s.len() - i,
{
    if 0 <= i < s.len() && is_digit(s[i]) {
        let acc2 = acc * 10 + digit_val(s[i]);
        if acc2 <= 4294967295 {
            lemma_sp_digits_bounds(s, i + 1, acc2);
        }
    }
}

/// A JSON integer standing at `i`: an optional minus sign and at least one
/// digit; only values within the 32-bit signed range are accepted.
pub open spec fn sp_parse_int(s: Seq<char>, i: int) -> Option<(int, int)> {
    let neg = 0 <= i < s.len() && s[i] == '-';
    let i1 = if neg {
        i + 1
    } else {
        i
    };
    if 0 <= i1 < s.len() && is_digit(s[i1]) {
        match sp_digits(s, i1, 0) {
            Option::Some((v, j)) => {
                let sv = if neg {
                    -v
                } else {
                    v
                };
                if -2147483648 <= sv <= 2147483647 {
                    Option::Some((sv, j))
                } else {
                    Option::None
                }
            },
            Option::None => Option::None,
        }
    } else {
        Option::None
    }
}

pub proof fn lemma_sp_parse_int_bounds(s: Seq<char>, i: int)
    requires
        0 <= i <= s.len(),
    ensures
        sp_parse_int(s, i) matches Option::Some(p) ==> i <= p.1 <= s.len(),
{
    let neg = 0 <= i < s.len() && s[i] == '-';
    let i1 = if neg {
        i + 1
    } else {
        i
    };
    if 0 <= i1 < s.len() && is_digit(s[i1]) {
        lemma_sp_digits_bounds(s, i1, 0);
    }
}

/// A JSON boolean standing at `i`.
pub open spec fn sp_parse_bool(s: Seq<char>, i: int) -> Option<(bool, int)> {
    match sp_lit(s, i, bool_rep(true)) {
        Option::Some(j) => Option::Some((true, j)),
        Option::None => match sp_lit(s, i, bool_rep(false)) {
            Option::Some(j) => Option::Some((false, j)),
            Option::None => Option::None,
        },
    }
}

/// One object member up to its value: whitespace, the member name verbatim,
/// whitespace, a colon, whitespace; yields the index of the value.
pub open spec fn sp_member(s: Seq<char>, i: int, key: Seq<char>) -> Option<int> {
    let i1 = sp_ws(s, i);
    match sp_lit(s, i1, key) {
        Option::Some(i2) => {
            let i3 = sp_ws(s, i2);
            if 0 <= i3 < s.len() && s[i3] == ':' {
                Option::Some(sp_ws(s, i3 + 1))
            } else {
                Option::None
            }
        },
        Option::None => Option::None,
    }
}

pub proof fn lemma_sp_member_bounds(s: Seq<char>, i: int, key: Seq<char>)
    requires
        0 <= i <= s.len(),
    ensures
        sp_member(s, i, key) matches Option::Some(j) ==> i <= j <= s.len(),
{
    lemma_sp_ws_bounds(s, i);
    let i1 = sp_ws(s, i);
    if let Option::Some(i2) = sp_lit(s, i1, key) {
        lemma_sp_ws_bounds(s, i2);
        let i3 = sp_ws(s, i2);
        if 0 <= i3 < s.len() && s[i3] == ':' {
            lemma_sp_ws_bounds(s, i3 + 1);
        }
    }
}

/// A todo object standing at `i` (whitespace before it allowed): the three
/// members id, title, isCompleted, in that order.
pub open spec fn sp_parse_todo(s: Seq<char>, i: int) -> Option<(crate::todo::TodoView, int)> {
    match sp_token(s, i, '{') {
        Option::Some(i0) => match sp_member(s, i0, key_id()) {
            Option::Some(i1) => match sp_parse_int(s, i1) {
                Option::Some((id, i2)) => match sp_token(s, i2, ',') {
                    Option::Some(i3) => match sp_member(s, i3, key_title()) {
                        Option::Some(i4) => match sp_parse_string(s, i4) {
                            Option::Some((title, i5)) => match sp_token(s, i5, ',') {
                                Option::Some(i6) => match sp_member(s, i6, key_completed()) {
                                    Option::Some(i7) => match sp_parse_bool(s, i7) {
                                        Option::Some((b, i8)) => match sp_token(s, i8, '}') {
                                            Option::Some(i9) => Option::Some(
                                                (
                                                    crate::todo::TodoView {
                                                        id: id,
                                                        title: title,
                                                        is_completed: b,
                                                    },
                                                    i9,
                                                ),
                                            ),
                                            Option::None => Option::None,
                                        },
                                        Option::None => Option::None,
                                    },
                                    Option::None => Option::None,
                                },
                                Option::None => Option::None,
                            },
                            Option::None => Option::None,
                        },
                        Option::None => Option::None,
                    },
                    Option::None => Option::None,
                },
                Option::None => Option::None,
            },
            Option::None => Option::None,
        },
        Option::None => Option::None,
    }
}

pub proof fn lemma_sp_parse_todo_bounds(s: Seq<char>, i: int)
    requires
        0 <= i <= s.len(),
    ensures
        sp_parse_todo(s, i) matches Option::Some(p) ==> i < p.1 <= s.len(),
{
    lemma_sp_token_bounds(s, i, '{');
    if let Option::Some(i0) = sp_token(s, i, '{') {
        lemma_sp_member_bounds(s, i0, key_id());
        if let Option::Some(i1) = sp_member(s, i0, key_id()) {
            lemma_sp_parse_int_bounds(s, i1);
            if let Option::Some((id, i2)) = sp_parse_int(s, i1) {
                lemma_sp_token_bounds(s, i2, ',');
                if let Option::Some(i3) = sp_token(s, i2, ',') {
                    lemma_sp_member_bounds(s, i3, key_title());
                    if let Option::Some(i4) = sp_member(s, i3, key_title()) {
                        lemma_sp_parse_string_bounds(s, i4);
                        if let Option::Some((t, i5)) = sp_parse_string(s, i4) {
                            lemma_sp_token_bounds(s, i5, ',');
                            if let Option::Some(i6) = sp_token(s, i5, ',') {
                                lemma_sp_member_bounds(s, i6, key_completed());
                                if let Option::Some(i7) = sp_member(s, i6, key_completed()) {
                                    if let Option::Some((b, i8)) = sp_parse_bool(s, i7) {
                                        lemma_sp_token_bounds(s, i8, '}');
                                    }
                                }
                            }
                        }
                    }
                }
            }
        }
    }
}

/// The tail of a todo array after one parsed element: either a closing
/// bracket, or a comma and a further element, repeatedly.
pub open spec fn sp_todo_tail(s: Seq<char>, i: int) -> Option<(Seq<crate::todo::TodoView>, int)>
    decreases s.len() - i,
        when 0 <= i <= s.len()
        via sp_todo_tail_dec
{
    match sp_token(s, i, ']') {
        Option::Some(j) => Option::Some((Seq::empty(), j)),
        Option::None => match sp_token(s, i, ',') {
            Option::Some(i1) => match sp_parse_todo(s, i1) {
                Option::Some((v, i2)) => match sp_todo_tail(s, i2) {
                    Option::Some((vs, j)) => Option::Some((seq![v] + vs, j)),
                    Option::None => Option::None,
                },
                Option::None => Option::None,
            },
            Option::None => Option::None,
        },
    }
}

#[via_fn]
proof fn sp_todo_tail_dec(s: Seq<char>, i: int) {
    if sp_token(s, i, ']') is None {
        lemma_sp_token_bounds(s, i, ',');
        if let Option::Some(i1) = sp_token(s, i, ',') {
            lemma_sp_parse_todo_bounds(s, i1);
        }
    }
}

/// A todo array standing at `i`: brackets around zero or more todo objects
/// separated by commas.
pub open spec fn sp_parse_todos(s: Seq<char>, i: int) -> Option<
    (Seq<crate::todo::TodoView>, int),
> {
    match sp_token(s, i, '[') {
        Option::Some(i0) => match sp_token(s, i0, ']') {
            Option::Some(j) => Option::Some((Seq::empty(), j)),
            Option::None => match sp_parse_todo(s, i0) {
                Option::Some((v, i1)) => match sp_todo_tail(s, i1) {
                    Option::Some((vs, j)) => Option::Some((seq![v] + vs, j)),
                    Option::None => Option::None,
                },
                Option::None => Option::None,
            },
        },
        Option::None => Option::None,
    }
}

/// A whole document containing exactly one todo object, with nothing but
/// whitespace after it.
pub open spec fn sp_todo_doc(s: Seq<char>) -> Option<crate::todo::TodoView> {
    match sp_parse_todo(s, 0) {
        Option::Some((v, j)) => if sp_ws(s, j) == s.len() {
            Option::Some(v)
        } else {
            Option::None
        },
        Option::None => Option::None,
    }
}

/// A whole document containing exactly one todo array.
pub open spec fn sp_todos_doc(s: Seq<char>) -> Option<Seq<crate::todo::TodoView>> {
    match sp_parse_todos(s, 0) {
        Option::Some((v, j)) => if sp_ws(s, j) == s.len() {
            Option::Some(v)
        } else {
            Option::None
        },
        Option::None => Option::None,
    }
}

/// The views of a parsed list, in order.
pub open spec fn todos_view(ts: Seq<crate::todo::Todo>) -> Seq<crate::todo::TodoView> {
    ts.map_values(|t: crate::todo::Todo| t@)
}


// ---------------------------------------------------------------------------
// Parsing: the executable parser, exact against the specification parser
// ---------------------------------------------------------------------------

/// Skips whitespace from `i`.
#[verifier::loop_isolation(false)]
fn skip_ws(s: &str, n: usize, i: usize) -> (j: usize)
    requires
        n == s@.len(),
        i <= n,
    ensures
        j as int == sp_ws(s@, i as int),
        i <= j <= n,
{
    let mut j = i;
    while j < n
        invariant
            i <= j <= n,
            sp_ws(s@, i as int) == sp_ws(s@, j as int),
        decreases n - j,
    {
        let c = s.get_char(j);
        if !(c == ' ' || c == '\t' || c == '\n' || c == '\r') {
            return j;
        }
        j += 1;
    }
    j
}

/// Checks that `lit` stands verbatim at `i`.
#[verifier::loop_isolation(false)]
fn expect_lit(s: &str, n: usize, i: usize, lit: &str, m: usize) -> (r: Option<usize>)
    requires
        n == s@.len(),
        m == lit@.len(),
        i <= n,
    ensures
        r is Some <==> sp_lit(s@, i as int, lit@) is Some,
        r matches Some(j) ==> sp_lit(s@, i as int, lit@) == Option::Some(j as int) && i <= j <= n,
{
    if n - i < m {
        return Option::None;
    }
    let mut k: usize = 0;
    while k < m
        invariant
            i + m <= n,
            k <= m,
            forall|t: int| 0 <= t < k ==> s@[i + t] == lit@[t],
        decreases m - k,
    {
        if s.get_char(i + k) != lit.get_char(k) {
            proof {
                let sub = s@.subrange(i as int, i + m);
                assert(sub[k as int] == s@[i + k]);
                assert(sub != lit@);
            }
            return Option::None;
        }
        k += 1;
    }
    proof {
        assert(s@.subrange(i as int, i + m) =~= lit@);
    }
    Option::Some(i + m)
}

/// Checks one structural character at `i`, whitespace before it allowed.
fn parse_token(s: &str, n: usize, i: usize, c: char) -> (r: Option<usize>)
    requires
        n == s@.len(),
        i <= n,
    ensures
        r is Some <==> sp_token(s@, i as int, c) is Some,
        r matches Some(j) ==> sp_token(s@, i as int, c) == Option::Some(j as int) && i < j <= n,
{
    let i1 = skip_ws(s, n, i);
    if i1 < n {
        let d = s.get_char(i1);
        if d == c {
            return Option::Some(i1 + 1);
        }
    }
    Option::None
}

/// Reads a string body up to its closing quote, undoing the two escapes.
fn parse_string_body(s: &str, n: usize, i: usize) -> (r: Option<(Vec<char>, usize)>)
    requires
        n == s@.len(),
        i <= n,
    ensures
        r is Some <==> sp_string_body(s@, i as int) is Some,
        r matches Some(p) ==> sp_string_body(s@, i as int) == Option::Some((p.0@, p.1 as int)) && i
            < p.1 <= n,
    decreases n - i,
{
    if i == n {
        return Option::None;
    }
    let c = s.get_char(i);
    if c == '"' {
        let v: Vec<char> = Vec::new();
        proof {
            assert(v@ =~= Seq::<char>::empty());
        }
        return Option::Some((v, i + 1));
    }
    if c == '\\' {
        if i + 1 < n {
            let d = s.get_char(i + 1);
            if d == '"' || d == '\\' {
                match parse_string_body(s, n, i + 2) {
                    Option::Some((v, j)) => {
                        let ghost tail = v@;
                        let mut v = v;
                        v.insert(0, d);
                        proof {
                            assert(v@ =~= seq![d] + tail);
                        }
                        return Option::Some((v, j));
                    },
                    Option::None => {
                        return Option::None;
                    },
                }
            }
        }
        return Option::None;
    }
    match parse_string_body(s, n, i + 1) {
        Option::Some((v, j)) => {
            let ghost tail = v@;
            let mut v = v;
            v.insert(0, c);
            proof {
                assert(v@ =~= seq![c] + tail);
            }
            Option::Some((v, j))
        },
        Option::None => Option::None,
    }
}

/// Reads a complete JSON string at `i`.
fn parse_string(s: &str, n: usize, i: usize) -> (r: Option<(Vec<char>, usize)>)
    requires
        n == s@.len(),
        i <= n,
    ensures
        r is Some <==> sp_parse_string(s@, i as int) is Some,
        r matches Some(p) ==> sp_parse_string(s@, i as int) == Option::Some((p.0@, p.1 as int))
            && i < p.1 <= n,
{
    if i < n {
        let c = s.get_char(i);
        if c == '"' {
            return parse_string_body(s, n, i + 1);
        }
    }
    Option::None
}

/// Folds a digit run onto `acc`.
fn parse_digits(s: &str, n: usize, i: usize, acc: u64) -> (r: Option<(u64, usize)>)
    requires
        n == s@.len(),
        i <= n,
        acc <= 4294967295,
    ensures
        r is Some <==> sp_digits(s@, i as int, acc as int) is Some,
        r matches Some(p) ==> sp_digits(s@, i as int, acc as int) == Option::Some(
            (p.0 as int, p.1 as int),
        ) && i <= p.1 <= n && p.0 <= 4294967295,
    decreases n - i,
{
    if i == n {
        return Option::Some((acc, i));
    }
    let c = s.get_char(i);
    let u = c as u32;
    if 48 <= u && u <= 57 {
        let acc2: u64 = acc * 10 + ((u - 48) as u64);
        if acc2 > 4294967295 {
            return Option::None;
        }
        parse_digits(s, n, i + 1, acc2)
    } else {
        Option::Some((acc, i))
    }
}

/// Reads a JSON integer at `i`; only 32-bit signed values are accepted.
fn parse_int(s: &str, n: usize, i: usize) -> (r: Option<(i32, usize)>)
    requires
        n == s@.len(),
        i <= n,
    ensures
        r is Some <==> sp_parse_int(s@, i as int) is Some,
        r matches Some(p) ==> sp_parse_int(s@, i as int) == Option::Some((p.0 as int, p.1 as int))
            && i <= p.1 <= n,
{
    let mut neg = false;
    let mut i1 = i;
    if i < n && s.get_char(i) == '-' {
        neg = true;
        i1 = i + 1;
    }
    if i1 == n {
        return Option::None;
    }
    let c = s.get_char(i1);
    let u = c as u32;
    if !(48 <= u && u <= 57) {
        return Option::None;
    }
    match parse_digits(s, n, i1, 0) {
        Option::Some((v, j)) => {
            if neg {
                if v > 2147483648 {
                    return Option::None;
                }
                let sv: i32 = (-(v as i64)) as i32;
                Option::Some((sv, j))
            } else {
                if v > 2147483647 {
                    return Option::None;
                }
                Option::Some((v as i32, j))
            }
        },
        Option::None => Option::None,
    }
}

/// Reads a JSON boolean at `i`.
fn parse_bool(s: &str, n: usize, i: usize) -> (r: Option<(bool, usize)>)
    requires
        n == s@.len(),
        i <= n,
    ensures
        r is Some <==> sp_parse_bool(s@, i as int) is Some,
        r matches Some(p) ==> sp_parse_bool(s@, i as int) == Option::Some((p.0, p.1 as int)) && i
            <= p.1 <= n,
{
    proof {
        reveal_strlit("true");
        reveal_strlit("false");
        assert("true"@ =~= bool_rep(true));
        assert("false"@ =~= bool_rep(false));
    }
    match expect_lit(s, n, i, "true", 4) {
        Option::Some(j) => Option::Some((true, j)),
        Option::None => match expect_lit(s, n, i, "false", 5) {
            Option::Some(j) => Option::Some((false, j)),
            Option::None => Option::None,
        },
    }
}

/// Reads one object member up to its value: whitespace, the member name,
/// whitespace, a colon, whitespace.
fn parse_member(s: &str, n: usize, i: usize, key: &str, m: usize) -> (r: Option<usize>)
    requires
        n == s@.len(),
        m == key@.len(),
        i <= n,
    ensures
        r is Some <==> sp_member(s@, i as int, key@) is Some,
        r matches Some(j) ==> sp_member(s@, i as int, key@) == Option::Some(j as int) && i <= j
            <= n,
{
    let i1 = skip_ws(s, n, i);
    match expect_lit(s, n, i1, key, m) {
        Option::Some(i2) => {
            let i3 = skip_ws(s, n, i2);
            if i3 < n {
                let c = s.get_char(i3);
                if c == ':' {
                    let j = skip_ws(s, n, i3 + 1);
                    return Option::Some(j);
                }
            }
            Option::None
        },
        Option::None => Option::None,
    }
}

/// Reads one todo object at `i`.
fn parse_todo(s: &str, n: usize, i: usize) -> (r: Option<(crate::todo::Todo, usize)>)
    requires
        n == s@.len(),
        i <= n,
    ensures
        r is Some <==> sp_parse_todo(s@, i as int) is Some,
        r matches Some(p) ==> sp_parse_todo(s@, i as int) == Option::Some((p.0@, p.1 as int)) && i
            < p.1 <= n,
{
    proof {
        reveal_strlit("\"id\"");
        reveal_strlit("\"title\"");
        reveal_strlit("\"isCompleted\"");
        assert("\"id\""@ =~= key_id());
        assert("\"title\""@ =~= key_title());
        assert("\"isCompleted\""@ =~= key_completed());
    }
    let i0 = match parse_token(s, n, i, '{') {
        Option::Some(x) => x,
        Option::None => {
            return Option::None;
        },
    };
    let i1 = match parse_member(s, n, i0, "\"id\"", 4) {
        Option::Some(x) => x,
        Option::None => {
            return Option::None;
        },
    };
    let (id, i2) = match parse_int(s, n, i1) {
        Option::Some(x) => x,
        Option::None => {
            return Option::None;
        },
    };
    let i3 = match parse_token(s, n, i2, ',') {
        Option::Some(x) => x,
        Option::None => {
            return Option::None;
        },
    };
    let i4 = match parse_member(s, n, i3, "\"title\"", 7) {
        Option::Some(x) => x,
        Option::None => {
            return Option::None;
        },
    };
    let (tv, i5) = match parse_string(s, n, i4) {
        Option::Some(x) => x,
        Option::None => {
            return Option::None;
        },
    };
    let i6 = match parse_token(s, n, i5, ',') {
        Option::Some(x) => x,
        Option::None => {
            return Option::None;
        },
    };
    let i7 = match parse_member(s, n, i6, "\"isCompleted\"", 13) {
        Option::Some(x) => x,
        Option::None => {
            return Option::None;
        },
    };
    let (b, i8) = match parse_bool(s, n, i7) {
        Option::Some(x) => x,
        Option::None => {
            return Option::None;
        },
    };
    let i9 = match parse_token(s, n, i8, '}') {
        Option::Some(x) => x,
        Option::None => {
            return Option::None;
        },
    };
    let title = string_of_chars(&tv);
    Option::Some((crate::todo::Todo::new(id, title, b), i9))
}

/// Reads the tail of a todo array after one parsed element.
fn parse_todo_tail(s: &str, n: usize, i: usize) -> (r: Option<(Vec<crate::todo::Todo>, usize)>)
    requires
        n == s@.len(),
        i <= n,
    ensures
        r is Some <==> sp_todo_tail(s@, i as int) is Some,
        r matches Some(p) ==> sp_todo_tail(s@, i as int) == Option::Some(
            (todos_view(p.0@), p.1 as int),
        ) && i < p.1 <= n,
    decreases n - i,
{
    match parse_token(s, n, i, ']') {
        Option::Some(j) => {
            let v: Vec<crate::todo::Todo> = Vec::new();
            proof {
                assert(todos_view(v@) =~= Seq::<crate::todo::TodoView>::empty());
            }
            return Option::Some((v, j));
        },
        Option::None => {},
    }
    let i1 = match parse_token(s, n, i, ',') {
        Option::Some(x) => x,
        Option::None => {
            return Option::None;
        },
    };
    let (t, i2) = match parse_todo(s, n, i1) {
        Option::Some(x) => x,
        Option::None => {
            return Option::None;
        },
    };
    match parse_todo_tail(s, n, i2) {
        Option::Some((vs, j)) => {
            let ghost tail = todos_view(vs@);
            let mut vs = vs;
            vs.insert(0, t);
            proof {
                assert(todos_view(vs@) =~= seq![t@] + tail);
            }
            Option::Some((vs, j))
        },
        Option::None => Option::None,
    }
}

/// Reads a todo array at `i`.
fn parse_todos(s: &str, n: usize, i: usize) -> (r: Option<(Vec<crate::todo::Todo>, usize)>)
    requires
        n == s@.len(),
        i <= n,
    ensures
        r is Some <==> sp_parse_todos(s@, i as int) is Some,
        r matches Some(p) ==> sp_parse_todos(s@, i as int) == Option::Some(
            (todos_view(p.0@), p.1 as int),
        ) && i < p.1 <= n,
{
    let i0 = match parse_token(s, n, i, '[') {
        Option::Some(x) => x,
        Option::None => {
            return Option::None;
        },
    };
    match parse_token(s, n, i0, ']') {
        Option::Some(j) => {
            let v: Vec<crate::todo::Todo> = Vec::new();
            proof {
                assert(todos_view(v@) =~= Seq::<crate::todo::TodoView>::empty());
            }
            return Option::Some((v, j));
        },
        Option::None => {},
    }
    let (t, i1) = match parse_todo(s, n, i0) {
        Option::Some(x) => x,
        Option::None => {
            return Option::None;
        },
    };
    match parse_todo_tail(s, n, i1) {
        Option::Some((vs, j)) => {
            let ghost tail = todos_view(vs@);
            let mut vs = vs;
            vs.insert(0, t);
            proof {
                assert(todos_view(vs@) =~= seq![t@] + tail);
            }
            Option::Some((vs, j))
        },
        Option::None => Option::None,
    }
}

/// Decodes a whole document as one todo entity: exactly the documents the
/// specification-level parser accepts yield a value, and that value.
pub fn todo_from_json(s: &str) -> (r: Option<crate::todo::Todo>)
    ensures
        r is Some <==> sp_todo_doc(s@) is Some,
        r matches Some(t) ==> sp_todo_doc(s@) == Option::Some(t@),
{
    let n = s.unicode_len();
    match parse_todo(s, n, 0) {
        Option::Some((t, j)) => {
            let e = skip_ws(s, n, j);
            if e == n {
                Option::Some(t)
            } else {
                Option::None
            }
        },
        Option::None => Option::None,
    }
}

/// Decodes a whole document as a list of todo entities.
pub fn todos_from_json(s: &str) -> (r: Option<Vec<crate::todo::Todo>>)
    ensures
        r is Some <==> sp_todos_doc(s@) is Some,
        r matches Some(v) ==> sp_todos_doc(s@) == Option::Some(todos_view(v@)),
{
    let n = s.unicode_len();
    match parse_todos(s, n, 0) {
        Option::Some((v, j)) => {
            let e = skip_ws(s, n, j);
            if e == n {
                Option::Some(v)
            } else {
                Option::None
            }
        },
        Option::None => Option::None,
    }
}


// ---------------------------------------------------------------------------
// Round trip: a document the library emits is read back as the same value
// ---------------------------------------------------------------------------

/// Powers of ten.
pub open spec fn pow10(k: nat) -> int
    decreases k,
{
    if k == 0 {
        1
    } else {
        10 * pow10((k - 1) as nat)
    }
}

proof fn lemma_pow10_pos(k: nat)
    ensures
        pow10(k) >= 1,
    decreases k,
{
    if k > 0 {
        lemma_pow10_pos((k - 1) as nat);
    }
}

proof fn lemma_digit_char_props(d: int)
    requires
        0 <= d < 10,
    ensures
        is_digit(digit_char(d)),
        digit_val(digit_char(d)) == d,
        digit_char(d) != '-',
        !is_ws(digit_char(d)),
{
}

proof fn lemma_dec_rep_first(m: nat)
    ensures
        dec_rep(m).len() >= 1,
        is_digit(dec_rep(m)[0]),
        !is_ws(dec_rep(m)[0]),
        dec_rep(m)[0] != '-',
    decreases m,
{
    if m < 10 {
        lemma_digit_char_props(m as int);
    } else {
        lemma_dec_rep_first(m / 10);
        assert(dec_rep(m)[0] == dec_rep(m / 10)[0]);
    }
}

/// Consuming an embedded decimal representation folds its value onto the
/// accumulator and leaves the position just after it.
proof fn lemma_sp_digits_fold(s: Seq<char>, i: int, j: int, m: nat, acc: int)
    requires
        0 <= i <= j <= s.len(),
        s.subrange(i, j) == dec_rep(m),
        0 <= acc,
        acc * pow10(dec_rep(m).len() as nat) + m <= 4294967295,
    ensures
        sp_digits(s, i, acc) == sp_digits(s, j, acc * pow10(dec_rep(m).len() as nat) + m),
    decreases m,
{
    let rep = dec_rep(m);
    let l = rep.len() as nat;
    lemma_pow10_pos(l);
    if m < 10 {
        assert(rep.len() == 1);
        assert(j == i + 1);
        assert(s[i] == rep[0]);
        lemma_digit_char_props(m as int);
        assert(pow10(1) == 10 * pow10(0));
        assert(acc * pow10(1) + m == acc * 10 + m) by (nonlinear_arith)
            requires
                pow10(1) == 10,
        ;
        assert(sp_digits(s, i, acc) == sp_digits(s, i + 1, acc * 10 + m));
    } else {
        let rep0 = dec_rep(m / 10);
        let l0 = rep0.len() as nat;
        assert(rep == rep0.push(digit_char((m % 10) as int)));
        assert(rep.len() == rep0.len() + 1);
        lemma_pow10_pos(l0);
        assert(s.subrange(i, j - 1) =~= rep0) by {
            assert forall|q: int| 0 <= q < rep0.len() implies s.subrange(i, j - 1)[q]
                == rep0[q] by {
                assert(s.subrange(i, j)[q] == rep[q]);
            }
        }
        let acc0 = acc * pow10(l0) + (m / 10);
        assert(pow10(l) == 10 * pow10(l0));
        assert(10 * acc0 + (m % 10) == acc * pow10(l) + m) by (nonlinear_arith)
            requires
                pow10(l) == 10 * pow10(l0),
                acc0 == acc * pow10(l0) + (m / 10),
                m >= 10,
                m == 10 * (m / 10) + (m % 10),
        ;
        assert(acc0 <= acc * pow10(l) + m) by (nonlinear_arith)
            requires
                10 * acc0 + (m % 10) == acc * pow10(l) + m,
                0 <= m % 10,
                acc0 >= 0,
        ;
        lemma_sp_digits_fold(s, i, j - 1, m / 10, acc);
        let d = (m % 10) as int;
        assert(s[j - 1] == rep[rep.len() - 1]) by {
            assert(s.subrange(i, j)[rep.len() - 1] == rep[rep.len() - 1]);
        }
        assert(s[j - 1] == digit_char(d));
        lemma_digit_char_props(d);
        assert(sp_digits(s, j - 1, acc0) == sp_digits(s, j, acc0 * 10 + d));
        assert(acc0 * 10 + d == acc * pow10(l) + m) by (nonlinear_arith)
            requires
                10 * acc0 + (m % 10) == acc * pow10(l) + m,
                d == m % 10,
        ;
    }
}

/// A decimal representation embedded before a non-digit reads back as its
/// value.
proof fn lemma_sp_parse_int_of(s: Seq<char>, i: int, j: int, v: int)
    requires
        0 <= i <= j < s.len(),
        s.subrange(i, j) == int_rep(v),
        -2147483648 <= v <= 2147483647,
        !is_digit(s[j]),
    ensures
        sp_parse_int(s, i) == Option::Some((v, j)),
{
    if v < 0 {
        let m = (-v) as nat;
        lemma_dec_rep_first(m);
        let rep = seq!['-'] + dec_rep(m);
        assert(int_rep(v) == rep);
        assert(rep.len() == 1 + dec_rep(m).len());
        assert(s.subrange(i, j).len() == j - i);
        assert(j - i == rep.len());
        assert(s[i] == rep[0]) by {
            assert(s.subrange(i, j)[0] == rep[0]);
        }
        assert(s[i] == '-');
        assert(s.subrange(i + 1, j) =~= dec_rep(m)) by {
            assert forall|q: int| 0 <= q < dec_rep(m).len() implies s.subrange(i + 1, j)[q]
                == dec_rep(m)[q] by {
                assert(s.subrange(i, j)[q + 1] == rep[q + 1]);
                assert(rep[q + 1] == dec_rep(m)[q]);
            }
        }
        assert(s[i + 1] == dec_rep(m)[0]) by {
            assert(s.subrange(i + 1, j)[0] == dec_rep(m)[0]);
        }
        lemma_pow10_pos(dec_rep(m).len() as nat);
        lemma_sp_digits_fold(s, i + 1, j, m, 0);
        assert(0 * pow10(dec_rep(m).len() as nat) + m == m) by (nonlinear_arith);
        assert(sp_digits(s, j, m as int) == Option::Some((m as int, j)));
    } else {
        let m = v as nat;
        lemma_dec_rep_first(m);
        assert(s[i] == dec_rep(m)[0]) by {
            assert(s.subrange(i, j)[0] == dec_rep(m)[0]);
        }
        lemma_pow10_pos(dec_rep(m).len() as nat);
        lemma_sp_digits_fold(s, i, j, m, 0);
        assert(0 * pow10(dec_rep(m).len() as nat) + m == m) by (nonlinear_arith);
        assert(sp_digits(s, j, m as int) == Option::Some((m as int, j)));
    }
}


/// The escaped body can also be unrolled from the front.
proof fn lemma_escape_front(t: Seq<char>)
    requires
        t.len() > 0,
    ensures
        escape_str(t) == esc_char(t[0]) + escape_str(t.drop_first()),
    decreases t.len(),
{
    if t.len() == 1 {
        assert(t.drop_last() =~= Seq::<char>::empty());
        assert(t.drop_first() =~= Seq::<char>::empty());
        assert(escape_str(t) =~= esc_char(t[0]) + escape_str(t.drop_first()));
    } else {
        lemma_escape_front(t.drop_last());
        assert(t.drop_last()[0] == t[0]);
        assert(t.drop_last().drop_first() =~= t.drop_first().drop_last());
        assert(t.drop_first().last() == t.last());
        assert(escape_str(t.drop_first()) == escape_str(t.drop_first().drop_last()) + esc_char(
            t.last(),
        ));
        assert(escape_str(t) =~= esc_char(t[0]) + escape_str(t.drop_first()));
    }
}

/// An embedded escaped body followed by a closing quote reads back as the
/// original characters.
proof fn lemma_sp_string_body_of(s: Seq<char>, i: int, j: int, t: Seq<char>)
    requires
        0 <= i <= j <= s.len(),
        s.subrange(i, j) == escape_str(t) + seq!['"'],
    ensures
        sp_string_body(s, i) == Option::Some((t, j)),
    decreases t.len(),
{
    let reg = escape_str(t) + seq!['"'];
    assert(s.subrange(i, j).len() == j - i);
    if t.len() == 0 {
        assert(escape_str(t) =~= Seq::<char>::empty());
        assert(reg.len() == 1);
        assert(s[i] == reg[0]) by {
            assert(s.subrange(i, j)[0] == reg[0]);
        }
        assert(s[i] == '"');
        assert(sp_string_body(s, i) == Option::Some((Seq::<char>::empty(), i + 1)));
        assert(t =~= Seq::<char>::empty());
    } else {
        let c = t[0];
        let rest = t.drop_first();
        lemma_escape_front(t);
        assert(reg =~= esc_char(c) + (escape_str(rest) + seq!['"']));
        let sub = escape_str(rest) + seq!['"'];
        let e = esc_char(c).len();
        assert(forall|q: int| 0 <= q < reg.len() ==> s[i + q] == reg[q]) by {
            assert(forall|q: int| 0 <= q < reg.len() ==> s.subrange(i, j)[q] == reg[q]);
        }
        assert(s.subrange(i + e, j) =~= sub) by {
            assert forall|q: int| 0 <= q < sub.len() implies s.subrange(i + e, j)[q] == sub[q] by {
                assert(s[i + (e + q)] == reg[e + q]);
                assert(reg[e + q] == sub[q]);
            }
        }
        lemma_sp_string_body_of(s, i + e, j, rest);
        if c == '"' || c == '\\' {
            assert(e == 2);
            assert(s[i] == reg[0]);
            assert(s[i] == '\\');
            assert(s[i + 1] == reg[1]);
            assert(s[i + 1] == c);
            assert(i + 1 < s.len());
            assert(sp_string_body(s, i) == Option::Some((seq![c] + rest, j)));
            assert(seq![c] + rest =~= t);
        } else {
            assert(e == 1);
            assert(s[i] == reg[0]);
            assert(s[i] == c);
            assert(sp_string_body(s, i) == Option::Some((seq![c] + rest, j)));
            assert(seq![c] + rest =~= t);
        }
    }
}

/// An embedded emitted JSON string reads back as the original characters.
proof fn lemma_sp_parse_string_of(s: Seq<char>, i: int, j: int, t: Seq<char>)
    requires
        0 <= i <= j <= s.len(),
        s.subrange(i, j) == json_string(t),
    ensures
        sp_parse_string(s, i) == Option::Some((t, j)),
{
    let reg = json_string(t);
    assert(s.subrange(i, j).len() == j - i);
    assert(reg =~= seq!['"'] + (escape_str(t) + seq!['"']));
    assert(s[i] == reg[0]) by {
        assert(s.subrange(i, j)[0] == reg[0]);
    }
    assert(s[i] == '"');
    let sub = escape_str(t) + seq!['"'];
    assert(s.subrange(i + 1, j) =~= sub) by {
        assert forall|q: int| 0 <= q < sub.len() implies s.subrange(i + 1, j)[q] == sub[q] by {
            assert(s.subrange(i, j)[q + 1] == reg[q + 1]);
            assert(reg[q + 1] == sub[q]);
        }
    }
    lemma_sp_string_body_of(s, i + 1, j, t);
}

/// A structural character standing at a non-whitespace position is taken.
proof fn lemma_sp_token_of(s: Seq<char>, i: int, c: char)
    requires
        0 <= i < s.len(),
        s[i] == c,
        !is_ws(c),
    ensures
        sp_token(s, i, c) == Option::Some(i + 1),
{
    assert(sp_ws(s, i) == i);
}

/// A member name standing verbatim at `i`, followed directly by a colon and
/// a non-whitespace value, is read up to the value.
proof fn lemma_sp_member_of(s: Seq<char>, i: int, key: Seq<char>)
    requires
        0 <= i,
        key.len() >= 1,
        i + key.len() + 1 < s.len(),
        s.subrange(i, i + key.len()) == key,
        key[0] == '"',
        s[i + key.len()] == ':',
        !is_ws(s[i + key.len() + 1]),
    ensures
        sp_member(s, i, key) == Option::Some(i + key.len() + 1),
{
    assert(s[i] == key[0]) by {
        assert(s.subrange(i, i + key.len())[0] == key[0]);
    }
    assert(!is_ws(s[i]));
    assert(sp_ws(s, i) == i);
    assert(sp_lit(s, i, key) == Option::Some(i + key.len()));
    let i2 = i + key.len();
    assert(!is_ws(s[i2]));
    assert(sp_ws(s, i2) == i2);
    assert(sp_ws(s, i2 + 1) == i2 + 1);
}


/// An embedded boolean literal reads back as its value.
proof fn lemma_sp_parse_bool_of(s: Seq<char>, i: int, j: int, b: bool)
    requires
        0 <= i <= j <= s.len(),
        s.subrange(i, j) == bool_rep(b),
    ensures
        sp_parse_bool(s, i) == Option::Some((b, j)),
{
    assert(s.subrange(i, j).len() == j - i);
    if b {
        assert(sp_lit(s, i, bool_rep(true)) == Option::Some(i + 4));
    } else {
        assert(s[i] == 'f') by {
            assert(s.subrange(i, j)[0] == bool_rep(false)[0]);
        }
        if i + 4 <= s.len() && s.subrange(i, i + 4) == bool_rep(true) {
            assert(s[i] == 't') by {
                assert(s.subrange(i, i + 4)[0] == bool_rep(true)[0]);
            }
        }
        assert(sp_lit(s, i, bool_rep(true)) is None);
        assert(sp_lit(s, i, bool_rep(false)) == Option::Some(i + 5));
    }
}

/// Splits one subrange fact about a concatenation into one fact per part.
proof fn lemma_split_concat(s: Seq<char>, off: int, x: Seq<char>, y: Seq<char>)
    requires
        0 <= off,
        off + x.len() + y.len() <= s.len(),
        s.subrange(off, off + x.len() + y.len()) == x + y,
    ensures
        s.subrange(off, off + x.len()) == x,
        s.subrange(off + x.len(), off + x.len() + y.len()) == y,
{
    let whole = s.subrange(off, off + x.len() + y.len());
    assert(s.subrange(off, off + x.len()) =~= x) by {
        assert forall|q: int| 0 <= q < x.len() implies s.subrange(off, off + x.len())[q]
            == x[q] by {
            assert(whole[q] == (x + y)[q]);
        }
    }
    assert(s.subrange(off + x.len(), off + x.len() + y.len()) =~= y) by {
        assert forall|q: int|
            0 <= q < y.len() implies s.subrange(off + x.len(), off + x.len() + y.len())[q]
            == y[q] by {
            assert(whole[x.len() + q] == (x + y)[x.len() + q]);
        }
    }
}

/// An embedded emitted entity document reads back as exactly that entity.
#[verifier::rlimit(100)]
pub proof fn lemma_sp_parse_todo_of(s: Seq<char>, i: int, j: int, t: crate::todo::TodoView)
    requires
        0 <= i <= j <= s.len(),
        s.subrange(i, j) == todo_json(t),
        -2147483648 <= t.id <= 2147483647,
    ensures
        sp_parse_todo(s, i) == Option::Some((t, j)),
{
    let ki = key_id();
    let kt = key_title();
    let kc = key_completed();
    let ir = int_rep(t.id);
    let js = json_string(t.title);
    let br = bool_rep(t.is_completed);
    let li = ir.len() as int;
    let ls = js.len() as int;
    let lb = br.len() as int;
    let a = i + 6 + li;
    let b = a + 9 + ls;
    let c = b + 15 + lb;

    let p01 = seq!['{'] + ki;
    let p02 = p01 + seq![':'];
    let p03 = p02 + ir;
    let p04 = p03 + seq![','];
    let p05 = p04 + kt;
    let p06 = p05 + seq![':'];
    let p07 = p06 + js;
    let p08 = p07 + seq![','];
    let p09 = p08 + kc;
    let p10 = p09 + seq![':'];
    let p11 = p10 + br;
    assert(todo_json(t) == p11 + seq!['}']);
    assert(s.subrange(i, j).len() == j - i);
    assert(j == c + 1);

    lemma_split_concat(s, i, p11, seq!['}']);
    lemma_split_concat(s, i, p10, br);
    lemma_split_concat(s, i, p09, seq![':']);
    lemma_split_concat(s, i, p08, kc);
    lemma_split_concat(s, i, p07, seq![',']);
    lemma_split_concat(s, i, p06, js);
    lemma_split_concat(s, i, p05, seq![':']);
    lemma_split_concat(s, i, p04, kt);
    lemma_split_concat(s, i, p03, seq![',']);
    lemma_split_concat(s, i, p02, ir);
    lemma_split_concat(s, i, p01, seq![':']);
    lemma_split_concat(s, i, seq!['{'], ki);

    // The opening brace.
    assert(s[i] == '{') by {
        assert(s.subrange(i, i + 1)[0] == seq!['{'][0]);
    }
    lemma_sp_token_of(s, i, '{');

    // The id member and its value.
    assert(s[i + 5] == ':') by {
        assert(s.subrange(i + 5, i + 6)[0] == seq![':'][0]);
    }
    lemma_dec_rep_first((if t.id < 0 { -t.id } else { t.id }) as nat);
    assert(s[i + 6] == ir[0]) by {
        assert(s.subrange(i + 6, i + 6 + li)[0] == ir[0]);
    }
    assert(!is_ws(s[i + 6]));
    lemma_sp_member_of(s, i + 1, ki);
    assert(s[a] == ',') by {
        assert(s.subrange(a, a + 1)[0] == seq![','][0]);
    }
    assert(!is_digit(s[a]));
    lemma_sp_parse_int_of(s, i + 6, a, t.id);
    lemma_sp_token_of(s, a, ',');

    // The title member and its value.
    assert(s.subrange(a + 1, a + 8) == kt);
    assert(s[a + 8] == ':') by {
        assert(s.subrange(a + 8, a + 9)[0] == seq![':'][0]);
    }
    assert(js[0] == '"');
    assert(s[a + 9] == js[0]) by {
        assert(s.subrange(a + 9, b)[0] == js[0]);
    }
    assert(!is_ws(s[a + 9]));
    lemma_sp_member_of(s, a + 1, kt);
    lemma_sp_parse_string_of(s, a + 9, b, t.title);
    assert(s[b] == ',') by {
        assert(s.subrange(b, b + 1)[0] == seq![','][0]);
    }
    lemma_sp_token_of(s, b, ',');

    // The completion member and its value.
    assert(s.subrange(b + 1, b + 14) == kc);
    assert(s[b + 14] == ':') by {
        assert(s.subrange(b + 14, b + 15)[0] == seq![':'][0]);
    }
    assert(br[0] == 't' || br[0] == 'f');
    assert(s[b + 15] == br[0]) by {
        assert(s.subrange(b + 15, c)[0] == br[0]);
    }
    assert(!is_ws(s[b + 15]));
    lemma_sp_member_of(s, b + 1, kc);
    lemma_sp_parse_bool_of(s, b + 15, c, t.is_completed);

    // The closing brace.
    assert(s[c] == '}') by {
        assert(s.subrange(c, c + 1)[0] == seq!['}'][0]);
    }
    lemma_sp_token_of(s, c, '}');
    assert(sp_parse_todo(s, i) matches Option::Some(p) && p.0 =~= t && p.1 == j);
}

/// The round trip for one entity: the document this library emits for a
/// todo reads back, through the specification-level parser, as exactly that
/// todo. Together with the contracts of `Todo::to_json` and
/// `todo_from_json`, a decoded emitted document is the value it came from.
pub proof fn lemma_todo_json_round_trip(t: crate::todo::TodoView)
    requires
        -2147483648 <= t.id <= 2147483647,
    ensures
        sp_todo_doc(todo_json(t)) == Option::Some(t),
{
    let s = todo_json(t);
    assert(s.subrange(0, s.len() as int) =~= s);
    lemma_sp_parse_todo_of(s, 0, s.len() as int, t);
    assert(sp_ws(s, s.len() as int) == s.len());
}


/// The continuation of an emitted array after one element: either the
/// closing bracket, or a comma, the next element, and the rest.
pub open spec fn todos_sep(ts: Seq<crate::todo::TodoView>) -> Seq<char>
    decreases ts.len(),
{
    if ts.len() == 0 {
        seq![']']
    } else {
        seq![','] + todo_json(ts[0]) + todos_sep(ts.drop_first())
    }
}

/// The exact document emitted for a list of entities: the elements between
/// brackets, separated by commas.
pub open spec fn todo_list_json(ts: Seq<crate::todo::TodoView>) -> Seq<char> {
    if ts.len() == 0 {
        seq!['[', ']']
    } else {
        seq!['['] + todo_json(ts[0]) + todos_sep(ts.drop_first())
    }
}

/// Every id of the list lies within the 32-bit signed range.
pub open spec fn ids_in_range(ts: Seq<crate::todo::TodoView>) -> bool {
    forall|q: int| 0 <= q < ts.len() ==> -2147483648 <= #[trigger] ts[q].id <= 2147483647
}

/// An embedded array continuation reads back as exactly its elements.
#[verifier::rlimit(100)]
proof fn lemma_sp_todo_tail_of(s: Seq<char>, i: int, j: int, ts: Seq<crate::todo::TodoView>)
    requires
        0 <= i <= j <= s.len(),
        s.subrange(i, j) == todos_sep(ts),
        ids_in_range(ts),
    ensures
        sp_todo_tail(s, i) == Option::Some((ts, j)),
    decreases ts.len(),
{
    assert(s.subrange(i, j).len() == j - i);
    if ts.len() == 0 {
        assert(s[i] == ']') by {
            assert(s.subrange(i, j)[0] == seq![']'][0]);
        }
        lemma_sp_token_of(s, i, ']');
        assert(ts =~= Seq::<crate::todo::TodoView>::empty());
    } else {
        let t0 = ts[0];
        let rest = ts.drop_first();
        let tj = todo_json(t0);
        let sep = todos_sep(rest);
        let reg = seq![','] + tj + sep;
        assert(s.subrange(i, j) == reg);
        lemma_split_concat(s, i, seq![','] + tj, sep);
        lemma_split_concat(s, i, seq![','], tj);
        assert(s[i] == ',') by {
            assert(s.subrange(i, i + 1)[0] == seq![','][0]);
        }
        // No closing bracket here: the comma is not one.
        assert(sp_ws(s, i) == i);
        assert(sp_token(s, i, ']') is None);
        lemma_sp_token_of(s, i, ',');
        let m = i + 1 + tj.len() as int;
        lemma_sp_parse_todo_of(s, i + 1, m, t0);
        lemma_sp_todo_tail_of(s, m, j, rest);
        assert(seq![t0] + rest =~= ts);
    }
}

/// The round trip for a list: the document emitted for a sequence of todos
/// reads back, through the specification-level parser, as exactly that
/// sequence.
#[verifier::rlimit(100)]
pub proof fn lemma_todo_list_json_round_trip(ts: Seq<crate::todo::TodoView>)
    requires
        ids_in_range(ts),
    ensures
        sp_todos_doc(todo_list_json(ts)) == Option::Some(ts),
{
    let s = todo_list_json(ts);
    assert(s.subrange(0, s.len() as int) =~= s);
    if ts.len() == 0 {
        assert(s[0] == '[');
        assert(s[1] == ']');
        assert(sp_ws(s, 0) == 0);
        lemma_sp_token_of(s, 0, '[');
        lemma_sp_token_of(s, 1, ']');
        assert(sp_ws(s, 2) == s.len());
        assert(ts =~= Seq::<crate::todo::TodoView>::empty());
    } else {
        let t0 = ts[0];
        let rest = ts.drop_first();
        let tj = todo_json(t0);
        let sep = todos_sep(rest);
        assert(s == seq!['['] + tj + sep);
        lemma_split_concat(s, 0, seq!['['] + tj, sep);
        lemma_split_concat(s, 0, seq!['['], tj);
        assert(s[0] == '[') by {
            assert(s.subrange(0, 1)[0] == seq!['['][0]);
        }
        lemma_sp_token_of(s, 0, '[');
        let m = 1 + tj.len() as int;
        lemma_sp_parse_todo_of(s, 1, m, t0);
        // The element begins with a brace, so the array is not empty.
        assert(s[1] == '{') by {
            assert(tj == (seq!['{'] + key_id() + seq![':'] + int_rep(t0.id) + seq![',']
                + key_title() + seq![':'] + json_string(t0.title) + seq![','] + key_completed()
                + seq![':'] + bool_rep(t0.is_completed) + seq!['}']));
            assert(s.subrange(1, m)[0] == tj[0]);
        }
        assert(sp_ws(s, 1) == 1);
        assert(sp_token(s, 1, ']') is None);
        lemma_sp_todo_tail_of(s, m, s.len() as int, rest);
        assert(seq![t0] + rest =~= ts);
        assert(sp_ws(s, s.len() as int) == s.len());
    }
}

} // verus!
